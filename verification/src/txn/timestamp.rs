//! Timestamps: a time in milliseconds above a counter of 18 bits.

use crate::common::clock::current_millis;
use vstd::prelude::*;

verus! {

pub struct TimestampOracle {
    logical: u64,
    last_physical: u64,
}

/// The state of the oracle.
pub struct OracleView {
    pub logical: u64,
    pub last_physical: u64,
}

impl View for TimestampOracle {
    type V = OracleView;

    closed spec fn view(&self) -> OracleView {
        OracleView { logical: self.logical, last_physical: self.last_physical }
    }
}

/// The timestamp of a time and a counter. Of the counter the low 18 bits count.
pub open spec fn stamp(physical: u64, logical: u64) -> u64 {
    (physical << 18) | (logical & 0x3FFFF)
}

impl OracleView {
    /// The oracle and the timestamp that it gives at a time: a time that is later than all
    /// before stands for itself, and else the counter goes on at the latest time.
    pub open spec fn ticked(self, physical: u64) -> (OracleView, u64) {
        if physical > self.last_physical {
            (OracleView { logical: 0, last_physical: physical }, physical << 18)
        } else {
            (
                OracleView { logical: u64::wrapping_add(self.logical, 1), ..self },
                stamp(self.last_physical, self.logical),
            )
        }
    }
}

impl TimestampOracle {
    pub fn new() -> (oracle: Self)
        ensures
            oracle@ == (OracleView { logical: 0, last_physical: 0 }),
    {
        TimestampOracle { logical: 0, last_physical: 0 }
    }

    /// The timestamp at the present time, whatever that is.
    pub fn get_timestamp(&mut self) -> (ts: u64)
        ensures
            exists|physical: u64|
                #![trigger old(self)@.ticked(physical)]
                (final(self)@, ts) == old(self)@.ticked(physical),
    {
        let physical: u64 = current_millis();
        self.timestamp_at(physical)
    }

    /// The timestamp at a time, which is given in milliseconds.
    pub fn timestamp_at(&mut self, physical: u64) -> (ts: u64)
        ensures
            (final(self)@, ts) == old(self)@.ticked(physical),
    {
        let last: u64 = self.last_physical;
        if physical > last {
            self.last_physical = physical;
            self.logical = 0;
            physical << 18
        } else {
            let logical: u64 = self.logical;
            self.logical = logical.wrapping_add(1);
            (last << 18) | (logical & 0x3FFFF)
        }
    }

    /// The time in a timestamp.
    pub fn physical(ts: u64) -> (time: u64)
        ensures
            time == ts >> 18,
    {
        ts >> 18
    }

    /// The counter in a timestamp.
    pub fn logical(ts: u64) -> (counter: u64)
        ensures
            counter == ts & 0x3FFFF,
    {
        ts & 0x3FFFF
    }
}

impl Default for TimestampOracle {
    fn default() -> (oracle: Self)
        ensures
            oracle@ == (OracleView { logical: 0, last_physical: 0 }),
    {
        Self::new()
    }
}

/// A timestamp holds the time, as long as it has 46 bits, and the low bits of the counter.
pub proof fn lemma_stamp_parts(physical: u64, logical: u64)
    requires
        physical < 0x4000_0000_0000,
    ensures
        stamp(physical, logical) >> 18 == physical,
        stamp(physical, logical) & 0x3FFFF == logical & 0x3FFFF,
{
    assert(((physical << 18) | (logical & 0x3FFFF)) >> 18 == physical
        && ((physical << 18) | (logical & 0x3FFFF)) & 0x3FFFF == logical & 0x3FFFF)
        by (bit_vector)
        requires
            physical < 0x4000_0000_0000,
    ;
}

/// No timestamp is before the one that was given before it, and a later time gives a later
/// timestamp. This holds as long as the times have 46 bits and the counter has not run
/// over, which takes more than 262144 timestamps in one millisecond.
pub proof fn lemma_timestamps_rise(oracle: OracleView, first: u64, second: u64)
    requires
        oracle.last_physical < 0x4000_0000_0000,
        first < 0x4000_0000_0000,
        second < 0x4000_0000_0000,
        oracle.logical < 0x3FFFF,
    ensures
        ({
            let (middle, a) = oracle.ticked(first);
            let (_, b) = middle.ticked(second);
            &&& a <= b
            &&& second > first && second > oracle.last_physical ==> a < b
            &&& first <= oracle.last_physical && second <= oracle.last_physical ==> a < b
        }),
{
    let last = oracle.last_physical;
    let logical = oracle.logical;
    let next = u64::wrapping_add(logical, 1);
    assert(next == logical + 1);
    assert((0u64 & 0x3FFFF) == 0 && (first << 18) | 0 == first << 18) by (bit_vector);
    assert(second > first ==> (first << 18) < (second << 18)) by (bit_vector)
        requires
            first < 0x4000_0000_0000,
            second < 0x4000_0000_0000,
    ;
    assert(second > last ==> ((last << 18) | (logical & 0x3FFFF)) < (second << 18)) by (bit_vector)
        requires
            last < 0x4000_0000_0000,
            second < 0x4000_0000_0000,
    ;
    assert(((last << 18) | (logical & 0x3FFFF)) < ((last << 18) | (next & 0x3FFFF)))
        by (bit_vector)
        requires
            last < 0x4000_0000_0000,
            logical < 0x3FFFF,
            next == logical + 1,
    ;
}

} // verus!
