//! The time of day.

use std::time::{Duration, SystemTime, UNIX_EPOCH};
use vstd::prelude::*;

verus! {

#[verifier::external_type_specification]
#[verifier::external_body]
pub struct ExSystemTime(std::time::SystemTime);

/// Calls `std::time::SystemTime::now`, of which nothing is claimed: the result is the time.
#[verifier::external_body]
fn system_time() -> (now: SystemTime) {
    SystemTime::now()
}

/// Calls `std::time::SystemTime::duration_since` with the start of the epoch, of which
/// nothing is claimed: there is no result if the time is before it.
#[verifier::external_body]
fn since_epoch(time: &SystemTime) -> (elapsed: Option<Duration>) {
    time.duration_since(UNIX_EPOCH).ok()
}

/// Calls `std::time::Duration::as_millis`, of which nothing is claimed.
#[verifier::external_body]
fn whole_millis(duration: &Duration) -> (millis: u128) {
    duration.as_millis()
}

/// The milliseconds since the start of the epoch, none if it has not begun yet. Which
/// number that is depends on the time.
pub fn current_millis() -> (millis: u64) {
    let elapsed: Option<u128> = match since_epoch(&system_time()) {
        Some(elapsed) => Some(whole_millis(&elapsed)),
        None => None,
    };
    clock_reading(elapsed)
}

/// The milliseconds that a time is taken for: the low 64 bits of those that have passed
/// since the start of the epoch, none if it has not begun yet.
pub open spec fn reading(elapsed: Option<u128>) -> int {
    match elapsed {
        Some(millis) => (millis % 0x1_0000_0000_0000_0000u128) as int,
        None => 0,
    }
}

pub fn clock_reading(elapsed: Option<u128>) -> (millis: u64)
    ensures
        millis == reading(elapsed),
{
    match elapsed {
        Some(millis) => {
            assert(millis as u64 == millis % 0x1_0000_0000_0000_0000u128) by (bit_vector);
            #[verifier::truncate] (millis as u64)
        },
        None => 0,
    }
}

} // verus!
