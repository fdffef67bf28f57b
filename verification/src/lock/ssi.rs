//! Serialisable snapshot isolation: what the transactions read and wrote, and the check
//! at commit.

use crate::common::bound;
use crate::common::bound::{Bound, BoundView};
use crate::common::listing::{copy_set, keys_of, members};
use crate::common::text;
use dashmap::DashMap;
use std::collections::{HashMap, HashSet};
use vstd::prelude::*;

verus! {

broadcast use vstd::std_specs::hash::group_hash_axioms;

/// The hash of a key.
pub uninterp spec fn key_hash(key: Seq<u8>) -> u64;

/// Calls `rapidhash::rapidhash`: the hash of the bytes under the default seed, which
/// depends on nothing else.
#[verifier::external_body]
fn hash_key(key: &[u8]) -> (hash: u64)
    ensures
        hash == key_hash(key@),
{
    rapidhash::rapidhash(key)
}

/// What a transaction read and wrote, keys by their hashes.
pub struct ReadWriteSet {
    read_keys: HashSet<u64>,
    write_keys: HashSet<u64>,
    read_ranges: Vec<(Bound, Bound)>,
}

/// The same as a mathematical value.
#[verifier::ext_equal]
pub struct AccessView {
    pub reads: Set<u64>,
    pub writes: Set<u64>,
    pub ranges: Seq<(BoundView, BoundView)>,
}

impl View for ReadWriteSet {
    type V = AccessView;

    closed spec fn view(&self) -> AccessView {
        AccessView {
            reads: self.read_keys@,
            writes: self.write_keys@,
            ranges: self.read_ranges@.map_values(|r: (Bound, Bound)| (r.0@, r.1@)),
        }
    }
}

pub open spec fn no_accesses() -> AccessView {
    AccessView { reads: Set::empty(), writes: Set::empty(), ranges: Seq::empty() }
}

impl AccessView {
    pub open spec fn with_read(self, key: Seq<u8>) -> AccessView {
        AccessView { reads: self.reads.insert(key_hash(key)), ..self }
    }

    pub open spec fn with_write(self, key: Seq<u8>) -> AccessView {
        AccessView { writes: self.writes.insert(key_hash(key)), ..self }
    }

    pub open spec fn with_range(self, start: BoundView, end: BoundView) -> AccessView {
        AccessView { ranges: self.ranges.push((start, end)), ..self }
    }

    /// Something that was read is among the writes.
    pub open spec fn reads_from(self, writes: Set<u64>) -> bool {
        exists|h: u64| #[trigger] self.reads.contains(h) && writes.contains(h)
    }

    /// A range was read, and something was written. The hash of a key does not say where
    /// the key lies, so it may lie in the range.
    pub open spec fn ranges_over(self, writes: Set<u64>) -> bool {
        self.ranges.len() > 0 && exists|h: u64| #[trigger] writes.contains(h)
    }
}

impl ReadWriteSet {
    pub fn new() -> (set: Self)
        ensures
            set@ == no_accesses(),
    {
        let set = ReadWriteSet {
            read_keys: HashSet::new(),
            write_keys: HashSet::new(),
            read_ranges: Vec::new(),
        };
        assert(set@ =~= no_accesses());
        set
    }

    pub fn record_read(&mut self, key: &[u8])
        ensures
            final(self)@ == old(self)@.with_read(key@),
    {
        self.read_keys.insert(hash_key(key));
    }

    pub fn record_write(&mut self, key: &[u8])
        ensures
            final(self)@ == old(self)@.with_write(key@),
    {
        self.write_keys.insert(hash_key(key));
    }

    pub fn record_range_read(&mut self, start: Bound, end: Bound)
        ensures
            final(self)@ == old(self)@.with_range(start@, end@),
    {
        let ghost before = self@;
        self.read_ranges.push((start, end));
        assert(self@ =~= before.with_range(start@, end@));
    }

    /// The hashes of the keys that were read.
    pub fn read_set(&self) -> (set: &HashSet<u64>)
        ensures
            set@ == self@.reads,
    {
        &self.read_keys
    }

    /// The hashes of the keys that were written.
    pub fn write_set(&self) -> (set: &HashSet<u64>)
        ensures
            set@ == self@.writes,
    {
        &self.write_keys
    }

    /// Whether something that was read is among the writes.
    pub fn has_read_write_overlap(&self, other_writes: &HashSet<u64>) -> (overlap: bool)
        ensures
            overlap == self@.reads_from(other_writes@),
    {
        let reads = members(&self.read_keys);
        let mut i: usize = 0;
        while i < reads.len()
            invariant
                i <= reads@.len(),
                forall|v: u64| reads@.contains(v) <==> self@.reads.contains(v),
                forall|k: int| 0 <= k < i ==> !other_writes@.contains(#[trigger] reads@[k]),
            decreases reads@.len() - i,
        {
            if other_writes.contains(&reads[i]) {
                assert(reads@.contains(reads@[i as int]));
                return true;
            }
            i += 1;
        }
        proof {
            assert forall|h: u64| #[trigger] self@.reads.contains(
                h,
            ) implies !other_writes@.contains(h) by {
                assert(reads@.contains(h));
                let k = choose|k: int| 0 <= k < reads@.len() && reads@[k] == h;
                assert(!other_writes@.contains(reads@[k]));
            }
        }
        false
    }

    /// Whether the key lies in a range that was read.
    pub fn has_range_overlap(&self, key: &[u8]) -> (overlap: bool)
        ensures
            overlap == exists|i: int|
                0 <= i < self@.ranges.len() && bound::in_range(
                    key@,
                    (#[trigger] self@.ranges[i]).0,
                    self@.ranges[i].1,
                ),
    {
        let mut i: usize = 0;
        while i < self.read_ranges.len()
            invariant
                i <= self.read_ranges@.len(),
                forall|k: int|
                    0 <= k < i ==> !bound::in_range(
                        key@,
                        (#[trigger] self@.ranges[k]).0,
                        self@.ranges[k].1,
                    ),
            decreases self.read_ranges@.len() - i,
        {
            let range = &self.read_ranges[i];
            assert(self@.ranges[i as int] == (range.0@, range.1@));
            if bound::key_in_range(key, &range.0, &range.1) {
                return true;
            }
            i += 1;
        }
        false
    }

    /// A copy of the set.
    pub fn copy(&self) -> (set: ReadWriteSet)
        ensures
            set@ == self@,
    {
        let mut ranges: Vec<(Bound, Bound)> = Vec::new();
        let mut i: usize = 0;
        while i < self.read_ranges.len()
            invariant
                i <= self.read_ranges@.len(),
                ranges@.len() == i,
                forall|k: int|
                    0 <= k < i ==> (#[trigger] ranges@[k]).0@ == self.read_ranges@[k].0@
                        && ranges@[k].1@ == self.read_ranges@[k].1@,
            decreases self.read_ranges@.len() - i,
        {
            let range = &self.read_ranges[i];
            ranges.push((range.0.copy(), range.1.copy()));
            i += 1;
        }
        let set = ReadWriteSet {
            read_keys: copy_set(&self.read_keys),
            write_keys: copy_set(&self.write_keys),
            read_ranges: ranges,
        };
        assert(set@ =~= self@);
        set
    }
}

impl Default for ReadWriteSet {
    fn default() -> (set: Self)
        ensures
            set@ == no_accesses(),
    {
        Self::new()
    }
}

/// The access sets that a map holds, by their transactions.
pub uninterp spec fn access_sets(map: DashMap<u64, ReadWriteSet>) -> Map<u64, AccessView>;

pub open spec fn no_access_sets() -> Map<u64, AccessView> {
    Map::empty()
}

/// Calls `dashmap::DashMap::new`, which returns an empty map.
#[verifier::external_body]
fn new_access_map() -> (map: DashMap<u64, ReadWriteSet>)
    ensures
        access_sets(map) == no_access_sets(),
{
    DashMap::new()
}

/// Calls `dashmap::DashMap::insert`, which puts the set under the transaction in place of
/// what was there.
#[verifier::external_body]
fn put_accesses(map: &mut DashMap<u64, ReadWriteSet>, txn_id: u64, set: ReadWriteSet)
    ensures
        access_sets(*final(map)) == access_sets(*old(map)).insert(txn_id, set@),
{
    map.insert(txn_id, set);
}

/// Calls `dashmap::DashMap::remove`, which takes the set of the transaction out of the
/// map, if there is one.
#[verifier::external_body]
fn take_accesses(map: &mut DashMap<u64, ReadWriteSet>, txn_id: u64) -> (set: Option<ReadWriteSet>)
    ensures
        access_sets(*final(map)) == access_sets(*old(map)).remove(txn_id),
        match set {
            Some(s) => access_sets(*old(map)).contains_key(txn_id) && s@ == access_sets(
                *old(map),
            )[txn_id],
            None => !access_sets(*old(map)).contains_key(txn_id),
        },
{
    map.remove(&txn_id).map(|(_, set)| set)
}

/// Calls `dashmap::DashMap::get` and copies the set of the transaction, if there is one.
#[verifier::external_body]
fn accesses_of(map: &DashMap<u64, ReadWriteSet>, txn_id: u64) -> (set: Option<ReadWriteSet>)
    ensures
        match set {
            Some(s) => access_sets(*map).contains_key(txn_id) && s@ == access_sets(*map)[txn_id],
            None => !access_sets(*map).contains_key(txn_id),
        },
{
    map.get(&txn_id).map(|set| set.copy())
}

/// Why a transaction cannot be committed.
#[derive(Debug, Clone, PartialEq, Eq)]
pub enum SSIConflict {
    WriteSkew { conflicting_ts: u64 },
    Phantom { conflicting_ts: u64 },
    TxnNotFound,
}

impl SSIConflict {
    /// The text that describes the conflict.
    pub open spec fn text(self) -> Seq<char> {
        match self {
            SSIConflict::WriteSkew { conflicting_ts } => "write skew conflict with txn at ts "@
                + text::digit_chars(conflicting_ts as nat),
            SSIConflict::Phantom { conflicting_ts } => "phantom conflict with txn at ts "@
                + text::digit_chars(conflicting_ts as nat),
            SSIConflict::TxnNotFound => "transaction not found"@,
        }
    }

    /// The text that describes the conflict.
    pub fn message(&self) -> (text: String)
        ensures
            text@ == self.text(),
    {
        match self {
            SSIConflict::WriteSkew { conflicting_ts } => {
                "write skew conflict with txn at ts ".to_owned().concat(
                    text::decimal(*conflicting_ts).as_str(),
                )
            },
            SSIConflict::Phantom { conflicting_ts } => {
                "phantom conflict with txn at ts ".to_owned().concat(
                    text::decimal(*conflicting_ts).as_str(),
                )
            },
            SSIConflict::TxnNotFound => "transaction not found".to_owned(),
        }
    }
}

/// The state of the manager.
#[verifier::ext_equal]
pub struct SsiView {
    /// What was written, by the time of the commit.
    pub committed: Map<u64, Set<u64>>,
    pub active: Map<u64, AccessView>,
    pub watermark: u64,
}

impl SsiView {
    /// A transaction was committed between the two times.
    pub open spec fn between(self, ts: u64, read_ts: u64, commit_ts: u64) -> bool {
        self.committed.contains_key(ts) && read_ts < ts < commit_ts
    }

    /// A transaction that was committed between the two times wrote what was read.
    pub open spec fn skewed(self, a: AccessView, ts: u64, read_ts: u64, commit_ts: u64) -> bool {
        self.between(ts, read_ts, commit_ts) && a.reads_from(self.committed[ts])
    }

    /// A transaction that was committed between the two times may have written into a
    /// range that was read.
    pub open spec fn haunted(self, a: AccessView, ts: u64, read_ts: u64, commit_ts: u64) -> bool {
        &&& self.between(ts, read_ts, commit_ts)
        &&& !a.reads_from(self.committed[ts])
        &&& a.ranges_over(self.committed[ts])
    }

    /// A request to commit may come to `after` and `result`. Which conflict is reported
    /// where there are several is left open.
    pub open spec fn validated(
        self,
        txn_id: u64,
        read_ts: u64,
        commit_ts: u64,
        after: SsiView,
        result: Result<(), SSIConflict>,
    ) -> bool {
        let a = self.active[txn_id];
        match result {
            Ok(()) => {
                &&& self.active.contains_key(txn_id)
                &&& forall|ts: u64|
                    #![trigger self.committed.contains_key(ts)]
                    !self.skewed(a, ts, read_ts, commit_ts) && !self.haunted(
                        a,
                        ts,
                        read_ts,
                        commit_ts,
                    )
                &&& after == (SsiView {
                    committed: self.committed.insert(commit_ts, a.writes),
                    active: self.active.remove(txn_id),
                    ..self
                })
            },
            Err(SSIConflict::WriteSkew { conflicting_ts }) => {
                &&& self.active.contains_key(txn_id)
                &&& self.skewed(a, conflicting_ts, read_ts, commit_ts)
                &&& after == self
            },
            Err(SSIConflict::Phantom { conflicting_ts }) => {
                &&& self.active.contains_key(txn_id)
                &&& self.haunted(a, conflicting_ts, read_ts, commit_ts)
                &&& after == self
            },
            Err(SSIConflict::TxnNotFound) => {
                &&& !self.active.contains_key(txn_id)
                &&& after == self
            },
        }
    }

    /// What a transaction accessed, changed in one way; nothing changes for one that is
    /// not active.
    pub open spec fn with_accesses(self, txn_id: u64, accesses: AccessView) -> SsiView {
        if self.active.contains_key(txn_id) {
            SsiView { active: self.active.insert(txn_id, accesses), ..self }
        } else {
            self
        }
    }
}

struct CommittedTxn {
    write_set: HashSet<u64>,
}

pub struct SSIManager {
    committed_txns: HashMap<u64, CommittedTxn>,
    active_txns: DashMap<u64, ReadWriteSet>,
    watermark: u64,
}

impl View for SSIManager {
    type V = SsiView;

    closed spec fn view(&self) -> SsiView {
        SsiView {
            committed: self.committed_txns@.map_values(|c: CommittedTxn| c.write_set@),
            active: access_sets(self.active_txns),
            watermark: self.watermark,
        }
    }
}

/// The manager of a store without transactions.
pub open spec fn no_transactions() -> SsiView {
    SsiView { committed: Map::empty(), active: Map::empty(), watermark: 0 }
}

impl SSIManager {
    pub fn new() -> (manager: Self)
        ensures
            manager@ == no_transactions(),
    {
        let manager = SSIManager {
            committed_txns: HashMap::new(),
            active_txns: new_access_map(),
            watermark: 0,
        };
        assert(manager@ =~= no_transactions());
        manager
    }

    /// Begins to keep account of what a transaction reads and writes.
    pub fn begin_txn(&mut self, txn_id: u64)
        ensures
            final(self)@ == (SsiView {
                active: old(self)@.active.insert(txn_id, no_accesses()),
                ..old(self)@
            }),
    {
        put_accesses(&mut self.active_txns, txn_id, ReadWriteSet::new());
    }

    pub fn record_read(&mut self, txn_id: u64, key: &[u8])
        ensures
            final(self)@ == old(self)@.with_accesses(
                txn_id,
                old(self)@.active[txn_id].with_read(key@),
            ),
    {
        let ghost before = self@;
        if let Some(taken) = take_accesses(&mut self.active_txns, txn_id) {
            let mut set = taken;
            set.record_read(key);
            put_accesses(&mut self.active_txns, txn_id, set);
        }
        assert(self@ =~= before.with_accesses(txn_id, before.active[txn_id].with_read(key@)));
    }

    pub fn record_write(&mut self, txn_id: u64, key: &[u8])
        ensures
            final(self)@ == old(self)@.with_accesses(
                txn_id,
                old(self)@.active[txn_id].with_write(key@),
            ),
    {
        let ghost before = self@;
        if let Some(taken) = take_accesses(&mut self.active_txns, txn_id) {
            let mut set = taken;
            set.record_write(key);
            put_accesses(&mut self.active_txns, txn_id, set);
        }
        assert(self@ =~= before.with_accesses(txn_id, before.active[txn_id].with_write(key@)));
    }

    pub fn record_range_read(&mut self, txn_id: u64, start: Bound, end: Bound)
        ensures
            final(self)@ == old(self)@.with_accesses(
                txn_id,
                old(self)@.active[txn_id].with_range(start@, end@),
            ),
    {
        let ghost before = self@;
        if let Some(taken) = take_accesses(&mut self.active_txns, txn_id) {
            let mut set = taken;
            set.record_range_read(start, end);
            put_accesses(&mut self.active_txns, txn_id, set);
        }
        assert(self@ =~= before.with_accesses(
            txn_id,
            before.active[txn_id].with_range(start@, end@),
        ));
    }

    /// Commits a transaction unless another one that was committed between `read_ts` and
    /// `commit_ts` wrote what it read, or may have written into a range that it read.
    pub fn validate_and_commit(&mut self, txn_id: u64, read_ts: u64, commit_ts: u64) -> (result:
        Result<(), SSIConflict>)
        ensures
            old(self)@.validated(txn_id, read_ts, commit_ts, final(self)@, result),
    {
        let ghost before = self@;
        let set = match take_accesses(&mut self.active_txns, txn_id) {
            Some(set) => set,
            None => {
                assert(self@ =~= before);
                return Err(SSIConflict::TxnNotFound);
            },
        };
        let ghost mid = self@;
        assert(mid.committed == before.committed);
        if let Some(conflict) = self.find_conflict(&set, read_ts, commit_ts) {
            put_accesses(&mut self.active_txns, txn_id, set);
            assert(self@ =~= before);
            return Err(conflict);
        }
        let write_set = copy_set(set.write_set());
        self.committed_txns.insert(commit_ts, CommittedTxn { write_set });
        proof {
            let a = before.active[txn_id];
            assert forall|ts: u64|
                #![trigger before.committed.contains_key(ts)]
                !before.skewed(a, ts, read_ts, commit_ts) && !before.haunted(
                    a,
                    ts,
                    read_ts,
                    commit_ts,
                ) by {
                assert(mid.committed.contains_key(ts) == before.committed.contains_key(ts));
            }
            assert(self@.committed =~= before.committed.insert(commit_ts, a.writes));
            assert(self@.active == before.active.remove(txn_id));
        }
        Ok(())
    }

    /// A conflict between what was read and what was committed between the two times.
    fn find_conflict(&self, set: &ReadWriteSet, read_ts: u64, commit_ts: u64) -> (conflict: Option<
        SSIConflict,
    >)
        ensures
            match conflict {
                Some(SSIConflict::WriteSkew { conflicting_ts }) => self@.skewed(
                    set@,
                    conflicting_ts,
                    read_ts,
                    commit_ts,
                ),
                Some(SSIConflict::Phantom { conflicting_ts }) => self@.haunted(
                    set@,
                    conflicting_ts,
                    read_ts,
                    commit_ts,
                ),
                Some(SSIConflict::TxnNotFound) => false,
                None => forall|ts: u64|
                    #![trigger self@.committed.contains_key(ts)]
                    !self@.skewed(set@, ts, read_ts, commit_ts) && !self@.haunted(
                        set@,
                        ts,
                        read_ts,
                        commit_ts,
                    ),
            },
    {
        let times = keys_of(&self.committed_txns);
        let mut i: usize = 0;
        while i < times.len()
            invariant
                i <= times@.len(),
                forall|v: u64| times@.contains(v) <==> self.committed_txns@.contains_key(v),
                forall|k: int|
                    0 <= k < i ==> !self@.skewed(set@, #[trigger] times@[k], read_ts, commit_ts)
                        && !self@.haunted(set@, times@[k], read_ts, commit_ts),
            decreases times@.len() - i,
        {
            let ts: u64 = times[i];
            assert(times@.contains(ts));
            if ts > read_ts && ts < commit_ts {
                if let Some(committed) = self.committed_txns.get(&ts) {
                    assert(self@.committed[ts] == committed.write_set@);
                    if set.has_read_write_overlap(&committed.write_set) {
                        return Some(SSIConflict::WriteSkew { conflicting_ts: ts });
                    }
                    if may_hold(&set.read_ranges, &committed.write_set) {
                        return Some(SSIConflict::Phantom { conflicting_ts: ts });
                    }
                }
            }
            i += 1;
        }
        proof {
            assert forall|ts: u64|
                #![trigger self@.committed.contains_key(ts)]
                !self@.skewed(set@, ts, read_ts, commit_ts) && !self@.haunted(
                    set@,
                    ts,
                    read_ts,
                    commit_ts,
                ) by {
                if self@.committed.contains_key(ts) {
                    assert(times@.contains(ts));
                    let k = choose|k: int| 0 <= k < times@.len() && times@[k] == ts;
                    assert(!self@.skewed(set@, times@[k], read_ts, commit_ts));
                }
            }
        }
        None
    }

    /// Forgets a transaction that is given up.
    pub fn abort_txn(&mut self, txn_id: u64)
        ensures
            final(self)@ == (SsiView { active: old(self)@.active.remove(txn_id), ..old(self)@ }),
    {
        take_accesses(&mut self.active_txns, txn_id);
    }

    /// Forgets what was committed before the watermark, which only ever rises.
    pub fn advance_watermark(&mut self, new_watermark: u64)
        ensures
            new_watermark <= old(self)@.watermark ==> final(self)@ == old(self)@,
            new_watermark > old(self)@.watermark ==> final(self)@ == (SsiView {
                committed: old(self)@.committed.restrict(Set::new(|ts: u64| ts >= new_watermark)),
                watermark: new_watermark,
                ..old(self)@
            }),
            forall|ts: u64, read_ts: u64, commit_ts: u64|
                read_ts + 1 >= new_watermark ==> (#[trigger] final(self)@.between(
                    ts,
                    read_ts,
                    commit_ts,
                ) <==> old(self)@.between(ts, read_ts, commit_ts)),
            final(self)@.watermark >= new_watermark,
    {
        if new_watermark > self.watermark {
            let ghost before = self@.committed;
            self.watermark = new_watermark;
            let times = keys_of(&self.committed_txns);
            let mut i: usize = 0;
            while i < times.len()
                invariant
                    i <= times@.len(),
                    forall|v: u64| times@.contains(v) <==> before.contains_key(v),
                    self.watermark == new_watermark,
                    self@.active == old(self)@.active,
                    forall|v: u64| #[trigger]
                        self@.committed.contains_key(v) ==> before.contains_key(v)
                            && self@.committed[v] == before[v],
                    forall|v: u64| #[trigger]
                        before.contains_key(v) && v >= new_watermark
                            ==> self@.committed.contains_key(v),
                    forall|k: int|
                        0 <= k < i && #[trigger] times@[k] < new_watermark
                            ==> !self@.committed.contains_key(times@[k]),
                decreases times@.len() - i,
            {
                let ghost now = self@.committed;
                if times[i] < new_watermark {
                    self.committed_txns.remove(&times[i]);
                    assert(self@.committed =~= now.remove(times@[i as int]));
                }
                i += 1;
            }
            proof {
                let kept = Set::new(|ts: u64| ts >= new_watermark);
                assert forall|v: u64| #[trigger] self@.committed.contains_key(v) implies v
                    >= new_watermark by {
                    assert(times@.contains(v));
                    let k = choose|k: int| 0 <= k < times@.len() && times@[k] == v;
                    assert(times@[k] == v);
                }
                assert(self@.committed =~= before.restrict(kept));
            }
        }
    }

    /// A copy of what a transaction has read and written so far.
    pub fn get_rw_set(&self, txn_id: u64) -> (set: Option<ReadWriteSet>)
        ensures
            match set {
                Some(s) => self@.active.contains_key(txn_id) && s@ == self@.active[txn_id],
                None => !self@.active.contains_key(txn_id),
            },
    {
        accesses_of(&self.active_txns, txn_id)
    }

    /// The number of commits that are remembered.
    pub fn committed_count(&self) -> (count: usize)
        ensures
            count == self@.committed.len(),
    {
        assert(self@.committed.dom() =~= self.committed_txns@.dom());
        self.committed_txns.len()
    }
}

impl Default for SSIManager {
    fn default() -> (manager: Self)
        ensures
            manager@ == no_transactions(),
    {
        Self::new()
    }
}

/// Whether one of the writes may lie in one of the ranges.
fn may_hold(ranges: &Vec<(Bound, Bound)>, writes: &HashSet<u64>) -> (result: bool)
    ensures
        result == (ranges@.len() > 0 && exists|h: u64| #[trigger] writes@.contains(h)),
{
    let hashes = members(writes);
    proof {
        if hashes@.len() > 0 {
            assert(hashes@.contains(hashes@[0]));
        }
    }
    ranges.len() > 0 && hashes.len() > 0
}

/// A transaction is not committed if another one that was committed since it began to read
/// wrote a key that it read.
pub proof fn lemma_write_skew_is_found(
    v: SsiView,
    txn_id: u64,
    ts: u64,
    key: Seq<u8>,
    read_ts: u64,
    commit_ts: u64,
    after: SsiView,
    result: Result<(), SSIConflict>,
)
    requires
        v.committed.contains_key(ts),
        read_ts < ts < commit_ts,
        v.committed[ts].contains(key_hash(key)),
        v.active[txn_id].reads.contains(key_hash(key)),
        v.validated(txn_id, read_ts, commit_ts, after, result),
    ensures
        result is Err,
        after == v,
{
    assert(v.active[txn_id].reads_from(v.committed[ts]));
    assert(v.skewed(v.active[txn_id], ts, read_ts, commit_ts));
}

/// Of two transactions that each wrote what the other read, the one that is committed
/// second is refused.
pub proof fn lemma_second_of_two_is_refused(
    v: SsiView,
    first: u64,
    second: u64,
    key: Seq<u8>,
    read_ts: u64,
    first_ts: u64,
    second_ts: u64,
    middle: SsiView,
    after: SsiView,
    result: Result<(), SSIConflict>,
)
    requires
        first != second,
        v.active[first].writes.contains(key_hash(key)),
        v.active.contains_key(second),
        v.active[second].reads.contains(key_hash(key)),
        read_ts < first_ts < second_ts,
        v.validated(first, read_ts, first_ts, middle, Ok(())),
        middle.validated(second, read_ts, second_ts, after, result),
    ensures
        result is Err,
        after == middle,
{
    lemma_write_skew_is_found(
        middle,
        second,
        first_ts,
        key,
        read_ts,
        second_ts,
        after,
        result,
    );
}

/// A transaction that read nothing is committed whatever the others did.
pub proof fn lemma_blind_writes_commit(
    v: SsiView,
    txn_id: u64,
    read_ts: u64,
    commit_ts: u64,
    after: SsiView,
    result: Result<(), SSIConflict>,
)
    requires
        v.active.contains_key(txn_id),
        v.active[txn_id].reads == Set::<u64>::empty(),
        v.active[txn_id].ranges.len() == 0,
        v.validated(txn_id, read_ts, commit_ts, after, result),
    ensures
        result is Ok,
{
}

/// A transaction is committed if nothing was committed since it began to read.
pub proof fn lemma_undisturbed_commits(
    v: SsiView,
    txn_id: u64,
    read_ts: u64,
    commit_ts: u64,
    after: SsiView,
    result: Result<(), SSIConflict>,
)
    requires
        v.active.contains_key(txn_id),
        forall|ts: u64| #[trigger] v.committed.contains_key(ts) ==> ts <= read_ts || ts >= commit_ts,
        v.validated(txn_id, read_ts, commit_ts, after, result),
    ensures
        result is Ok,
{
}

/// What the check at commit comes to. It is passed exactly where the transaction is known and
/// no commit between the two times wrote anything with the hash of a key that was read, nor
/// anything at all where a range was read. Then what the transaction wrote is remembered under
/// its time, and the transaction is forgotten; else nothing changes. The conflict that is
/// reported is one of those that there are.
pub proof fn lemma_validation(
    v: SsiView,
    txn_id: u64,
    read_ts: u64,
    commit_ts: u64,
    after: SsiView,
    result: Result<(), SSIConflict>,
)
    requires
        v.validated(txn_id, read_ts, commit_ts, after, result),
    ensures
        result is Ok <==> v.active.contains_key(txn_id) && forall|ts: u64, h: u64|
            #![trigger v.committed.contains_key(ts), v.committed[ts].contains(h)]
            v.committed.contains_key(ts) && read_ts < ts && ts < commit_ts
                && v.committed[ts].contains(h) ==> !v.active[txn_id].reads.contains(h)
                && v.active[txn_id].ranges.len() == 0,
        result is Ok ==> {
            &&& after.committed.contains_key(commit_ts)
            &&& after.committed[commit_ts] == v.active[txn_id].writes
            &&& forall|ts: u64|
                ts != commit_ts ==> (#[trigger] after.committed.contains_key(ts)
                    <==> v.committed.contains_key(ts)) && after.committed[ts] == v.committed[ts]
            &&& !after.active.contains_key(txn_id)
        },
        result is Err ==> after == v,
        result == Err::<(), SSIConflict>(SSIConflict::TxnNotFound) <==> !v.active.contains_key(
            txn_id,
        ),
        result matches Err(SSIConflict::WriteSkew { conflicting_ts }) ==> {
            &&& v.committed.contains_key(conflicting_ts)
            &&& read_ts < conflicting_ts < commit_ts
            &&& exists|h: u64| #[trigger]
                v.committed[conflicting_ts].contains(h) && v.active[txn_id].reads.contains(h)
        },
        result matches Err(SSIConflict::Phantom { conflicting_ts }) ==> {
            &&& v.committed.contains_key(conflicting_ts)
            &&& read_ts < conflicting_ts < commit_ts
            &&& v.active[txn_id].ranges.len() > 0
            &&& exists|h: u64| #[trigger] v.committed[conflicting_ts].contains(h)
        },
        forall|id: u64|
            id != txn_id ==> (#[trigger] after.active.contains_key(id) <==> v.active.contains_key(
                id,
            )) && after.active[id] == v.active[id],
        after.watermark == v.watermark,
{
    let a = v.active[txn_id];
    if result is Ok {
        assert forall|ts: u64, h: u64|
            #![trigger v.committed.contains_key(ts), v.committed[ts].contains(h)]
            v.committed.contains_key(ts) && read_ts < ts && ts < commit_ts
                && v.committed[ts].contains(h) implies !a.reads.contains(h) && a.ranges.len()
            == 0 by {
            assert(!v.skewed(a, ts, read_ts, commit_ts) && !v.haunted(a, ts, read_ts, commit_ts));
        }
    }
    match result {
        Err(SSIConflict::WriteSkew { conflicting_ts }) => {
            let h = choose|h: u64| #[trigger]
                a.reads.contains(h) && v.committed[conflicting_ts].contains(h);
            assert(v.committed.contains_key(conflicting_ts)
                && v.committed[conflicting_ts].contains(h));
        },
        Err(SSIConflict::Phantom { conflicting_ts }) => {
            let h = choose|h: u64| #[trigger] v.committed[conflicting_ts].contains(h);
            assert(v.committed.contains_key(conflicting_ts)
                && v.committed[conflicting_ts].contains(h));
        },
        _ => {},
    }
}

/// What is noted of a transaction: a key that it reads or writes by its hash, a range as it
/// is. Nothing that was noted is lost.
pub proof fn lemma_accesses(a: AccessView, key: Seq<u8>, start: BoundView, end: BoundView, h: u64)
    ensures
        a.with_read(key).reads.contains(h) <==> a.reads.contains(h) || h == key_hash(key),
        a.with_read(key).writes == a.writes && a.with_read(key).ranges == a.ranges,
        a.with_write(key).writes.contains(h) <==> a.writes.contains(h) || h == key_hash(key),
        a.with_write(key).reads == a.reads && a.with_write(key).ranges == a.ranges,
        a.with_range(start, end).ranges == a.ranges.push((start, end)),
        a.with_range(start, end).reads == a.reads && a.with_range(start, end).writes == a.writes,
{
}

/// What is noted for a transaction that is known replaces what was noted for it, and nothing
/// else changes; for one that is not known nothing is noted.
pub proof fn lemma_noted_for(v: SsiView, txn_id: u64, a: AccessView, other: u64)
    ensures
        ({
            let after = v.with_accesses(txn_id, a);
            &&& v.active.contains_key(txn_id) ==> after.active.contains_key(txn_id)
                && after.active[txn_id] == a
            &&& !v.active.contains_key(txn_id) ==> after == v
            &&& other != txn_id ==> after.active.contains_key(other) == v.active.contains_key(other)
                && after.active[other] == v.active[other]
            &&& after.committed == v.committed
            &&& after.watermark == v.watermark
        }),
{
}

} // verus!
