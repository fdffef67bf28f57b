//! What holds of the lock table from one operation to the next.

use crate::common::bound::BoundView;
use crate::lock::deadlock;
use crate::lock::lock_entry;
use crate::lock::lock_error::LockError;
use crate::lock::lock_mode;
use crate::lock::lock_mode::LockMode;
use crate::lock::lock_table;
use crate::lock::lock_table::{KeyStep, LocksView};
use crate::lock::range_lock;
use vstd::prelude::*;

verus! {

/// To count a lock that was granted leaves the locks on keys as they are.
pub proof fn lemma_recording_keeps_locks(
    v: LocksView,
    txn_id: u64,
    key: Seq<u8>,
    after: LocksView,
)
    requires
        v.recorded(txn_id, key, after),
    ensures
        after.locks == v.locks,
        after.config == v.config,
{
}

/// A transaction that has got the lock on a key holds it, in a mode that is enough.
pub proof fn lemma_granted_is_held(
    v: LocksView,
    txn_id: u64,
    key: Seq<u8>,
    mode: LockMode,
    after: LocksView,
    step: KeyStep,
)
    requires
        v.key_locked(txn_id, key, mode, after, step),
        step is Granted,
    ensures
        after.entry(key).suffices(txn_id, mode),
{
    let (entry, taken) = v.entry(key).tried(txn_id, mode);
    lemma_recording_keeps_locks(v.with_entry(key, entry), txn_id, key, after);
}

/// While a transaction has the exclusive lock on a key, nobody else gets a lock on it.
pub proof fn lemma_exclusive_lock_blocks(
    v: LocksView,
    holder: u64,
    txn_id: u64,
    key: Seq<u8>,
    mode: LockMode,
    after: LocksView,
    step: KeyStep,
)
    requires
        v.exclusive(),
        v.entry(key).holders.contains_key(holder),
        v.entry(key).holders[holder] == LockMode::X,
        txn_id != holder,
        v.key_locked(txn_id, key, mode, after, step),
    ensures
        !(step is Granted),
{
    let entry = v.entry(key);
    lock_mode::lemma_exclusive_alone(mode);
    lock_mode::lemma_compatible_symmetric(mode, LockMode::X);
    if entry.holders.contains_key(txn_id) {
        lock_entry::lemma_exclusive_holder_is_alone(entry, holder, txn_id);
    }
    assert(!entry.admits(txn_id, mode));
}

/// A range lock blocks the keys in its range for the other transactions, in every mode
/// that does not go with it.
pub proof fn lemma_range_lock_blocks(
    v: LocksView,
    i: int,
    txn_id: u64,
    key: Seq<u8>,
    mode: LockMode,
    after: LocksView,
    step: KeyStep,
)
    requires
        v.config.enable_range_locks,
        0 <= i < v.ranges.len(),
        v.ranges[i].contains(key),
        lock_table::opposes(v.ranges[i], txn_id, mode),
        v.key_locked(txn_id, key, mode, after, step),
    ensures
        step == KeyStep::Failed(LockError::RangeConflict),
        after == v,
{
    range_lock::lemma_overlaps_point(v.ranges[i], key);
}

/// A range lock is granted only where no key in it is locked by somebody else in a mode
/// that does not go with it.
pub proof fn lemma_locked_key_blocks_range(
    v: LocksView,
    holder: u64,
    txn_id: u64,
    key: Seq<u8>,
    start: BoundView,
    end: BoundView,
    mode: LockMode,
    after: LocksView,
    result: Result<(), LockError>,
)
    requires
        v.locks.contains_key(key),
        v.locks[key].holders.contains_key(holder),
        holder != txn_id,
        !mode.compatible(v.locks[key].holders[holder]),
        crate::common::bound::in_range(key, start, end),
        v.range_locked(txn_id, start, end, mode, after, result),
    ensures
        result is Err,
        after == v,
{
    assert(!v.locks[key].admits(txn_id, mode));
    assert(lock_table::key_conflict(v.locks, start, end, txn_id, mode));
}

/// Once a transaction has released its locks it holds no key and no range, waits for
/// nobody and is waited for by nobody; the others keep what they have.
pub proof fn lemma_release_frees(v: LocksView, txn_id: u64)
    ensures
        ({
            let after = v.released(txn_id);
            &&& forall|key: Seq<u8>| !#[trigger] after.entry(key).holders.contains_key(txn_id)
            &&& forall|i: int|
                0 <= i < after.ranges.len() ==> (#[trigger] after.ranges[i]).txn_id != txn_id
            &&& !after.graph.info.contains_key(txn_id)
            &&& forall|other: u64|
                !deadlock::edge(after.graph.edges, txn_id, other) && !(#[trigger] deadlock::edge(
                    after.graph.edges,
                    other,
                    txn_id,
                ))
            &&& forall|key: Seq<u8>, other: u64|
                other != txn_id && #[trigger] v.entry(key).holders.contains_key(other)
                    ==> after.entry(key).holders.contains_key(other)
                    && after.entry(key).holders[other] == v.entry(key).holders[other]
            &&& forall|i: int|
                0 <= i < v.ranges.len() && (#[trigger] v.ranges[i]).txn_id != txn_id
                    ==> after.ranges.contains(v.ranges[i])
        }),
{
    let after = v.released(txn_id);
    let keep = |r: range_lock::RangeView| r.txn_id != txn_id;
    assert forall|i: int| 0 <= i < after.ranges.len() implies (
    #[trigger] after.ranges[i]).txn_id != txn_id by {
        v.ranges.lemma_filter_pred(keep, i);
    }
    assert forall|i: int|
        0 <= i < v.ranges.len() && (#[trigger] v.ranges[i]).txn_id
            != txn_id implies after.ranges.contains(v.ranges[i]) by {
        v.ranges.lemma_filter_contains(keep, i);
    }
}

/// What one transaction cannot lock while another holds it, it can lock once the other
/// has released its locks, if nobody else stands in the way.
pub proof fn lemma_release_unblocks(v: LocksView, holder: u64, txn_id: u64, key: Seq<u8>, mode: LockMode)
    requires
        forall|id: u64| #[trigger]
            v.entry(key).holders.contains_key(id) ==> id == holder || id == txn_id,
    ensures
        v.released(holder).entry(key).admits(txn_id, mode),
{
    let after = v.released(holder).entry(key);
    assert forall|id: u64| #[trigger]
        after.holders.contains_key(id) && id != txn_id implies mode.compatible(
        after.holders[id],
    ) by {
        assert(v.entry(key).holders.contains_key(id));
    }
}

} // verus!
