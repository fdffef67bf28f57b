//! The maps that hold the locks on keys and the escalation states.

use crate::lock::escalation::{EscalationState, EscalationView};
use crate::lock::lock_entry;
use crate::lock::lock_entry::{EntryView, LockEntry};
use crate::lock::lock_mode::LockMode;
use dashmap::DashMap;
use vstd::prelude::*;

verus! {

#[verifier::external_type_specification]
#[verifier::external_body]
#[verifier::reject_recursive_types(K)]
#[verifier::reject_recursive_types(V)]
#[verifier::reject_recursive_types(S)]
pub struct ExDashMap<K, V, S>(dashmap::DashMap<K, V, S>);

/// The locks that a map holds, by their keys.
pub uninterp spec fn key_locks(map: DashMap<Vec<u8>, LockEntry>) -> Map<Seq<u8>, EntryView>;

pub open spec fn no_locks() -> Map<Seq<u8>, EntryView> {
    Map::empty()
}

/// Calls `dashmap::DashMap::new`, which returns an empty map.
#[verifier::external_body]
pub(crate) fn new_lock_map() -> (map: DashMap<Vec<u8>, LockEntry>)
    ensures
        key_locks(map) == no_locks(),
{
    DashMap::new()
}

/// Calls `dashmap::DashMap::insert`, which puts the lock under the key in place of what
/// was there.
#[verifier::external_body]
pub(crate) fn put_lock(map: &mut DashMap<Vec<u8>, LockEntry>, key: Vec<u8>, entry: LockEntry)
    ensures
        key_locks(*final(map)) == key_locks(*old(map)).insert(key@, entry@),
{
    map.insert(key, entry);
}

/// Calls `dashmap::DashMap::remove`, which takes the lock under the key out of the map, if
/// there is one.
#[verifier::external_body]
pub(crate) fn take_lock(map: &mut DashMap<Vec<u8>, LockEntry>, key: &[u8]) -> (entry: Option<
    LockEntry,
>)
    ensures
        key_locks(*final(map)) == key_locks(*old(map)).remove(key@),
        match entry {
            Some(e) => key_locks(*old(map)).contains_key(key@) && e@ == key_locks(*old(map))[key@],
            None => !key_locks(*old(map)).contains_key(key@),
        },
{
    map.remove(key).map(|(_, entry)| entry)
}

/// Calls `dashmap::DashMap::get` and lists the holders of the lock under the key, if there
/// is one.
#[verifier::external_body]
pub(crate) fn lock_holders(map: &DashMap<Vec<u8>, LockEntry>, key: &[u8]) -> (holders: Option<
    Vec<(u64, LockMode)>,
>)
    ensures
        match holders {
            Some(list) => key_locks(*map).contains_key(key@) && lock_entry::lists_holders(
                list@,
                key_locks(*map)[key@].holders,
            ),
            None => !key_locks(*map).contains_key(key@),
        },
{
    map.get(key).map(|entry| entry.get_holders())
}

/// `list` names each key of the map once.
pub open spec fn lists_keys(list: Seq<Vec<u8>>, map: Map<Seq<u8>, EntryView>) -> bool {
    &&& forall|i: int| 0 <= i < list.len() ==> map.contains_key((#[trigger] list[i])@)
    &&& forall|i: int, j: int|
        0 <= i < j < list.len() ==> (#[trigger] list[i])@ != (#[trigger] list[j])@
    &&& forall|key: Seq<u8>| #[trigger]
        map.contains_key(key) ==> exists|i: int| 0 <= i < list.len() && (#[trigger] list[i])@ == key
}

/// Calls `dashmap::DashMap::iter` and clones the keys: each of them once, in an order that
/// is not claimed.
#[verifier::external_body]
pub(crate) fn locked_keys(map: &DashMap<Vec<u8>, LockEntry>) -> (list: Vec<Vec<u8>>)
    ensures
        lists_keys(list@, key_locks(*map)),
{
    map.iter().map(|entry| entry.key().clone()).collect()
}

/// The map has `len` locks.
pub open spec fn counts_locks(len: usize, map: Map<Seq<u8>, EntryView>) -> bool {
    map.dom().finite() && len == map.len()
}

/// Calls `dashmap::DashMap::len`, the number of entries.
#[verifier::external_body]
pub(crate) fn lock_count(map: &DashMap<Vec<u8>, LockEntry>) -> (len: usize)
    ensures
        counts_locks(len, key_locks(*map)),
{
    map.len()
}

/// The escalation states that a map holds, by their transactions.
pub uninterp spec fn escalations(map: DashMap<u64, EscalationState>) -> Map<u64, EscalationView>;

pub open spec fn no_escalations() -> Map<u64, EscalationView> {
    Map::empty()
}

/// Calls `dashmap::DashMap::new`, which returns an empty map.
#[verifier::external_body]
pub(crate) fn new_escalation_map() -> (map: DashMap<u64, EscalationState>)
    ensures
        escalations(map) == no_escalations(),
{
    DashMap::new()
}

/// Calls `dashmap::DashMap::insert`, which puts the state under the transaction in place
/// of what was there.
#[verifier::external_body]
pub(crate) fn put_escalation(
    map: &mut DashMap<u64, EscalationState>,
    txn_id: u64,
    state: EscalationState,
)
    ensures
        escalations(*final(map)) == escalations(*old(map)).insert(txn_id, state@),
{
    map.insert(txn_id, state);
}

/// Calls `dashmap::DashMap::remove`, which takes the state of the transaction out of the
/// map, if there is one.
#[verifier::external_body]
pub(crate) fn take_escalation(map: &mut DashMap<u64, EscalationState>, txn_id: u64) -> (state:
    Option<EscalationState>)
    ensures
        escalations(*final(map)) == escalations(*old(map)).remove(txn_id),
        match state {
            Some(s) => escalations(*old(map)).contains_key(txn_id) && s@ == escalations(
                *old(map),
            )[txn_id],
            None => !escalations(*old(map)).contains_key(txn_id),
        },
{
    map.remove(&txn_id).map(|(_, state)| state)
}

} // verus!
