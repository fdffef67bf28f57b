//! The table of recent writes, in memory.

use crate::common::codec;
use crate::common::key::{Key, KeyView};
use crate::common::order;
use crate::common::simd::bytes_equal;
use crossbeam_skiplist::SkipMap;
use vstd::prelude::*;

verus! {

#[verifier::external_type_specification]
#[verifier::external_body]
#[verifier::reject_recursive_types(K)]
#[verifier::reject_recursive_types(V)]
pub struct ExSkipMap<K, V>(crossbeam_skiplist::SkipMap<K, V>);

/// What the skip list holds. A slot is a key's bytes and how far its timestamp is from the
/// greatest one.
pub uninterp spec fn slots(map: SkipMap<(Vec<u8>, u64), Option<Vec<u8>>>) -> Map<
    (Seq<u8>, u64),
    Option<Seq<u8>>,
>;

/// The order of slots: by the bytes, then by the number.
pub open spec fn slot_less(a: (Seq<u8>, u64), b: (Seq<u8>, u64)) -> bool {
    order::less(a.0, b.0) || (a.0 == b.0 && a.1 < b.1)
}

pub open spec fn slot_view(slot: (Vec<u8>, u64)) -> (Seq<u8>, u64) {
    (slot.0@, slot.1)
}

pub open spec fn value_view(value: Option<Vec<u8>>) -> Option<Seq<u8>> {
    match value {
        Some(v) => Some(v@),
        None => None,
    }
}

pub open spec fn no_slots() -> Map<(Seq<u8>, u64), Option<Seq<u8>>> {
    Map::empty()
}

/// The map has `len` slots.
pub open spec fn counts(len: usize, map: Map<(Seq<u8>, u64), Option<Seq<u8>>>) -> bool {
    map.dom().finite() && len == map.len()
}

/// `list` holds the slots of `map`, each once and in order.
pub open spec fn lists_slots(
    list: Seq<((Vec<u8>, u64), Option<Vec<u8>>)>,
    map: Map<(Seq<u8>, u64), Option<Seq<u8>>>,
) -> bool {
    &&& forall|i: int|
        0 <= i < list.len() ==> map.contains_key(slot_view((#[trigger] list[i]).0))
            && map[slot_view(list[i].0)] == value_view(list[i].1)
    &&& forall|i: int, j: int|
        0 <= i < j < list.len() ==> slot_less(
            slot_view((#[trigger] list[i]).0),
            slot_view((#[trigger] list[j]).0),
        )
    &&& forall|s: (Seq<u8>, u64)| #[trigger]
        map.contains_key(s) ==> exists|i: int|
            0 <= i < list.len() && slot_view((#[trigger] list[i]).0) == s
}

/// `entry` is the first slot of `map` that does not stand before `from`.
pub open spec fn first_slot(
    entry: Option<((Vec<u8>, u64), Option<Vec<u8>>)>,
    map: Map<(Seq<u8>, u64), Option<Seq<u8>>>,
    from: (Seq<u8>, u64),
) -> bool {
    match entry {
        Some((slot, value)) => {
            &&& map.contains_key(slot_view(slot))
            &&& map[slot_view(slot)] == value_view(value)
            &&& !slot_less(slot_view(slot), from)
            &&& forall|s: (Seq<u8>, u64)| #[trigger]
                map.contains_key(s) && !slot_less(s, from) ==> !slot_less(s, slot_view(slot))
        },
        None => forall|s: (Seq<u8>, u64)| #[trigger] map.contains_key(s) ==> slot_less(s, from),
    }
}

/// Calls `crossbeam_skiplist::SkipMap::new`, which returns an empty map.
#[verifier::external_body]
fn skip_new() -> (map: SkipMap<(Vec<u8>, u64), Option<Vec<u8>>>)
    ensures
        slots(map) == no_slots(),
{
    SkipMap::new()
}

/// Calls `crossbeam_skiplist::SkipMap::insert`, which puts the value into the slot in
/// place of what was there.
#[verifier::external_body]
fn skip_insert(
    map: &mut SkipMap<(Vec<u8>, u64), Option<Vec<u8>>>,
    slot: (Vec<u8>, u64),
    value: Option<Vec<u8>>,
)
    ensures
        slots(*final(map)) == slots(*old(map)).insert(slot_view(slot), value_view(value)),
{
    map.insert(slot, value);
}

/// Calls `crossbeam_skiplist::SkipMap::get` and clones the value: the one in the slot, if
/// the map has the slot.
#[verifier::external_body]
fn skip_get(
    map: &SkipMap<(Vec<u8>, u64), Option<Vec<u8>>>,
    slot: &(Vec<u8>, u64),
) -> (value: Option<Option<Vec<u8>>>)
    ensures
        match value {
            Some(v) => slots(*map).contains_key(slot_view(*slot)) && slots(*map)[slot_view(*slot)]
                == value_view(v),
            None => !slots(*map).contains_key(slot_view(*slot)),
        },
{
    map.get(slot).map(|entry| entry.value().clone())
}

/// Calls `crossbeam_skiplist::SkipMap::lower_bound` with an included bound and clones the
/// entry: the lowest one that is not below the bound, in the order of tuples and byte
/// vectors.
#[verifier::external_body]
fn skip_lower_bound(
    map: &SkipMap<(Vec<u8>, u64), Option<Vec<u8>>>,
    from: &(Vec<u8>, u64),
) -> (entry: Option<((Vec<u8>, u64), Option<Vec<u8>>)>)
    ensures
        first_slot(entry, slots(*map), slot_view(*from)),
{
    map.lower_bound(std::ops::Bound::Included(from)).map(
        |entry| (entry.key().clone(), entry.value().clone()),
    )
}

/// Calls `crossbeam_skiplist::SkipMap::iter` and clones the entries: all of them, sorted
/// by key in the order of tuples and byte vectors.
#[verifier::external_body]
fn skip_entries(map: &SkipMap<(Vec<u8>, u64), Option<Vec<u8>>>) -> (list: Vec<
    ((Vec<u8>, u64), Option<Vec<u8>>),
>)
    ensures
        lists_slots(list@, slots(*map)),
{
    map.iter().map(|entry| (entry.key().clone(), entry.value().clone())).collect()
}

/// Calls `crossbeam_skiplist::SkipMap::len`, the number of entries of a map that nobody
/// else modifies.
#[verifier::external_body]
fn skip_len(map: &SkipMap<(Vec<u8>, u64), Option<Vec<u8>>>) -> (len: usize)
    ensures
        counts(len, slots(*map)),
{
    map.len()
}

/// Calls `crossbeam_skiplist::SkipMap::is_empty`, whether there is no entry.
#[verifier::external_body]
fn skip_is_empty(map: &SkipMap<(Vec<u8>, u64), Option<Vec<u8>>>) -> (empty: bool)
    ensures
        empty == (slots(*map) == no_slots()),
{
    map.is_empty()
}

/// The slot of a key: newer versions come first.
pub open spec fn slot_of(key: KeyView) -> (Seq<u8>, u64) {
    (key.data, (u64::MAX - key.timestamp) as u64)
}

spec fn key_of(slot: (Seq<u8>, u64)) -> KeyView {
    KeyView { data: slot.0, timestamp: (u64::MAX - slot.1) as u64 }
}

/// `key` is the newest version of `data` that is not newer than `ts`.
pub open spec fn is_newest(
    entries: Map<KeyView, Option<Seq<u8>>>,
    data: Seq<u8>,
    ts: u64,
    key: KeyView,
) -> bool {
    &&& entries.contains_key(key)
    &&& key.data == data
    &&& key.timestamp <= ts
    &&& forall|other: KeyView| #[trigger]
        entries.contains_key(other) && other.data == data && other.timestamp <= ts
            ==> other.timestamp <= key.timestamp
}

/// What a reader at `ts` sees of `data`: the value of the newest version that is not newer
/// than `ts`, or that it was deleted, or nothing if there is no such version.
pub open spec fn visible(
    entries: Map<KeyView, Option<Seq<u8>>>,
    data: Seq<u8>,
    ts: u64,
) -> Option<Option<Seq<u8>>> {
    if exists|key: KeyView| #[trigger] is_newest(entries, data, ts, key) {
        Some(entries[choose|key: KeyView| #[trigger] is_newest(entries, data, ts, key)])
    } else {
        None
    }
}

/// The newest version decides what is visible.
pub proof fn lemma_newest_is_visible(
    entries: Map<KeyView, Option<Seq<u8>>>,
    data: Seq<u8>,
    ts: u64,
    key: KeyView,
)
    requires
        is_newest(entries, data, ts, key),
    ensures
        visible(entries, data, ts) == Some(entries[key]),
{
    let chosen = choose|k: KeyView| #[trigger] is_newest(entries, data, ts, k);
    assert(chosen == key);
}

/// `list` holds the entries, each once and in the order of their keys.
pub open spec fn lists_entries(
    list: Seq<(Key, Option<Vec<u8>>)>,
    entries: Map<KeyView, Option<Seq<u8>>>,
) -> bool {
    &&& forall|i: int|
        0 <= i < list.len() ==> entries.contains_key((#[trigger] list[i]).0@)
            && entries[list[i].0@] == value_view(list[i].1)
    &&& forall|i: int, j: int|
        0 <= i < j < list.len() ==> (#[trigger] list[i]).0@.before((#[trigger] list[j]).0@)
    &&& forall|key: KeyView| #[trigger]
        entries.contains_key(key) ==> exists|i: int|
            0 <= i < list.len() && (#[trigger] list[i]).0@ == key
}

pub struct MemTable {
    map: SkipMap<(Vec<u8>, u64), Option<Vec<u8>>>,
    size: usize,
}

impl View for MemTable {
    type V = Map<KeyView, Option<Seq<u8>>>;

    /// The versions of all keys, a deleted one without a value.
    closed spec fn view(&self) -> Map<KeyView, Option<Seq<u8>>> {
        Map::new(
            |key: KeyView| slots(self.map).contains_key(slot_of(key)),
            |key: KeyView| slots(self.map)[slot_of(key)],
        )
    }
}

impl MemTable {
    /// The bytes of all keys and values that were written.
    pub closed spec fn spec_size(&self) -> usize {
        self.size
    }

    pub fn new() -> (table: Self)
        ensures
            table@ == Map::<KeyView, Option<Seq<u8>>>::empty(),
            table.spec_size() == 0,
    {
        let table = MemTable { map: skip_new(), size: 0 };
        assert(table@ =~= Map::empty());
        table
    }

    fn slot(key: Key) -> (slot: (Vec<u8>, u64))
        ensures
            slot_view(slot) == slot_of(key@),
    {
        let inverse: u64 = u64::MAX - key.timestamp();
        (key.into_data(), inverse)
    }

    /// The value of one version.
    pub fn get(&self, key: &Key) -> (value: Option<Option<Vec<u8>>>)
        ensures
            match value {
                Some(v) => self@.contains_key(key@) && self@[key@] == value_view(v),
                None => !self@.contains_key(key@),
            },
    {
        skip_get(&self.map, &Self::slot(key.copy()))
    }

    /// What a reader at `ts` sees of `data`.
    pub fn get_at_ts(&self, data: &[u8], ts: u64) -> (value: Option<Option<Vec<u8>>>)
        ensures
            match value {
                Some(v) => visible(self@, data@, ts) == Some(value_view(v)),
                None => visible(self@, data@, ts) is None,
            },
    {
        let from = (codec::copy_bytes(data), u64::MAX - ts);
        let ghost at = slot_view(from);
        let first = skip_lower_bound(&self.map, &from);
        proof {
            order::lemma_irreflexive(data@);
        }
        match first {
            Some((slot, value)) => {
                let ghost key = key_of(slot_view(slot));
                if bytes_equal(slot.0.as_slice(), data) {
                    proof {
                        assert(slot_of(key) == slot_view(slot));
                        assert(key.timestamp <= ts);
                        assert forall|other: KeyView| #[trigger]
                            self@.contains_key(other) && other.data == data@ && other.timestamp
                                <= ts implies other.timestamp <= key.timestamp by {
                            assert(slots(self.map).contains_key(slot_of(other)));
                        }
                        assert(is_newest(self@, data@, ts, key));
                        lemma_newest_is_visible(self@, data@, ts, key);
                    }
                    Some(value)
                } else {
                    proof {
                        assert forall|other: KeyView| !is_newest(self@, data@, ts, other) by {
                            if is_newest(self@, data@, ts, other) {
                                let s = slot_of(other);
                                assert(slots(self.map).contains_key(s));
                                assert(!slot_less(s, at));
                                assert(!slot_less(s, slot_view(slot)));
                                order::lemma_order(data@, slot.0@, data@);
                            }
                        }
                    }
                    None
                }
            },
            None => {
                proof {
                    assert forall|other: KeyView| !is_newest(self@, data@, ts, other) by {
                        if is_newest(self@, data@, ts, other) {
                            assert(slots(self.map).contains_key(slot_of(other)));
                        }
                    }
                }
                None
            },
        }
    }

    pub fn put(&mut self, key: Key, value: Vec<u8>)
        ensures
            final(self)@ == old(self)@.insert(key@, Some(value@)),
            final(self).spec_size() == usize::wrapping_add(
                old(self).spec_size(),
                usize::wrapping_add(key@.data.len() as usize, value@.len() as usize),
            ),
    {
        let size_delta: usize = key.data().len().wrapping_add(value.len());
        self.insert(key, Some(value));
        self.size = self.size.wrapping_add(size_delta);
    }

    pub fn delete(&mut self, key: Key)
        ensures
            final(self)@ == old(self)@.insert(key@, None),
            final(self).spec_size() == usize::wrapping_add(
                old(self).spec_size(),
                key@.data.len() as usize,
            ),
    {
        let size_delta: usize = key.data().len();
        self.insert(key, None);
        self.size = self.size.wrapping_add(size_delta);
    }

    fn insert(&mut self, key: Key, value: Option<Vec<u8>>)
        ensures
            final(self)@ == old(self)@.insert(key@, value_view(value)),
            final(self).size == old(self).size,
    {
        let ghost k = key@;
        let ghost v = value_view(value);
        skip_insert(&mut self.map, Self::slot(key), value);
        proof {
            assert forall|other: KeyView| slot_of(other) == slot_of(k) implies other == k by {}
            assert(self@ =~= old(self)@.insert(k, v));
        }
    }

    pub fn size(&self) -> (size: usize)
        ensures
            size == self.spec_size(),
    {
        self.size
    }

    /// The entries in the order of their keys.
    pub fn iter(&self) -> (list: Vec<(Key, Option<Vec<u8>>)>)
        ensures
            lists_entries(list@, self@),
    {
        let entries = skip_entries(&self.map);
        let ghost all = entries@;
        let mut list: Vec<(Key, Option<Vec<u8>>)> = Vec::new();
        for entry in iter: entries
            invariant
                iter.seq() == all,
                list@.len() == iter.index(),
                forall|i: int|
                    0 <= i < list@.len() ==> slot_of((#[trigger] list@[i]).0@) == slot_view(
                        all[i].0,
                    ) && list@[i].1 == all[i].1,
        {
            let ((data, inverse), value) = entry;
            list.push((Key::new(data, u64::MAX - inverse), value));
        }
        proof {
            assert forall|i: int, j: int| 0 <= i < j < list@.len() implies (
            #[trigger] list@[i]).0@.before((#[trigger] list@[j]).0@) by {
                assert(slot_less(slot_view(all[i].0), slot_view(all[j].0)));
            }
            assert forall|key: KeyView| #[trigger] self@.contains_key(key) implies exists|i: int|
                0 <= i < list@.len() && (#[trigger] list@[i]).0@ == key by {
                assert(slots(self.map).contains_key(slot_of(key)));
                let i = choose|i: int|
                    0 <= i < all.len() && slot_view((#[trigger] all[i]).0) == slot_of(key);
                assert(slot_of(list@[i].0@) == slot_of(key));
                assert(list@[i].0@ == key);
            }
        }
        list
    }

    pub fn is_empty(&self) -> (empty: bool)
        ensures
            empty == (self@ == Map::<KeyView, Option<Seq<u8>>>::empty()),
    {
        let empty = skip_is_empty(&self.map);
        proof {
            if empty {
                assert(self@ =~= Map::empty());
            } else if self@ == Map::<KeyView, Option<Seq<u8>>>::empty() {
                assert forall|s: (Seq<u8>, u64)| !slots(self.map).contains_key(s) by {
                    assert(slot_of(key_of(s)) == s);
                    assert(!self@.contains_key(key_of(s)));
                }
                assert(slots(self.map) =~= no_slots());
            }
        }
        empty
    }

    /// The number of versions.
    pub fn len(&self) -> (len: usize)
        ensures
            self@.dom().finite(),
            len == self@.len(),
    {
        let len: usize = skip_len(&self.map);
        proof {
            let from = slots(self.map).dom();
            let to = self@.dom();
            let back = |s: (Seq<u8>, u64)| key_of(s);
            assert(vstd::relations::injective_on(back, from)) by {
                assert forall|a: (Seq<u8>, u64), b: (Seq<u8>, u64)|
                    #![trigger back(a), back(b)]
                    from.contains(a) && from.contains(b) && back(a) == back(b) implies a == b by {
                    assert(slot_of(key_of(a)) == a && slot_of(key_of(b)) == b);
                }
            }
            assert(from.map(back) =~= to) by {
                assert forall|k: KeyView| to.contains(k) implies from.map(back).contains(k) by {
                    assert(back(slot_of(k)) == k);
                    assert(from.contains(slot_of(k)));
                }
                assert forall|k: KeyView| from.map(back).contains(k) implies to.contains(k) by {
                    let s = choose|s: (Seq<u8>, u64)| from.contains(s) && back(s) == k;
                    assert(slot_of(k) == s);
                }
            }
            vstd::set_lib::lemma_map_size(from, to, back);
        }
        len
    }
}

impl Default for MemTable {
    fn default() -> (table: Self)
        ensures
            table@ == Map::<KeyView, Option<Seq<u8>>>::empty(),
            table.spec_size() == 0,
    {
        MemTable::new()
    }
}

} // verus!
