//! A map from byte strings, kept in the order of its keys.

use crate::common::order;
use crate::common::simd::{bytes_equal, bytes_less};
use crate::common::text;
use vstd::prelude::*;

verus! {

pub struct ByteMap<V> {
    keys: Vec<Vec<u8>>,
    values: Vec<V>,
}

/// Every key comes before the keys behind it.
pub open spec fn ascending(keys: Seq<Seq<u8>>) -> bool {
    forall|i: int, j: int|
        #![trigger keys[i], keys[j]]
        0 <= i < j < keys.len() ==> order::less(keys[i], keys[j])
}

/// The map from the keys to the values at the same places.
pub open spec fn zipped<V>(keys: Seq<Seq<u8>>, values: Seq<V>) -> Map<Seq<u8>, V> {
    Map::new(|k: Seq<u8>| keys.contains(k), |k: Seq<u8>| values[keys.index_of(k)])
}

impl<V> View for ByteMap<V> {
    type V = Map<Seq<u8>, V>;

    closed spec fn view(&self) -> Map<Seq<u8>, V> {
        zipped(text::byte_strings(self.keys@), self.values@)
    }
}

impl<V> ByteMap<V> {
    pub closed spec fn wf(&self) -> bool {
        &&& self.keys@.len() == self.values@.len()
        &&& ascending(text::byte_strings(self.keys@))
    }

    /// The keys in their order.
    pub closed spec fn order(&self) -> Seq<Seq<u8>> {
        text::byte_strings(self.keys@)
    }

    /// The keys in their order are ascending, and they are those of the map.
    pub proof fn lemma_order(&self)
        requires
            self.wf(),
        ensures
            ascending(self.order()),
            self.order().no_duplicates(),
            forall|k: Seq<u8>| self.order().contains(k) <==> #[trigger] self@.contains_key(k),
    {
        let keys = self.order();
        assert forall|i: int, j: int| 0 <= i < keys.len() && 0 <= j < keys.len() && i
            != j implies keys[i] != keys[j] by {
            order::lemma_irreflexive(keys[i]);
            if i < j {
                assert(order::less(keys[i], keys[j]));
            } else {
                assert(order::less(keys[j], keys[i]));
            }
        }
    }

    pub fn new() -> (map: Self)
        ensures
            map.wf(),
            map@ == Map::<Seq<u8>, V>::empty(),
            map.order().len() == 0,
    {
        let map = ByteMap { keys: Vec::new(), values: Vec::new() };
        assert(map@ =~= Map::<Seq<u8>, V>::empty());
        map
    }

    /// The first place whose key is not before `key`.
    fn place(&self, key: &[u8]) -> (i: usize)
        requires
            self.wf(),
        ensures
            i <= self.order().len(),
            forall|k: int| 0 <= k < i ==> order::less(#[trigger] self.order()[k], key@),
            forall|k: int|
                i <= k < self.order().len() ==> !order::less(#[trigger] self.order()[k], key@),
    {
        let ghost keys = self.order();
        let mut low: usize = 0;
        let mut high: usize = self.keys.len();
        while low < high
            invariant
                low <= high <= keys.len(),
                keys == self.order(),
                self.wf(),
                forall|k: int| 0 <= k < low ==> order::less(#[trigger] keys[k], key@),
                forall|k: int| high <= k < keys.len() ==> !order::less(#[trigger] keys[k], key@),
            decreases high - low,
        {
            let mid: usize = low + (high - low) / 2;
            assert(keys[mid as int] == self.keys@[mid as int]@);
            if bytes_less(self.keys[mid].as_slice(), key) {
                proof {
                    assert forall|k: int| 0 <= k <= mid implies order::less(
                        #[trigger] keys[k],
                        key@,
                    ) by {
                        if k < mid {
                            assert(order::less(keys[k], keys[mid as int]));
                            order::lemma_order(keys[k], keys[mid as int], key@);
                        }
                    }
                }
                low = mid + 1;
            } else {
                proof {
                    assert forall|k: int| mid <= k < keys.len() implies !order::less(
                        #[trigger] keys[k],
                        key@,
                    ) by {
                        if k > mid {
                            assert(order::less(keys[mid as int], keys[k]));
                            order::lemma_order(keys[mid as int], keys[k], key@);
                        }
                    }
                }
                high = mid;
            }
        }
        low
    }

    /// The key stands at the place at which it is looked for, or nowhere.
    proof fn lemma_place(&self, key: Seq<u8>, i: int)
        requires
            self.wf(),
            0 <= i <= self.order().len(),
            forall|k: int| 0 <= k < i ==> order::less(#[trigger] self.order()[k], key),
            forall|k: int|
                i <= k < self.order().len() ==> !order::less(#[trigger] self.order()[k], key),
        ensures
            self@.contains_key(key) <==> i < self.order().len() && self.order()[i] == key,
            self@.contains_key(key) ==> self@[key] == self.values@[i],
    {
        let keys = self.order();
        self.lemma_order();
        order::lemma_irreflexive(key);
        if keys.contains(key) {
            let k = keys.index_of(key);
            assert(keys[k] == key);
            if k < i {
                assert(order::less(keys[k], key));
            } else if k > i {
                assert(order::less(keys[i], keys[k]));
            }
        }
        if i < keys.len() && keys[i] == key {
            assert(keys.contains(key));
        }
    }

    pub fn get(&self, key: &[u8]) -> (value: Option<&V>)
        requires
            self.wf(),
        ensures
            match value {
                Some(v) => self@.contains_key(key@) && *v == self@[key@],
                None => !self@.contains_key(key@),
            },
    {
        let i: usize = self.place(key);
        proof {
            self.lemma_place(key@, i as int);
        }
        if i < self.keys.len() && bytes_equal(self.keys[i].as_slice(), key) {
            assert(self.order()[i as int] == key@);
            Some(&self.values[i])
        } else {
            None
        }
    }

    pub fn contains_key(&self, key: &[u8]) -> (result: bool)
        requires
            self.wf(),
        ensures
            result == self@.contains_key(key@),
    {
        self.get(key).is_some()
    }

    /// Puts a value under a key in place of what was there.
    pub fn insert(&mut self, key: Vec<u8>, value: V)
        requires
            old(self).wf(),
        ensures
            final(self).wf(),
            final(self)@ == old(self)@.insert(key@, value),
    {
        let i: usize = self.place(key.as_slice());
        let ghost keys = self.order();
        let ghost values = self.values@;
        proof {
            self.lemma_place(key@, i as int);
            self.lemma_order();
        }
        if i < self.keys.len() && bytes_equal(self.keys[i].as_slice(), key.as_slice()) {
            self.values.set(i, value);
            proof {
                assert(self.order() == keys);
                lemma_replaced(keys, values, i as int, value);
                assert(self@ =~= old(self)@.insert(key@, value));
            }
        } else {
            let ghost k = key@;
            self.keys.insert(i, key);
            self.values.insert(i, value);
            proof {
                assert(self.order() =~= keys.insert(i as int, k));
                assert forall|a: int, b: int|
                    #![trigger self.order()[a], self.order()[b]]
                    0 <= a < b < self.order().len() implies order::less(
                    self.order()[a],
                    self.order()[b],
                ) by {
                    let x = if a < i {
                        a
                    } else {
                        a - 1
                    };
                    let y = if b < i {
                        b
                    } else {
                        b - 1
                    };
                    if a == i {
                        assert(keys[y] == self.order()[b]);
                        assert(!order::less(keys[y], k));
                        if i < keys.len() {
                            assert(keys[i as int] != k);
                        }
                        if y > i {
                            assert(order::less(keys[i as int], keys[y]));
                        }
                        order::lemma_order(k, keys[y], k);
                        order::lemma_order(k, keys[i as int], keys[y]);
                    } else if b == i {
                        assert(keys[x] == self.order()[a]);
                        assert(order::less(keys[x], k));
                    } else {
                        assert(order::less(keys[x], keys[y]));
                    }
                }
                lemma_inserted(keys, values, i as int, k, value);
            }
        }
    }

    /// Takes a key out, and says whether it was there.
    pub fn remove(&mut self, key: &[u8]) -> (removed: bool)
        requires
            old(self).wf(),
        ensures
            final(self).wf(),
            final(self)@ == old(self)@.remove(key@),
            removed == old(self)@.contains_key(key@),
    {
        let i: usize = self.place(key);
        let ghost keys = self.order();
        let ghost values = self.values@;
        proof {
            self.lemma_place(key@, i as int);
            self.lemma_order();
        }
        if i < self.keys.len() && bytes_equal(self.keys[i].as_slice(), key) {
            self.keys.remove(i);
            self.values.remove(i);
            proof {
                assert(keys[i as int] == key@);
                assert(self.order() =~= keys.remove(i as int));
                lemma_removed(keys, values, i as int);
            }
            true
        } else {
            assert(self@ =~= old(self)@.remove(key@));
            false
        }
    }

    pub fn len(&self) -> (len: usize)
        requires
            self.wf(),
        ensures
            len == self.order().len(),
    {
        self.keys.len()
    }

    /// The key at a place of the order.
    pub fn key_at(&self, i: usize) -> (key: &[u8])
        requires
            self.wf(),
            i < self.order().len(),
        ensures
            key@ == self.order()[i as int],
            self@.contains_key(key@),
    {
        proof {
            assert(self.order().contains(self.order()[i as int]));
        }
        self.keys[i].as_slice()
    }

    /// The value at a place of the order.
    pub fn value_at(&self, i: usize) -> (value: &V)
        requires
            self.wf(),
            i < self.order().len(),
        ensures
            *value == self@[self.order()[i as int]],
    {
        proof {
            let keys = self.order();
            self.lemma_order();
            assert(keys.contains(keys[i as int]));
            assert(keys.index_of(keys[i as int]) == i);
        }
        &self.values[i]
    }
}

proof fn lemma_replaced<V>(keys: Seq<Seq<u8>>, values: Seq<V>, i: int, value: V)
    requires
        keys.no_duplicates(),
        keys.len() == values.len(),
        0 <= i < keys.len(),
    ensures
        zipped(keys, values.update(i, value)) == zipped(keys, values).insert(keys[i], value),
{
    assert(keys.contains(keys[i]));
    assert(zipped(keys, values.update(i, value)) =~= zipped(keys, values).insert(keys[i], value));
}

proof fn lemma_inserted<V>(keys: Seq<Seq<u8>>, values: Seq<V>, i: int, key: Seq<u8>, value: V)
    requires
        keys.no_duplicates(),
        keys.len() == values.len(),
        0 <= i <= keys.len(),
        !keys.contains(key),
    ensures
        zipped(keys.insert(i, key), values.insert(i, value)) == zipped(keys, values).insert(
            key,
            value,
        ),
{
    let longer = keys.insert(i, key);
    assert(longer[i] == key);
    assert forall|a: int, b: int| 0 <= a < longer.len() && 0 <= b < longer.len() && a
        != b implies longer[a] != longer[b] by {
        let x = if a < i {
            a
        } else {
            a - 1
        };
        let y = if b < i {
            b
        } else {
            b - 1
        };
        if a == i {
            assert(longer[b] == keys[y]);
        } else if b == i {
            assert(longer[a] == keys[x]);
        } else {
            assert(longer[a] == keys[x] && longer[b] == keys[y]);
        }
    }
    assert forall|k: Seq<u8>| longer.contains(k) <==> keys.contains(k) || k == key by {
        if keys.contains(k) {
            let x = keys.index_of(k);
            assert(longer[if x < i {
                x
            } else {
                x + 1
            }] == k);
        }
        if longer.contains(k) && k != key {
            let a = longer.index_of(k);
            assert(keys[if a < i {
                a
            } else {
                a - 1
            }] == k);
        }
    }
    assert forall|k: Seq<u8>| longer.contains(k) implies #[trigger] zipped(
        longer,
        values.insert(i, value),
    )[k] == zipped(keys, values).insert(key, value)[k] by {
        let a = longer.index_of(k);
        if k == key {
            assert(a == i);
        } else {
            let x = keys.index_of(k);
            assert(longer[if x < i {
                x
            } else {
                x + 1
            }] == k);
        }
    }
    assert(zipped(longer, values.insert(i, value)) =~= zipped(keys, values).insert(key, value));
}

proof fn lemma_removed<V>(keys: Seq<Seq<u8>>, values: Seq<V>, i: int)
    requires
        keys.no_duplicates(),
        keys.len() == values.len(),
        0 <= i < keys.len(),
    ensures
        zipped(keys.remove(i), values.remove(i)) == zipped(keys, values).remove(keys[i]),
{
    let shorter = keys.remove(i);
    let key = keys[i];
    assert forall|a: int| 0 <= a < shorter.len() implies #[trigger] shorter[a] == keys[if a < i {
        a
    } else {
        a + 1
    }] by {}
    assert forall|k: Seq<u8>| shorter.contains(k) <==> keys.contains(k) && k != key by {
        if keys.contains(k) && k != key {
            let x = keys.index_of(k);
            assert(shorter[if x < i {
                x
            } else {
                x - 1
            }] == k);
        }
    }
    assert forall|k: Seq<u8>| shorter.contains(k) implies #[trigger] zipped(
        shorter,
        values.remove(i),
    )[k] == zipped(keys, values)[k] by {
        let a = shorter.index_of(k);
        let x = keys.index_of(k);
        assert(shorter[a] == k && keys[x] == k);
        assert(keys[if a < i {
            a
        } else {
            a + 1
        }] == k);
    }
    assert(zipped(shorter, values.remove(i)) =~= zipped(keys, values).remove(key));
}

} // verus!
