//! Versioned keys: the user's key together with the timestamp of the write.

use crate::common::codec;
use crate::common::order;
use crate::common::simd::compare_bytes;
use std::cmp::Ordering;
use vstd::prelude::*;

verus! {

#[derive(Debug, Clone, PartialEq, Eq, Hash)]
pub struct Key {
    data: Vec<u8>,
    timestamp: u64,
}

/// A key as a mathematical value.
pub struct KeyView {
    pub data: Seq<u8>,
    pub timestamp: u64,
}

impl View for Key {
    type V = KeyView;

    closed spec fn view(&self) -> KeyView {
        KeyView { data: self.data@, timestamp: self.timestamp }
    }
}

impl KeyView {
    /// Keys are ordered by their bytes, and the versions of one key from the
    /// newest to the oldest.
    pub open spec fn before(self, other: KeyView) -> bool {
        ||| order::less(self.data, other.data)
        ||| self.data == other.data && self.timestamp > other.timestamp
    }

    /// The three-way comparison that goes with `before`.
    pub open spec fn compare(self, other: KeyView) -> Ordering {
        if self == other {
            Ordering::Equal
        } else if self.before(other) {
            Ordering::Less
        } else {
            Ordering::Greater
        }
    }
}

/// The order of keys is a strict total order.
pub proof fn lemma_key_order(a: KeyView, b: KeyView, c: KeyView)
    ensures
        !a.before(a),
        a.before(b) ==> !b.before(a) && a != b,
        a == b || a.before(b) || b.before(a),
        a.before(b) && b.before(c) ==> a.before(c),
{
    order::lemma_irreflexive(a.data);
    order::lemma_order(a.data, b.data, a.data);
    order::lemma_order(a.data, b.data, c.data);
    order::lemma_order(b.data, c.data, a.data);
    order::lemma_irreflexive(b.data);
}

/// A newer version of a key stands before an older one.
pub proof fn lemma_newest_first(data: Seq<u8>, newer: u64, older: u64)
    requires
        older < newer,
    ensures
        (KeyView { data, timestamp: newer }).before(KeyView { data, timestamp: older }),
{
}

impl Key {
    pub fn new(data: Vec<u8>, timestamp: u64) -> (key: Key)
        ensures
            key@ == (KeyView { data: data@, timestamp }),
    {
        Key { data, timestamp }
    }

    pub fn data(&self) -> (data: &[u8])
        ensures
            data@ == self@.data,
    {
        self.data.as_slice()
    }

    pub fn timestamp(&self) -> (timestamp: u64)
        ensures
            timestamp == self@.timestamp,
    {
        self.timestamp
    }

    pub fn as_bytes(&self) -> (data: &Vec<u8>)
        ensures
            data@ == self@.data,
    {
        &self.data
    }

    /// A copy of the key.
    pub fn copy(&self) -> (key: Key)
        ensures
            key@ == self@,
    {
        Key { data: codec::copy_bytes(self.data.as_slice()), timestamp: self.timestamp }
    }

    /// Takes the user's key out.
    pub fn into_data(self) -> (data: Vec<u8>)
        ensures
            data@ == self@.data,
    {
        self.data
    }

    /// Compares two keys: by their bytes, and where these are equal the newer
    /// version comes first.
    pub fn compare(&self, other: &Key) -> (result: Ordering)
        ensures
            result == self@.compare(other@),
    {
        proof {
            order::lemma_compare_reversed(self@.data, other@.data);
            order::lemma_irreflexive(self@.data);
        }
        match compare_bytes(self.data.as_slice(), other.data.as_slice()) {
            Ordering::Equal => {
                if self.timestamp == other.timestamp {
                    Ordering::Equal
                } else if self.timestamp > other.timestamp {
                    Ordering::Less
                } else {
                    Ordering::Greater
                }
            },
            Ordering::Less => Ordering::Less,
            Ordering::Greater => Ordering::Greater,
        }
    }

    /// Whether the key stands before another.
    pub fn is_before(&self, other: &Key) -> (result: bool)
        ensures
            result == self@.before(other@),
    {
        proof {
            lemma_key_order(self@, other@, self@);
        }
        match self.compare(other) {
            Ordering::Less => true,
            _ => false,
        }
    }
}

/// Different keys are ordered by their bytes, whatever their timestamps, and versions of one
/// key by these, the newer one first.
pub proof fn lemma_bytes_then_time(a: KeyView, b: KeyView)
    ensures
        a.data != b.data ==> (a.before(b) <==> order::less(a.data, b.data)),
        a.data == b.data ==> (a.before(b) <==> b.timestamp < a.timestamp),
        a.compare(b) == Ordering::Less <==> a.before(b),
        a.compare(b) == Ordering::Equal <==> a.data == b.data && a.timestamp == b.timestamp,
        a.compare(b) == Ordering::Greater <==> b.before(a),
{
    order::lemma_irreflexive(a.data);
    lemma_key_order(a, b, a);
}

} // verus!
