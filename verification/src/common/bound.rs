//! The ends of key ranges.

use crate::common::codec;
use crate::common::order;
use crate::common::simd::{bytes_at_most, bytes_less};
use vstd::prelude::*;

verus! {

/// One end of a range of keys.
#[derive(Debug, Clone, PartialEq, Eq)]
pub enum Bound {
    Included(Vec<u8>),
    Excluded(Vec<u8>),
    Unbounded,
}

/// A bound as a mathematical value.
pub enum BoundView {
    Included(Seq<u8>),
    Excluded(Seq<u8>),
    Unbounded,
}

impl View for Bound {
    type V = BoundView;

    open spec fn view(&self) -> BoundView {
        match self {
            Bound::Included(k) => BoundView::Included(k@),
            Bound::Excluded(k) => BoundView::Excluded(k@),
            Bound::Unbounded => BoundView::Unbounded,
        }
    }
}

impl BoundView {
    /// A range that starts here has not begun after `key`.
    pub open spec fn starts_by(self, key: Seq<u8>) -> bool {
        match self {
            BoundView::Included(s) => order::at_most(s, key),
            BoundView::Excluded(s) => order::less(s, key),
            BoundView::Unbounded => true,
        }
    }

    /// A range that ends here has not ended before `key`.
    pub open spec fn ends_after(self, key: Seq<u8>) -> bool {
        match self {
            BoundView::Included(e) => order::at_most(key, e),
            BoundView::Excluded(e) => order::less(key, e),
            BoundView::Unbounded => true,
        }
    }

    /// The key at the bound, if there is one.
    pub open spec fn key(self) -> Option<Seq<u8>> {
        match self {
            BoundView::Included(k) => Some(k),
            BoundView::Excluded(k) => Some(k),
            BoundView::Unbounded => None,
        }
    }
}

/// `key` lies in the range from `start` to `end`.
pub open spec fn in_range(key: Seq<u8>, start: BoundView, end: BoundView) -> bool {
    start.starts_by(key) && end.ends_after(key)
}

impl Bound {
    /// Whether a range that starts here has begun at `key`.
    pub fn starts_by(&self, key: &[u8]) -> (result: bool)
        ensures
            result == self@.starts_by(key@),
    {
        match self {
            Bound::Included(s) => bytes_at_most(s.as_slice(), key),
            Bound::Excluded(s) => bytes_less(s.as_slice(), key),
            Bound::Unbounded => true,
        }
    }

    /// Whether a range that ends here has not ended at `key`.
    pub fn ends_after(&self, key: &[u8]) -> (result: bool)
        ensures
            result == self@.ends_after(key@),
    {
        match self {
            Bound::Included(e) => bytes_at_most(key, e.as_slice()),
            Bound::Excluded(e) => bytes_less(key, e.as_slice()),
            Bound::Unbounded => true,
        }
    }

    /// A copy of the bound.
    pub fn copy(&self) -> (bound: Bound)
        ensures
            bound@ == self@,
    {
        match self {
            Bound::Included(k) => Bound::Included(codec::copy_bytes(k.as_slice())),
            Bound::Excluded(k) => Bound::Excluded(codec::copy_bytes(k.as_slice())),
            Bound::Unbounded => Bound::Unbounded,
        }
    }
}

/// Whether `key` lies in the range from `start` to `end`.
pub fn key_in_range(key: &[u8], start: &Bound, end: &Bound) -> (result: bool)
    ensures
        result == in_range(key@, start@, end@),
{
    start.starts_by(key) && end.ends_after(key)
}

/// A range holds the keys that are not before its start and not behind its end. The end
/// itself belongs to it where it is included, and an open end leaves nothing out.
pub proof fn lemma_ends(key: Seq<u8>, s: Seq<u8>, e: Seq<u8>, start: BoundView, end: BoundView)
    ensures
        in_range(key, BoundView::Included(s), end) <==> !order::less(key, s) && in_range(
            key,
            BoundView::Unbounded,
            end,
        ),
        in_range(key, BoundView::Excluded(s), end) <==> order::less(s, key) && in_range(
            key,
            BoundView::Unbounded,
            end,
        ),
        in_range(key, start, BoundView::Included(e)) <==> !order::less(e, key) && in_range(
            key,
            start,
            BoundView::Unbounded,
        ),
        in_range(key, start, BoundView::Excluded(e)) <==> order::less(key, e) && in_range(
            key,
            start,
            BoundView::Unbounded,
        ),
        in_range(key, BoundView::Unbounded, BoundView::Unbounded),
{
    order::lemma_irreflexive(key);
    order::lemma_total(key, s);
    order::lemma_total(key, e);
    order::lemma_order(key, s, key);
    order::lemma_order(s, key, s);
    order::lemma_order(key, e, key);
    order::lemma_order(e, key, e);
}

} // verus!
