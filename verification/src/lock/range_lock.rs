//! Range locks and the interval tree that finds them.

use crate::common::bound::{Bound, BoundView};
use crate::common::codec;
use crate::common::order;
use crate::common::simd::{bytes_at_most, bytes_less};
use crate::lock::lock_mode::LockMode;
use vstd::prelude::*;

verus! {

/// A lock on all keys of a range.
#[derive(Debug, Clone)]
pub struct RangeLockEntry {
    pub txn_id: u64,
    pub mode: LockMode,
    pub start: Bound,
    pub end: Bound,
}

/// A range lock as a mathematical value.
pub struct RangeView {
    pub txn_id: u64,
    pub mode: LockMode,
    pub start: BoundView,
    pub end: BoundView,
}

impl View for RangeLockEntry {
    type V = RangeView;

    open spec fn view(&self) -> RangeView {
        RangeView {
            txn_id: self.txn_id,
            mode: self.mode,
            start: self.start@,
            end: self.end@,
        }
    }
}

/// A range that ends at `end` lies wholly before one that starts at `start`.
pub open spec fn ends_before(end: BoundView, start: BoundView) -> bool {
    match (end, start) {
        (BoundView::Unbounded, _) | (_, BoundView::Unbounded) => false,
        (BoundView::Included(e), BoundView::Included(s)) => order::less(e, s),
        (BoundView::Included(e), BoundView::Excluded(s)) => order::at_most(e, s),
        (BoundView::Excluded(e), BoundView::Included(s)) => order::at_most(e, s),
        (BoundView::Excluded(e), BoundView::Excluded(s)) => order::at_most(e, s),
    }
}

impl RangeView {
    /// `key` lies in the range.
    pub open spec fn contains(self, key: Seq<u8>) -> bool {
        crate::common::bound::in_range(key, self.start, self.end)
    }

    /// Neither of the two ranges lies wholly before the other.
    pub open spec fn overlaps(self, start: BoundView, end: BoundView) -> bool {
        !ends_before(self.end, start) && !ends_before(end, self.start)
    }
}

/// Ranges that share a key overlap.
pub proof fn lemma_shared_key_overlaps(r: RangeView, start: BoundView, end: BoundView, key: Seq<u8>)
    requires
        r.contains(key),
        crate::common::bound::in_range(key, start, end),
    ensures
        r.overlaps(start, end),
{
    if let Some(e) = r.end.key() {
        if let Some(s) = start.key() {
            order::lemma_order(e, s, key);
            order::lemma_order(key, e, s);
            order::lemma_order(s, key, e);
            order::lemma_irreflexive(key);
        }
    }
    if let Some(e) = end.key() {
        if let Some(s) = r.start.key() {
            order::lemma_order(e, s, key);
            order::lemma_order(key, e, s);
            order::lemma_order(s, key, e);
            order::lemma_irreflexive(key);
        }
    }
}

/// A range overlaps the range of one key exactly when it contains the key.
pub proof fn lemma_overlaps_point(r: RangeView, key: Seq<u8>)
    ensures
        r.overlaps(BoundView::Included(key), BoundView::Included(key)) <==> r.contains(key),
{
    if let Some(e) = r.end.key() {
        order::lemma_order(e, key, e);
        order::lemma_order(key, e, key);
        order::lemma_irreflexive(e);
    }
    if let Some(s) = r.start.key() {
        order::lemma_order(s, key, s);
        order::lemma_order(key, s, key);
        order::lemma_irreflexive(s);
    }
}

impl RangeLockEntry {
    pub fn new(txn_id: u64, mode: LockMode, start: Bound, end: Bound) -> (entry: Self)
        ensures
            entry == (RangeLockEntry { txn_id, mode, start, end }),
    {
        RangeLockEntry { txn_id, mode, start, end }
    }

    pub fn contains_key(&self, key: &[u8]) -> (result: bool)
        ensures
            result == self@.contains(key@),
    {
        self.start.starts_by(key) && self.end.ends_after(key)
    }

    pub fn overlaps(&self, other_start: &Bound, other_end: &Bound) -> (result: bool)
        ensures
            result == self@.overlaps(other_start@, other_end@),
    {
        !lies_before(&self.end, other_start) && !lies_before(other_end, &self.start)
    }
}

/// Whether a range that ends at `end` lies wholly before one that starts at `start`.
fn lies_before(end: &Bound, start: &Bound) -> (result: bool)
    ensures
        result == ends_before(end@, start@),
{
    match (end, start) {
        (Bound::Unbounded, _) => false,
        (_, Bound::Unbounded) => false,
        (Bound::Included(e), Bound::Included(s)) => bytes_less(e.as_slice(), s.as_slice()),
        (Bound::Included(e), Bound::Excluded(s)) => bytes_at_most(e.as_slice(), s.as_slice()),
        (Bound::Excluded(e), Bound::Included(s)) => bytes_at_most(e.as_slice(), s.as_slice()),
        (Bound::Excluded(e), Bound::Excluded(s)) => bytes_at_most(e.as_slice(), s.as_slice()),
    }
}

/// A range that starts at `a` begins before one that starts at `b`.
#[verifier::opaque]
pub open spec fn start_less(a: BoundView, b: BoundView) -> bool {
    match (a, b) {
        (BoundView::Unbounded, BoundView::Unbounded) => false,
        (BoundView::Unbounded, _) => true,
        (_, BoundView::Unbounded) => false,
        (BoundView::Included(x), BoundView::Included(y)) => order::less(x, y),
        (BoundView::Included(x), BoundView::Excluded(y)) => order::at_most(x, y),
        (BoundView::Excluded(x), BoundView::Included(y)) => order::less(x, y),
        (BoundView::Excluded(x), BoundView::Excluded(y)) => order::less(x, y),
    }
}

/// Starts are totally ordered.
pub proof fn lemma_start_order(a: BoundView, b: BoundView, c: BoundView)
    ensures
        !start_less(a, a),
        start_less(a, b) ==> !start_less(b, a) && a != b,
        a == b || start_less(a, b) || start_less(b, a),
        start_less(a, b) && start_less(b, c) ==> start_less(a, c),
{
    reveal(start_less);
    let empty = Seq::<u8>::empty();
    let x = if let Some(k) = a.key() { k } else { empty };
    let y = if let Some(k) = b.key() { k } else { empty };
    let z = if let Some(k) = c.key() { k } else { empty };
    order::lemma_irreflexive(x);
    order::lemma_irreflexive(y);
    order::lemma_order(x, y, z);
    order::lemma_order(y, x, y);
    order::lemma_order(x, y, x);
}

fn starts_before(a: &Bound, b: &Bound) -> (result: bool)
    ensures
        result == start_less(a@, b@),
{
    reveal(start_less);
    match (a, b) {
        (Bound::Unbounded, Bound::Unbounded) => false,
        (Bound::Unbounded, _) => true,
        (_, Bound::Unbounded) => false,
        (Bound::Included(x), Bound::Included(y)) => bytes_less(x.as_slice(), y.as_slice()),
        (Bound::Included(x), Bound::Excluded(y)) => bytes_at_most(x.as_slice(), y.as_slice()),
        (Bound::Excluded(x), Bound::Included(y)) => bytes_less(x.as_slice(), y.as_slice()),
        (Bound::Excluded(x), Bound::Excluded(y)) => bytes_less(x.as_slice(), y.as_slice()),
    }
}

/// The key at the end of a range, if it has an end.
spec fn end_key(end: BoundView) -> Option<Seq<u8>> {
    end.key()
}

/// One end is before another. No end is after every key.
spec fn end_less(a: Option<Seq<u8>>, b: Option<Seq<u8>>) -> bool {
    match (a, b) {
        (None, _) => false,
        (Some(_), None) => true,
        (Some(x), Some(y)) => order::less(x, y),
    }
}

spec fn end_at_most(a: Option<Seq<u8>>, b: Option<Seq<u8>>) -> bool {
    a == b || end_less(a, b)
}

/// The order of ends is a strict total order.
proof fn lemma_end_order(a: Option<Seq<u8>>, b: Option<Seq<u8>>, c: Option<Seq<u8>>)
    ensures
        !end_less(a, a),
        end_less(a, b) && end_less(b, c) ==> end_less(a, c),
        end_less(a, b) ==> !end_less(b, a) && a != b,
        a == b || end_less(a, b) || end_less(b, a),
{
    if let Some(x) = a {
        order::lemma_irreflexive(x);
        if let Some(y) = b {
            order::lemma_order(x, y, x);
            if let Some(z) = c {
                order::lemma_order(x, y, z);
            }
        }
    }
}

spec fn key_view(key: Option<Vec<u8>>) -> Option<Seq<u8>> {
    match key {
        Some(k) => Some(k@),
        None => None,
    }
}

fn end_key_of(end: &Bound) -> (key: Option<Vec<u8>>)
    ensures
        key_view(key) == end_key(end@),
{
    match end {
        Bound::Included(k) => Some(codec::copy_bytes(k.as_slice())),
        Bound::Excluded(k) => Some(codec::copy_bytes(k.as_slice())),
        Bound::Unbounded => None,
    }
}

fn is_end_less(a: &Option<Vec<u8>>, b: &Option<Vec<u8>>) -> (result: bool)
    ensures
        result == end_less(key_view(*a), key_view(*b)),
{
    match (a, b) {
        (None, _) => false,
        (Some(_), None) => true,
        (Some(x), Some(y)) => bytes_less(x.as_slice(), y.as_slice()),
    }
}

fn copy_end(end: &Option<Vec<u8>>) -> (copy: Option<Vec<u8>>)
    ensures
        key_view(copy) == key_view(*end),
{
    match end {
        Some(k) => Some(codec::copy_bytes(k.as_slice())),
        None => None,
    }
}

/// No range whose end is at most `max_end` reaches `start`.
spec fn below(max_end: Option<Seq<u8>>, start: BoundView) -> bool {
    match (max_end, start) {
        (None, _) | (_, BoundView::Unbounded) => false,
        (Some(e), BoundView::Included(s)) => order::less(e, s),
        (Some(e), BoundView::Excluded(s)) => order::at_most(e, s),
    }
}

fn is_below(max_end: &Option<Vec<u8>>, start: &Bound) -> (result: bool)
    ensures
        result == below(key_view(*max_end), start@),
{
    match (max_end, start) {
        (None, _) => false,
        (_, Bound::Unbounded) => false,
        (Some(e), Bound::Included(s)) => bytes_less(e.as_slice(), s.as_slice()),
        (Some(e), Bound::Excluded(s)) => bytes_at_most(e.as_slice(), s.as_slice()),
    }
}

/// A range that starts at `start` or later lies wholly after `end`.
spec fn beyond(start: BoundView, end: BoundView) -> bool {
    match (start, end) {
        (BoundView::Unbounded, _) | (_, BoundView::Unbounded) => false,
        (BoundView::Included(s), BoundView::Included(e)) => order::less(e, s),
        (BoundView::Included(s), BoundView::Excluded(e)) => order::at_most(e, s),
        (BoundView::Excluded(s), BoundView::Included(e)) => order::less(e, s),
        (BoundView::Excluded(s), BoundView::Excluded(e)) => order::at_most(e, s),
    }
}

fn is_beyond(start: &Bound, end: &Bound) -> (result: bool)
    ensures
        result == beyond(start@, end@),
{
    match (start, end) {
        (Bound::Unbounded, _) => false,
        (_, Bound::Unbounded) => false,
        (Bound::Included(s), Bound::Included(e)) => bytes_less(e.as_slice(), s.as_slice()),
        (Bound::Included(s), Bound::Excluded(e)) => bytes_at_most(e.as_slice(), s.as_slice()),
        (Bound::Excluded(s), Bound::Included(e)) => bytes_less(e.as_slice(), s.as_slice()),
        (Bound::Excluded(s), Bound::Excluded(e)) => bytes_at_most(e.as_slice(), s.as_slice()),
    }
}

struct IntervalNode {
    entry: RangeLockEntry,
    max_end: Option<Vec<u8>>,
    left: Option<usize>,
    right: Option<usize>,
}

struct NodeView {
    entry: RangeView,
    max_end: Option<Seq<u8>>,
    left: Option<usize>,
    right: Option<usize>,
}

impl View for IntervalNode {
    type V = NodeView;

    closed spec fn view(&self) -> NodeView {
        NodeView {
            entry: self.entry@,
            max_end: key_view(self.max_end),
            left: self.left,
            right: self.right,
        }
    }
}

/// The nodes under `i` and `i` itself, from left to right.
spec fn in_order(t: Seq<NodeView>, i: int) -> Seq<int>
    decreases t.len() - i,
{
    if 0 <= i < t.len() {
        let left = match t[i].left {
            Some(l) if i < l < t.len() => in_order(t, l as int),
            _ => Seq::empty(),
        };
        let right = match t[i].right {
            Some(r) if i < r < t.len() => in_order(t, r as int),
            _ => Seq::empty(),
        };
        left + seq![i] + right
    } else {
        Seq::empty()
    }
}

/// `c` is a child of `i`.
spec fn child(t: Seq<NodeView>, i: int, c: int) -> bool {
    t[i].left == Some(c as usize) || t[i].right == Some(c as usize)
}

/// Children stand behind their parents, and every node has one parent at most.
spec fn links_ok(t: Seq<NodeView>) -> bool {
    &&& forall|i: int|
        0 <= i < t.len() ==> match (#[trigger] t[i]).left {
            Some(l) => i < l < t.len() && t[i].right != Some(l),
            None => true,
        } && match t[i].right {
            Some(r) => i < r < t.len(),
            None => true,
        }
    &&& forall|i: int, j: int, c: usize|
        0 <= i < t.len() && 0 <= j < t.len() && #[trigger] child(t, i, c as int)
            && #[trigger] child(t, j, c as int) ==> i == j
}

/// Node `i` comes before node `j`: its range starts earlier, or at the same place
/// and it was inserted earlier.
spec fn node_before(t: Seq<NodeView>, i: int, j: int) -> bool {
    start_less(t[i].entry.start, t[j].entry.start) || (t[i].entry.start == t[j].entry.start && i
        < j)
}

spec fn sorted(t: Seq<NodeView>, o: Seq<int>) -> bool {
    forall|a: int, b: int| 0 <= a < b < o.len() ==> node_before(t, #[trigger] o[a], #[trigger] o[b])
}

/// The greatest end at node `i` is no less than its own and those of its children.
spec fn covers(t: Seq<NodeView>, i: int) -> bool {
    &&& end_at_most(end_key(t[i].entry.end), t[i].max_end)
    &&& match t[i].left {
        Some(l) => end_at_most(t[l as int].max_end, t[i].max_end),
        None => true,
    }
    &&& match t[i].right {
        Some(r) => end_at_most(t[r as int].max_end, t[i].max_end),
        None => true,
    }
}

spec fn maxima_ok(t: Seq<NodeView>) -> bool {
    forall|i: int| 0 <= i < t.len() ==> #[trigger] covers(t, i)
}

spec fn tree_ok(t: Seq<NodeView>) -> bool {
    &&& links_ok(t)
    &&& maxima_ok(t)
    &&& t.len() <= usize::MAX
    &&& sorted(t, in_order(t, 0))
    &&& forall|j: int| 0 <= j < t.len() <==> #[trigger] in_order(t, 0).contains(j)
}

/// Which nodes a search of the subtree at `i` reports.
spec fn search(t: Seq<NodeView>, i: int, start: BoundView, end: BoundView) -> Seq<int>
    decreases t.len() - i,
{
    if 0 <= i < t.len() && !below(t[i].max_end, start) {
        let left = match t[i].left {
            Some(l) if i < l < t.len() => search(t, l as int, start, end),
            _ => Seq::empty(),
        };
        let own = if t[i].entry.overlaps(start, end) {
            seq![i]
        } else {
            Seq::empty()
        };
        let right = match t[i].right {
            Some(r) if i < r < t.len() && !beyond(t[i].entry.start, end) => search(
                t,
                r as int,
                start,
                end,
            ),
            _ => Seq::empty(),
        };
        left + own + right
    } else {
        Seq::empty()
    }
}

/// Where the search for the place of a range that starts at `start` goes from node `i`.
spec fn towards(t: Seq<NodeView>, i: int, start: BoundView) -> Option<usize> {
    if start_less(start, t[i].entry.start) {
        t[i].left
    } else {
        t[i].right
    }
}

/// `path` leads from the root towards the place of a range that starts at `start`.
spec fn descends(t: Seq<NodeView>, path: Seq<int>, start: BoundView) -> bool {
    &&& path.len() > 0
    &&& path[0] == 0
    &&& forall|k: int| 0 <= k < path.len() ==> 0 <= #[trigger] path[k] < t.len()
    &&& forall|k: int| 0 <= k < path.len() - 1 ==> #[trigger] steps(t, path, start, k)
}

/// The path goes on from its `k`th node as the order demands.
spec fn steps(t: Seq<NodeView>, path: Seq<int>, start: BoundView, k: int) -> bool {
    towards(t, path[k], start) == Some(path[k + 1] as usize)
}

spec fn raised(max_end: Option<Seq<u8>>, end: Option<Seq<u8>>) -> Option<Seq<u8>> {
    if end_less(max_end, end) {
        end
    } else {
        max_end
    }
}

spec fn same_shape(a: NodeView, b: NodeView) -> bool {
    a.left == b.left && a.right == b.right
}

/// `u` is `t` with the greatest end keys on the path raised for `entry`.
spec fn raised_along(t: Seq<NodeView>, u: Seq<NodeView>, path: Seq<int>, entry: RangeView) -> bool {
    &&& u.len() == t.len()
    &&& forall|i: int|
        0 <= i < t.len() ==> (#[trigger] u[i]).entry == t[i].entry && u[i].max_end == (
        if path.contains(i) {
            raised(t[i].max_end, end_key(entry.end))
        } else {
            t[i].max_end
        })
}

/// `u` is `t` with room made for `entry` at the end of the path.
spec fn linked(t: Seq<NodeView>, u: Seq<NodeView>, path: Seq<int>, entry: RangeView) -> bool {
    let last = path.last();
    &&& descends(t, path, entry.start)
    &&& raised_along(t, u, path, entry)
    &&& towards(t, last, entry.start) is None
    &&& forall|i: int| 0 <= i < t.len() && i != last ==> same_shape(#[trigger] u[i], t[i])
    &&& if start_less(entry.start, t[last].entry.start) {
        u[last].left == Some(t.len() as usize) && u[last].right == t[last].right
    } else {
        u[last].left == t[last].left && u[last].right == Some(t.len() as usize)
    }
}

spec fn leaf(entry: RangeView) -> NodeView {
    NodeView { entry, max_end: end_key(entry.end), left: None, right: None }
}

proof fn lemma_in_order_bounds(t: Seq<NodeView>, i: int)
    requires
        0 <= i < t.len(),
    ensures
        in_order(t, i).contains(i),
        forall|j: int| #[trigger] in_order(t, i).contains(j) ==> i <= j < t.len(),
    decreases t.len() - i,
{
    let o = in_order(t, i);
    let left = match t[i].left {
        Some(l) if i < l < t.len() => in_order(t, l as int),
        _ => Seq::empty(),
    };
    assert(o[left.len() as int] == i);
    if let Some(l) = t[i].left {
        if i < l < t.len() {
            lemma_in_order_bounds(t, l as int);
        }
    }
    if let Some(r) = t[i].right {
        if i < r < t.len() {
            lemma_in_order_bounds(t, r as int);
        }
    }
    assert forall|j: int| #[trigger] o.contains(j) implies i <= j < t.len() by {
        let a = choose|a: int| 0 <= a < o.len() && o[a] == j;
        if a < left.len() {
            assert(left[a] == j);
            assert(left.contains(j));
        } else if a > left.len() {
            let right = match t[i].right {
                Some(r) if i < r < t.len() => in_order(t, r as int),
                _ => Seq::empty(),
            };
            assert(right[a - left.len() - 1] == j);
            assert(right.contains(j));
        }
    }
}

/// A subtree without the node that gains a child keeps its order.
proof fn lemma_same_order(t: Seq<NodeView>, v: Seq<NodeView>, q: int, last: int)
    requires
        0 <= q < t.len(),
        t.len() <= v.len(),
        links_ok(t),
        !in_order(t, q).contains(last),
        forall|i: int| 0 <= i < t.len() && i != last ==> same_shape(#[trigger] v[i], t[i]),
    ensures
        in_order(v, q) == in_order(t, q),
    decreases t.len() - q,
{
    lemma_in_order_bounds(t, q);
    assert(same_shape(v[q], t[q]));
    let o = in_order(t, q);
    let left = match t[q].left {
        Some(l) => in_order(t, l as int),
        None => Seq::empty(),
    };
    let right = match t[q].right {
        Some(r) => in_order(t, r as int),
        None => Seq::empty(),
    };
    assert(o == left + seq![q] + right);
    assert forall|j: int| left.contains(j) || right.contains(j) implies o.contains(j) by {
        if left.contains(j) {
            let a = choose|a: int| 0 <= a < left.len() && left[a] == j;
            assert(o[a] == j);
        } else {
            let a = choose|a: int| 0 <= a < right.len() && right[a] == j;
            assert(o[left.len() + 1 + a] == j);
        }
    }
    if let Some(l) = t[q].left {
        lemma_same_order(t, v, l as int, last);
    }
    if let Some(r) = t[q].right {
        lemma_same_order(t, v, r as int, last);
    }
}

/// The end of the path lies in the subtree of every node on it.
proof fn lemma_last_below(t: Seq<NodeView>, path: Seq<int>, start: BoundView, k: int)
    requires
        links_ok(t),
        descends(t, path, start),
        0 <= k < path.len(),
        t.len() <= usize::MAX,
    ensures
        in_order(t, path[k]).contains(path.last()),
    decreases path.len() - k,
{
    let p = path[k];
    lemma_in_order_bounds(t, p);
    if k < path.len() - 1 {
        assert(steps(t, path, start, k));
        lemma_last_below(t, path, start, k + 1);
        let o = in_order(t, p);
        let left = match t[p].left {
            Some(l) => in_order(t, l as int),
            None => Seq::empty(),
        };
        let sub = in_order(t, path[k + 1]);
        let a = choose|a: int| 0 <= a < sub.len() && sub[a] == path.last();
        if start_less(start, t[p].entry.start) {
            assert(o[a] == path.last());
        } else {
            assert(o[left.len() + 1 + a] == path.last());
        }
    }
}

/// `o` with `n` put in at `m`, where it belongs.
spec fn spliced(t: Seq<NodeView>, o: Seq<int>, with: Seq<int>, n: int, m: int) -> bool {
    &&& 0 <= m <= o.len()
    &&& with == o.take(m) + seq![n] + o.skip(m)
    &&& forall|a: int| 0 <= a < m ==> node_before(t, #[trigger] o[a], n)
    &&& forall|a: int| m <= a < o.len() ==> node_before(t, n, #[trigger] o[a])
}

proof fn lemma_splice_left(
    v: Seq<NodeView>,
    left: Seq<int>,
    with: Seq<int>,
    p: int,
    right: Seq<int>,
    n: int,
    m: int,
)
    requires
        spliced(v, left, with, n, m),
        node_before(v, n, p),
        forall|a: int| 0 <= a < right.len() ==> node_before(v, n, #[trigger] right[a]),
    ensures
        spliced(v, left + seq![p] + right, with + seq![p] + right, n, m),
{
    let o = left + seq![p] + right;
    assert(with + seq![p] + right =~= o.take(m) + seq![n] + o.skip(m));
    assert forall|a: int| m <= a < o.len() implies node_before(v, n, #[trigger] o[a]) by {
        if a < left.len() {
            assert(o[a] == left[a]);
        } else if a > left.len() {
            assert(o[a] == right[a - left.len() - 1]);
        }
    }
    assert forall|a: int| 0 <= a < m implies node_before(v, #[trigger] o[a], n) by {
        assert(o[a] == left[a]);
    }
}

proof fn lemma_splice_right(
    v: Seq<NodeView>,
    left: Seq<int>,
    p: int,
    right: Seq<int>,
    with: Seq<int>,
    n: int,
    m: int,
)
    requires
        spliced(v, right, with, n, m),
        node_before(v, p, n),
        forall|a: int| 0 <= a < left.len() ==> node_before(v, #[trigger] left[a], n),
    ensures
        spliced(v, left + seq![p] + right, left + seq![p] + with, n, left.len() + 1 + m),
{
    let o = left + seq![p] + right;
    let at = left.len() + 1 + m;
    assert(left + seq![p] + with =~= o.take(at) + seq![n] + o.skip(at));
    assert forall|a: int| 0 <= a < at implies node_before(v, #[trigger] o[a], n) by {
        if a < left.len() {
            assert(o[a] == left[a]);
        } else if a > left.len() {
            assert(o[a] == right[a - left.len() - 1]);
        }
    }
    assert forall|a: int| at <= a < o.len() implies node_before(v, n, #[trigger] o[a]) by {
        assert(o[a] == right[a - left.len() - 1]);
    }
}

spec fn left_of(t: Seq<NodeView>, p: int) -> Seq<int> {
    match t[p].left {
        Some(l) => in_order(t, l as int),
        None => Seq::empty(),
    }
}

spec fn right_of(t: Seq<NodeView>, p: int) -> Seq<int> {
    match t[p].right {
        Some(r) => in_order(t, r as int),
        None => Seq::empty(),
    }
}

/// The nodes under `p` stand on their side of it.
proof fn lemma_sides(t: Seq<NodeView>, p: int)
    requires
        links_ok(t),
        0 <= p < t.len(),
        sorted(t, in_order(t, p)),
    ensures
        in_order(t, p) == left_of(t, p) + seq![p] + right_of(t, p),
        sorted(t, left_of(t, p)),
        sorted(t, right_of(t, p)),
        forall|a: int|
            0 <= a < left_of(t, p).len() ==> 0 <= #[trigger] left_of(t, p)[a] < t.len()
                && node_before(t, left_of(t, p)[a], p),
        forall|a: int|
            0 <= a < right_of(t, p).len() ==> 0 <= #[trigger] right_of(t, p)[a] < t.len()
                && node_before(t, p, right_of(t, p)[a]),
{
    let o = in_order(t, p);
    let left = left_of(t, p);
    let right = right_of(t, p);
    assert(t[p].left == t[p].left);
    assert(o == left + seq![p] + right);
    lemma_in_order_bounds(t, p);
    assert(o[left.len() as int] == p);
    assert forall|a: int| 0 <= a < left.len() implies 0 <= #[trigger] left[a] < t.len()
        && node_before(t, left[a], p) by {
        assert(o[a] == left[a]);
        assert(o.contains(o[a]));
    }
    assert forall|a: int| 0 <= a < right.len() implies 0 <= #[trigger] right[a] < t.len()
        && node_before(t, p, right[a]) by {
        assert(o[left.len() + 1 + a] == right[a]);
        assert(o.contains(o[left.len() + 1 + a]));
    }
    assert forall|a: int, b: int| 0 <= a < b < left.len() implies node_before(
        t,
        #[trigger] left[a],
        #[trigger] left[b],
    ) by {
        assert(o[a] == left[a] && o[b] == left[b]);
    }
    assert forall|a: int, b: int| 0 <= a < b < right.len() implies node_before(
        t,
        #[trigger] right[a],
        #[trigger] right[b],
    ) by {
        assert(o[left.len() + 1 + a] == right[a] && o[left.len() + 1 + b] == right[b]);
    }
}

/// The side of a node that the path does not take.
proof fn lemma_other_side(t: Seq<NodeView>, path: Seq<int>, start: BoundView, k: int)
    requires
        links_ok(t),
        descends(t, path, start),
        t.len() <= usize::MAX,
        0 <= k < path.len(),
        sorted(t, in_order(t, path[k])),
    ensures
        start_less(start, t[path[k]].entry.start) ==> !right_of(t, path[k]).contains(path.last()),
        !start_less(start, t[path[k]].entry.start) ==> !left_of(t, path[k]).contains(path.last()),
{
    let p = path[k];
    let last = path.last();
    let left = left_of(t, p);
    let right = right_of(t, p);
    lemma_sides(t, p);
    lemma_start_order(t[last].entry.start, t[p].entry.start, t[last].entry.start);
    lemma_start_order(t[p].entry.start, t[last].entry.start, t[p].entry.start);
    if left.contains(last) {
        let a = choose|a: int| 0 <= a < left.len() && left[a] == last;
        assert(node_before(t, left[a], p));
    }
    if right.contains(last) {
        let a = choose|a: int| 0 <= a < right.len() && right[a] == last;
        assert(node_before(t, p, right[a]));
    }
    if k < path.len() - 1 {
        lemma_last_below(t, path, start, k + 1);
        assert(steps(t, path, start, k));
    }
}

/// Each subtree on the path gains the new node, at its place in the order.
proof fn lemma_spliced(
    t: Seq<NodeView>,
    u: Seq<NodeView>,
    path: Seq<int>,
    entry: RangeView,
    k: int,
) -> (m: int)
    requires
        links_ok(t),
        linked(t, u, path, entry),
        t.len() < usize::MAX,
        0 <= k < path.len(),
        sorted(t, in_order(t, path[k])),
    ensures
        spliced(
            u.push(leaf(entry)),
            in_order(t, path[k]),
            in_order(u.push(leaf(entry)), path[k]),
            t.len() as int,
            m,
        ),
    decreases path.len() - k,
{
    let v = u.push(leaf(entry));
    let n = t.len() as int;
    let p = path[k];
    let last = path.last();
    let left = left_of(t, p);
    let right = right_of(t, p);
    let goes_left = start_less(entry.start, t[p].entry.start);
    lemma_sides(t, p);
    lemma_other_side(t, path, entry.start, k);
    assert forall|i: int| 0 <= i < t.len() implies (#[trigger] v[i]).entry == t[i].entry && (i
        != last ==> same_shape(v[i], t[i])) by {
        assert(v[i] == u[i]);
    }
    assert(v[n] == leaf(entry));
    lemma_start_order(entry.start, t[p].entry.start, entry.start);
    let (sub, with, m0) = if k < path.len() - 1 {
        assert(steps(t, path, entry.start, k));
        lemma_path_increases(t, path, entry.start, k, path.len() - 1);
        let m0 = lemma_spliced(t, u, path, entry, k + 1);
        (in_order(t, path[k + 1]), in_order(v, path[k + 1]), m0)
    } else {
        assert(in_order(v, n) =~= seq![n]) by {
            reveal_with_fuel(in_order, 2);
        }
        assert(seq![n] =~= Seq::<int>::empty().take(0) + seq![n] + Seq::<int>::empty().skip(0));
        (Seq::empty(), seq![n], 0)
    };
    if goes_left {
        assert(sub == left);
        assert forall|a: int| 0 <= a < right.len() implies node_before(v, n, #[trigger] right[a]) by {
            let j = right[a];
            lemma_start_order(entry.start, t[p].entry.start, t[j].entry.start);
        }
        lemma_splice_left(v, left, with, p, right, n, m0);
        if let Some(r) = t[p].right {
            lemma_same_order(t, v, r as int, last);
        }
        assert(in_order(v, p) =~= with + seq![p] + right);
        m0
    } else {
        assert(sub == right);
        assert forall|a: int| 0 <= a < left.len() implies node_before(v, #[trigger] left[a], n) by {
            let j = left[a];
            lemma_start_order(t[j].entry.start, t[p].entry.start, entry.start);
            lemma_start_order(entry.start, t[p].entry.start, t[j].entry.start);
        }
        lemma_splice_right(v, left, p, right, with, n, m0);
        if let Some(l) = t[p].left {
            lemma_same_order(t, v, l as int, last);
        }
        assert(in_order(v, p) =~= left + seq![p] + with);
        left.len() + 1 + m0
    }
}

proof fn lemma_path_increases(t: Seq<NodeView>, path: Seq<int>, start: BoundView, i: int, j: int)
    requires
        links_ok(t),
        descends(t, path, start),
        t.len() <= usize::MAX,
        0 <= i < j < path.len(),
    ensures
        path[i] < path[j],
    decreases j - i,
{
    assert(steps(t, path, start, j - 1));
    assert(t[path[j - 1]].left == t[path[j - 1]].left);
    if i < j - 1 {
        lemma_path_increases(t, path, start, i, j - 1);
    }
}

proof fn lemma_inserted(t: Seq<NodeView>, u: Seq<NodeView>, path: Seq<int>, entry: RangeView)
    requires
        tree_ok(t),
        linked(t, u, path, entry),
        t.len() < usize::MAX,
    ensures
        tree_ok(u.push(leaf(entry))),
{
    let v = u.push(leaf(entry));
    let n = t.len() as int;
    let last = path.last();
    let o = in_order(t, 0);
    let now = in_order(v, 0);
    let m = lemma_spliced(t, u, path, entry, 0);
    assert forall|i: int| 0 <= i < t.len() implies #[trigger] v[i] == u[i] by {}
    assert(v[n] == leaf(entry));
    lemma_in_order_bounds(t, 0);
    assert forall|a: int, b: int| 0 <= a < b < now.len() implies node_before(
        v,
        #[trigger] now[a],
        #[trigger] now[b],
    ) by {
        let a0 = if a < m { a } else { a - 1 };
        let b0 = if b < m { b } else { b - 1 };
        if a != m {
            assert(now[a] == o[a0]);
            assert(o.contains(o[a0]));
        }
        if b != m {
            assert(now[b] == o[b0]);
            assert(o.contains(o[b0]));
        }
        if a != m && b != m {
            assert(node_before(t, o[a0], o[b0]));
        }
    }
    assert forall|j: int| 0 <= j < v.len() <==> #[trigger] now.contains(j) by {
        if 0 <= j < t.len() {
            assert(o.contains(j));
            let a = choose|a: int| 0 <= a < o.len() && o[a] == j;
            assert(now[if a < m { a } else { a + 1 }] == j);
        } else if j == n {
            assert(now[m] == n);
        } else if now.contains(j) {
            let a = choose|a: int| 0 <= a < now.len() && now[a] == j;
            assert(a != m);
            assert(now[a] == o[if a < m { a } else { a - 1 }]);
            assert(o.contains(j));
        }
    }
    assert(links_ok(v)) by {
        assert forall|i: int| 0 <= i < v.len() implies match (#[trigger] v[i]).left {
            Some(l) => i < l < v.len() && v[i].right != Some(l),
            None => true,
        } && match v[i].right {
            Some(r) => i < r < v.len(),
            None => true,
        } by {
            if i < n {
                assert(v[i] == u[i]);
                assert(t[i].left == t[i].left);
                if i != last {
                    assert(same_shape(u[i], t[i]));
                }
            }
        }
        assert forall|i: int, j: int, c: usize|
            0 <= i < v.len() && 0 <= j < v.len() && #[trigger] child(v, i, c as int)
                && #[trigger] child(v, j, c as int) implies i == j by {
            assert(i < n && j < n);
            assert(t[i].left == t[i].left && t[j].left == t[j].left);
            assert(i != last ==> same_shape(u[i], t[i]));
            assert(j != last ==> same_shape(u[j], t[j]));
            if c != n {
                assert(child(t, i, c as int) && child(t, j, c as int));
            }
        }
    }
    assert(maxima_ok(v)) by {
        let end = end_key(entry.end);
        assert forall|i: int| 0 <= i < v.len() implies #[trigger] covers(v, i) by {
            if i < n {
                assert(covers(t, i));
                assert(v[i] == u[i]);
                assert(t[i].left == t[i].left);
                assert(i != last ==> same_shape(u[i], t[i]));
                let own = end_key(t[i].entry.end);
                lemma_end_order(own, t[i].max_end, end);
                lemma_end_order(t[i].max_end, end, own);
                if let Some(l) = v[i].left {
                    lemma_child_max(t, v, path, entry, i, l as int);
                }
                if let Some(r) = v[i].right {
                    lemma_child_max(t, v, path, entry, i, r as int);
                }
            }
        }
    }
}

/// A child's greatest end key is no more than its parent's after an insertion.
proof fn lemma_child_max(
    t: Seq<NodeView>,
    v: Seq<NodeView>,
    path: Seq<int>,
    entry: RangeView,
    i: int,
    c: int,
)
    requires
        links_ok(t),
        maxima_ok(t),
        t.len() < usize::MAX,
        v.len() == t.len() + 1,
        linked(t, v.drop_last(), path, entry),
        v.last() == leaf(entry),
        0 <= i < t.len(),
        child(v, i, c),
        0 <= c < v.len(),
    ensures
        end_at_most(v[c].max_end, v[i].max_end),
{
    let end = end_key(entry.end);
    let n = t.len() as int;
    let u = v.drop_last();
    assert(u[i] == v[i]);
    assert(t[i].left == t[i].left);
    assert(i != path.last() ==> same_shape(u[i], t[i]));
    lemma_end_order(t[i].max_end, end, t[i].max_end);
    lemma_end_order(end, t[i].max_end, end);
    if c == n {
        assert(i == path.last());
        assert(path.contains(i)) by {
            assert(path[path.len() - 1] == i);
        }
    } else {
        assert(u[c] == v[c]);
        assert(child(t, i, c));
        assert(covers(t, i));
        assert(end_at_most(t[c].max_end, t[i].max_end));
        if path.contains(c) {
            let k = choose|k: int| 0 <= k < path.len() && path[k] == c;
            assert(k > 0);
            let p = path[k - 1];
            assert(steps(t, path, entry.start, k - 1));
            assert(child(t, p, c));
            assert(child(t, i, (c as usize) as int) && child(t, p, (c as usize) as int));
            assert(i == p);
            assert(path.contains(i));
        }
        lemma_end_order(t[c].max_end, t[i].max_end, end);
        lemma_end_order(t[c].max_end, end, t[i].max_end);
        lemma_end_order(end, t[c].max_end, t[i].max_end);
        lemma_end_order(t[i].max_end, end, t[c].max_end);
    }
}

/// `hits` lists the positions of all ranges that overlap the one from `start` to `end`,
/// ordered by where they start and then by position.
pub open spec fn lists_overlaps(
    ranges: Seq<RangeView>,
    hits: Seq<int>,
    start: BoundView,
    end: BoundView,
) -> bool {
    &&& forall|a: int|
        0 <= a < hits.len() ==> 0 <= #[trigger] hits[a] < ranges.len() && ranges[hits[a]].overlaps(
            start,
            end,
        )
    &&& forall|a: int, b: int|
        #![trigger hits[a], hits[b]]
        0 <= a < b < hits.len() ==> start_less(ranges[hits[a]].start, ranges[hits[b]].start) || (
        ranges[hits[a]].start == ranges[hits[b]].start && hits[a] < hits[b])
    &&& forall|i: int|
        0 <= i < ranges.len() && (#[trigger] ranges[i]).overlaps(start, end) ==> hits.contains(i)
}

spec fn pushed(s: Seq<int>, cond: bool, i: int) -> Seq<int> {
    if cond {
        s.push(i)
    } else {
        s
    }
}

/// Every end in the subtree is at most the greatest one at its root.
proof fn lemma_max_bounds(t: Seq<NodeView>, i: int, j: int)
    requires
        links_ok(t),
        maxima_ok(t),
        0 <= i < t.len(),
        in_order(t, i).contains(j),
    ensures
        end_at_most(end_key(t[j].entry.end), t[i].max_end),
    decreases t.len() - i,
{
    let left = left_of(t, i);
    let right = right_of(t, i);
    let o = in_order(t, i);
    assert(covers(t, i));
    assert(t[i].left == t[i].left);
    assert(o == left + seq![i] + right);
    let a = choose|a: int| 0 <= a < o.len() && o[a] == j;
    let end = end_key(t[j].entry.end);
    if a < left.len() {
        let l = t[i].left->Some_0 as int;
        assert(left[a] == j);
        assert(left.contains(j));
        lemma_max_bounds(t, l, j);
        lemma_end_order(end, t[l].max_end, t[i].max_end);
    } else if a > left.len() {
        let r = t[i].right->Some_0 as int;
        assert(right[a - left.len() - 1] == j);
        assert(right.contains(j));
        lemma_max_bounds(t, r, j);
        lemma_end_order(end, t[r].max_end, t[i].max_end);
    }
}

/// A search reports nodes of the subtree that overlap, in order, and passes over none
/// that it must report.
proof fn lemma_search(t: Seq<NodeView>, i: int, start: BoundView, end: BoundView)
    requires
        links_ok(t),
        maxima_ok(t),
        0 <= i < t.len(),
        sorted(t, in_order(t, i)),
    ensures
        sorted(t, search(t, i, start, end)),
        forall|j: int| #[trigger]
            search(t, i, start, end).contains(j) ==> in_order(t, i).contains(j)
                && t[j].entry.overlaps(start, end),
        forall|j: int| #[trigger]
            in_order(t, i).contains(j) && t[j].entry.overlaps(start, end) ==> search(
                t,
                i,
                start,
                end,
            ).contains(j),
    decreases t.len() - i,
{
    let o = in_order(t, i);
    let found = search(t, i, start, end);
    let left = left_of(t, i);
    let right = right_of(t, i);
    lemma_sides(t, i);
    lemma_in_order_bounds(t, i);
    assert(t[i].left == t[i].left);
    if below(t[i].max_end, start) {
        assert forall|j: int| #[trigger] o.contains(j) implies !t[j].entry.overlaps(
            start,
            end,
        ) by {
            lemma_max_bounds(t, i, j);
            let e = end_key(t[j].entry.end);
            let m = t[i].max_end->Some_0;
            assert(e is Some);
            order::lemma_order(e->Some_0, m, start.key()->Some_0);
        }
    } else {
        let found_left = match t[i].left {
            Some(l) => search(t, l as int, start, end),
            None => Seq::empty(),
        };
        let own = if t[i].entry.overlaps(start, end) {
            seq![i]
        } else {
            Seq::empty()
        };
        let goes_right = !beyond(t[i].entry.start, end);
        let found_right = match t[i].right {
            Some(r) if goes_right => search(t, r as int, start, end),
            _ => Seq::empty(),
        };
        assert(found == found_left + own + found_right);
        if let Some(l) = t[i].left {
            lemma_search(t, l as int, start, end);
        }
        if let Some(r) = t[i].right {
            lemma_search(t, r as int, start, end);
            if !goes_right {
                assert forall|j: int| #[trigger] right.contains(j) implies !t[j].entry.overlaps(
                    start,
                    end,
                ) by {
                    let a = choose|a: int| 0 <= a < right.len() && right[a] == j;
                    assert(node_before(t, i, right[a]));
                    lemma_beyond(t[i].entry.start, t[j].entry.start, end);
                }
            }
        }
        assert forall|a: int| 0 <= a < found_left.len() implies left.contains(
            #[trigger] found_left[a],
        ) by {
            assert(found_left.contains(found_left[a]));
        }
        assert forall|a: int| 0 <= a < found_right.len() implies right.contains(
            #[trigger] found_right[a],
        ) by {
            assert(found_right.contains(found_right[a]));
        }
        lemma_parts(o, left, i, right);
        lemma_found_sorted(t, found_left, left, i, own.len() > 0, found_right, right);
        assert(found =~= pushed(found_left, own.len() > 0, i) + found_right);
        assert forall|j: int| #[trigger] found.contains(j) implies o.contains(j)
            && t[j].entry.overlaps(start, end) by {
            let a = choose|a: int| 0 <= a < found.len() && found[a] == j;
            if a < found_left.len() {
                assert(found_left[a] == j);
                assert(found_left.contains(j));
            } else if a >= found_left.len() + own.len() {
                assert(found_right[a - found_left.len() - own.len()] == j);
                assert(found_right.contains(j));
            }
        }
        assert forall|j: int| #[trigger]
            o.contains(j) && t[j].entry.overlaps(start, end) implies found.contains(j) by {
            if left.contains(j) {
                let a = choose|a: int| 0 <= a < found_left.len() && found_left[a] == j;
                assert(found_left.contains(j));
                assert(found[a] == j);
            } else if right.contains(j) {
                assert(found_right.contains(j));
                let a = choose|a: int| 0 <= a < found_right.len() && found_right[a] == j;
                assert(found[found_left.len() + own.len() + a] == j);
            } else {
                assert(found[found_left.len() as int] == i);
            }
        }
    }
}

/// What starts no earlier than a range beyond `end` lies beyond it too.
proof fn lemma_beyond(a: BoundView, b: BoundView, end: BoundView)
    requires
        beyond(a, end),
        a == b || start_less(a, b),
    ensures
        ends_before(end, b),
{
    reveal(start_less);
    if let Some(e) = end.key() {
        if let Some(x) = a.key() {
            if let Some(y) = b.key() {
                order::lemma_order(e, x, y);
                order::lemma_order(x, y, e);
                order::lemma_irreflexive(e);
            }
        }
    }
}

proof fn lemma_parts(o: Seq<int>, left: Seq<int>, i: int, right: Seq<int>)
    requires
        o == left + seq![i] + right,
    ensures
        forall|j: int| #[trigger] left.contains(j) ==> o.contains(j),
        forall|j: int| #[trigger] right.contains(j) ==> o.contains(j),
        o.contains(i),
        forall|j: int| #[trigger] o.contains(j) ==> left.contains(j) || right.contains(j) || j == i,
{
    assert forall|j: int| #[trigger] left.contains(j) implies o.contains(j) by {
        let a = choose|a: int| 0 <= a < left.len() && left[a] == j;
        assert(o[a] == j);
    }
    assert forall|j: int| #[trigger] right.contains(j) implies o.contains(j) by {
        let a = choose|a: int| 0 <= a < right.len() && right[a] == j;
        assert(o[left.len() + 1 + a] == j);
    }
    assert(o[left.len() as int] == i);
    assert forall|j: int| #[trigger] o.contains(j) implies left.contains(j) || right.contains(j)
        || j == i by {
        let a = choose|a: int| 0 <= a < o.len() && o[a] == j;
        if a < left.len() {
            assert(left[a] == j);
        } else if a > left.len() {
            assert(right[a - left.len() - 1] == j);
        }
    }
}

proof fn lemma_found_sorted(
    t: Seq<NodeView>,
    fl: Seq<int>,
    left: Seq<int>,
    i: int,
    own: bool,
    fr: Seq<int>,
    right: Seq<int>,
)
    requires
        sorted(t, fl),
        sorted(t, fr),
        forall|a: int| 0 <= a < fl.len() ==> left.contains(#[trigger] fl[a]),
        forall|a: int| 0 <= a < fr.len() ==> right.contains(#[trigger] fr[a]),
        forall|a: int| 0 <= a < left.len() ==> node_before(t, #[trigger] left[a], i),
        forall|a: int| 0 <= a < right.len() ==> node_before(t, i, #[trigger] right[a]),
    ensures
        sorted(t, pushed(fl, own, i) + fr),
{
    let head = pushed(fl, own, i);
    let all = head + fr;
    assert forall|a: int, b: int| 0 <= a < b < all.len() implies node_before(
        t,
        #[trigger] all[a],
        #[trigger] all[b],
    ) by {
        let x = all[a];
        let y = all[b];
        lemma_start_order(t[x].entry.start, t[i].entry.start, t[y].entry.start);
        if a < fl.len() {
            assert(fl[a] == x);
            let c = choose|c: int| 0 <= c < left.len() && left[c] == x;
            assert(node_before(t, left[c], i));
        } else if a >= head.len() {
            assert(fr[a - head.len()] == x);
        }
        if b < fl.len() {
            assert(fl[b] == y);
        } else if b >= head.len() {
            assert(fr[b - head.len()] == y);
            let c = choose|c: int| 0 <= c < right.len() && right[c] == y;
            assert(node_before(t, i, right[c]));
        }
    }
}

/// The range locks that are held, found by the keys that they cover.
pub struct IntervalTree {
    nodes: Vec<IntervalNode>,
}

impl View for IntervalTree {
    type V = Seq<RangeView>;

    /// The ranges in the order in which they were inserted.
    closed spec fn view(&self) -> Seq<RangeView> {
        Seq::new(self.nodes@.len(), |i: int| self.nodes@[i].entry@)
    }
}

impl IntervalTree {
    spec fn tree(&self) -> Seq<NodeView> {
        Seq::new(self.nodes@.len(), |i: int| self.nodes@[i]@)
    }

    pub closed spec fn wf(&self) -> bool {
        tree_ok(self.tree())
    }

    /// The positions of the ranges that a search reports.
    pub closed spec fn hits(&self, start: BoundView, end: BoundView) -> Seq<int> {
        search(self.tree(), 0, start, end)
    }

    pub fn new() -> (tree: Self)
        ensures
            tree.wf(),
            tree@ == Seq::<RangeView>::empty(),
    {
        let tree = IntervalTree { nodes: Vec::new() };
        assert(in_order(tree.tree(), 0) =~= Seq::empty());
        tree
    }

    pub fn insert(&mut self, entry: RangeLockEntry)
        requires
            old(self).wf(),
        ensures
            final(self).wf(),
            final(self)@ == old(self)@.push(entry@),
    {
        let ghost t = self.tree();
        let ghost e = entry@;
        let max_end = end_key_of(&entry.end);
        if self.nodes.len() == 0 {
            self.nodes.push(IntervalNode { entry, max_end, left: None, right: None });
            proof {
                let v = self.tree();
                assert(v =~= seq![leaf(e)]);
                assert(in_order(v, 0) =~= seq![0int]) by {
                    reveal_with_fuel(in_order, 2);
                }
                assert(in_order(v, 0)[0] == 0);
                assert(covers(v, 0));
                assert(self@ =~= old(self)@.push(e));
            }
            return;
        }
        let new_idx: usize = self.nodes.len();
        let mut idx: usize = 0;
        let ghost mut path: Seq<int> = seq![0int];
        loop
            invariant_except_break
                tree_ok(t),
                new_idx == t.len(),
                0 < t.len() <= usize::MAX,
                e == entry@,
                key_view(max_end) == end_key(e.end),
                descends(t, path, e.start),
                path.last() == idx,
                forall|k: int| 0 <= k < path.len() - 1 ==> #[trigger] path[k] < idx,
                raised_along(t, self.tree(), path.drop_last(), e),
                forall|i: int| 0 <= i < t.len() ==> same_shape(#[trigger] self.tree()[i], t[i]),
            ensures
                linked(t, self.tree(), path, e),
            decreases new_idx - idx,
        {
            let ghost before = self.tree();
            assert(before[idx as int] == self.nodes@[idx as int]@);
            assert(!path.drop_last().contains(idx as int));
            if is_end_less(&self.nodes[idx].max_end, &max_end) {
                self.nodes[idx].max_end = copy_end(&max_end);
            }
            let ghost mid = self.tree();
            proof {
                assert(path[path.len() - 1] == idx);
                assert(path =~= path.drop_last().push(idx as int));
                assert forall|i: int| path.contains(i) <==> (path.drop_last().contains(i) || i
                    == idx) by {
                    if path.contains(i) {
                        let k = choose|k: int| 0 <= k < path.len() && path[k] == i;
                        if k < path.len() - 1 {
                            assert(path.drop_last()[k] == i);
                        }
                    }
                    if path.drop_last().contains(i) {
                        let k = choose|k: int|
                            0 <= k < path.drop_last().len() && path.drop_last()[k] == i;
                        assert(path[k] == i);
                    }
                }
                assert(mid =~= before.update(
                    idx as int,
                    NodeView {
                        max_end: raised(before[idx as int].max_end, key_view(max_end)),
                        ..before[idx as int]
                    },
                ));
                assert forall|i: int| 0 <= i < t.len() implies (#[trigger] mid[i]).entry
                    == t[i].entry && same_shape(mid[i], t[i]) && mid[i].max_end == (
                if path.contains(i) {
                    raised(t[i].max_end, end_key(e.end))
                } else {
                    t[i].max_end
                }) by {
                    assert(before[i].entry == t[i].entry);
                    assert(same_shape(before[i], t[i]));
                }
                assert(t[idx as int].left == t[idx as int].left);
            }
            assert(mid[idx as int] == self.nodes@[idx as int]@);
            if starts_before(&entry.start, &self.nodes[idx].entry.start) {
                match self.nodes[idx].left {
                    Some(left_idx) => {
                        proof {
                            Self::lemma_extend(t, path, e.start, left_idx);
                            path = path.push(left_idx as int);
                            assert(path.drop_last() =~= path.take(path.len() - 1));
                        }
                        idx = left_idx;
                    },
                    None => {
                        self.nodes[idx].left = Some(new_idx);
                        proof {
                            let u = self.tree();
                            assert(u =~= mid.update(
                                idx as int,
                                NodeView { left: Some(new_idx), ..mid[idx as int] },
                            ));
                        }
                        break;
                    },
                }
            } else {
                match self.nodes[idx].right {
                    Some(right_idx) => {
                        proof {
                            Self::lemma_extend(t, path, e.start, right_idx);
                            path = path.push(right_idx as int);
                            assert(path.drop_last() =~= path.take(path.len() - 1));
                        }
                        idx = right_idx;
                    },
                    None => {
                        self.nodes[idx].right = Some(new_idx);
                        proof {
                            let u = self.tree();
                            assert(u =~= mid.update(
                                idx as int,
                                NodeView { right: Some(new_idx), ..mid[idx as int] },
                            ));
                        }
                        break;
                    },
                }
            }
        }
        let ghost u = self.tree();
        self.nodes.push(IntervalNode { entry, max_end, left: None, right: None });
        let total: usize = self.nodes.len();
        proof {
            assert(total == t.len() + 1);
            lemma_inserted(t, u, path, e);
            assert(self.tree() =~= u.push(leaf(e)));
            assert forall|i: int| 0 <= i < t.len() implies self@[i] == old(self)@[i] by {
                assert(u[i].entry == t[i].entry);
                assert(u[i] == self.tree()[i]);
                assert(t[i] == old(self).tree()[i]);
            }
            assert(self@ =~= old(self)@.push(e));
        }
    }

    proof fn lemma_extend(t: Seq<NodeView>, path: Seq<int>, start: BoundView, next: usize)
        requires
            descends(t, path, start),
            towards(t, path.last(), start) == Some(next),
            path.last() < next < t.len(),
            forall|k: int| 0 <= k < path.len() - 1 ==> #[trigger] path[k] < path.last(),
        ensures
            descends(t, path.push(next as int), start),
            forall|k: int| 0 <= k < path.len() ==> #[trigger] path.push(next as int)[k] < next,
            path.push(next as int).drop_last() == path,
    {
        let longer = path.push(next as int);
        assert(longer.drop_last() =~= path);
        assert forall|k: int| 0 <= k < longer.len() - 1 implies #[trigger] steps(
            t,
            longer,
            start,
            k,
        ) by {
            if k < path.len() - 1 {
                assert(steps(t, path, start, k));
            }
        }
    }

    /// The ranges that overlap the one from `start` to `end`, by where they start.
    pub fn find_overlapping(&self, start: &Bound, end: &Bound) -> (results: Vec<&RangeLockEntry>)
        requires
            self.wf(),
        ensures
            results@.len() == self.hits(start@, end@).len(),
            forall|a: int|
                0 <= a < results@.len() ==> (#[trigger] results@[a])@ == self@[self.hits(
                    start@,
                    end@,
                )[a]],
            lists_overlaps(self@, self.hits(start@, end@), start@, end@),
    {
        let mut results: Vec<&RangeLockEntry> = Vec::new();
        if self.nodes.len() > 0 {
            self.find_overlapping_recursive(0, start, end, &mut results);
        }
        proof {
            self.lemma_hits(start@, end@);
        }
        results
    }

    proof fn lemma_hits(&self, start: BoundView, end: BoundView)
        requires
            self.wf(),
        ensures
            lists_overlaps(self@, self.hits(start, end), start, end),
    {
        let t = self.tree();
        let hits = self.hits(start, end);
        if t.len() > 0 {
            lemma_search(t, 0, start, end);
            assert forall|a: int| 0 <= a < hits.len() implies 0 <= #[trigger] hits[a] < t.len()
                && self@[hits[a]].overlaps(start, end) by {
                assert(hits.contains(hits[a]));
                assert(in_order(t, 0).contains(hits[a]));
            }
            assert forall|a: int, b: int|
                #![trigger hits[a], hits[b]]
                0 <= a < b < hits.len() implies start_less(
                self@[hits[a]].start,
                self@[hits[b]].start,
            ) || (self@[hits[a]].start == self@[hits[b]].start && hits[a] < hits[b]) by {
                assert(node_before(t, hits[a], hits[b]));
            }
            assert forall|i: int|
                0 <= i < self@.len() && (#[trigger] self@[i]).overlaps(
                    start,
                    end,
                ) implies hits.contains(i) by {
                assert(in_order(t, 0).contains(i));
                assert(t[i].entry == self@[i]);
            }
        }
    }

    fn find_overlapping_recursive<'a>(
        &'a self,
        idx: usize,
        start: &Bound,
        end: &Bound,
        results: &mut Vec<&'a RangeLockEntry>,
    )
        requires
            self.wf(),
            idx < self.tree().len(),
        ensures
            final(results)@ == old(results)@ + search(
                self.tree(),
                idx as int,
                start@,
                end@,
            ).map_values(|j: int| &self.nodes@[j].entry),
        decreases self.tree().len() - idx,
    {
        let ghost t = self.tree();
        let ghost pick = |j: int| &self.nodes@[j].entry;
        let node = &self.nodes[idx];
        assert(t[idx as int] == node@);
        if is_below(&node.max_end, start) {
            assert(search(t, idx as int, start@, end@) =~= Seq::empty());
            assert(results@ =~= old(results)@ + search(t, idx as int, start@, end@).map_values(
                pick,
            ));
            return;
        }
        if let Some(left_idx) = node.left {
            self.find_overlapping_recursive(left_idx, start, end, results);
        }
        if node.entry.overlaps(start, end) {
            results.push(&node.entry);
        }
        if !is_beyond(&node.entry.start, end) {
            if let Some(right_idx) = node.right {
                self.find_overlapping_recursive(right_idx, start, end, results);
            }
        }
        assert(results@ =~= old(results)@ + search(t, idx as int, start@, end@).map_values(pick));
    }

    /// The ranges that contain `key`.
    pub fn find_containing_key(&self, key: &[u8]) -> (results: Vec<&RangeLockEntry>)
        requires
            self.wf(),
        ensures
            ({
                let point = BoundView::Included(key@);
                let hits = self.hits(point, point);
                &&& results@.len() == hits.len()
                &&& forall|a: int|
                    0 <= a < results@.len() ==> (#[trigger] results@[a])@ == self@[hits[a]]
                        && self@[hits[a]].contains(key@)
                &&& lists_overlaps(self@, hits, point, point)
            }),
    {
        let start = Bound::Included(codec::copy_bytes(key));
        let end = Bound::Included(codec::copy_bytes(key));
        let results = self.find_overlapping(&start, &end);
        proof {
            let hits = self.hits(start@, end@);
            assert forall|a: int| 0 <= a < results@.len() implies self@[#[trigger] hits[a]].contains(
                key@,
            ) by {
                lemma_overlaps_point(self@[hits[a]], key@);
            }
        }
        results
    }

    /// Drops the ranges of one transaction and keeps the others in their order.
    pub fn remove_by_txn(&mut self, txn_id: u64)
        requires
            old(self).wf(),
        ensures
            final(self).wf(),
            final(self)@ == old(self)@.filter(|r: RangeView| r.txn_id != txn_id),
    {
        let mut nodes: Vec<IntervalNode> = Vec::new();
        std::mem::swap(&mut nodes, &mut self.nodes);
        let ghost all = Seq::new(nodes@.len(), |i: int| nodes@[i].entry@);
        let ghost keep = |r: RangeView| r.txn_id != txn_id;
        assert(in_order(self.tree(), 0) =~= Seq::empty());
        assert(all.take(0) =~= Seq::empty());
        assert(self@ =~= all.take(0).filter(keep)) by {
            reveal(Seq::filter);
        }
        let mut i: usize = 0;
        for node in iter: nodes
            invariant
                self.wf(),
                all.len() <= usize::MAX,
                iter.seq().len() == all.len(),
                forall|k: int| 0 <= k < all.len() ==> (#[trigger] iter.seq()[k]).entry@ == all[k],
                i == iter.index(),
                self@ == all.take(i as int).filter(keep),
                keep == |r: RangeView| r.txn_id != txn_id,
        {
            let ghost k = i as int;
            proof {
                assert(all.take(k + 1).drop_last() =~= all.take(k));
                reveal(Seq::filter);
                all.take(k).lemma_filter_len(keep);
            }
            if node.entry.txn_id != txn_id {
                self.insert(node.entry);
            }
            i += 1;
        }
        assert(all.take(all.len() as int) =~= all);
    }

    pub fn is_empty(&self) -> (result: bool)
        ensures
            result == (self@.len() == 0),
    {
        self.nodes.len() == 0
    }

    pub fn len(&self) -> (result: usize)
        ensures
            result == self@.len(),
    {
        self.nodes.len()
    }
}

impl Default for IntervalTree {
    fn default() -> (tree: Self)
        ensures
            tree.wf(),
            tree@ == Seq::<RangeView>::empty(),
    {
        IntervalTree::new()
    }
}

} // verus!
