//! The wait-for graph and the search for deadlocks in it.

use crate::common::listing::{keys_of, members};
use std::collections::{HashMap, HashSet};
use vstd::prelude::*;

verus! {

broadcast use vstd::std_specs::hash::group_hash_axioms;

/// What victim selection knows of a transaction.
#[derive(Debug, Clone, Copy, PartialEq, Eq)]
pub struct TxnInfo {
    pub start_ts: u64,
    pub lock_count: usize,
    pub priority: u32,
}

impl Default for TxnInfo {
    fn default() -> (info: Self)
        ensures
            info == (TxnInfo { start_ts: 0, lock_count: 0, priority: u32::MAX }),
    {
        TxnInfo { start_ts: 0, lock_count: 0, priority: u32::MAX }
    }
}

/// The edges of a wait-for graph: whom each waiting transaction waits for.
pub type Edges = Map<u64, Set<u64>>;

/// `a` waits for `b`.
pub open spec fn edge(g: Edges, a: u64, b: u64) -> bool {
    g.contains_key(a) && g[a].contains(b)
}

pub open spec fn hop(g: Edges, p: Seq<u64>, i: int) -> bool {
    edge(g, p[i], p[i + 1])
}

/// `p` is a path that follows the edges from `a` to `b`.
pub open spec fn path(g: Edges, p: Seq<u64>, a: u64, b: u64) -> bool {
    &&& p.len() > 0
    &&& p[0] == a
    &&& p.last() == b
    &&& forall|i: int| 0 <= i < p.len() - 1 ==> #[trigger] hop(g, p, i)
}

/// `b` can be reached from `a`.
pub open spec fn reach(g: Edges, a: u64, b: u64) -> bool {
    exists|p: Seq<u64>| path(g, p, a, b)
}

/// `a` and `b` can be reached from each other.
pub open spec fn mutual(g: Edges, a: u64, b: u64) -> bool {
    reach(g, a, b) && reach(g, b, a)
}

/// `a` and some other transaction wait for each other, directly or not.
pub open spec fn deadlocked(g: Edges, a: u64) -> bool {
    exists|b: u64| a != b && #[trigger] mutual(g, a, b)
}

/// `a` is the better victim of the two: of lower importance, then the younger
/// one, then the one with fewer locks.
pub open spec fn preferred(a: TxnInfo, b: TxnInfo) -> bool {
    ||| a.priority > b.priority
    ||| a.priority == b.priority && a.start_ts > b.start_ts
    ||| a.priority == b.priority && a.start_ts == b.start_ts && a.lock_count < b.lock_count
}

/// Where any transaction of the deadlock that `id` is part of is registered, `id`
/// is registered and none of the registered ones is a better victim.
pub open spec fn is_victim(g: Edges, info: Map<u64, TxnInfo>, id: u64) -> bool {
    forall|m: u64| #[trigger]
        mutual(g, id, m) && info.contains_key(m) ==> info.contains_key(id) && !preferred(
            info[m],
            info[id],
        )
}

/// Everything can be reached from itself.
pub proof fn lemma_reach_self(g: Edges, a: u64)
    ensures
        reach(g, a, a),
{
    assert(path(g, seq![a], a, a));
}

/// The end of an edge can be reached from its start.
pub proof fn lemma_reach_edge(g: Edges, a: u64, b: u64)
    requires
        edge(g, a, b),
    ensures
        reach(g, a, b),
{
    let p = seq![a, b];
    assert forall|i: int| 0 <= i < p.len() - 1 implies #[trigger] hop(g, p, i) by {
        assert(i == 0);
    }
    assert(path(g, p, a, b));
}

/// Reachability is transitive.
pub proof fn lemma_reach_trans(g: Edges, a: u64, b: u64, c: u64)
    requires
        reach(g, a, b),
        reach(g, b, c),
    ensures
        reach(g, a, c),
{
    let p = choose|p: Seq<u64>| path(g, p, a, b);
    let q = choose|q: Seq<u64>| path(g, q, b, c);
    let r = p + q.skip(1);
    assert forall|i: int| 0 <= i < r.len() - 1 implies #[trigger] hop(g, r, i) by {
        if i < p.len() - 1 {
            assert(hop(g, p, i));
        } else {
            let k = i - (p.len() - 1);
            assert(hop(g, q, k));
            assert(r[i + 1] == q[k + 1]);
            if k == 0 {
                assert(r[i] == p.last());
            } else {
                assert(r[i] == q[k]);
            }
        }
    }
    assert(r.last() == c) by {
        if q.len() == 1 {
            assert(q.skip(1) =~= Seq::<u64>::empty());
            assert(r =~= p);
        } else {
            assert(r.last() == q.last());
        }
    }
    assert(path(g, r, a, c));
}

/// What can be reached from within a set that no edge leaves lies in the set.
proof fn lemma_closed(g: Edges, s: Set<u64>, a: u64, b: u64)
    requires
        s.contains(a),
        reach(g, a, b),
        forall|x: u64, y: u64| s.contains(x) && #[trigger] edge(g, x, y) ==> s.contains(y),
    ensures
        s.contains(b),
{
    let p = choose|p: Seq<u64>| path(g, p, a, b);
    lemma_closed_path(g, s, p, a, b, p.len() - 1);
}

proof fn lemma_closed_path(g: Edges, s: Set<u64>, p: Seq<u64>, a: u64, b: u64, i: int)
    requires
        s.contains(a),
        path(g, p, a, b),
        0 <= i < p.len(),
        forall|x: u64, y: u64| s.contains(x) && #[trigger] edge(g, x, y) ==> s.contains(y),
    ensures
        s.contains(p[i]),
    decreases i,
{
    if i > 0 {
        lemma_closed_path(g, s, p, a, b, i - 1);
        assert(hop(g, p, i - 1));
    }
}

/// The working state of the search for strongly connected components.
struct Search {
    index_counter: usize,
    stack: Vec<u64>,
    indices: HashMap<u64, usize>,
    lowlinks: HashMap<u64, usize>,
    on_stack: HashSet<u64>,
    sccs: Vec<Vec<u64>>,
}

impl Search {
    spec fn visited(self, v: u64) -> bool {
        self.indices@.contains_key(v)
    }

    spec fn idx(self, v: u64) -> int {
        self.indices@[v] as int
    }

    spec fn on(self, v: u64) -> bool {
        self.on_stack@.contains(v)
    }

    /// Visited, and its component has been found.
    spec fn done(self, v: u64) -> bool {
        self.visited(v) && !self.on(v)
    }

    /// The numbering follows the stack, and the stack holds the visited nodes whose
    /// component is still open.
    spec fn shape(self, gray: Set<u64>) -> bool {
        &&& self.index_counter == self.indices@.len()
        &&& self.lowlinks@.dom() == self.indices@.dom()
        &&& forall|v: u64| #[trigger] self.visited(v) ==> self.idx(v) < self.index_counter
        &&& forall|i: int, j: int|
            0 <= i < j < self.stack@.len() ==> self.idx(#[trigger] self.stack@[i]) < self.idx(
                #[trigger] self.stack@[j],
            )
        &&& forall|i: int| 0 <= i < self.stack@.len() ==> self.on(#[trigger] self.stack@[i])
        &&& forall|v: u64| #[trigger] self.on(v) ==> self.visited(v) && self.stack@.contains(v)
        &&& forall|v: u64| #[trigger] gray.contains(v) ==> self.on(v)
    }

    /// No edge leads from a finished node to an unfinished one.
    spec fn closed(self, g: Edges, gray: Set<u64>) -> bool {
        &&& forall|a: u64, b: u64| self.done(a) && #[trigger] edge(g, a, b) ==> self.done(b)
        &&& forall|a: u64, b: u64|
            self.visited(a) && !gray.contains(a) && #[trigger] edge(g, a, b) ==> self.visited(b)
    }

    /// From `y` one gets back to a node that is still being explored.
    spec fn has_root(self, g: Edges, gray: Set<u64>, y: u64) -> bool {
        exists|x: u64|
            #[trigger] gray.contains(x) && self.idx(x) <= self.idx(y) && reach(g, y, x)
    }

    spec fn linked(self, g: Edges, gray: Set<u64>) -> bool {
        &&& forall|x: u64, y: u64| #[trigger]
            gray.contains(x) && #[trigger] self.on(y) && self.idx(x) <= self.idx(y) ==> reach(
                g,
                x,
                y,
            )
        &&& forall|y: u64| self.on(y) ==> #[trigger] self.has_root(g, gray, y)
    }

    /// The components found are components, and each finished node stands in exactly one of
    /// them. No other node does.
    spec fn found(self, g: Edges) -> bool {
        &&& forall|k: int| 0 <= k < self.sccs@.len() ==> is_component(g, #[trigger] self.sccs@[k]@)
        &&& forall|v: u64| #[trigger] self.done(v) ==> covered(self.sccs@, v)
        &&& forall|k: int, v: u64|
            0 <= k < self.sccs@.len() && #[trigger] self.sccs@[k]@.contains(v) ==> self.done(v)
        &&& forall|j: int, k: int, v: u64|
            #![trigger self.sccs@[j]@.contains(v), self.sccs@[k]@.contains(v)]
            0 <= j < self.sccs@.len() && 0 <= k < self.sccs@.len() && self.sccs@[j]@.contains(v)
                && self.sccs@[k]@.contains(v) ==> j == k
    }

    spec fn inv(self, g: Edges, gray: Set<u64>) -> bool {
        &&& self.shape(gray)
        &&& self.closed(g, gray)
        &&& self.linked(g, gray)
        &&& self.found(g)
    }

    /// `self` was reached from `before` without touching what was there.
    spec fn extends(self, before: Search) -> bool {
        &&& forall|u: u64| #[trigger]
            before.visited(u) ==> self.visited(u) && self.idx(u) == before.idx(u)
                && self.lowlinks@[u] == before.lowlinks@[u] && self.on(u) == before.on(u)
        &&& before.stack@.len() <= self.stack@.len()
        &&& forall|i: int|
            0 <= i < before.stack@.len() ==> #[trigger] self.stack@[i] == before.stack@[i]
        &&& before.sccs@.len() <= self.sccs@.len()
        &&& forall|k: int|
            0 <= k < before.sccs@.len() ==> #[trigger] self.sccs@[k] == before.sccs@[k]
    }

    /// From `before` on, exactly what can be reached from `v` has been visited. No component
    /// is open, and the visited nodes are those of the components.
    spec fn explored(self, g: Edges, before: Search, v: u64) -> bool {
        &&& self.stack@.len() == 0
        &&& forall|u: u64| !#[trigger] self.on(u)
        &&& forall|u: u64| #[trigger] self.visited(u) <==> before.visited(u) || reach(g, v, u)
        &&& forall|u: u64| #[trigger] self.visited(u) <==> covered(self.sccs@, u)
        &&& self.index_counter == self.indices@.len()
    }
}

/// `c` lists a strongly connected component, each node once.
spec fn is_component(g: Edges, c: Seq<u64>) -> bool {
    &&& c.len() > 0
    &&& c.no_duplicates()
    &&& forall|m: u64| #[trigger] c.contains(m) <==> mutual(g, c[0], m)
}

spec fn covered(sccs: Seq<Vec<u64>>, v: u64) -> bool {
    exists|k: int| 0 <= k < sccs.len() && #[trigger] sccs[k]@.contains(v)
}

/// Who waits for whom, with what is known of each transaction.
pub struct WaitForGraph {
    edges: HashMap<u64, HashSet<u64>>,
    txn_info: HashMap<u64, TxnInfo>,
}

/// A wait-for graph as a mathematical value.
#[verifier::ext_equal]
pub struct GraphView {
    pub edges: Edges,
    pub info: Map<u64, TxnInfo>,
}

impl View for WaitForGraph {
    type V = GraphView;

    closed spec fn view(&self) -> GraphView {
        GraphView { edges: self.edges@.map_values(|s: HashSet<u64>| s@), info: self.txn_info@ }
    }
}

impl Search {
    /// Numbers `v` and puts it on the stack.
    fn enter(&mut self, v: u64, Ghost(g): Ghost<Edges>, Ghost(gray): Ghost<Set<u64>>)
        requires
            old(self).inv(g, gray),
            !old(self).visited(v),
            forall|x: u64| #[trigger] gray.contains(x) ==> reach(g, x, v),
        ensures
            final(self).inv(g, gray.insert(v)),
            final(self).extends(*old(self)),
            final(self).visited(v),
            final(self).idx(v) == old(self).index_counter,
            final(self).lowlinks@[v] == old(self).index_counter,
            final(self).index_counter == old(self).index_counter + 1,
            final(self).stack@ == old(self).stack@.push(v),
            final(self).indices@ == old(self).indices@.insert(v, old(self).index_counter),
            final(self).sccs == old(self).sccs,
    {
        let ghost s0 = *self;
        let c: usize = self.index_counter;
        self.indices.insert(v, c);
        self.lowlinks.insert(v, c);
        let n: usize = self.indices.len();
        self.index_counter = c + 1;
        self.stack.push(v);
        self.on_stack.insert(v);
        proof {
            let s1 = *self;
            let gray1 = gray.insert(v);
            assert(s0.stack@.len() < s1.stack@.len());
            assert(s1.extends(s0));
            assert(s1.stack@[s0.stack@.len() as int] == v);
            assert forall|u: u64| #[trigger] s1.on(u) implies s1.visited(u) && s1.stack@.contains(
                u,
            ) by {
                if u != v {
                    assert(s0.on(u));
                    let i = choose|i: int| 0 <= i < s0.stack@.len() && s0.stack@[i] == u;
                    assert(s1.stack@[i] == u);
                }
            }
            assert forall|i: int, j: int| 0 <= i < j < s1.stack@.len() implies s1.idx(
                #[trigger] s1.stack@[i],
            ) < s1.idx(#[trigger] s1.stack@[j]) by {
                assert(s0.on(s0.stack@[i]));
                if j < s0.stack@.len() {
                    assert(s0.on(s0.stack@[j]));
                    assert(s0.idx(s0.stack@[i]) < s0.idx(s0.stack@[j]));
                }
            }
            assert forall|i: int| 0 <= i < s1.stack@.len() implies s1.on(#[trigger] s1.stack@[i]) by {
                if i < s0.stack@.len() {
                    assert(s0.on(s0.stack@[i]));
                }
            }
            assert(s1.lowlinks@.dom() =~= s1.indices@.dom());
            assert forall|u: u64| #[trigger] gray1.contains(u) implies s1.on(u) by {
                if u != v {
                    assert(gray.contains(u));
                    assert(s0.on(u));
                }
            }
            assert forall|u: u64| #[trigger] s1.visited(u) implies s1.idx(u) < s1.index_counter by {
                if u != v {
                    assert(s0.visited(u));
                }
            }
            assert(s1.shape(gray1));
            assert forall|a: u64| s1.done(a) == s0.done(a) by {}
            assert(s1.closed(g, gray1));
            lemma_reach_self(g, v);
            assert forall|y: u64| s1.on(y) implies #[trigger] s1.has_root(g, gray1, y) by {
                if y == v {
                    assert(gray1.contains(v));
                } else {
                    assert(s0.on(y));
                    assert(s0.has_root(g, gray, y));
                    let x = choose|x: u64| #[trigger]
                        gray.contains(x) && s0.idx(x) <= s0.idx(y) && reach(g, y, x);
                    assert(gray1.contains(x));
                }
            }
            assert forall|x: u64, y: u64| #[trigger]
                gray1.contains(x) && #[trigger] s1.on(y) && s1.idx(x) <= s1.idx(y) implies reach(
                g,
                x,
                y,
            ) by {
                if x != v && y != v {
                    assert(gray.contains(x) && s0.on(y));
                } else if x == v && y != v {
                    assert(s0.on(y));
                    assert(s0.visited(y));
                }
            }
            assert(s1.linked(g, gray1));
            assert(s1.found(g));
        }
    }

    /// Takes the component of `v` off the stack: all of it from `v` on.
    fn close(&mut self, v: u64, Ghost(base): Ghost<int>, Ghost(g): Ghost<Edges>, Ghost(gray): Ghost<
        Set<u64>,
    >)
        requires
            old(self).inv(g, gray.insert(v)),
            !gray.contains(v),
            0 <= base < old(self).stack@.len(),
            old(self).stack@[base] == v,
            forall|x: u64| #[trigger] gray.contains(x) ==> old(self).idx(x) < old(self).idx(v),
            forall|x: u64| #[trigger] edge(g, v, x) ==> old(self).visited(x),
            forall|i: int, x: u64|
                base <= i < old(self).stack@.len() && #[trigger] edge(g, old(self).stack@[i], x)
                    && old(self).on(x) ==> old(self).idx(x) >= old(self).idx(v),
        ensures
            final(self).inv(g, gray),
            final(self).stack@ == old(self).stack@.take(base),
            final(self).indices@ == old(self).indices@,
            final(self).lowlinks@ == old(self).lowlinks@,
            final(self).index_counter == old(self).index_counter,
            forall|u: u64| #[trigger]
                final(self).on(u) <==> old(self).on(u) && old(self).idx(u) < old(self).idx(v),
            final(self).sccs@.len() == old(self).sccs@.len() + 1,
            forall|k: int|
                0 <= k < old(self).sccs@.len() ==> old(self).sccs@[k]
                    == #[trigger] final(self).sccs@[k],
            final(self).sccs@.last()@.contains(v),
    {
        let ghost s0 = *self;
        let mut scc: Vec<u64> = Vec::new();
        let mut popped_v: bool = false;
        let ghost mut n = self.stack@.len() as int;
        while !popped_v
            invariant
                s0.inv(g, gray.insert(v)),
                0 <= base < s0.stack@.len(),
                s0.stack@[base] == v,
                base <= n <= s0.stack@.len(),
                popped_v <==> n == base,
                self.stack@ == s0.stack@.take(n),
                self.indices@ == s0.indices@,
                self.lowlinks@ == s0.lowlinks@,
                self.index_counter == s0.index_counter,
                self.sccs@ == s0.sccs@,
                scc@.len() == s0.stack@.len() - n,
                forall|i: int|
                    0 <= i < scc@.len() ==> #[trigger] scc@[i] == s0.stack@[s0.stack@.len() - 1
                        - i],
                forall|u: u64| #[trigger] self.on(u) <==> s0.on(u) && !scc@.contains(u),
            decreases n,
        {
            let ghost before = scc@;
            let ghost prev = *self;
            let w: u64 = self.stack.pop().unwrap();
            self.on_stack.remove(&w);
            scc.push(w);
            proof {
                n = n - 1;
                assert(self.stack@ =~= s0.stack@.take(n));
                assert forall|u: u64| #[trigger] self.on(u) <==> s0.on(u) && !scc@.contains(u) by {
                    assert(prev.on(u) <==> s0.on(u) && !before.contains(u));
                    assert(scc@.contains(u) <==> before.contains(u) || u == w) by {
                        if before.contains(u) {
                            let i = choose|i: int| 0 <= i < before.len() && before[i] == u;
                            assert(scc@[i] == u);
                        }
                        if u == w {
                            assert(scc@[before.len() as int] == u);
                        }
                    }
                }
                if n > base {
                    assert(s0.idx(s0.stack@[base]) < s0.idx(s0.stack@[n]));
                }
            }
            if w == v {
                popped_v = true;
            }
        }
        let ghost c = scc@;
        let ghost popped = *self;
        self.sccs.push(scc);
        proof {
            assert forall|u: u64| #[trigger] self.on(u) <==> s0.on(u) && !c.contains(u) by {
                assert(self.on(u) <==> popped.on(u));
            }
            lemma_closed_component(g, s0, c, v, base, gray);
            lemma_after_close(g, s0, *self, c, v, base, gray);
            assert(c[c.len() - 1] == v);
        }
    }
}

/// The part of the stack from `v` on, when no edge leads from it further down, is
/// the component of `v`.
proof fn lemma_closed_component(
    g: Edges,
    s0: Search,
    c: Seq<u64>,
    v: u64,
    base: int,
    gray: Set<u64>,
)
    requires
        s0.inv(g, gray.insert(v)),
        !gray.contains(v),
        0 <= base < s0.stack@.len(),
        s0.stack@[base] == v,
        forall|x: u64| #[trigger] gray.contains(x) ==> s0.idx(x) < s0.idx(v),
        forall|x: u64| #[trigger] edge(g, v, x) ==> s0.visited(x),
        forall|i: int, x: u64|
            base <= i < s0.stack@.len() && #[trigger] edge(g, s0.stack@[i], x) && s0.on(x)
                ==> s0.idx(x) >= s0.idx(v),
        c.len() == s0.stack@.len() - base,
        forall|i: int|
            0 <= i < c.len() ==> #[trigger] c[i] == s0.stack@[s0.stack@.len() - 1 - i],
    ensures
        is_component(g, c),
        forall|u: u64| #[trigger] c.contains(u) <==> s0.on(u) && s0.idx(u) >= s0.idx(v),
        forall|a: u64, b: u64|
            c.contains(a) && #[trigger] edge(g, a, b) ==> c.contains(b) || s0.done(b),
{
    let gray1 = gray.insert(v);
    let top = s0.stack@.len() - 1;
    assert(gray1.contains(v));
    assert forall|u: u64| #[trigger] c.contains(u) <==> s0.on(u) && s0.idx(u) >= s0.idx(v) by {
        if c.contains(u) {
            let i = choose|i: int| 0 <= i < c.len() && c[i] == u;
            assert(s0.on(s0.stack@[top - i]));
            if top - i > base {
                assert(s0.idx(s0.stack@[base]) < s0.idx(s0.stack@[top - i]));
            }
        }
        if s0.on(u) && s0.idx(u) >= s0.idx(v) {
            assert(s0.stack@.contains(u));
            let j = choose|j: int| 0 <= j < s0.stack@.len() && s0.stack@[j] == u;
            if j < base {
                assert(s0.idx(s0.stack@[j]) < s0.idx(s0.stack@[base]));
            }
            assert(c[top - j] == u);
        }
    }
    assert forall|i: int, j: int| 0 <= i < c.len() && 0 <= j < c.len() && i != j implies c[i]
        != c[j] by {
        if i < j {
            assert(s0.idx(s0.stack@[top - j]) < s0.idx(s0.stack@[top - i]));
        } else {
            assert(s0.idx(s0.stack@[top - i]) < s0.idx(s0.stack@[top - j]));
        }
    }
    // Every member and v can be reached from each other.
    assert forall|m: u64| #[trigger] c.contains(m) implies mutual(g, v, m) by {
        assert(s0.on(m));
        assert(reach(g, v, m));
        assert(s0.has_root(g, gray1, m));
        let x = choose|x: u64| #[trigger]
            gray1.contains(x) && s0.idx(x) <= s0.idx(m) && reach(g, m, x);
        assert(s0.on(v));
        if x != v {
            assert(gray.contains(x));
        }
        assert(reach(g, x, v));
        lemma_reach_trans(g, m, x, v);
    }
    // No edge leaves the members and the finished nodes.
    let keep = Set::<u64>::new(|u: u64| c.contains(u) || s0.done(u));
    assert forall|a: u64, b: u64| c.contains(a) && #[trigger] edge(g, a, b) implies c.contains(b)
        || s0.done(b) by {
        assert(s0.on(a));
        assert(s0.stack@.contains(a));
        let j = choose|j: int| 0 <= j < s0.stack@.len() && s0.stack@[j] == a;
        if j < base {
            assert(s0.idx(s0.stack@[j]) < s0.idx(s0.stack@[base]));
        }
        assert(edge(g, s0.stack@[j], b));
        if a != v {
            assert(!gray1.contains(a));
        }
        assert(s0.visited(b));
    }
    assert forall|m: u64| mutual(g, v, m) implies #[trigger] c.contains(m) by {
        assert(c.contains(v));
        assert forall|x: u64, y: u64| keep.contains(x) && #[trigger] edge(g, x, y) implies keep.contains(
            y,
        ) by {}
        lemma_closed(g, keep, v, m);
        if !c.contains(m) {
            let fin = Set::<u64>::new(|u: u64| s0.done(u));
            assert forall|x: u64, y: u64| fin.contains(x) && #[trigger] edge(g, x, y) implies fin.contains(
                y,
            ) by {}
            lemma_closed(g, fin, m, v);
            assert(s0.on(v));
        }
    }
    assert forall|m: u64| #[trigger] c.contains(m) <==> mutual(g, c[0], m) by {
        assert(c.contains(c[0]));
        assert(mutual(g, v, c[0]));
        if c.contains(m) {
            lemma_reach_trans(g, c[0], v, m);
            lemma_reach_trans(g, m, v, c[0]);
        }
        if mutual(g, c[0], m) {
            lemma_reach_trans(g, v, c[0], m);
            lemma_reach_trans(g, m, c[0], v);
        }
    }
}

proof fn lemma_after_close(
    g: Edges,
    s0: Search,
    s: Search,
    c: Seq<u64>,
    v: u64,
    base: int,
    gray: Set<u64>,
)
    requires
        s0.inv(g, gray.insert(v)),
        !gray.contains(v),
        0 <= base < s0.stack@.len(),
        s0.stack@[base] == v,
        forall|x: u64| #[trigger] gray.contains(x) ==> s0.idx(x) < s0.idx(v),
        is_component(g, c),
        forall|u: u64| #[trigger] c.contains(u) <==> s0.on(u) && s0.idx(u) >= s0.idx(v),
        forall|a: u64, b: u64|
            c.contains(a) && #[trigger] edge(g, a, b) ==> c.contains(b) || s0.done(b),
        s.stack@ == s0.stack@.take(base),
        s.indices@ == s0.indices@,
        s.lowlinks@ == s0.lowlinks@,
        s.index_counter == s0.index_counter,
        s.sccs@.len() == s0.sccs@.len() + 1,
        forall|k: int| 0 <= k < s0.sccs@.len() ==> #[trigger] s.sccs@[k] == s0.sccs@[k],
        s.sccs@.last()@ == c,
        forall|u: u64| #[trigger] s.on(u) <==> s0.on(u) && !c.contains(u),
    ensures
        s.inv(g, gray),
{
    let gray1 = gray.insert(v);
    assert forall|u: u64| #[trigger] s.visited(u) <==> s0.visited(u) by {}
    assert forall|u: u64| #[trigger] s.on(u) implies s.visited(u) && s.stack@.contains(u) by {
        assert(s0.on(u));
        assert(s0.stack@.contains(u));
        let j = choose|j: int| 0 <= j < s0.stack@.len() && s0.stack@[j] == u;
        if j >= base {
            if j > base {
                assert(s0.idx(s0.stack@[base]) < s0.idx(s0.stack@[j]));
            }
            assert(c.contains(u));
        }
        assert(s.stack@[j] == u);
    }
    assert forall|i: int| 0 <= i < s.stack@.len() implies s.on(#[trigger] s.stack@[i]) by {
        assert(s0.on(s0.stack@[i]));
        assert(s0.idx(s0.stack@[i]) < s0.idx(s0.stack@[base]));
    }
    assert forall|u: u64| #[trigger] gray.contains(u) implies s.on(u) by {
        assert(gray1.contains(u));
        assert(s0.on(u));
    }
    assert(s.shape(gray));
    assert forall|u: u64| #[trigger] s.done(u) <==> s0.done(u) || c.contains(u) by {
        if c.contains(u) {
            assert(s0.on(u));
        }
    }
    assert forall|a: u64, b: u64| s.done(a) && #[trigger] edge(g, a, b) implies s.done(b) by {}
    assert forall|a: u64, b: u64|
        s.visited(a) && !gray.contains(a) && #[trigger] edge(g, a, b) implies s.visited(b) by {
        if a == v {
            assert(gray1.contains(v));
            assert(s0.on(v));
            assert(c.contains(v));
            assert(c.contains(b) || s0.done(b));
            if c.contains(b) {
                assert(s0.on(b));
            }
        } else {
            assert(!gray1.contains(a));
        }
    }
    assert forall|x: u64, y: u64| #[trigger]
        gray.contains(x) && #[trigger] s.on(y) && s.idx(x) <= s.idx(y) implies reach(g, x, y) by {
        assert(gray1.contains(x) && s0.on(y));
    }
    assert forall|y: u64| s.on(y) implies #[trigger] s.has_root(g, gray, y) by {
        assert(s0.on(y));
        assert(s0.has_root(g, gray1, y));
        let x = choose|x: u64| #[trigger]
            gray1.contains(x) && s0.idx(x) <= s0.idx(y) && reach(g, y, x);
        assert(!c.contains(y));
        assert(x != v);
        assert(gray.contains(x));
    }
    assert(s.linked(g, gray));
    assert forall|k: int| 0 <= k < s.sccs@.len() implies is_component(g, #[trigger] s.sccs@[k]@) by {
        if k < s0.sccs@.len() {
            assert(s.sccs@[k] == s0.sccs@[k]);
        }
    }
    assert forall|u: u64| #[trigger] s.done(u) implies covered(s.sccs@, u) by {
        if s0.done(u) {
            assert(covered(s0.sccs@, u));
            let k = choose|k: int| 0 <= k < s0.sccs@.len() && #[trigger] s0.sccs@[k]@.contains(u);
            assert(s.sccs@[k]@.contains(u));
        } else {
            assert(s.sccs@[s.sccs@.len() - 1]@.contains(u));
        }
    }
    assert forall|k: int, u: u64|
        0 <= k < s.sccs@.len() && #[trigger] s.sccs@[k]@.contains(u) implies s.done(u) by {
        if k < s0.sccs@.len() {
            assert(s0.sccs@[k]@.contains(u));
        }
    }
    assert forall|j: int, k: int, u: u64|
        #![trigger s.sccs@[j]@.contains(u), s.sccs@[k]@.contains(u)]
        0 <= j < s.sccs@.len() && 0 <= k < s.sccs@.len() && s.sccs@[j]@.contains(u)
            && s.sccs@[k]@.contains(u) implies j == k by {
        if j < s0.sccs@.len() {
            assert(s0.sccs@[j]@.contains(u));
        }
        if k < s0.sccs@.len() {
            assert(s0.sccs@[k]@.contains(u));
        }
    }
}

/// The low link of `v` after a successor `w` that stands on the stack has been
/// taken into account.
proof fn lemma_lowered(g: Edges, s0: Search, s1: Search, s: Search, v: u64, w: u64, base: int)
    requires
        s1.extends(s0),
        !s0.visited(v),
        s1.on(w),
        s1.visited(w),
        reach(g, v, w),
        s1.lowlinks@[v] <= s1.idx(v),
        s1.low_reached(g, v),
        s1.low_bounds(g, base, v),
        s.stack == s1.stack,
        s.indices == s1.indices,
        s.on_stack == s1.on_stack,
        s.sccs == s1.sccs,
        s.lowlinks@ == s1.lowlinks@.insert(
            v,
            if s1.indices@[w] < s1.lowlinks@[v] {
                s1.indices@[w]
            } else {
                s1.lowlinks@[v]
            },
        ),
    ensures
        s.extends(s0),
        s.low_reached(g, v),
        s.low_bounds(g, base, v),
        s.lowlinks@[v] <= s.idx(v),
        s.on(w) && s.idx(w) < s.idx(v) ==> s.idx(w) >= s.lowlinks@[v],
        s.lowlinks@[v] <= s1.lowlinks@[v],
        forall|u: u64| #[trigger] s1.visited(u) ==> s.visited(u) && s.idx(u) == s1.idx(u) && s.on(u)
            == s1.on(u),
{
    assert forall|u: u64| #[trigger] s0.visited(u) implies s.visited(u) && s.idx(u) == s0.idx(u)
        && s.lowlinks@[u] == s0.lowlinks@[u] && s.on(u) == s0.on(u) by {
        assert(s1.visited(u));
    }
    let y = choose|y: u64| #[trigger]
        s1.on(y) && s1.idx(y) == s1.lowlinks@[v] && reach(g, v, y);
    assert(s.on(y) && s.on(w));
    assert forall|i: int, x: u64|
        base < i < s.stack@.len() && #[trigger] edge(g, s.stack@[i], x) && s.on(x) && s.idx(x)
            < s.idx(v) implies s.idx(x) >= s.lowlinks@[v] by {
        assert(edge(g, s1.stack@[i], x) && s1.on(x));
    }
}

/// The low link of `v` after its successor `w` has been explored.
proof fn lemma_child(
    g: Edges,
    s0: Search,
    s1: Search,
    s2: Search,
    s: Search,
    v: u64,
    w: u64,
    base: int,
    gray1: Set<u64>,
)
    requires
        s1.extends(s0),
        !s0.visited(v),
        s1.inv(g, gray1),
        s1.visited(v),
        !s1.visited(w),
        edge(g, v, w),
        base < s1.stack@.len(),
        base == s0.stack@.len(),
        s1.stack@[base] == v,
        s1.lowlinks@[v] <= s1.idx(v),
        s1.low_reached(g, v),
        s1.low_bounds(g, base, v),
        s2.inv(g, gray1),
        s2.extends(s1),
        s2.visited(w),
        s2.idx(w) == s1.index_counter,
        !s2.on(w) ==> s2.stack@ == s1.stack@ && s2.lowlinks@[w] == s2.idx(w),
        s2.on(w) ==> s2.back_link(g, s1.stack@.len() as int, w),
        s.stack == s2.stack,
        s.indices == s2.indices,
        s.on_stack == s2.on_stack,
        s.sccs == s2.sccs,
        s.lowlinks@ == s2.lowlinks@.insert(
            v,
            if s2.lowlinks@[w] < s2.lowlinks@[v] {
                s2.lowlinks@[w]
            } else {
                s2.lowlinks@[v]
            },
        ),
    ensures
        s.extends(s0),
        s.visited(v),
        s.visited(w),
        s.idx(v) == s1.idx(v),
        s.stack@[base] == v,
        base < s.stack@.len(),
        s.low_reached(g, v),
        s.low_bounds(g, base, v),
        s.lowlinks@[v] <= s.idx(v),
        s.idx(w) > s.idx(v),
        s.lowlinks@[v] <= s1.lowlinks@[v],
        forall|u: u64| #[trigger] s1.visited(u) ==> s.visited(u) && s.idx(u) == s1.idx(u) && s.on(u)
            == s1.on(u),
{
    assert forall|u: u64| #[trigger] s1.visited(u) implies s.visited(u) && s.idx(u) == s1.idx(u)
        && s.on(u) == s1.on(u) by {
        assert(s2.visited(u));
    }
    assert forall|u: u64| #[trigger] s0.visited(u) implies s.visited(u) && s.idx(u) == s0.idx(u)
        && s.lowlinks@[u] == s0.lowlinks@[u] && s.on(u) == s0.on(u) by {
        assert(s1.visited(u));
        assert(s2.visited(u));
    }
    assert forall|i: int| 0 <= i < s0.stack@.len() implies #[trigger] s.stack@[i] == s0.stack@[i] by {
        assert(s1.stack@[i] == s0.stack@[i]);
        assert(s2.stack@[i] == s1.stack@[i]);
    }
    assert forall|k: int| 0 <= k < s0.sccs@.len() implies #[trigger] s.sccs@[k] == s0.sccs@[k] by {
        assert(s1.sccs@[k] == s0.sccs@[k]);
        assert(s2.sccs@[k] == s1.sccs@[k]);
    }
    assert(s2.stack@[base] == s1.stack@[base]);
    let y = choose|y: u64| #[trigger]
        s1.on(y) && s1.idx(y) == s1.lowlinks@[v] && reach(g, v, y);
    assert(s1.visited(y));
    assert(s.on(y));
    if s2.on(w) && s2.lowlinks@[w] < s2.lowlinks@[v] {
        let z = choose|z: u64| #[trigger]
            s2.on(z) && s2.idx(z) == s2.lowlinks@[w] && reach(g, w, z);
        lemma_reach_edge(g, v, w);
        lemma_reach_trans(g, v, w, z);
        assert(s.on(z));
    }
    assert(s.low_reached(g, v));
    assert forall|i: int, x: u64|
        base < i < s.stack@.len() && #[trigger] edge(g, s.stack@[i], x) && s.on(x) && s.idx(x)
            < s.idx(v) implies s.idx(x) >= s.lowlinks@[v] by {
        assert(s2.on(x));
        assert(s2.visited(x));
        if i < s1.stack@.len() {
            assert(s2.stack@[i] == s1.stack@[i]);
            assert(edge(g, s1.stack@[i], x));
            // A node numbered below v was there before w was explored.
            lemma_low_is_old(s1, s2, v, x, gray1);
        } else {
            assert(s2.on(w));
            assert(edge(g, s2.stack@[i], x));
        }
    }
}

/// A stack node with a smaller number than an older one was on the stack before.
proof fn lemma_low_is_old(
    s1: Search,
    s2: Search,
    v: u64,
    x: u64,
    gray: Set<u64>,
)
    requires
        s1.shape(gray),
        s2.shape(gray),
        s2.extends(s1),
        s1.on(v),
        s2.on(x),
        s2.idx(x) < s2.idx(v),
    ensures
        s1.on(x),
        s1.visited(x),
{
    assert(s1.visited(v));
    assert(s1.stack@.contains(v));
    let j = choose|j: int| 0 <= j < s1.stack@.len() && s1.stack@[j] == v;
    assert(s2.stack@[j] == v);
    assert(s2.stack@.contains(x));
    let i = choose|i: int| 0 <= i < s2.stack@.len() && s2.stack@[i] == x;
    if i >= j {
        if i > j {
            assert(s2.idx(s2.stack@[j]) < s2.idx(s2.stack@[i]));
        }
    } else {
        assert(s2.stack@[i] == s1.stack@[i]);
        assert(s1.on(s1.stack@[i]));
    }
}

/// `v` has been explored but can get back below itself: it stays on the stack.
proof fn lemma_settle(g: Edges, s: Search, v: u64, y: u64, gray: Set<u64>)
    requires
        s.inv(g, gray.insert(v)),
        !gray.contains(v),
        s.on(y),
        s.idx(y) < s.idx(v),
        reach(g, v, y),
        forall|x: u64| #[trigger] edge(g, v, x) ==> s.visited(x),
    ensures
        s.inv(g, gray),
{
    let gray1 = gray.insert(v);
    assert forall|u: u64| #[trigger] gray.contains(u) implies s.on(u) by {
        assert(gray1.contains(u));
    }
    assert(s.shape(gray));
    assert forall|a: u64, b: u64|
        s.visited(a) && !gray.contains(a) && #[trigger] edge(g, a, b) implies s.visited(b) by {
        if a != v {
            assert(!gray1.contains(a));
        }
    }
    assert forall|x: u64, z: u64| #[trigger]
        gray.contains(x) && #[trigger] s.on(z) && s.idx(x) <= s.idx(z) implies reach(g, x, z) by {
        assert(gray1.contains(x));
    }
    assert(s.has_root(g, gray1, y));
    let r = choose|x: u64| #[trigger]
        gray1.contains(x) && s.idx(x) <= s.idx(y) && reach(g, y, x);
    assert(r != v);
    assert(gray.contains(r));
    assert forall|z: u64| s.on(z) implies #[trigger] s.has_root(g, gray, z) by {
        assert(s.has_root(g, gray1, z));
        let x = choose|x: u64| #[trigger]
            gray1.contains(x) && s.idx(x) <= s.idx(z) && reach(g, z, x);
        if x == v {
            lemma_reach_trans(g, z, v, y);
            lemma_reach_trans(g, z, y, r);
            assert(gray.contains(r));
        } else {
            assert(gray.contains(x));
        }
    }
    assert(s.linked(g, gray));
}

/// Whom `waiter` waits for.
pub open spec fn waits_of(g: Edges, waiter: u64) -> Set<u64> {
    if g.contains_key(waiter) {
        g[waiter]
    } else {
        Set::empty()
    }
}

/// The edges without those that start or end at `txn_id`.
pub open spec fn without(g: Edges, txn_id: u64) -> Edges {
    g.remove(txn_id).map_values(|s: Set<u64>| s.remove(txn_id))
}

/// What is known of the transactions once a registered one holds `count` locks.
pub open spec fn with_lock_count(info: Map<u64, TxnInfo>, txn_id: u64, count: int) -> Map<
    u64,
    TxnInfo,
> {
    if info.contains_key(txn_id) {
        info.insert(txn_id, TxnInfo { lock_count: count as usize, ..info[txn_id] })
    } else {
        info
    }
}

/// `id` stands at `i`, is registered, and no other registered member comes before
/// it: none is a better victim, and each one listed earlier is a worse one.
spec fn chosen_at(info: Map<u64, TxnInfo>, cycle: Seq<u64>, id: u64, i: int) -> bool {
    &&& 0 <= i < cycle.len()
    &&& cycle[i] == id
    &&& info.contains_key(id)
    &&& forall|j: int|
        0 <= j < cycle.len() && info.contains_key(#[trigger] cycle[j]) ==> !preferred(
            info[cycle[j]],
            info[id],
        ) && (j < i ==> preferred(info[id], info[cycle[j]]))
}

/// `id` is the best victim among the registered members, the first listed where
/// several are equally good; with none registered, the first member.
spec fn first_choice(info: Map<u64, TxnInfo>, cycle: Seq<u64>, id: u64) -> bool {
    if forall|j: int| 0 <= j < cycle.len() ==> !info.contains_key(#[trigger] cycle[j]) {
        id == cycle[0]
    } else {
        exists|i: int| chosen_at(info, cycle, id, i)
    }
}

proof fn lemma_selected(g: Edges, info: Map<u64, TxnInfo>, c: Seq<u64>, victims: Seq<u64>)
    requires
        is_component(g, c),
        c.len() > 1,
        victims.len() == 1,
        first_choice(info, c, victims[0]),
    ensures
        deadlocked(g, victims[0]),
        is_victim(g, info, victims[0]),
{
    let id = victims[0];
    assert(c.contains(id)) by {
        if forall|j: int| 0 <= j < c.len() ==> !info.contains_key(#[trigger] c[j]) {
            assert(c[0] == id);
        } else {
            let i = choose|i: int| chosen_at(info, c, id, i);
            assert(c[i] == id);
        }
    }
    assert forall|m: u64| c.contains(m) <==> #[trigger] mutual(g, id, m) by {
        assert(c.contains(id) && mutual(g, c[0], id));
        if c.contains(m) {
            lemma_reach_trans(g, id, c[0], m);
            lemma_reach_trans(g, m, c[0], id);
        }
        if mutual(g, id, m) {
            lemma_reach_trans(g, c[0], id, m);
            lemma_reach_trans(g, m, id, c[0]);
            assert(mutual(g, c[0], m));
        }
    }
    assert(deadlocked(g, id)) by {
        let other = if c[0] == id {
            c[1]
        } else {
            c[0]
        };
        assert(c.contains(other));
        assert(mutual(g, id, other));
    }
    assert forall|m: u64| #[trigger] mutual(g, id, m) && info.contains_key(m) implies info.contains_key(
        id,
    ) && !preferred(info[m], info[id]) by {
        assert(c.contains(m));
        let j = choose|j: int| 0 <= j < c.len() && c[j] == m;
        assert(info.contains_key(c[j]));
        let i = choose|i: int| chosen_at(info, c, id, i);
        assert(chosen_at(info, c, id, i));
    }
}

/// A node from which another one can be reached has an edge.
proof fn lemma_leaves(g: Edges, a: u64, b: u64)
    requires
        reach(g, a, b),
        a != b,
    ensures
        g.contains_key(a),
{
    let p = choose|p: Seq<u64>| path(g, p, a, b);
    assert(p.len() > 1) by {
        if p.len() == 1 {
            assert(p[0] == p.last());
        }
    }
    assert(hop(g, p, 0));
}

/// A transaction that was forgotten is part of no deadlock.
pub proof fn lemma_forgotten_is_free(g: Edges, txn_id: u64)
    ensures
        !deadlocked(without(g, txn_id), txn_id),
{
    let rest = without(g, txn_id);
    if deadlocked(rest, txn_id) {
        let b = choose|b: u64| txn_id != b && #[trigger] mutual(rest, txn_id, b);
        lemma_leaves(rest, txn_id, b);
    }
}

fn is_preferred(a: &TxnInfo, b: &TxnInfo) -> (result: bool)
    ensures
        result == preferred(*a, *b),
{
    a.priority > b.priority || (a.priority == b.priority && (a.start_ts > b.start_ts || (a.start_ts
        == b.start_ts && a.lock_count < b.lock_count)))
}

impl WaitForGraph {
    /// No transaction waits for itself.
    pub open spec fn wf(&self) -> bool {
        forall|a: u64| !#[trigger] edge(self@.edges, a, a)
    }

    pub fn new() -> (graph: Self)
        ensures
            graph.wf(),
            graph@.edges == Map::<u64, Set<u64>>::empty(),
            graph@.info == Map::<u64, TxnInfo>::empty(),
    {
        let graph = WaitForGraph { edges: HashMap::new(), txn_info: HashMap::new() };
        assert(graph@.edges =~= Map::<u64, Set<u64>>::empty());
        graph
    }

    pub fn register_txn(&mut self, txn_id: u64, start_ts: u64, priority: u32)
        ensures
            final(self)@.edges == old(self)@.edges,
            final(self)@.info == old(self)@.info.insert(
                txn_id,
                TxnInfo { start_ts, lock_count: 0, priority },
            ),
    {
        self.txn_info.insert(txn_id, TxnInfo { start_ts, lock_count: 0, priority });
    }

    /// Forgets a transaction: what it waits for, and that others wait for it.
    pub fn unregister_txn(&mut self, txn_id: u64)
        ensures
            final(self)@.edges == without(old(self)@.edges, txn_id),
            final(self)@.info == old(self)@.info.remove(txn_id),
            old(self).wf() ==> final(self).wf(),
    {
        let ghost before = self@.edges;
        self.edges.remove(&txn_id);
        self.txn_info.remove(&txn_id);
        let ghost all = self@.edges;
        let waiters: Vec<u64> = keys_of(&self.edges);
        let mut k: usize = 0;
        while k < waiters.len()
            invariant
                k <= waiters@.len(),
                waiters@.no_duplicates(),
                forall|v: u64| waiters@.contains(v) <==> all.contains_key(v),
                self@.edges.dom() == all.dom(),
                self@.info == old(self)@.info.remove(txn_id),
                forall|i: int|
                    0 <= i < k ==> self@.edges[#[trigger] waiters@[i]] == all[waiters@[i]].remove(
                        txn_id,
                    ),
                forall|i: int|
                    k <= i < waiters@.len() ==> self@.edges[#[trigger] waiters@[i]]
                        == all[waiters@[i]],
            decreases waiters@.len() - k,
        {
            let waiter: u64 = waiters[k];
            let ghost now = self@.edges;
            assert(waiters@.contains(waiter));
            assert(self@.edges.contains_key(waiter));
            match self.edges.remove(&waiter) {
                Some(set) => {
                    let mut set = set;
                    set.remove(&txn_id);
                    assert(set@ == all[waiter].remove(txn_id));
                    self.edges.insert(waiter, set);
                },
                None => {},
            }
            assert(self@.edges =~= now.insert(waiter, all[waiter].remove(txn_id)));
            k += 1;
        }
        proof {
            assert(all =~= before.remove(txn_id));
            assert forall|v: u64| #[trigger] self@.edges.contains_key(v) implies self@.edges[v]
                == all[v].remove(txn_id) by {
                assert(waiters@.contains(v));
                let i = choose|i: int| 0 <= i < waiters@.len() && waiters@[i] == v;
                assert(self@.edges[waiters@[i]] == all[waiters@[i]].remove(txn_id));
            }
            assert(self@.edges =~= without(before, txn_id));
            if old(self).wf() {
                assert forall|a: u64| !#[trigger] edge(self@.edges, a, a) by {
                    assert(!edge(old(self)@.edges, a, a));
                }
            }
        }
    }

    /// Records that `waiter` waits for `holder`, unless they are the same.
    pub fn add_wait_edge(&mut self, waiter: u64, holder: u64)
        ensures
            final(self)@.info == old(self)@.info,
            waiter == holder ==> final(self)@.edges == old(self)@.edges,
            waiter != holder ==> final(self)@.edges == old(self)@.edges.insert(
                waiter,
                waits_of(old(self)@.edges, waiter).insert(holder),
            ),
            old(self).wf() ==> final(self).wf(),
    {
        if waiter == holder {
            return;
        }
        let ghost before = self@.edges;
        let mut holders: HashSet<u64> = match self.edges.remove(&waiter) {
            Some(set) => set,
            None => HashSet::new(),
        };
        assert(holders@ == waits_of(before, waiter));
        holders.insert(holder);
        let ghost set = holders@;
        self.edges.insert(waiter, holders);
        assert(self@.edges =~= before.insert(waiter, set));
        proof {
            if old(self).wf() {
                assert forall|a: u64| !#[trigger] edge(self@.edges, a, a) by {
                    assert(!edge(old(self)@.edges, a, a));
                }
            }
        }
    }

    /// Takes back that `waiter` waits for `holder`.
    pub fn remove_wait_edge(&mut self, waiter: u64, holder: u64)
        ensures
            final(self)@.info == old(self)@.info,
            final(self)@.edges == ({
                let rest = waits_of(old(self)@.edges, waiter).remove(holder);
                if !old(self)@.edges.contains_key(waiter) {
                    old(self)@.edges
                } else if rest.len() == 0 {
                    old(self)@.edges.remove(waiter)
                } else {
                    old(self)@.edges.insert(waiter, rest)
                }
            }),
            old(self).wf() ==> final(self).wf(),
    {
        let ghost before = self@.edges;
        match self.edges.remove(&waiter) {
            Some(set) => {
                let mut holders: HashSet<u64> = set;
                holders.remove(&holder);
                let ghost rest = holders@;
                assert(rest == waits_of(before, waiter).remove(holder));
                if holders.len() != 0 {
                    self.edges.insert(waiter, holders);
                    assert(self@.edges =~= before.insert(waiter, rest));
                } else {
                    assert(self@.edges =~= before.remove(waiter));
                }
            },
            None => {
                assert(self@.edges =~= before);
            },
        }
        proof {
            if old(self).wf() {
                assert forall|a: u64| !#[trigger] edge(self@.edges, a, a) by {
                    assert(!edge(old(self)@.edges, a, a));
                }
            }
        }
    }

    /// `waiter` waits for nobody any more.
    pub fn remove_all_waits(&mut self, waiter: u64)
        ensures
            final(self)@.info == old(self)@.info,
            final(self)@.edges == old(self)@.edges.remove(waiter),
            old(self).wf() ==> final(self).wf(),
    {
        let ghost before = self@.edges;
        self.edges.remove(&waiter);
        assert(self@.edges =~= before.remove(waiter));
        proof {
            if old(self).wf() {
                assert forall|a: u64| !#[trigger] edge(self@.edges, a, a) by {
                    assert(!edge(old(self)@.edges, a, a));
                }
            }
        }
    }

    /// One more lock is held by a registered transaction. The counter wraps around.
    pub fn increment_lock_count(&mut self, txn_id: u64)
        ensures
            final(self)@.edges == old(self)@.edges,
            final(self)@.info == with_lock_count(
                old(self)@.info,
                txn_id,
                usize::wrapping_add(old(self)@.info[txn_id].lock_count, 1) as int,
            ),
    {
        let ghost before = self@.info;
        if let Some(info) = self.txn_info.get(&txn_id) {
            let updated = TxnInfo {
                start_ts: info.start_ts,
                lock_count: info.lock_count.wrapping_add(1),
                priority: info.priority,
            };
            self.txn_info.insert(txn_id, updated);
        }
        assert(self@.info =~= with_lock_count(
            before,
            txn_id,
            usize::wrapping_add(before[txn_id].lock_count, 1) as int,
        ));
    }

    /// One lock fewer is held by a registered transaction, but never fewer than none.
    pub fn decrement_lock_count(&mut self, txn_id: u64)
        ensures
            final(self)@.edges == old(self)@.edges,
            final(self)@.info == with_lock_count(
                old(self)@.info,
                txn_id,
                if old(self)@.info[txn_id].lock_count == 0 {
                    0
                } else {
                    old(self)@.info[txn_id].lock_count - 1
                },
            ),
    {
        let ghost before = self@.info;
        if let Some(info) = self.txn_info.get(&txn_id) {
            let updated = TxnInfo {
                start_ts: info.start_ts,
                lock_count: if info.lock_count == 0 {
                    0
                } else {
                    info.lock_count - 1
                },
                priority: info.priority,
            };
            self.txn_info.insert(txn_id, updated);
        }
    }

    /// Looks for transactions that wait for each other. Finds some exactly when there
    /// are any, and then names one of them as the victim: the one of least importance
    /// in its deadlock, the youngest among these, the one with the fewest locks among
    /// these.
    pub fn detect_deadlock(&self) -> (victims: Option<Vec<u64>>)
        ensures
            match victims {
                None => forall|a: u64| !#[trigger] deadlocked(self@.edges, a),
                Some(list) => {
                    &&& list@.len() == 1
                    &&& deadlocked(self@.edges, list@[0])
                    &&& is_victim(self@.edges, self@.info, list@[0])
                },
            },
    {
        let ghost g = self@.edges;
        let mut st = Search {
            index_counter: 0,
            stack: Vec::new(),
            indices: HashMap::new(),
            lowlinks: HashMap::new(),
            on_stack: HashSet::new(),
            sccs: Vec::new(),
        };
        let ghost none = Set::<u64>::empty();
        proof {
            assert(st.lowlinks@.dom() =~= st.indices@.dom());
            assert(st.inv(g, none));
        }
        let waiters: Vec<u64> = keys_of(&self.edges);
        let mut k: usize = 0;
        while k < waiters.len()
            invariant
                g == self@.edges,
                none == Set::<u64>::empty(),
                k <= waiters@.len(),
                st.inv(g, none),
                forall|i: int| 0 <= i < k ==> st.visited(#[trigger] waiters@[i]),
            decreases waiters@.len() - k,
        {
            let v: u64 = waiters[k];
            let ghost s1 = st;
            if !st.indices.contains_key(&v) {
                self.strongconnect(v, &mut st, Ghost(none));
            }
            assert forall|i: int| 0 <= i <= k implies st.visited(#[trigger] waiters@[i]) by {
                if i < k {
                    assert(s1.visited(waiters@[i]));
                }
            }
            k += 1;
        }
        proof {
            assert forall|v: u64| g.contains_key(v) implies #[trigger] st.done(v) by {
                assert(waiters@.contains(v));
                let i = choose|i: int| 0 <= i < waiters@.len() && waiters@[i] == v;
                assert(st.visited(waiters@[i]));
                if st.on(v) {
                    assert(st.has_root(g, none, v));
                }
            }
        }
        let mut j: usize = 0;
        while j < st.sccs.len()
            invariant
                g == self@.edges,
                j <= st.sccs@.len(),
                st.found(g),
                forall|v: u64| g.contains_key(v) ==> #[trigger] st.done(v),
                forall|i: int| 0 <= i < j ==> (#[trigger] st.sccs@[i])@.len() == 1,
            decreases st.sccs@.len() - j,
        {
            assert(is_component(g, st.sccs@[j as int]@));
            if st.sccs[j].len() > 1 {
                let victims: Vec<u64> = self.select_victims(st.sccs[j].as_slice());
                proof {
                    lemma_selected(g, self@.info, st.sccs@[j as int]@, victims@);
                }
                return Some(victims);
            }
            j += 1;
        }
        proof {
            assert forall|a: u64| !#[trigger] deadlocked(g, a) by {
                if deadlocked(g, a) {
                    let b = choose|b: u64| a != b && #[trigger] mutual(g, a, b);
                    lemma_leaves(g, a, b);
                    assert(st.done(a));
                    assert(covered(st.sccs@, a));
                    let i = choose|i: int|
                        0 <= i < st.sccs@.len() && #[trigger] st.sccs@[i]@.contains(a);
                    let c = st.sccs@[i]@;
                    assert(is_component(g, c));
                    lemma_reach_trans(g, c[0], a, b);
                    lemma_reach_trans(g, b, a, c[0]);
                    assert(c.contains(b));
                }
            }
        }
        None
    }

    /// Picks the victim among the members of a deadlock.
    fn select_victims(&self, cycle: &[u64]) -> (victims: Vec<u64>)
        requires
            cycle@.len() > 0,
        ensures
            victims@.len() == 1,
            first_choice(self@.info, cycle@, victims@[0]),
    {
        let mut best: usize = 0;
        let mut found: bool = false;
        let mut i: usize = 0;
        while i < cycle.len()
            invariant
                i <= cycle@.len(),
                best < cycle@.len(),
                found ==> best < i,
                !found ==> best == 0 && forall|j: int|
                    0 <= j < i ==> !self@.info.contains_key(#[trigger] cycle@[j]),
                found ==> self@.info.contains_key(cycle@[best as int]) && forall|j: int|
                    0 <= j < i && self@.info.contains_key(#[trigger] cycle@[j]) ==> !preferred(
                        self@.info[cycle@[j]],
                        self@.info[cycle@[best as int]],
                    ) && (j < best ==> preferred(
                        self@.info[cycle@[best as int]],
                        self@.info[cycle@[j]],
                    )),
            decreases cycle@.len() - i,
        {
            if let Some(info) = self.txn_info.get(&cycle[i]) {
                if found {
                    match self.txn_info.get(&cycle[best]) {
                        Some(best_info) => {
                            if is_preferred(info, best_info) {
                                best = i;
                            }
                        },
                        None => {},
                    }
                } else {
                    best = i;
                    found = true;
                }
            }
            i += 1;
        }
        let mut victims: Vec<u64> = Vec::new();
        victims.push(cycle[best]);
        proof {
            if found {
                assert(chosen_at(self@.info, cycle@, cycle@[best as int], best as int));
            }
        }
        victims
    }

    /// Explores `v` and whatever can be reached from it and has not been visited,
    /// and records each component that is completed on the way, that of `v` last. With no
    /// node under exploration, everything that can be reached from `v` is visited, and all
    /// components are complete.
    fn strongconnect(&self, v: u64, st: &mut Search, Ghost(gray): Ghost<Set<u64>>)
        requires
            old(st).inv(self@.edges, gray),
            !old(st).visited(v),
            forall|x: u64| #[trigger] gray.contains(x) ==> reach(self@.edges, x, v),
        ensures
            final(st).inv(self@.edges, gray),
            final(st).extends(*old(st)),
            final(st).visited(v),
            final(st).idx(v) == old(st).index_counter,
            final(st).index_counter > old(st).index_counter,
            !final(st).on(v) ==> final(st).stack@ == old(st).stack@ && final(st).lowlinks@[v]
                == final(st).idx(v),
            final(st).on(v) ==> final(st).back_link(self@.edges, old(st).stack@.len() as int, v),
            final(st).on(v) ==> final(st).lowlinks@[v] < final(st).idx(v),
            forall|u: u64| #[trigger]
                final(st).visited(u) && !old(st).visited(u) ==> reach(self@.edges, v, u),
            !final(st).on(v) ==> final(st).sccs@.len() > old(st).sccs@.len(),
            !final(st).on(v) ==> final(st).sccs@.last()@.contains(v),
            gray == Set::<u64>::empty() ==> !final(st).on(v) && final(st).explored(
                self@.edges,
                *old(st),
                v,
            ),
        decreases usize::MAX - old(st).indices@.len(),
    {
        let ghost g = self@.edges;
        let ghost s0 = *st;
        let ghost base = st.stack@.len() as int;
        let ghost gray1 = gray.insert(v);
        proof {
            assert(!gray.contains(v)) by {
                if gray.contains(v) {
                    assert(s0.on(v));
                }
            }
        }
        st.enter(v, Ghost(g), Ghost(gray));
        let successors: Vec<u64> = match self.edges.get(&v) {
            Some(set) => members(set),
            None => Vec::new(),
        };
        assert(forall|x: u64| #[trigger] edge(g, v, x) <==> successors@.contains(x));
        let mut k: usize = 0;
        proof {
            lemma_reach_self(g, v);
            assert(st.on(v)) by {
                assert(gray1.contains(v));
            }
        }
        while k < successors.len()
            invariant
                g == self@.edges,
                s0 == *old(st),
                gray1 == gray.insert(v),
                base == s0.stack@.len(),
                st.inv(g, gray1),
                st.extends(s0),
                !s0.visited(v),
                s0.inv(g, gray),
                st.visited(v),
                st.idx(v) == s0.index_counter,
                st.index_counter > s0.index_counter,
                forall|u: u64| #[trigger] st.visited(u) && !s0.visited(u) ==> reach(g, v, u),
                k <= successors@.len(),
                forall|x: u64| #[trigger] edge(g, v, x) <==> successors@.contains(x),
                forall|x: u64| #[trigger] gray.contains(x) ==> reach(g, x, v),
                base < st.stack@.len(),
                st.stack@[base] == v,
                st.lowlinks@[v] <= st.idx(v),
                st.low_reached(g, v),
                st.low_bounds(g, base, v),
                forall|j: int| 0 <= j < k ==> st.visited(#[trigger] successors@[j]),
                forall|j: int|
                    0 <= j < k && st.on(#[trigger] successors@[j]) && st.idx(successors@[j])
                        < st.idx(v) ==> st.idx(successors@[j]) >= st.lowlinks@[v],
            decreases successors@.len() - k,
        {
            let w: u64 = successors[k];
            assert(successors@.contains(w));
            assert(edge(g, v, w));
            let ghost s1 = *st;
            if !st.indices.contains_key(&w) {
                let visited: usize = st.indices.len();
                proof {
                    lemma_reach_edge(g, v, w);
                    assert forall|x: u64| #[trigger] gray1.contains(x) implies reach(g, x, w) by {
                        if x != v {
                            assert(gray.contains(x));
                            lemma_reach_trans(g, x, v, w);
                        }
                    }
                }
                self.strongconnect(w, st, Ghost(gray1));
                let ghost s2 = *st;
                assert(s1.visited(v));
                let low_w: usize = *st.lowlinks.get(&w).unwrap();
                st.lower(v, low_w, Ghost(g), Ghost(gray1));
                proof {
                    lemma_child(g, s0, s1, s2, *st, v, w, base, gray1);
                    assert forall|u: u64| #[trigger] st.visited(u) && !s0.visited(u) implies reach(
                        g,
                        v,
                        u,
                    ) by {
                        assert(s2.visited(u));
                        if !s1.visited(u) {
                            lemma_reach_trans(g, v, w, u);
                        }
                    }
                }
            } else if st.on_stack.contains(&w) {
                let idx_w: usize = *st.indices.get(&w).unwrap();
                st.lower(v, idx_w, Ghost(g), Ghost(gray1));
                proof {
                    lemma_reach_edge(g, v, w);
                    lemma_lowered(g, s0, s1, *st, v, w, base);
                    assert forall|u: u64| #[trigger] st.visited(u) && !s0.visited(u) implies reach(
                        g,
                        v,
                        u,
                    ) by {
                        assert(s1.visited(u));
                    }
                }
            }
            proof {
                assert forall|j: int| 0 <= j < k implies st.visited(#[trigger] successors@[j]) && (
                st.on(successors@[j]) && st.idx(successors@[j]) < st.idx(v) ==> st.idx(
                    successors@[j],
                ) >= st.lowlinks@[v]) by {
                    assert(s1.visited(successors@[j]));
                }
            }
            k += 1;
        }
        let low_v: usize = *st.lowlinks.get(&v).unwrap();
        let idx_v: usize = *st.indices.get(&v).unwrap();
        let ghost s3 = *st;
        proof {
            assert forall|x: u64| #[trigger] edge(g, v, x) implies st.visited(x) && (st.on(x)
                && st.idx(x) < st.idx(v) ==> st.idx(x) >= st.lowlinks@[v]) by {
                assert(successors@.contains(x));
                let j = choose|j: int| 0 <= j < successors@.len() && successors@[j] == x;
                assert(st.visited(successors@[j]));
            }
            assert forall|x: u64| #[trigger] gray.contains(x) implies st.idx(x) < st.idx(v) by {
                assert(s0.on(x));
                assert(s0.visited(x));
            }
        }
        if low_v == idx_v {
            st.close(v, Ghost(base), Ghost(g), Ghost(gray));
            proof {
                assert(st.stack@ =~= s0.stack@);
                assert forall|u: u64| #[trigger] s0.visited(u) implies st.visited(u) && st.idx(u)
                    == s0.idx(u) && st.lowlinks@[u] == s0.lowlinks@[u] && st.on(u) == s0.on(u) by {
                    assert(s3.visited(u));
                    assert(s3.on(u) == s0.on(u));
                }
                assert(st.extends(s0));
                assert(s3.on(v) && !st.on(v));
                assert forall|u: u64| #[trigger] st.visited(u) && !s0.visited(u) implies reach(
                    g,
                    v,
                    u,
                ) by {
                    assert(s3.visited(u));
                }
            }
        } else {
            proof {
                let y = choose|y: u64| #[trigger]
                    st.on(y) && st.idx(y) == st.lowlinks@[v] && reach(g, v, y);
                lemma_settle(g, *st, v, y, gray);
            }
        }
        proof {
            if gray == Set::<u64>::empty() {
                lemma_explored(g, s0, *st, v);
            }
        }
    }
}

/// With no node under exploration, nothing that can be reached is left out.
proof fn lemma_explored(g: Edges, s0: Search, s: Search, v: u64)
    requires
        s.inv(g, Set::empty()),
        s0.inv(g, Set::empty()),
        s.extends(s0),
        s.visited(v),
        forall|u: u64| #[trigger] s.visited(u) && !s0.visited(u) ==> reach(g, v, u),
    ensures
        s.explored(g, s0, v),
{
    let none = Set::<u64>::empty();
    assert forall|u: u64| !#[trigger] s.on(u) by {
        if s.on(u) {
            assert(s.has_root(g, none, u));
        }
    }
    assert(s.stack@.len() == 0) by {
        if s.stack@.len() > 0 {
            assert(s.on(s.stack@[0]));
        }
    }
    let seen = Set::<u64>::new(|u: u64| s.visited(u));
    assert forall|u: u64| #[trigger] s.visited(u) <==> s0.visited(u) || reach(g, v, u) by {
        if reach(g, v, u) {
            assert forall|x: u64, y: u64| seen.contains(x) && #[trigger] edge(
                g,
                x,
                y,
            ) implies seen.contains(y) by {}
            lemma_closed(g, seen, v, u);
        }
    }
    assert forall|u: u64| #[trigger] s.visited(u) <==> covered(s.sccs@, u) by {
        if s.visited(u) {
            assert(s.done(u));
        }
        if covered(s.sccs@, u) {
            let k = choose|k: int| 0 <= k < s.sccs@.len() && #[trigger] s.sccs@[k]@.contains(u);
            assert(s.done(u));
        }
    }
}

impl Search {
    /// Lowers the low link of `v` to `to` where that is smaller.
    fn lower(&mut self, v: u64, to: usize, Ghost(g): Ghost<Edges>, Ghost(gray): Ghost<
        Set<u64>,
    >)
        requires
            old(self).inv(g, gray),
            old(self).visited(v),
        ensures
            final(self).inv(g, gray),
            final(self).index_counter == old(self).index_counter,
            final(self).stack == old(self).stack,
            final(self).indices == old(self).indices,
            final(self).on_stack == old(self).on_stack,
            final(self).sccs == old(self).sccs,
            final(self).lowlinks@ == old(self).lowlinks@.insert(
                v,
                if to < old(self).lowlinks@[v] {
                    to
                } else {
                    old(self).lowlinks@[v]
                },
            ),
    {
        let ghost s0 = *self;
        assert(self.lowlinks@.contains_key(v));
        let low_v: usize = *self.lowlinks.get(&v).unwrap();
        let low: usize = if to < low_v {
            to
        } else {
            low_v
        };
        self.lowlinks.insert(v, low);
        proof {
            let s1 = *self;
            assert forall|u: u64| #![trigger s1.visited(u)]
                s1.visited(u) == s0.visited(u) && s1.idx(u) == s0.idx(u) by {}
            assert forall|u: u64| #[trigger] s1.on(u) == s0.on(u) by {}
            assert(s1.lowlinks@.dom() =~= s1.indices@.dom());
            assert forall|i: int, j: int| 0 <= i < j < s1.stack@.len() implies s1.idx(
                #[trigger] s1.stack@[i],
            ) < s1.idx(#[trigger] s1.stack@[j]) by {
                assert(s0.idx(s0.stack@[i]) < s0.idx(s0.stack@[j]));
            }
            assert forall|i: int| 0 <= i < s1.stack@.len() implies s1.on(#[trigger] s1.stack@[i]) by {
                assert(s0.on(s0.stack@[i]));
            }
            assert forall|u: u64| #[trigger] s1.visited(u) implies s1.idx(u) < s1.index_counter by {
                assert(s0.visited(u));
            }
            assert forall|u: u64| #[trigger] s1.on(u) implies s1.visited(u) && s1.stack@.contains(
                u,
            ) by {
                assert(s0.on(u));
            }
            assert forall|u: u64| #[trigger] gray.contains(u) implies s1.on(u) by {
                assert(s0.on(u));
            }
            assert(s1.shape(gray));
            assert forall|u: u64| #[trigger] s1.done(u) == s0.done(u) by {}
            assert(s1.closed(g, gray));
            assert forall|y: u64| s1.on(y) implies #[trigger] s1.has_root(g, gray, y) by {
                assert(s0.on(y));
                assert(s0.has_root(g, gray, y));
                let x = choose|x: u64| #[trigger]
                    gray.contains(x) && s0.idx(x) <= s0.idx(y) && reach(g, y, x);
                assert(gray.contains(x) && s1.idx(x) <= s1.idx(y));
            }
            assert forall|x: u64, y: u64| #[trigger]
                gray.contains(x) && #[trigger] s1.on(y) && s1.idx(x) <= s1.idx(y) implies reach(
                g,
                x,
                y,
            ) by {
                assert(s0.on(y));
            }
            assert(s1.linked(g, gray));
            assert(s1.found(g));
        }
    }

    /// The low link of `v` names a node on the stack that can be reached from `v`.
    spec fn low_reached(self, g: Edges, v: u64) -> bool {
        exists|y: u64| #[trigger]
            self.on(y) && self.idx(y) == self.lowlinks@[v] && reach(g, v, y)
    }

    /// No edge leads from above position `base` further below `v` than its low link.
    spec fn low_bounds(self, g: Edges, base: int, v: u64) -> bool {
        forall|i: int, x: u64|
            base < i < self.stack@.len() && #[trigger] edge(g, self.stack@[i], x) && self.on(x)
                && self.idx(x) < self.idx(v) ==> self.idx(x) >= self.lowlinks@[v]
    }

    /// `v` stands at `base`, and its low link is as low as any edge from there on
    /// leads.
    spec fn back_link(self, g: Edges, base: int, v: u64) -> bool {
        &&& base < self.stack@.len()
        &&& self.stack@[base] == v
        &&& self.low_reached(g, v)
        &&& forall|i: int, x: u64|
            base <= i < self.stack@.len() && #[trigger] edge(g, self.stack@[i], x) && self.on(x)
                && self.idx(x) < self.idx(v) ==> self.idx(x) >= self.lowlinks@[v]
    }
}

impl Default for WaitForGraph {
    fn default() -> (graph: Self)
        ensures
            graph.wf(),
            graph@.edges == Map::<u64, Set<u64>>::empty(),
            graph@.info == Map::<u64, TxnInfo>::empty(),
    {
        Self::new()
    }
}

} // verus!
