//! What requests for locks come to, said by what the modes allow.

use crate::common::bound;
use crate::common::bound::BoundView;
use crate::common::order;
use crate::lock::deadlock;
use crate::lock::deadlock::Edges;
use crate::lock::escalation;
use crate::lock::escalation::{EscalationAction, EscalationConfig};
use crate::lock::lock_entry::{EntryView, LockStep, RequestView, WaitEvent};
use crate::lock::lock_error::LockError;
use crate::lock::lock_mode::LockMode;
use crate::lock::lock_table;
use crate::lock::lock_table::{KeyStep, LockConfig, LocksView, Waiting};
use crate::lock::range_lock;
use crate::lock::range_lock::RangeView;
use vstd::prelude::*;

verus! {

/// Who holds a lock in this mode reads all that is under it.
pub open spec fn reads_all(m: LockMode) -> bool {
    m == LockMode::S || m == LockMode::SIX || m == LockMode::X
}

/// Who holds a lock in this mode writes something that is under it.
pub open spec fn writes_some(m: LockMode) -> bool {
    m == LockMode::IX || m == LockMode::SIX || m == LockMode::X
}

/// Who holds a lock in this mode writes all that is under it.
pub open spec fn writes_all(m: LockMode) -> bool {
    m == LockMode::X
}

/// One of the two may write what the other may read.
pub open spec fn clash(a: LockMode, b: LockMode) -> bool {
    ||| writes_all(a)
    ||| writes_all(b)
    ||| writes_some(a) && reads_all(b)
    ||| reads_all(a) && writes_some(b)
}

/// `b` allows all that `a` allows, and more.
pub open spec fn stronger(b: LockMode, a: LockMode) -> bool {
    &&& a != b
    &&& reads_all(a) ==> reads_all(b)
    &&& writes_some(a) ==> writes_some(b)
    &&& writes_all(a) ==> writes_all(b)
}

/// A lock held in mode `a` is raised by a request for mode `b`. One that is held as shared
/// with intention exclusive is not raised.
pub open spec fn raises(a: LockMode, b: LockMode) -> bool {
    stronger(b, a) && a != LockMode::SIX
}

/// Modes go together exactly where they do not clash, and are raised to stronger ones.
pub proof fn lemma_modes(a: LockMode, b: LockMode)
    ensures
        a.compatible(b) <==> !clash(a, b),
        a.upgradable(b) <==> raises(a, b),
{
}

/// Somebody other than `txn_id` holds the lock in a mode that clashes.
pub open spec fn rivalled(holders: Map<u64, LockMode>, txn_id: u64, mode: LockMode) -> bool {
    exists|id: u64| #[trigger]
        holders.contains_key(id) && id != txn_id && clash(mode, holders[id])
}

/// The transaction holds the lock already and the request would not raise it.
pub open spec fn served(holders: Map<u64, LockMode>, txn_id: u64, mode: LockMode) -> bool {
    holders.contains_key(txn_id) && !raises(holders[txn_id], mode)
}

/// Somebody other than `txn_id` has locked a range with the key in a mode that clashes.
pub open spec fn fenced(v: LocksView, txn_id: u64, key: Seq<u8>, mode: LockMode) -> bool {
    v.config.enable_range_locks && exists|i: int|
        0 <= i < v.ranges.len() && (#[trigger] v.ranges[i]).txn_id != txn_id && clash(
            mode,
            v.ranges[i].mode,
        ) && bound::in_range(key, v.ranges[i].start, v.ranges[i].end)
}

proof fn lemma_admits(e: EntryView, txn_id: u64, mode: LockMode)
    ensures
        e.admits(txn_id, mode) <==> !rivalled(e.holders, txn_id, mode),
        e.suffices(txn_id, mode) <==> served(e.holders, txn_id, mode),
{
    if e.holders.contains_key(txn_id) {
        lemma_modes(e.holders[txn_id], mode);
    }
    assert forall|id: u64| #[trigger] e.holders.contains_key(id) implies (mode.compatible(
        e.holders[id],
    ) <==> !clash(mode, e.holders[id])) by {
        lemma_modes(mode, e.holders[id]);
    }
}

proof fn lemma_fenced(v: LocksView, txn_id: u64, key: Seq<u8>, mode: LockMode)
    ensures
        v.range_conflicts(txn_id, key, mode) <==> fenced(v, txn_id, key, mode),
{
    assert forall|i: int| 0 <= i < v.ranges.len() implies (lock_table::opposes(
        #[trigger] v.ranges[i],
        txn_id,
        mode,
    ) <==> v.ranges[i].txn_id != txn_id && clash(mode, v.ranges[i].mode)) by {
        lemma_modes(mode, v.ranges[i].mode);
    }
    assert forall|i: int| 0 <= i < v.ranges.len() implies ((#[trigger] v.ranges[i]).overlaps(
        BoundView::Included(key),
        BoundView::Included(key),
    ) <==> bound::in_range(key, v.ranges[i].start, v.ranges[i].end)) by {
        range_lock::lemma_overlaps_point(v.ranges[i], key);
    }
    let point = BoundView::Included(key);
    if fenced(v, txn_id, key, mode) {
        let i = choose|i: int|
            0 <= i < v.ranges.len() && (#[trigger] v.ranges[i]).txn_id != txn_id && clash(
                mode,
                v.ranges[i].mode,
            ) && bound::in_range(key, v.ranges[i].start, v.ranges[i].end);
        assert(v.ranges[i].overlaps(point, point) && lock_table::opposes(
            v.ranges[i],
            txn_id,
            mode,
        ));
    }
}

/// What a request for the lock on a key comes to. It fails exactly where another's range
/// with the key clashes. Else it is granted where the transaction holds the lock already and
/// need not raise it, or where nobody else holds it in a mode that clashes, and has to wait
/// otherwise.
pub proof fn lemma_key_request(
    v: LocksView,
    txn_id: u64,
    key: Seq<u8>,
    mode: LockMode,
    after: LocksView,
    step: KeyStep,
)
    requires
        v.key_locked(txn_id, key, mode, after, step),
    ensures
        step is Failed <==> fenced(v, txn_id, key, mode),
        step is Failed ==> step == KeyStep::Failed(LockError::RangeConflict) && after == v,
        step is Granted <==> !fenced(v, txn_id, key, mode) && (served(
            v.entry(key).holders,
            txn_id,
            mode,
        ) || !rivalled(v.entry(key).holders, txn_id, mode)),
        step is Wait <==> !fenced(v, txn_id, key, mode) && !served(
            v.entry(key).holders,
            txn_id,
            mode,
        ) && rivalled(v.entry(key).holders, txn_id, mode),
{
    lemma_admits(v.entry(key), txn_id, mode);
    lemma_fenced(v, txn_id, key, mode);
}

/// Whether a lock stands in the way is answered as a request would be.
pub proof fn lemma_conflict_answers(v: LocksView, txn_id: u64, key: Seq<u8>, mode: LockMode)
    ensures
        v.range_conflicts(txn_id, key, mode) <==> fenced(v, txn_id, key, mode),
        v.conflicts(txn_id, key, mode) <==> fenced(v, txn_id, key, mode) || rivalled(
            v.entry(key).holders,
            txn_id,
            mode,
        ),
{
    lemma_admits(v.entry(key), txn_id, mode);
    lemma_fenced(v, txn_id, key, mode);
}

/// A transaction that is granted a lock that it did not have, or not as strong, holds it in
/// the mode that it asked for, and no other holder's mode clashes with that. The other
/// holders keep what they have, nobody waits who did not, and the other keys stay as they
/// are.
pub proof fn lemma_granted_mode(
    v: LocksView,
    txn_id: u64,
    key: Seq<u8>,
    mode: LockMode,
    after: LocksView,
)
    requires
        v.key_locked(txn_id, key, mode, after, KeyStep::Granted),
    ensures
        !v.entry(key).holders.contains_key(txn_id) || raises(v.entry(key).holders[txn_id], mode)
            ==> after.entry(key).holders == v.entry(key).holders.insert(txn_id, mode)
            && !rivalled(after.entry(key).holders, txn_id, mode),
        v.entry(key).holders.contains_key(txn_id) && !raises(v.entry(key).holders[txn_id], mode)
            ==> after.entry(key).holders == v.entry(key).holders,
        after.entry(key).holders.contains_key(txn_id),
        after.entry(key).queue == v.entry(key).queue,
        forall|other: Seq<u8>| other != key ==> #[trigger] after.entry(other) == v.entry(other),
        after.graph.edges == v.graph.edges,
{
    let (entry, taken) = v.entry(key).tried(txn_id, mode);
    lemma_admits(v.entry(key), txn_id, mode);
    lemma_recorded_frame(v.with_entry(key, entry), txn_id, key, after);
    if !served(v.entry(key).holders, txn_id, mode) {
        assert(!rivalled(after.entry(key).holders, txn_id, mode)) by {
            if rivalled(after.entry(key).holders, txn_id, mode) {
                let id = choose|id: u64| #[trigger]
                    after.entry(key).holders.contains_key(id) && id != txn_id && clash(
                        mode,
                        after.entry(key).holders[id],
                    );
                assert(v.entry(key).holders.contains_key(id));
            }
        }
    }
}

/// Who is granted the exclusive lock on a key, having had none or a weaker one that can be
/// raised, is its only holder.
pub proof fn lemma_exclusive_is_alone(
    v: LocksView,
    txn_id: u64,
    key: Seq<u8>,
    after: LocksView,
    id: u64,
)
    requires
        v.key_locked(txn_id, key, LockMode::X, after, KeyStep::Granted),
        v.entry(key).holders.contains_key(txn_id) ==> v.entry(key).holders[txn_id] == LockMode::S
            || v.entry(key).holders[txn_id] == LockMode::IS || v.entry(key).holders[txn_id]
            == LockMode::IX,
        after.entry(key).holders.contains_key(id),
    ensures
        id == txn_id,
        after.entry(key).holders[id] == LockMode::X,
{
    lemma_granted_mode(v, txn_id, key, LockMode::X, after);
}

/// To count a lock that was granted leaves the locks on keys and the waits as they are.
proof fn lemma_recorded_frame(v: LocksView, txn_id: u64, key: Seq<u8>, after: LocksView)
    requires
        v.recorded(txn_id, key, after),
    ensures
        after.locks == v.locks,
        after.graph.edges == v.graph.edges,
        after.config == v.config,
{
}

/// While a request waits, the graph says so: its transaction waits for every other holder of
/// the key, whatever the mode, and for those that it waited for. The others wait for whom
/// they did. The request stands at the end of the queue, and nobody's lock changes.
pub proof fn lemma_waits_are_shown(
    v: LocksView,
    txn_id: u64,
    key: Seq<u8>,
    mode: LockMode,
    after: LocksView,
    w: Waiting,
)
    requires
        v.key_locked(txn_id, key, mode, after, KeyStep::Wait(w)),
    ensures
        forall|id: u64| #[trigger]
            deadlock::edge(after.graph.edges, txn_id, id) <==> deadlock::edge(
                v.graph.edges,
                txn_id,
                id,
            ) || (id != txn_id && v.entry(key).holders.contains_key(id)),
        forall|a: u64, b: u64|
            a != txn_id ==> (#[trigger] deadlock::edge(after.graph.edges, a, b) <==> deadlock::edge(
                v.graph.edges,
                a,
                b,
            )),
        after.graph.info == v.graph.info,
        after.entry(key).holders == v.entry(key).holders,
        after.entry(key).queue == v.entry(key).queue.push(
            RequestView { txn_id, mode, granted: false, is_upgrade: false },
        ),
        forall|other: Seq<u8>| other != key ==> #[trigger] after.entry(other) == v.entry(other),
        after.ranges == v.ranges,
        w.txn_id == txn_id && w.key@ == key && w.mode == mode,
        forall|id: u64|
            #![trigger w.holders@.contains(id)]
            w.holders@.contains(id) <==> v.entry(key).holders.contains_key(id),
{
    lemma_waits_added(v.graph.edges, txn_id, w.holders@);
    assert forall|id: u64| #[trigger]
        deadlock::edge(after.graph.edges, txn_id, id) <==> deadlock::edge(
            v.graph.edges,
            txn_id,
            id,
        ) || (id != txn_id && v.entry(key).holders.contains_key(id)) by {
        assert(w.holders@.contains(id) <==> v.entry(key).holders.contains_key(id));
    }
}

proof fn lemma_waits_added(edges: Edges, waiter: u64, holders: Seq<u64>)
    ensures
        ({
            let after = lock_table::waits_added(edges, waiter, holders);
            &&& forall|id: u64| #[trigger]
                deadlock::edge(after, waiter, id) <==> deadlock::edge(edges, waiter, id) || (id
                    != waiter && holders.contains(id))
            &&& forall|a: u64, b: u64|
                a != waiter ==> (#[trigger] deadlock::edge(after, a, b) <==> deadlock::edge(
                    edges,
                    a,
                    b,
                ))
        }),
    decreases holders.len(),
{
    if holders.len() > 0 {
        let fewer = holders.drop_last();
        lemma_waits_added(edges, waiter, fewer);
        let before = lock_table::waits_added(edges, waiter, fewer);
        let after = lock_table::waits_added(edges, waiter, holders);
        assert forall|id: u64| holders.contains(id) <==> fewer.contains(id) || id
            == holders.last() by {
            if holders.contains(id) {
                let i = choose|i: int| 0 <= i < holders.len() && holders[i] == id;
                if i < fewer.len() {
                    assert(fewer[i] == id);
                }
            }
            if fewer.contains(id) {
                let i = choose|i: int| 0 <= i < fewer.len() && fewer[i] == id;
                assert(holders[i] == id);
            }
            assert(holders[holders.len() - 1] == holders.last());
        }
        assert forall|id: u64| #[trigger]
            deadlock::edge(after, waiter, id) <==> deadlock::edge(edges, waiter, id) || (id
                != waiter && holders.contains(id)) by {
            assert(deadlock::edge(before, waiter, id) <==> deadlock::edge(edges, waiter, id) || (id
                != waiter && fewer.contains(id)));
        }
        assert forall|a: u64, b: u64|
            a != waiter implies (#[trigger] deadlock::edge(after, a, b) <==> deadlock::edge(
            edges,
            a,
            b,
        )) by {
            assert(deadlock::edge(before, a, b) <==> deadlock::edge(edges, a, b));
        }
    }
}

/// Two transactions that each wait for a key that the other holds are deadlocked, in
/// whatever modes they hold and wait, and it makes no difference what the others do in
/// between, as long as the first goes on to wait.
pub proof fn lemma_crossed_waits_are_deadlocked(
    v: LocksView,
    a: u64,
    b: u64,
    first: Seq<u8>,
    second: Seq<u8>,
    mode: LockMode,
    middle: LocksView,
    w: Waiting,
    later: LocksView,
    other_mode: LockMode,
    after: LocksView,
    u: Waiting,
)
    requires
        a != b,
        v.entry(second).holders.contains_key(b),
        v.key_locked(a, second, mode, middle, KeyStep::Wait(w)),
        deadlock::edge(middle.graph.edges, a, b) ==> deadlock::edge(later.graph.edges, a, b),
        later.entry(first).holders.contains_key(a),
        later.key_locked(b, first, other_mode, after, KeyStep::Wait(u)),
    ensures
        deadlock::deadlocked(after.graph.edges, a),
        deadlock::deadlocked(after.graph.edges, b),
{
    lemma_waits_are_shown(v, a, second, mode, middle, w);
    lemma_waits_are_shown(later, b, first, other_mode, after, u);
    let g = after.graph.edges;
    assert(deadlock::edge(middle.graph.edges, a, b));
    assert(deadlock::edge(later.graph.edges, a, b));
    assert(deadlock::edge(g, a, b));
    assert(deadlock::edge(g, b, a));
    let ring = seq![a, b];
    lemma_ring_is_deadlocked(g, ring, 0);
    lemma_ring_is_deadlocked(g, ring, 1);
}

/// Transactions that wait in a ring, each for the next one, are all deadlocked.
pub proof fn lemma_ring_is_deadlocked(g: Edges, ring: Seq<u64>, i: int)
    requires
        ring.len() >= 2,
        ring.no_duplicates(),
        forall|k: int|
            0 <= k < ring.len() ==> deadlock::edge(
                g,
                #[trigger] ring[k],
                ring[if k + 1 < ring.len() {
                    k + 1
                } else {
                    0
                }],
            ),
        0 <= i < ring.len(),
    ensures
        deadlock::deadlocked(g, ring[i]),
{
    let j = if i + 1 < ring.len() {
        i + 1
    } else {
        0
    };
    lemma_ring_reach(g, ring, i, j);
    lemma_ring_reach(g, ring, j, i);
    assert(ring[i] != ring[j]);
    assert(deadlock::mutual(g, ring[i], ring[j]));
}

proof fn lemma_ring_reach(g: Edges, ring: Seq<u64>, i: int, j: int)
    requires
        ring.len() >= 2,
        forall|k: int|
            0 <= k < ring.len() ==> deadlock::edge(
                g,
                #[trigger] ring[k],
                ring[if k + 1 < ring.len() {
                    k + 1
                } else {
                    0
                }],
            ),
        0 <= i < ring.len(),
        0 <= j < ring.len(),
    ensures
        deadlock::reach(g, ring[i], ring[j]),
    decreases
            (if i <= j {
                j - i
            } else {
                j - i + ring.len()
            }),
{
    if i == j {
        deadlock::lemma_reach_self(g, ring[i]);
    } else {
        let next = if i + 1 < ring.len() {
            i + 1
        } else {
            0
        };
        lemma_ring_reach(g, ring, next, j);
        assert(deadlock::edge(g, ring[i], ring[next]));
        deadlock::lemma_reach_edge(g, ring[i], ring[next]);
        deadlock::lemma_reach_trans(g, ring[i], ring[next], ring[j]);
    }
}

/// Who is part of a deadlock waits for somebody, and is waited for: where everybody waits
/// only for those with lesser numbers there is none.
pub proof fn lemma_ordered_waits_are_free(g: Edges, a: u64)
    requires
        forall|x: u64, y: u64| #[trigger] deadlock::edge(g, x, y) ==> x > y,
    ensures
        !deadlock::deadlocked(g, a),
{
    if deadlock::deadlocked(g, a) {
        let b = choose|b: u64| a != b && #[trigger] deadlock::mutual(g, a, b);
        lemma_falls(g, a, b);
        lemma_falls(g, b, a);
    }
}

proof fn lemma_falls(g: Edges, a: u64, b: u64)
    requires
        forall|x: u64, y: u64| #[trigger] deadlock::edge(g, x, y) ==> x > y,
        deadlock::reach(g, a, b),
    ensures
        a >= b,
{
    let p = choose|p: Seq<u64>| deadlock::path(g, p, a, b);
    lemma_path_falls(g, p, a, b, p.len() - 1);
}

proof fn lemma_path_falls(g: Edges, p: Seq<u64>, a: u64, b: u64, i: int)
    requires
        forall|x: u64, y: u64| #[trigger] deadlock::edge(g, x, y) ==> x > y,
        deadlock::path(g, p, a, b),
        0 <= i < p.len(),
    ensures
        a >= p[i],
    decreases i,
{
    if i > 0 {
        lemma_path_falls(g, p, a, b, i - 1);
        assert(deadlock::hop(g, p, i - 1));
        assert(deadlock::edge(g, p[i - 1], p[i]));
    }
}

/// Of those that wait for each other, the victim is one of the least importance, that is of
/// the greatest number for it; among these it has begun last; among these it has the fewest
/// locks.
pub proof fn lemma_victim(
    g: Edges,
    info: Map<u64, deadlock::TxnInfo>,
    victim: u64,
    other: u64,
)
    requires
        deadlock::is_victim(g, info, victim),
        deadlock::reach(g, victim, other),
        deadlock::reach(g, other, victim),
        info.contains_key(other),
    ensures
        info.contains_key(victim),
        info[other].priority <= info[victim].priority,
        info[other].priority == info[victim].priority ==> info[other].start_ts
            <= info[victim].start_ts,
        info[other].priority == info[victim].priority && info[other].start_ts
            == info[victim].start_ts ==> info[victim].lock_count <= info[other].lock_count,
{
    assert(deadlock::mutual(g, victim, other));
}

/// What becomes of a request that waits when a lock was released. It is granted exactly where
/// nobody else holds the key in a mode that clashes; its transaction then holds the key in
/// the mode that it asked for, has no request in the queue and waits for none of those that
/// it waited for there. Else nothing changes.
pub proof fn lemma_woken_request(v: LocksView, w: Waiting, after: LocksView, step: LockStep)
    requires
        v.resumed(w, WaitEvent::Wake, after, step),
    ensures
        step == (if rivalled(v.entry(w.key@).holders, w.txn_id, w.mode) {
            LockStep::Wait
        } else {
            LockStep::Granted
        }),
        step is Wait ==> after.entry(w.key@) == v.entry(w.key@) && after.graph == v.graph,
        step is Granted ==> {
            &&& after.entry(w.key@).holders == v.entry(w.key@).holders.insert(w.txn_id, w.mode)
            &&& forall|i: int|
                0 <= i < after.entry(w.key@).queue.len() ==> (
                #[trigger] after.entry(w.key@).queue[i]).txn_id != w.txn_id
            &&& forall|id: u64|
                w.holders@.contains(id) ==> !(#[trigger] deadlock::edge(
                    after.graph.edges,
                    w.txn_id,
                    id,
                ))
        },
        forall|other: Seq<u8>| other != w.key@ ==> #[trigger] after.entry(other) == v.entry(other),
        forall|a: u64, b: u64|
            a != w.txn_id ==> (#[trigger] deadlock::edge(after.graph.edges, a, b)
                <==> deadlock::edge(v.graph.edges, a, b)),
{
    let e = v.entry(w.key@);
    lemma_admits(e, w.txn_id, w.mode);
    let (entry, outcome) = e.acquired(w.txn_id, w.mode, WaitEvent::Wake);
    lemma_waits_dropped(v.graph.edges, w.txn_id, w.holders@);
    if step is Granted {
        let settled = v.with_entry(w.key@, entry).with_edges(
            lock_table::waits_dropped(v.graph.edges, w.txn_id, w.holders@),
        );
        lemma_recorded_frame(settled, w.txn_id, w.key@, after);
        lemma_dequeued(e.granted(w.txn_id, w.mode), w.txn_id);
    }
}

/// A request whose time is up fails: nobody's lock changes, its transaction has no request in
/// the queue any more and waits for none of those that it waited for there. The requests of
/// the others stay, in their order.
pub proof fn lemma_timed_out_request(v: LocksView, w: Waiting, after: LocksView, step: LockStep)
    requires
        v.resumed(w, WaitEvent::TimeOut, after, step),
    ensures
        step == LockStep::Failed(LockError::Timeout),
        after.entry(w.key@).holders == v.entry(w.key@).holders,
        after.entry(w.key@).queue == v.entry(w.key@).queue.filter(
            |r: RequestView| r.txn_id != w.txn_id,
        ),
        forall|i: int|
            0 <= i < after.entry(w.key@).queue.len() ==> (
            #[trigger] after.entry(w.key@).queue[i]).txn_id != w.txn_id,
        forall|id: u64|
            w.holders@.contains(id) ==> !(#[trigger] deadlock::edge(
                after.graph.edges,
                w.txn_id,
                id,
            )),
        forall|other: Seq<u8>| other != w.key@ ==> #[trigger] after.entry(other) == v.entry(other),
        forall|a: u64, b: u64|
            a != w.txn_id ==> (#[trigger] deadlock::edge(after.graph.edges, a, b)
                <==> deadlock::edge(v.graph.edges, a, b)),
        after.ranges == v.ranges,
{
    lemma_waits_dropped(v.graph.edges, w.txn_id, w.holders@);
    lemma_dequeued(v.entry(w.key@), w.txn_id);
}

proof fn lemma_dequeued(e: EntryView, txn_id: u64)
    ensures
        forall|i: int|
            0 <= i < e.dequeued(txn_id).queue.len() ==> (
            #[trigger] e.dequeued(txn_id).queue[i]).txn_id != txn_id,
{
    let keep = |r: RequestView| r.txn_id != txn_id;
    assert forall|i: int| 0 <= i < e.dequeued(txn_id).queue.len() implies (
    #[trigger] e.dequeued(txn_id).queue[i]).txn_id != txn_id by {
        e.queue.lemma_filter_pred(keep, i);
    }
}

proof fn lemma_waits_dropped(edges: Edges, waiter: u64, holders: Seq<u64>)
    ensures
        ({
            let after = lock_table::waits_dropped(edges, waiter, holders);
            &&& forall|id: u64|
                holders.contains(id) ==> !(#[trigger] deadlock::edge(after, waiter, id))
            &&& forall|id: u64| #[trigger]
                deadlock::edge(after, waiter, id) ==> deadlock::edge(edges, waiter, id)
            &&& forall|a: u64, b: u64|
                a != waiter ==> (#[trigger] deadlock::edge(after, a, b) <==> deadlock::edge(
                    edges,
                    a,
                    b,
                ))
        }),
    decreases holders.len(),
{
    if holders.len() > 0 {
        let fewer = holders.drop_last();
        lemma_waits_dropped(edges, waiter, fewer);
        let before = lock_table::waits_dropped(edges, waiter, fewer);
        let after = lock_table::waits_dropped(edges, waiter, holders);
        assert forall|id: u64| #[trigger]
            deadlock::edge(after, waiter, id) implies deadlock::edge(before, waiter, id) && id
            != holders.last() by {}
        assert forall|id: u64| holders.contains(id) implies !(#[trigger] deadlock::edge(
            after,
            waiter,
            id,
        )) by {
            let i = choose|i: int| 0 <= i < holders.len() && holders[i] == id;
            if i < fewer.len() {
                assert(fewer[i] == id);
                assert(!deadlock::edge(before, waiter, id));
            }
        }
        assert forall|id: u64| #[trigger] deadlock::edge(after, waiter, id) implies deadlock::edge(
            edges,
            waiter,
            id,
        ) by {
            assert(deadlock::edge(before, waiter, id));
        }
        assert forall|a: u64, b: u64|
            a != waiter implies (#[trigger] deadlock::edge(after, a, b) <==> deadlock::edge(
            edges,
            a,
            b,
        )) by {
            assert(deadlock::edge(before, a, b) <==> deadlock::edge(edges, a, b));
        }
    }
}

/// What raising the lock on a key to an exclusive one comes to. Who does not hold it cannot
/// raise it; who has it exclusively keeps it; who has it as shared with intention exclusive
/// cannot raise it; the others get it exactly where they are the only holder, and have to
/// wait in front of the queue otherwise.
pub proof fn lemma_upgrade(v: LocksView, txn_id: u64, key: Seq<u8>)
    ensures
        ({
            let (after, step) = v.lock_upgraded(txn_id, key, WaitEvent::Arrive);
            let held = v.entry(key).holders;
            &&& !held.contains_key(txn_id) ==> step == LockStep::Failed(LockError::NotHeld)
            &&& held.contains_key(txn_id) && held[txn_id] == LockMode::X ==> step
                == LockStep::Granted
            &&& held.contains_key(txn_id) && held[txn_id] == LockMode::SIX ==> step
                == LockStep::Failed(LockError::InvalidUpgrade)
            &&& held.contains_key(txn_id) && held[txn_id] != LockMode::X && held[txn_id]
                != LockMode::SIX ==> {
                &&& step == (if exists|id: u64| #[trigger] held.contains_key(id) && id != txn_id {
                    LockStep::Wait
                } else {
                    LockStep::Granted
                })
                &&& step == LockStep::Granted ==> after.entry(key).holders == held.insert(
                    txn_id,
                    LockMode::X,
                )
                &&& step == LockStep::Wait ==> after.entry(key).holders == held
                    && after.entry(key).queue == seq![
                    RequestView {
                        txn_id,
                        mode: LockMode::X,
                        granted: false,
                        is_upgrade: true,
                    },
                ] + v.entry(key).queue
            }
            &&& step is Failed ==> after == v
            &&& forall|other: Seq<u8>|
                other != key ==> #[trigger] after.entry(other) == v.entry(other)
            &&& after.ranges == v.ranges
        }),
{
    let held = v.entry(key).holders;
    if v.locks.contains_key(key) && held.contains_key(txn_id) {
        lemma_modes(held[txn_id], LockMode::X);
        let queued = EntryView {
            queue: seq![
                RequestView { txn_id, mode: LockMode::X, granted: false, is_upgrade: true },
            ] + v.entry(key).queue,
            ..v.entry(key)
        };
        lemma_admits(queued, txn_id, LockMode::X);
        if exists|id: u64| #[trigger] held.contains_key(id) && id != txn_id {
            let id = choose|id: u64| #[trigger] held.contains_key(id) && id != txn_id;
            assert(clash(LockMode::X, held[id]));
        }
    }
}

/// The same once a lock was released or the time is up.
pub proof fn lemma_upgrade_goes_on(v: LocksView, txn_id: u64, key: Seq<u8>)
    requires
        v.locks.contains_key(key),
    ensures
        ({
            let (woken, step) = v.lock_upgraded(txn_id, key, WaitEvent::Wake);
            let held = v.entry(key).holders;
            &&& step == (if exists|id: u64| #[trigger] held.contains_key(id) && id != txn_id {
                LockStep::Wait
            } else {
                LockStep::Granted
            })
            &&& step == LockStep::Granted ==> woken.entry(key).holders == held.insert(
                txn_id,
                LockMode::X,
            )
            &&& step == LockStep::Wait ==> woken.entry(key) == v.entry(key)
        }),
        ({
            let (late, step) = v.lock_upgraded(txn_id, key, WaitEvent::TimeOut);
            &&& step == LockStep::Failed(LockError::Timeout)
            &&& late.entry(key).holders == v.entry(key).holders
            &&& forall|i: int|
                0 <= i < late.entry(key).queue.len() ==> (
                #[trigger] late.entry(key).queue[i]).txn_id != txn_id
        }),
{
    let e = v.entry(key);
    lemma_admits(e, txn_id, LockMode::X);
    lemma_dequeued(e, txn_id);
    if exists|id: u64| #[trigger] e.holders.contains_key(id) && id != txn_id {
        let id = choose|id: u64| #[trigger] e.holders.contains_key(id) && id != txn_id;
        assert(clash(LockMode::X, e.holders[id]));
    }
}

/// One range ends before another begins: between the ends lies no key of both.
pub open spec fn apart(end: BoundView, start: BoundView) -> bool {
    match (end.key(), start.key()) {
        (Some(e), Some(s)) => order::less(e, s) || (e == s && !(end is Included && start is Included)),
        _ => false,
    }
}

/// Somebody other than `txn_id` has locked a range that does not lie apart, in a mode that
/// clashes.
pub open spec fn range_rivalled(
    ranges: Seq<RangeView>,
    txn_id: u64,
    start: BoundView,
    end: BoundView,
    mode: LockMode,
) -> bool {
    exists|i: int|
        0 <= i < ranges.len() && (#[trigger] ranges[i]).txn_id != txn_id && clash(
            mode,
            ranges[i].mode,
        ) && !apart(ranges[i].end, start) && !apart(end, ranges[i].start)
}

/// Somebody other than `txn_id` holds a key of the range in a mode that clashes.
pub open spec fn key_rivalled(
    v: LocksView,
    txn_id: u64,
    start: BoundView,
    end: BoundView,
    mode: LockMode,
) -> bool {
    exists|key: Seq<u8>| #[trigger]
        v.locks.contains_key(key) && bound::in_range(key, start, end) && rivalled(
            v.locks[key].holders,
            txn_id,
            mode,
        )
}

/// What a request for a lock on a range comes to. It fails where range locks are not enabled,
/// where another's range that does not lie apart clashes, and where somebody else holds a key
/// of the range in a mode that clashes. Else it is granted, in the mode that was asked for,
/// and stands behind the other range locks. No lock on a key changes.
pub proof fn lemma_range_request(
    v: LocksView,
    txn_id: u64,
    start: BoundView,
    end: BoundView,
    mode: LockMode,
    after: LocksView,
    result: Result<(), LockError>,
)
    requires
        v.range_locked(txn_id, start, end, mode, after, result),
    ensures
        result == (if !v.config.enable_range_locks {
            Err::<(), LockError>(LockError::RangeLocksDisabled)
        } else if range_rivalled(v.ranges, txn_id, start, end, mode) || key_rivalled(
            v,
            txn_id,
            start,
            end,
            mode,
        ) {
            Err::<(), LockError>(LockError::RangeConflict)
        } else {
            Ok::<(), LockError>(())
        }),
        after.ranges == (if result is Ok {
            v.ranges.push(RangeView { txn_id, mode, start, end })
        } else {
            v.ranges
        }),
        after.locks == v.locks,
        after.graph == v.graph,
        after.escalations == v.escalations,
        after.config == v.config,
{
    assert forall|i: int| 0 <= i < v.ranges.len() implies (lock_table::opposes(
        #[trigger] v.ranges[i],
        txn_id,
        mode,
    ) <==> v.ranges[i].txn_id != txn_id && clash(mode, v.ranges[i].mode)) by {
        lemma_modes(mode, v.ranges[i].mode);
    }
    assert forall|i: int| 0 <= i < v.ranges.len() implies ((#[trigger] v.ranges[i]).overlaps(
        start,
        end,
    ) <==> !apart(v.ranges[i].end, start) && !apart(end, v.ranges[i].start)) by {}
    assert(lock_table::range_conflict(v.ranges, start, end, txn_id, mode) <==> range_rivalled(
        v.ranges,
        txn_id,
        start,
        end,
        mode,
    )) by {
        if range_rivalled(v.ranges, txn_id, start, end, mode) {
            let i = choose|i: int|
                0 <= i < v.ranges.len() && (#[trigger] v.ranges[i]).txn_id != txn_id && clash(
                    mode,
                    v.ranges[i].mode,
                ) && !apart(v.ranges[i].end, start) && !apart(end, v.ranges[i].start);
            assert(v.ranges[i].overlaps(start, end));
        }
    }
    assert(lock_table::key_conflict(v.locks, start, end, txn_id, mode) <==> key_rivalled(
        v,
        txn_id,
        start,
        end,
        mode,
    )) by {
        assert forall|key: Seq<u8>| #[trigger] v.locks.contains_key(key) implies (!v.locks[key].admits(
            txn_id,
            mode,
        ) <==> rivalled(v.locks[key].holders, txn_id, mode)) by {
            lemma_admits(v.locks[key], txn_id, mode);
        }
    }
}

/// Ranges that share a key do not lie apart, and ranges that lie apart share none.
pub proof fn lemma_apart(
    a_start: BoundView,
    a_end: BoundView,
    b_start: BoundView,
    b_end: BoundView,
    key: Seq<u8>,
)
    requires
        bound::in_range(key, a_start, a_end),
        bound::in_range(key, b_start, b_end),
    ensures
        !apart(a_end, b_start),
        !apart(b_end, a_start),
{
    let r = RangeView { txn_id: 0, mode: LockMode::X, start: a_start, end: a_end };
    range_lock::lemma_shared_key_overlaps(r, b_start, b_end, key);
}

/// The key lies in the range.
pub open spec fn covers(r: RangeView, key: Seq<u8>) -> bool {
    bound::in_range(key, r.start, r.end)
}

/// Range locks of different transactions that share a key do not clash.
pub open spec fn ranges_agree(ranges: Seq<RangeView>) -> bool {
    forall|i: int, j: int, key: Seq<u8>|
        #![trigger covers(ranges[i], key), covers(ranges[j], key)]
        0 <= i < ranges.len() && 0 <= j < ranges.len() && ranges[i].txn_id != ranges[j].txn_id
            && covers(ranges[i], key) && covers(ranges[j], key) ==> !clash(ranges[i].mode, ranges[j].mode)
}

proof fn lemma_range_request_agrees(
    v: LocksView,
    txn_id: u64,
    start: BoundView,
    end: BoundView,
    mode: LockMode,
    after: LocksView,
    result: Result<(), LockError>,
)
    requires
        v.range_locked(txn_id, start, end, mode, after, result),
        ranges_agree(v.ranges),
    ensures
        ranges_agree(after.ranges),
{
    lemma_range_request(v, txn_id, start, end, mode, after, result);
    if result is Ok {
        let now = after.ranges;
        assert forall|i: int, j: int, key: Seq<u8>|
            #![trigger covers(now[i], key), covers(now[j], key)]
            0 <= i < now.len() && 0 <= j < now.len() && now[i].txn_id != now[j].txn_id
                && covers(now[i], key) && covers(now[j], key) implies !clash(now[i].mode, now[j].mode) by {
            let n = v.ranges.len();
            if i < n && j < n {
                assert(covers(v.ranges[i], key) && covers(v.ranges[j], key));
            } else {
                let k = if i < n {
                    i
                } else {
                    j
                };
                assert(v.ranges[k] == now[k]);
                lemma_apart(now[k].start, now[k].end, start, end, key);
            }
        }
    }
}

/// In every state, range locks of different transactions that share a key do not clash:
/// whatever is asked for, granted, raised, given up or released.
pub proof fn lemma_ranges_agree(
    v: LocksView,
    txn_id: u64,
    key: Seq<u8>,
    start: BoundView,
    end: BoundView,
    mode: LockMode,
    event: WaitEvent,
    w: Waiting,
    config: LockConfig,
    start_ts: u64,
    priority: u32,
)
    requires
        ranges_agree(v.ranges),
    ensures
        ranges_agree(lock_table::unlocked(config).ranges),
        forall|after: LocksView, step: KeyStep| #[trigger]
            v.key_locked(txn_id, key, mode, after, step) ==> ranges_agree(after.ranges),
        forall|after: LocksView, result: Result<(), LockError>| #[trigger]
            v.range_locked(txn_id, start, end, mode, after, result) ==> ranges_agree(after.ranges),
        forall|after: LocksView, step: LockStep| #[trigger]
            v.resumed(w, event, after, step) ==> ranges_agree(after.ranges),
        ranges_agree(v.lock_upgraded(txn_id, key, event).0.ranges),
        ranges_agree(v.released(txn_id).ranges),
        ranges_agree(v.registered(txn_id, start_ts, priority).ranges),
{
    assert forall|after: LocksView, step: KeyStep| #[trigger]
        v.key_locked(txn_id, key, mode, after, step) implies ranges_agree(after.ranges) by {
        if step is Granted {
            let entry = v.entry(key).tried(txn_id, mode).0;
            lemma_recorded_agrees(v.with_entry(key, entry), txn_id, key, after);
        }
    }
    assert forall|after: LocksView, result: Result<(), LockError>| #[trigger]
        v.range_locked(txn_id, start, end, mode, after, result) implies ranges_agree(
        after.ranges,
    ) by {
        lemma_range_request_agrees(v, txn_id, start, end, mode, after, result);
    }
    assert forall|after: LocksView, step: LockStep| #[trigger]
        v.resumed(w, event, after, step) implies ranges_agree(after.ranges) by {
        if step is Granted {
            let entry = v.entry(w.key@).acquired(w.txn_id, w.mode, event).0;
            let settled = v.with_entry(w.key@, entry).with_edges(
                lock_table::waits_dropped(v.graph.edges, w.txn_id, w.holders@),
            );
            lemma_recorded_agrees(settled, w.txn_id, w.key@, after);
        }
    }
    let keep = |r: RangeView| r.txn_id != txn_id;
    let left = v.ranges.filter(keep);
    assert forall|i: int, j: int, k: Seq<u8>|
        #![trigger covers(left[i], k), covers(left[j], k)]
        0 <= i < left.len() && 0 <= j < left.len() && left[i].txn_id != left[j].txn_id
            && covers(left[i], k) && covers(left[j], k) implies !clash(left[i].mode, left[j].mode) by {
        assert(left.contains(left[i]));
        assert(left.contains(left[j]));
        v.ranges.lemma_filter_contains_rev(keep, left[i]);
        v.ranges.lemma_filter_contains_rev(keep, left[j]);
        let m = choose|m: int| 0 <= m < v.ranges.len() && v.ranges[m] == left[i];
        let n = choose|n: int| 0 <= n < v.ranges.len() && v.ranges[n] == left[j];
        assert(covers(v.ranges[m], k) && covers(v.ranges[n], k));
    }
}

proof fn lemma_recorded_agrees(v: LocksView, txn_id: u64, key: Seq<u8>, after: LocksView)
    requires
        v.recorded(txn_id, key, after),
        ranges_agree(v.ranges),
    ensures
        ranges_agree(after.ranges),
{
    if v.escalations.contains_key(txn_id) && v.escalates(txn_id, key) {
        let (low, high, mid, result) = choose|
            low: Seq<u8>,
            high: Seq<u8>,
            mid: LocksView,
            result: Result<(), LockError>,
        | #[trigger]
            v.range_locked(
                txn_id,
                BoundView::Included(low),
                BoundView::Included(high),
                LockMode::X,
                mid,
                result,
            ) && escalation::is_least(v.noted(txn_id, key).keys, low)
                && escalation::is_greatest(v.noted(txn_id, key).keys, high) && after
                == (LocksView {
                escalations: v.escalations.insert(txn_id, v.handled(txn_id, key)),
                ..mid
            }).counted(txn_id);
        lemma_range_request_agrees(
            v,
            txn_id,
            BoundView::Included(low),
            BoundView::Included(high),
            LockMode::X,
            mid,
            result,
        );
    }
}

/// What a transaction begins with: no key locks noted, nothing escalated, its start and its
/// importance as they were given. The others keep theirs, and no lock and no wait changes.
pub proof fn lemma_registered(v: LocksView, txn_id: u64, start_ts: u64, priority: u32, other: u64)
    ensures
        ({
            let after = v.registered(txn_id, start_ts, priority);
            &&& after.graph.info.contains_key(txn_id)
            &&& after.graph.info[txn_id].start_ts == start_ts
            &&& after.graph.info[txn_id].priority == priority
            &&& after.graph.info[txn_id].lock_count == 0
            &&& after.escalations.contains_key(txn_id)
            &&& after.escalations[txn_id].count == 0
            &&& after.escalations[txn_id].keys.len() == 0
            &&& !after.escalations[txn_id].escalated
            &&& other != txn_id ==> {
                &&& after.graph.info.contains_key(other) == v.graph.info.contains_key(other)
                &&& after.graph.info[other] == v.graph.info[other]
                &&& after.escalations.contains_key(other) == v.escalations.contains_key(other)
                &&& after.escalations[other] == v.escalations[other]
            }
            &&& after.locks == v.locks
            &&& after.ranges == v.ranges
            &&& after.graph.edges == v.graph.edges
        }),
{
}

/// A transaction with so many key locks is to have one range lock in their place.
pub open spec fn too_many(count: int, config: LockConfig) -> bool {
    count >= config.escalation.auto_escalate_threshold || count
        >= config.escalation.emergency_threshold
}

/// A lock that was granted is counted for its transaction, once. Once there are too many of
/// them, and only then, the transaction is escalated: it asks for an exclusive lock on a range
/// in which all its keys lie, and that begins and ends with keys of it. It is granted exactly
/// where range locks are enabled and nobody stands in the way. A transaction is escalated
/// once at most.
pub proof fn lemma_locks_are_counted(
    v: LocksView,
    txn_id: u64,
    key: Seq<u8>,
    mode: LockMode,
    after: LocksView,
)
    requires
        v.key_locked(txn_id, key, mode, after, KeyStep::Granted),
        v.escalations.contains_key(txn_id),
        v.escalations[txn_id].count < usize::MAX,
    ensures
        ({
            let old_state = v.escalations[txn_id];
            let now = after.escalations[txn_id];
            &&& after.escalations.contains_key(txn_id)
            &&& now.count == old_state.count + 1
            &&& now.keys == old_state.keys.push(key)
            &&& now.escalated == (old_state.escalated || too_many(now.count as int, v.config))
            &&& !now.escalated || old_state.escalated ==> after.ranges == v.ranges
            &&& now.escalated && !old_state.escalated ==> exists|low: Seq<u8>, high: Seq<u8>|
                #![trigger bound::in_range(key, BoundView::Included(low), BoundView::Included(high))]
                {
                    let start = BoundView::Included(low);
                    let end = BoundView::Included(high);
                    &&& now.keys.contains(low)
                    &&& now.keys.contains(high)
                    &&& forall|i: int|
                        0 <= i < now.keys.len() ==> bound::in_range(
                            #[trigger] now.keys[i],
                            start,
                            end,
                        )
                    &&& after.ranges == (if v.config.enable_range_locks && !range_rivalled(
                        v.ranges,
                        txn_id,
                        start,
                        end,
                        LockMode::X,
                    ) && !key_rivalled(
                        LocksView { locks: after.locks, ..v },
                        txn_id,
                        start,
                        end,
                        LockMode::X,
                    ) {
                        v.ranges.push(RangeView { txn_id, mode: LockMode::X, start, end })
                    } else {
                        v.ranges
                    })
                }
        }),
        v.graph.info.contains_key(txn_id) && v.graph.info[txn_id].lock_count < usize::MAX
            ==> after.graph.info[txn_id].lock_count == v.graph.info[txn_id].lock_count + 1,
        v.graph.info.contains_key(txn_id) ==> after.graph.info[txn_id].start_ts
            == v.graph.info[txn_id].start_ts && after.graph.info[txn_id].priority
            == v.graph.info[txn_id].priority,
        forall|other: u64|
            #![trigger after.graph.info.contains_key(other)]
            #![trigger after.escalations.contains_key(other)]
            other != txn_id ==> after.graph.info.contains_key(other) == v.graph.info.contains_key(
                other,
            ) && after.graph.info[other] == v.graph.info[other]
                && after.escalations.contains_key(other) == v.escalations.contains_key(other)
                && after.escalations[other] == v.escalations[other],
{
    let (entry, taken) = v.entry(key).tried(txn_id, mode);
    let held = v.with_entry(key, entry);
    assert(held.recorded(txn_id, key, after));
    let old_state = v.escalations[txn_id];
    let now = held.noted(txn_id, key);
    assert(now.count == old_state.count + 1);
    assert(now.keys == old_state.keys.push(key));
    if held.escalates(txn_id, key) {
        let (low, high, mid, result) = choose|
            low: Seq<u8>,
            high: Seq<u8>,
            mid: LocksView,
            result: Result<(), LockError>,
        | #[trigger]
            held.range_locked(
                txn_id,
                BoundView::Included(low),
                BoundView::Included(high),
                LockMode::X,
                mid,
                result,
            ) && escalation::is_least(now.keys, low) && escalation::is_greatest(now.keys, high)
                && after == (LocksView {
                escalations: held.escalations.insert(txn_id, held.handled(txn_id, key)),
                ..mid
            }).counted(txn_id);
        let start = BoundView::Included(low);
        let end = BoundView::Included(high);
        lemma_range_request(held, txn_id, start, end, LockMode::X, mid, result);
        assert forall|i: int| 0 <= i < now.keys.len() implies bound::in_range(
            #[trigger] now.keys[i],
            start,
            end,
        ) by {
            escalation::lemma_bounding_range_covers(now.keys, low, high, now.keys[i]);
        }
        assert(after.locks == held.locks);
        assert(held == (LocksView { locks: after.locks, ..v }));
        assert(after.escalations[txn_id].keys == now.keys);
        assert(now.keys[now.keys.len() - 1] == key);
        assert(bound::in_range(key, start, end));
    }
}

/// A transaction that is not registered gets its locks uncounted, and no range lock for
/// them.
pub proof fn lemma_strangers_are_not_counted(
    v: LocksView,
    txn_id: u64,
    key: Seq<u8>,
    mode: LockMode,
    after: LocksView,
)
    requires
        v.key_locked(txn_id, key, mode, after, KeyStep::Granted),
        !v.escalations.contains_key(txn_id),
    ensures
        after.escalations == v.escalations,
        after.ranges == v.ranges,
{
}

/// What a number of key locks calls for: each threshold that it has reached calls for more
/// than those below it.
pub proof fn lemma_actions(count: usize, config: EscalationConfig)
    ensures
        (escalation::action_for(count, config) == EscalationAction::ForceEscalate) <==> count
            >= config.emergency_threshold,
        (escalation::action_for(count, config) == EscalationAction::Escalate) <==> count
            < config.emergency_threshold && count >= config.auto_escalate_threshold,
        (escalation::action_for(count, config) == EscalationAction::Warn) <==> count
            < config.emergency_threshold && count < config.auto_escalate_threshold && count
            >= config.warning_threshold,
{
}

/// The range over keys begins with the least of them and ends with the greatest: it holds
/// them all, and every range that does holds both its ends.
pub proof fn lemma_bounding_range(keys: Seq<Seq<u8>>, low: Seq<u8>, high: Seq<u8>)
    requires
        escalation::is_least(keys, low),
        escalation::is_greatest(keys, high),
    ensures
        keys.contains(low),
        keys.contains(high),
        forall|i: int|
            0 <= i < keys.len() ==> !order::less(#[trigger] keys[i], low) && !order::less(
                high,
                keys[i],
            ),
{
    assert forall|i: int| 0 <= i < keys.len() implies !order::less(#[trigger] keys[i], low)
        && !order::less(high, keys[i]) by {
        assert(order::at_most(low, keys[i]));
        assert(order::at_most(keys[i], high));
        order::lemma_irreflexive(low);
        order::lemma_irreflexive(high);
        order::lemma_order(low, keys[i], low);
        order::lemma_order(high, keys[i], high);
    }
}

/// A release leaves the others as they are: whom they wait for, what is known of them, how
/// many locks they have, their range locks in their order, and who waits for a key. The keys
/// that are freed are those that the transaction held.
pub proof fn lemma_release_keeps_others(v: LocksView, txn_id: u64)
    ensures
        ({
            let after = v.released(txn_id);
            &&& forall|a: u64, b: u64|
                a != txn_id && b != txn_id ==> (#[trigger] deadlock::edge(after.graph.edges, a, b)
                    <==> deadlock::edge(v.graph.edges, a, b))
            &&& forall|id: u64|
                id != txn_id ==> (#[trigger] after.graph.info.contains_key(id)
                    <==> v.graph.info.contains_key(id)) && after.graph.info[id] == v.graph.info[id]
            &&& forall|id: u64|
                id != txn_id ==> (#[trigger] after.escalations.contains_key(id)
                    <==> v.escalations.contains_key(id)) && after.escalations[id]
                    == v.escalations[id]
            &&& !after.escalations.contains_key(txn_id)
            &&& forall|key: Seq<u8>, id: u64|
                id != txn_id ==> (#[trigger] after.entry(key).holders.contains_key(id)
                    <==> v.entry(key).holders.contains_key(id)) && after.entry(key).holders[id]
                    == v.entry(key).holders[id]
            &&& forall|key: Seq<u8>| (#[trigger] after.entry(key)).queue == v.entry(key).queue
            &&& after.ranges == v.ranges.filter(|r: RangeView| r.txn_id != txn_id)
            &&& after.config == v.config
        }),
{
}

/// The same of the waits where a transaction is only forgotten.
pub proof fn lemma_forgetting_keeps_others(g: Edges, txn_id: u64, a: u64, b: u64)
    ensures
        deadlock::edge(deadlock::without(g, txn_id), a, b) <==> deadlock::edge(g, a, b) && a
            != txn_id && b != txn_id,
{
}

/// Nobody holds anything and nobody waits before the first request.
pub proof fn lemma_unlocked(config: LockConfig, key: Seq<u8>, a: u64, b: u64)
    ensures
        !lock_table::unlocked(config).entry(key).holders.contains_key(a),
        lock_table::unlocked(config).entry(key).queue.len() == 0,
        lock_table::unlocked(config).ranges.len() == 0,
        !deadlock::edge(lock_table::unlocked(config).graph.edges, a, b),
        lock_table::unlocked(config).config == config,
{
}

} // verus!
