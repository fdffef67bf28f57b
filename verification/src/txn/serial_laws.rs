//! What serialisable transactions are kept from, from their beginning to their commit.

use crate::common::error::{Error, Fault};
use crate::lock::lock_entry::WaitEvent;
use crate::lock::ssi;
use crate::lock::ssi::{SSIConflict, SsiView};
use crate::storage::batch::OperationView;
use crate::storage::lsm::{EffectView, LsmView};
use crate::storage::manifest::MAX_ID;
use crate::txn::mvcc;
use crate::txn::mvcc::{EngineView, PendingWrite, WriteStep};
use crate::txn::mvcc_laws;
use crate::txn::transaction::{
    IsolationLevel, TransactionState, TxnView, WritesView,
};
use vstd::prelude::*;

verus! {

/// The transaction writes the key, with a value or by a deletion.
pub open spec fn writes_key(w: WritesView, key: Seq<u8>) -> bool {
    w.puts.contains_key(key) || w.deletes.contains(key)
}

/// A read of a serialisable transaction is noted, each one: with the transaction and where
/// commits are checked, whatever was noted before, which stays. What it wrote itself it does
/// not read from anybody.
pub proof fn lemma_reads_are_noted(
    s: EngineView,
    t: TxnView,
    key: Seq<u8>,
    after: EngineView,
    t_after: TxnView,
    answer: Result<Option<Seq<u8>>, Fault>,
)
    requires
        s.read(t, key, after, t_after, answer),
        t.isolation == IsolationLevel::Serializable,
        !writes_key(t.writes, key),
    ensures
        forall|k: Seq<u8>| #[trigger]
            t_after.reads.contains(k) <==> t.reads.contains(k) || k == key,
        s.ssi.active.contains_key(t.id) ==> {
            &&& after.ssi.active.contains_key(t.id)
            &&& forall|h: u64| #[trigger]
                after.ssi.active[t.id].reads.contains(h) <==> s.ssi.active[t.id].reads.contains(h)
                    || h == ssi::key_hash(key)
            &&& after.ssi.active[t.id].writes == s.ssi.active[t.id].writes
            &&& after.ssi.active[t.id].ranges == s.ssi.active[t.id].ranges
        },
        after.ssi.committed == s.ssi.committed,
        forall|id: u64|
            id != t.id ==> (#[trigger] after.ssi.active.contains_key(id)
                <==> s.ssi.active.contains_key(id)) && after.ssi.active[id] == s.ssi.active[id],
        t_after.writes == t.writes,
        t_after.id == t.id && t_after.start_ts == t.start_ts && t_after.isolation == t.isolation
            && t_after.state == t.state,
        after.storage == s.storage,
        after.manager == s.manager,
        after.locks == s.locks,
{
}

/// A write that is done is part of the transaction, and of no other key more is written or
/// less. Where commits are checked it is noted, and what was noted before stays. What the
/// transaction read stays noted too.
pub proof fn lemma_writes_are_noted(
    s: EngineView,
    t: TxnView,
    op: OperationView,
    after: EngineView,
    t_after: TxnView,
)
    requires
        s.wrote(t, op, after, t_after, Ok(WriteStep::Done)),
    ensures
        writes_noted(s, t, op, after, t_after),
{
}

pub open spec fn writes_noted(
    s: EngineView,
    t: TxnView,
    op: OperationView,
    after: EngineView,
    t_after: TxnView,
) -> bool {
    &&& match op.value {
        Some(v) => t_after.writes.puts.contains_key(op.key) && t_after.writes.puts[op.key] == v
            && !t_after.writes.deletes.contains(op.key),
        None => !t_after.writes.puts.contains_key(op.key) && t_after.writes.deletes.contains(
            op.key,
        ),
    }
    &&& forall|k: Seq<u8>|
        k != op.key ==> (#[trigger] t_after.writes.puts.contains_key(k)
            <==> t.writes.puts.contains_key(k)) && t_after.writes.puts[k] == t.writes.puts[k]
    &&& forall|k: Seq<u8>|
        k != op.key ==> (#[trigger] t_after.writes.deletes.contains(k)
            <==> t.writes.deletes.contains(k))
    &&& t_after.reads == t.reads
    &&& t_after.id == t.id && t_after.start_ts == t.start_ts && t_after.isolation == t.isolation
        && t_after.state == t.state
    &&& t.isolation == IsolationLevel::Serializable && s.ssi.active.contains_key(t.id) ==> {
        &&& after.ssi.active.contains_key(t.id)
        &&& forall|h: u64| #[trigger]
            after.ssi.active[t.id].writes.contains(h) <==> s.ssi.active[t.id].writes.contains(h)
                || h == ssi::key_hash(op.key)
        &&& after.ssi.active[t.id].reads == s.ssi.active[t.id].reads
    }
    &&& after.ssi.committed == s.ssi.committed
    &&& after.storage == s.storage
    &&& after.manager == s.manager
}

/// The same of a write that waited for its lock and got it.
pub proof fn lemma_late_writes_are_noted(
    s: EngineView,
    t: TxnView,
    p: PendingWrite,
    event: WaitEvent,
    after: EngineView,
    t_after: TxnView,
)
    requires
        s.resumed(t, p, event, after, t_after, Ok(WriteStep::Done)),
    ensures
        writes_noted(s, t, p.operation@, after, t_after),
{
}

/// A transaction begins with nothing read and nothing written, active, at the time of the
/// last write in the tree; a serialisable one is known where commits are checked. No two
/// have the same number, as long as there are numbers.
pub proof fn lemma_begun(s: EngineView, isolation: IsolationLevel, later: IsolationLevel)
    ensures
        ({
            let (after, t) = s.begun(isolation);
            &&& t.state == TransactionState::Active
            &&& t.isolation == isolation
            &&& t.id == s.next_txn_id
            &&& s.storage.next_ts >= 1 ==> t.start_ts + 1 == s.storage.next_ts
            &&& t.commit_ts is None
            &&& forall|key: Seq<u8>| !#[trigger] t.reads.contains(key)
            &&& forall|key: Seq<u8>| !#[trigger] writes_key(t.writes, key)
            &&& isolation == IsolationLevel::Serializable ==> {
                &&& after.ssi.active.contains_key(t.id)
                &&& forall|h: u64| !#[trigger] after.ssi.active[t.id].reads.contains(h)
                &&& forall|h: u64| !#[trigger] after.ssi.active[t.id].writes.contains(h)
                &&& after.ssi.active[t.id].ranges.len() == 0
            }
            &&& after.manager.active.contains(t.id)
            &&& after.ssi.committed == s.ssi.committed
            &&& after.manager.committed == s.manager.committed
            &&& after.storage == s.storage
            &&& after.locks.locks == s.locks.locks
            &&& s.next_txn_id < u64::MAX ==> after.begun(later).1.id == t.id + 1
        }),
{
}

/// An operation of somebody else than the transaction `id`.
pub open spec fn others_turn(s: EngineView, id: u64, after: EngineView) -> bool {
    ||| exists|isolation: IsolationLevel|
        s.next_txn_id != id && after == (#[trigger] s.begun(isolation)).0
    ||| after == s.synced()
    ||| exists|u: TxnView, key: Seq<u8>, u_after: TxnView, answer: Result<Option<Seq<u8>>, Fault>|
        u.id != id && #[trigger] s.read(u, key, after, u_after, answer)
    ||| exists|u: TxnView, op: OperationView, u_after: TxnView, result: Result<WriteStep, Error>|
        u.id != id && #[trigger] s.wrote(u, op, after, u_after, result)
    ||| exists|
        u: TxnView,
        p: PendingWrite,
        event: WaitEvent,
        u_after: TxnView,
        result: Result<WriteStep, Error>,
    |
        u.id != id && #[trigger] s.resumed(u, p, event, after, u_after, result)
    ||| exists|u: TxnView, u_after: TxnView, effects: Seq<EffectView>, fault: Option<Fault>|
        u.id != id && #[trigger] s.committed(u, after, u_after, effects, fault)
    ||| exists|u: TxnView| u.id != id && after == (#[trigger] s.aborted(u)).0
}

/// An operation of the transaction other than its commit, or one of somebody else.
pub open spec fn turn(s: EngineView, t: TxnView, after: EngineView, t_after: TxnView) -> bool {
    ||| t_after == t && others_turn(s, t.id, after)
    ||| exists|key: Seq<u8>, answer: Result<Option<Seq<u8>>, Fault>| #[trigger]
        s.read(t, key, after, t_after, answer)
    ||| exists|op: OperationView, result: Result<WriteStep, Error>| #[trigger]
        s.wrote(t, op, after, t_after, result)
    ||| exists|p: PendingWrite, event: WaitEvent, result: Result<WriteStep, Error>| #[trigger]
        s.resumed(t, p, event, after, t_after, result)
}

/// The states form a run of the transaction, from one operation to the next.
pub open spec fn is_run(states: Seq<(EngineView, TxnView)>) -> bool {
    forall|i: int|
        0 <= i < states.len() - 1 ==> turn(
            (#[trigger] states[i]).0,
            states[i].1,
            states[i + 1].0,
            states[i + 1].1,
        ) && states[i].0.storage.next_ts <= states[i + 1].0.storage.next_ts
}

/// What is noted of the transactions stays, whatever is done next: by the transaction and
/// by the others.
spec fn kept(s: EngineView, t: TxnView, after: EngineView, t_after: TxnView) -> bool {
    &&& t_after.id == t.id && t_after.start_ts == t.start_ts && t_after.isolation == t.isolation
        && t_after.state == t.state
    &&& forall|k: Seq<u8>| #[trigger] t.reads.contains(k) ==> t_after.reads.contains(k)
    &&& s.ssi.active.contains_key(t.id) ==> {
        &&& after.ssi.active.contains_key(t.id)
        &&& forall|h: u64| #[trigger]
            s.ssi.active[t.id].reads.contains(h) ==> after.ssi.active[t.id].reads.contains(h)
        &&& after.ssi.active[t.id].ranges == s.ssi.active[t.id].ranges
    }
    &&& forall|i: int|
        0 <= i < s.manager.committed.len() ==> i < after.manager.committed.len()
            && after.manager.committed[i] == #[trigger] s.manager.committed[i]
    &&& forall|ts: u64|
        #![trigger s.ssi.committed.contains_key(ts)]
        s.ssi.committed.contains_key(ts) && ts < s.storage.next_ts
            ==> after.ssi.committed.contains_key(ts) && after.ssi.committed[ts]
            == s.ssi.committed[ts]
}

proof fn lemma_turn_keeps(s: EngineView, t: TxnView, after: EngineView, t_after: TxnView)
    requires
        turn(s, t, after, t_after),
    ensures
        kept(s, t, after, t_after),
{
    if t_after == t && others_turn(s, t.id, after) {
        if exists|u: TxnView, u_after: TxnView, effects: Seq<EffectView>, fault: Option<Fault>|
            u.id != t.id && #[trigger] s.committed(u, after, u_after, effects, fault) {
            let (u, u_after, effects, fault) = choose|
                u: TxnView,
                u_after: TxnView,
                effects: Seq<EffectView>,
                fault: Option<Fault>,
            |
                u.id != t.id && #[trigger] s.committed(u, after, u_after, effects, fault);
            lemma_commit_keeps(s, u, after, u_after, effects, fault, t);
        }
    }
}

proof fn lemma_commit_keeps(
    s: EngineView,
    u: TxnView,
    after: EngineView,
    u_after: TxnView,
    effects: Seq<EffectView>,
    fault: Option<Fault>,
    t: TxnView,
)
    requires
        s.committed(u, after, u_after, effects, fault),
        u.id != t.id,
    ensures
        kept(s, t, after, t),
{
    let commit_ts = s.storage.next_ts;
    let (checked, conflict) = choose|checked: SsiView, conflict: Option<Fault>| #[trigger]
        s.validated(u, commit_ts, checked, conflict) && if conflict is Some {
            &&& after == (EngineView { ssi: checked, ..s })
            &&& u_after == u
            &&& effects == Seq::<EffectView>::empty()
            &&& fault == conflict
        } else {
            (EngineView { ssi: checked, ..s }).pushed_through(
                u,
                commit_ts,
                after,
                u_after,
                effects,
                fault,
            )
        };
    assert(after.ssi == checked);
}

/// What is noted stays from state to state of a run.
#[verifier::rlimit(60)]
proof fn lemma_run_keeps(states: Seq<(EngineView, TxnView)>, i: int, j: int)
    requires
        is_run(states),
        0 <= i <= j < states.len(),
    ensures
        kept(states[i].0, states[i].1, states[j].0, states[j].1),
        states[i].0.storage.next_ts <= states[j].0.storage.next_ts,
    decreases j - i,
{
    if i < j {
        lemma_run_keeps(states, i, j - 1);
        let (a, t) = states[j - 1];
        let (b, u) = states[j];
        assert(states[j - 1 + 1] == states[j]);
        assert(turn(states[j - 1].0, states[j - 1].1, states[j].0, states[j].1));
        lemma_turn_keeps(a, t, b, u);
        let (s, t0) = states[i];
        assert forall|k: int| 0 <= k < s.manager.committed.len() implies k
            < b.manager.committed.len() && b.manager.committed[k]
            == #[trigger] s.manager.committed[k] by {
            assert(a.manager.committed[k] == s.manager.committed[k]);
        }
        assert forall|ts: u64|
            #![trigger s.ssi.committed.contains_key(ts)]
            s.ssi.committed.contains_key(ts) && ts
                < s.storage.next_ts implies b.ssi.committed.contains_key(ts)
            && b.ssi.committed[ts] == s.ssi.committed[ts] by {
            assert(a.ssi.committed.contains_key(ts));
        }
    }
}

/// A commit that has succeeded leaves behind what it wrote, and when.
proof fn lemma_commit_is_noted(
    s: EngineView,
    u: TxnView,
    after: EngineView,
    u_after: TxnView,
    effects: Seq<EffectView>,
)
    requires
        s.committed(u, after, u_after, effects, None),
    ensures
        ({
            let n = s.manager.committed.len() as int;
            &&& after.manager.committed.len() == n + 1
            &&& after.manager.committed[n].commit_ts == s.storage.next_ts
            &&& after.manager.committed[n].start_ts == u.start_ts
            &&& forall|key: Seq<u8>| #[trigger]
                after.manager.committed[n].keys.contains(key) <==> writes_key(u.writes, key)
            &&& !after.manager.active.contains(u.id)
            &&& u_after.state == TransactionState::Committed
            &&& u.state == TransactionState::Active
            &&& u.isolation == IsolationLevel::Serializable ==> {
                &&& s.ssi.active.contains_key(u.id)
                &&& after.ssi.committed.contains_key(s.storage.next_ts)
                &&& after.ssi.committed[s.storage.next_ts] == s.ssi.active[u.id].writes
                &&& !after.ssi.active.contains_key(u.id)
            }
        }),
{
}

/// Serialisability. A serialisable transaction began, and did and saw whatever operations of
/// its own and of the others. Some time it read a key that it had not written, and some time
/// another transaction committed a write of that key. Then its commit is refused: nothing of
/// it reaches the tree. The fault is a write skew where the other one is serialisable too and
/// its write was noted, and a write skew or a conflict in any case. What is asked of the time
/// is only that timestamps do not run out.
#[verifier::rlimit(60)]
pub proof fn lemma_overwritten_read_is_refused(
    s: EngineView,
    states: Seq<(EngineView, TxnView)>,
    r: int,
    key: Seq<u8>,
    answer: Result<Option<Seq<u8>>, Fault>,
    c: int,
    u: TxnView,
    u_after: TxnView,
    u_effects: Seq<EffectView>,
    after: EngineView,
    t_after: TxnView,
    effects: Seq<EffectView>,
    fault: Option<Fault>,
)
    requires
        states.len() > 0,
        states[0] == s.begun(IsolationLevel::Serializable),
        s.storage.next_ts >= 1,
        is_run(states),
        0 <= r < states.len() - 1,
        !writes_key(states[r].1.writes, key),
        states[r].0.read(states[r].1, key, states[r + 1].0, states[r + 1].1, answer),
        0 <= c < states.len() - 1,
        u.id != states[0].1.id,
        states[c].0.committed(u, states[c + 1].0, u_after, u_effects, None),
        states[c + 1].1 == states[c].1,
        writes_key(u.writes, key),
        u.start_ts < states[c].0.storage.next_ts < states[c + 1].0.storage.next_ts,
        states.last().0.committed(states.last().1, after, t_after, effects, fault),
    ensures
        fault == Some(Fault::WriteSkew) || fault == Some(Fault::TransactionConflict),
        u.isolation == IsolationLevel::Serializable && states[c].0.ssi.active[u.id].writes.contains(
            ssi::key_hash(key),
        ) ==> fault == Some(Fault::WriteSkew),
        effects.len() == 0,
        after.storage == states.last().0.storage,
        forall|k: Seq<u8>, ts: u64, value: Result<Option<Seq<u8>>, Fault>|
            after.storage.reads(k, ts, value) <==> #[trigger] states.last().0.storage.reads(
                k,
                ts,
                value,
            ),
{
    let n = states.len() - 1;
    let (end, t) = states[n];
    assert(states.last() == states[n]);
    let t0 = states[0].1;
    lemma_begun(s, IsolationLevel::Serializable, IsolationLevel::Serializable);
    lemma_run_keeps(states, 0, r);
    lemma_run_keeps(states, 0, c);
    lemma_run_keeps(states, 0, n);
    lemma_reads_are_noted(
        states[r].0,
        states[r].1,
        key,
        states[r + 1].0,
        states[r + 1].1,
        answer,
    );
    lemma_run_keeps(states, r + 1, n);
    assert(states[r + 1].1.reads.contains(key));
    assert(t.reads.contains(key));
    assert(states[r + 1].0.ssi.active[t0.id].reads.contains(ssi::key_hash(key)));
    assert(end.ssi.active[t.id].reads.contains(ssi::key_hash(key)));
    lemma_commit_is_noted(states[c].0, u, states[c + 1].0, u_after, u_effects);
    lemma_run_keeps(states, c + 1, n);
    let k = states[c].0.manager.committed.len() as int;
    assert(end.manager.committed[k] == states[c + 1].0.manager.committed[k]);
    let time = states[c].0.storage.next_ts;
    let commit_ts = end.storage.next_ts;
    assert(t.start_ts < time < commit_ts);
    assert(end.manager.committed[k].keys.contains(key));
    assert(end.manager.committed[k].disturbs(t, commit_ts));
    assert(end.manager.disturbed(t, commit_ts));
    let (checked, conflict) = choose|checked: SsiView, conflict: Option<Fault>| #[trigger]
        end.validated(t, commit_ts, checked, conflict) && if conflict is Some {
            &&& after == (EngineView { ssi: checked, ..end })
            &&& t_after == t
            &&& effects == Seq::<EffectView>::empty()
            &&& fault == conflict
        } else {
            (EngineView { ssi: checked, ..end }).pushed_through(
                t,
                commit_ts,
                after,
                t_after,
                effects,
                fault,
            )
        };
    if u.isolation == IsolationLevel::Serializable && states[c].0.ssi.active[u.id].writes.contains(
        ssi::key_hash(key),
    ) {
        assert(states[c + 1].0.ssi.committed.contains_key(time));
        assert(end.ssi.committed.contains_key(time));
        assert(end.ssi.committed[time].contains(ssi::key_hash(key)));
        let a = end.ssi.active[t.id];
        assert(a.reads_from(end.ssi.committed[time]));
        assert(end.ssi.skewed(a, time, t.start_ts, commit_ts));
    }
}

/// A commit that nobody stands in the way of goes through. An active serialisable transaction
/// is committed if no commit since it began wrote a key that it read, or one with the hash of
/// such a key, it read no range, and its writes are not too many and not too long.
pub proof fn lemma_undisturbed_commit_succeeds(
    s: EngineView,
    t: TxnView,
    after: EngineView,
    t_after: TxnView,
    effects: Seq<EffectView>,
    fault: Option<Fault>,
)
    requires
        s.committed(t, after, t_after, effects, fault),
        t.isolation == IsolationLevel::Serializable,
        t.state == TransactionState::Active,
        s.ssi.active.contains_key(t.id),
        s.ssi.active[t.id].ranges.len() == 0,
        forall|ts: u64, h: u64|
            #![trigger s.ssi.committed.contains_key(ts), s.ssi.active[t.id].reads.contains(h)]
            s.ssi.committed.contains_key(ts) && t.start_ts < ts < s.storage.next_ts
                && s.ssi.active[t.id].reads.contains(h) ==> !s.ssi.committed[ts].contains(h),
        forall|i: int, key: Seq<u8>|
            #![trigger s.manager.committed[i].keys.contains(key)]
            0 <= i < s.manager.committed.len() && s.manager.committed[i].commit_ts > t.start_ts
                && t.reads.contains(key) ==> !s.manager.committed[i].keys.contains(key),
        mvcc_laws::moderate(s.storage, t.writes),
        s.storage.manifest.next_sst_id + t.writes.puts.len() + t.writes.deletes.len() <= MAX_ID + 1,
    ensures
        fault is None,
        t_after.state == TransactionState::Committed,
{
    let commit_ts = s.storage.next_ts;
    let (checked, conflict) = choose|checked: SsiView, conflict: Option<Fault>| #[trigger]
        s.validated(t, commit_ts, checked, conflict) && if conflict is Some {
            &&& after == (EngineView { ssi: checked, ..s })
            &&& t_after == t
            &&& effects == Seq::<EffectView>::empty()
            &&& fault == conflict
        } else {
            (EngineView { ssi: checked, ..s }).pushed_through(
                t,
                commit_ts,
                after,
                t_after,
                effects,
                fault,
            )
        };
    let a = s.ssi.active[t.id];
    let result = choose|result: Result<(), SSIConflict>| #[trigger]
        s.ssi.validated(t.id, t.start_ts, commit_ts, checked, result) && conflict == (match result {
            Ok(()) => None::<Fault>,
            Err(c) => Some(mvcc::conflict_fault(c)),
        });
    match result {
        Err(SSIConflict::WriteSkew { conflicting_ts }) => {
            let h = choose|h: u64| #[trigger]
                a.reads.contains(h) && s.ssi.committed[conflicting_ts].contains(h);
            assert(s.ssi.committed.contains_key(conflicting_ts));
            assert(false);
        },
        Err(SSIConflict::Phantom { conflicting_ts }) => {
            assert(false);
        },
        _ => {},
    }
    let now = EngineView { ssi: checked, ..s };
    assert(!now.manager.disturbed(t, commit_ts)) by {
        if now.manager.disturbed(t, commit_ts) {
            let i = choose|i: int|
                0 <= i < s.manager.committed.len() && (#[trigger] s.manager.committed[i]).disturbs(
                    t,
                    commit_ts,
                );
            let key = choose|key: Seq<u8>| #[trigger]
                t.reads.contains(key) && s.manager.committed[i].keys.contains(key);
            assert(s.manager.committed[i].keys.contains(key));
        }
    }
    let prepared = now.manager.prepared(t, commit_ts).0;
    let (storage, trouble) = choose|storage: LsmView, trouble: Option<Fault>| #[trigger]
        mvcc::applied(now.storage, t.writes, storage, effects, trouble) && if trouble is Some {
            &&& after == (EngineView { storage, ..now })
            &&& t_after == prepared
            &&& fault == trouble
        } else {
            (after, t_after, fault) == (EngineView { storage, ..now }).concluded(prepared)
        };
    mvcc_laws::lemma_writes_apply(s.storage, t.writes, storage, effects, trouble);
}

} // verus!
