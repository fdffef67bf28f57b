//! What single operations on a database come to, and how they relate.

use crate::common::error::{Error, Fault};
use crate::db;
use crate::db::DbStep;
use crate::lock::grant_laws;
use crate::lock::lock_laws;
use crate::lock::lock_mode::LockMode;
use crate::storage::batch::OperationView;
use crate::storage::lsm_laws;
use crate::storage::manifest::MAX_ID;
use crate::txn::engine_laws;
use crate::txn::mvcc::{EngineView, WriteStep};
use crate::txn::mvcc_laws;
use crate::txn::transaction::{IsolationLevel, TxnView, WritesView};
use vstd::prelude::*;

verus! {

/// The single write as what a transaction wants to write.
pub open spec fn alone(op: OperationView) -> WritesView {
    match op.value {
        Some(v) => WritesView::none().put(op.key, v),
        None => WritesView::none().delete(op.key),
    }
}

/// A single read changes nothing in the tree and is answered from it, as of the last write
/// that was made.
pub proof fn lemma_single_read(
    s: EngineView,
    key: Seq<u8>,
    after: EngineView,
    answer: Result<Option<Seq<u8>>, Fault>,
)
    requires
        db::read_alone(s, key, after, answer),
        s.storage.next_ts > 0,
    ensures
        after.storage == s.storage,
        s.storage.reads(key, (s.storage.next_ts - 1) as u64, answer),
{
    let (began, t) = s.begun(IsolationLevel::Snapshot);
    let (middle, t_middle) = choose|middle: EngineView, t_middle: TxnView| #[trigger]
        began.read(t, key, middle, t_middle, answer) && match answer {
            Ok(_) => exists|t_after: TxnView| #[trigger]
                middle.committed(t_middle, after, t_after, Seq::empty(), None),
            Err(_) => after == middle,
        };
    assert(t.writes.get(key) is None);
    engine_laws::lemma_read_outcome(began, t, key, middle, t_middle, answer);
    if answer is Ok {
        let t_after = choose|t_after: TxnView| #[trigger]
            middle.committed(t_middle, after, t_after, Seq::empty(), None);
        db::lemma_idle_commit(middle, t_middle, after, t_after, Seq::empty(), None);
    }
}

/// A single write waits exactly where others hold the key, and is a lock conflict where a
/// range with the key is locked. Else it is finished at once: in a tree that can take it, it
/// succeeds. Behind its success its transaction holds nothing, and behind a conflict neither
/// the tree nor what is held has changed.
pub proof fn lemma_single_write(s: EngineView, op: OperationView, after: EngineView, step: DbStep)
    requires
        db::wrote_alone(s, op, after, step),
        mvcc_laws::moderate(s.storage, alone(op)),
        s.storage.manifest.next_sst_id <= MAX_ID,
        !s.locks.entry(op.key).holders.contains_key(s.next_txn_id),
    ensures
        ({
            let id = s.next_txn_id;
            let fenced = grant_laws::fenced(s.locks, id, op.key, LockMode::X);
            let held = grant_laws::rivalled(s.locks.entry(op.key).holders, id, LockMode::X);
            &&& step is Wait <==> !fenced && held
            &&& step matches DbStep::Wait(w) ==> after.storage == s.storage
                && w.write.operation@ == op && w.txn@.id == id
            &&& step matches DbStep::Finished(outcome) ==> {
                &&& outcome.fault() is None <==> !fenced
                &&& fenced ==> outcome.fault() == Some(Fault::LockConflict)
                &&& fenced ==> after.storage == s.storage && outcome.effects@.len() == 0
                &&& forall|key: Seq<u8>|
                    !(#[trigger] after.locks.entry(key)).holders.contains_key(id)
            }
        }),
{
    let (began, t) = s.begun(IsolationLevel::Snapshot);
    let (middle, t_middle, result) = choose|
        middle: EngineView,
        t_middle: TxnView,
        result: Result<WriteStep, Error>,
    | #[trigger]
        began.wrote(t, op, middle, t_middle, result) && db::written_through(
            middle,
            t_middle,
            result,
            after,
            step,
        );
    assert(began.locks.entry(op.key) == s.locks.entry(op.key));
    assert(began.locks.ranges == s.locks.ranges && began.locks.config == s.locks.config);
    engine_laws::lemma_write_outcome(began, t, op, middle, t_middle, result);
    match result {
        Ok(WriteStep::Done) => {
            let outcome = step->Finished_0;
            let t_after = choose|t_after: TxnView| #[trigger]
                middle.committed(t_middle, after, t_after, outcome.effects(), outcome.fault());
            lemma_alone(s, op);
            assert(t_middle == t.with_write(op));
            assert(t_middle.writes == alone(op));
            mvcc_laws::lemma_commit_succeeds(
                middle,
                t_middle,
                after,
                t_after,
                outcome.effects(),
                outcome.fault(),
            );
            mvcc_laws::lemma_commit_releases(
                middle,
                t_middle,
                after,
                t_after,
                outcome.effects(),
            );
        },
        Ok(WriteStep::Wait(_)) => {},
        Err(_) => {
            lock_laws::lemma_release_frees(middle.locks, t.id);
            assert forall|key: Seq<u8>|
                !(#[trigger] after.locks.entry(key)).holders.contains_key(t.id) by {
                assert(!middle.locks.released(t.id).entry(key).holders.contains_key(t.id));
            }
        },
    }
}

/// A single write is one write.
proof fn lemma_alone(s: EngineView, op: OperationView)
    ensures
        alone(op).puts.len() + alone(op).deletes.len() == 1,
        alone(op).puts.dom().disjoint(alone(op).deletes),
        alone(op).get(op.key) == Some(op.value),
        forall|key: Seq<u8>| key != op.key ==> #[trigger] alone(op).get(key) is None,
{
    let none = WritesView::none();
    assert(none.puts.dom() =~= Set::empty());
    assert(none.puts.remove(op.key).dom() =~= Set::empty());
    assert(none.deletes.remove(op.key) =~= Set::empty());
    assert(alone(op).puts.dom().len() + alone(op).deletes.len() == 1);
}

/// What was put is read, and what was deleted is read as gone: behind a single write that
/// succeeded, a single read of the key gives what was written. Of every other key it gives
/// what it would have given before.
pub proof fn lemma_write_then_read(
    s: EngineView,
    op: OperationView,
    middle: EngineView,
    step: DbStep,
    key: Seq<u8>,
    after: EngineView,
    answer: Result<Option<Seq<u8>>, Fault>,
)
    requires
        lsm_laws::settled(s.storage),
        mvcc_laws::moderate(s.storage, alone(op)),
        s.storage.next_ts > 0,
        db::wrote_alone(s, op, middle, step),
        step matches DbStep::Finished(outcome) && outcome.fault() is None,
        db::read_alone(middle, key, after, answer),
    ensures
        key == op.key ==> answer == Ok::<Option<Seq<u8>>, Fault>(op.value),
        key != op.key ==> s.storage.reads(key, (middle.storage.next_ts - 1) as u64, answer),
{
    let outcome = step->Finished_0;
    let (began, t) = s.begun(IsolationLevel::Snapshot);
    let (wrote, t_wrote, result) = choose|
        wrote: EngineView,
        t_wrote: TxnView,
        result: Result<WriteStep, Error>,
    | #[trigger]
        began.wrote(t, op, wrote, t_wrote, result) && db::written_through(
            wrote,
            t_wrote,
            result,
            middle,
            step,
        );
    assert(result == Ok::<WriteStep, Error>(WriteStep::Done));
    let t_after = choose|t_after: TxnView| #[trigger]
        wrote.committed(t_wrote, middle, t_after, outcome.effects(), outcome.fault());
    lemma_alone(s, op);
    assert(t_wrote == t.with_write(op));
    assert(t_wrote.writes == alone(op));
    let ts = (middle.storage.next_ts - 1) as u64;
    mvcc_laws::lemma_committed_is_read(
        wrote,
        t_wrote,
        middle,
        t_after,
        outcome.effects(),
        key,
        ts,
        answer,
    );
    lemma_single_read(middle, key, after, answer);
}

} // verus!
