//! What each operation of the engine changes, and what it leaves as it is.

use crate::common::error::{Error, Fault};
use crate::lock::grant_laws;
use crate::lock::lock_entry::{LockStep, WaitEvent};
use crate::lock::lock_error::LockError;
use crate::lock::lock_laws;
use crate::lock::lock_mode::LockMode;
use crate::lock::lock_table::{KeyStep, LockConfig};
use crate::lock::ssi::{SSIConflict, SsiView};
use crate::storage::batch::OperationView;
use crate::storage::lsm::{EffectView, LsmView};
use crate::txn::mvcc;
use crate::txn::mvcc::{EngineView, PendingWrite, WriteStep};
use crate::txn::transaction::{IsolationLevel, TransactionState, TxnView};
use vstd::prelude::*;

verus! {

/// Which fault a caller sees for which trouble. A timeout, a deadlock and an abort are told
/// apart; all else that a lock can fail for is a conflict.
pub proof fn lemma_faults(e: LockError, c: SSIConflict)
    ensures
        mvcc::lock_fault(e) == Fault::LockTimeout <==> e is Timeout,
        mvcc::lock_fault(e) == Fault::Deadlock <==> e is Deadlock,
        mvcc::lock_fault(e) == Fault::TransactionAborted <==> e is TransactionAborted,
        mvcc::lock_fault(e) == Fault::LockConflict <==> !(e is Timeout) && !(e is Deadlock) && !(
        e is TransactionAborted),
        mvcc::conflict_fault(c) == Fault::WriteSkew <==> c is WriteSkew,
        mvcc::conflict_fault(c) == Fault::PhantomRead <==> c is Phantom,
        mvcc::conflict_fault(c) == Fault::TransactionAborted <==> c is TxnNotFound,
{
}

/// Two states of a transaction differ at most in what it wrote and read.
pub open spec fn same_txn(t: TxnView, u: TxnView) -> bool {
    &&& t.id == u.id
    &&& t.start_ts == u.start_ts
    &&& t.isolation == u.isolation
}

/// A new engine has the tree that it is given, and no transaction.
pub proof fn lemma_new_engine(storage: LsmView, config: LockConfig, id: u64, key: Seq<u8>)
    ensures
        ({
            let s = mvcc::fresh_engine(storage, config);
            &&& s.storage == storage
            &&& s.locks.config == config
            &&& !s.manager.active.contains(id)
            &&& s.manager.committed.len() == 0
            &&& !s.ssi.active.contains_key(id)
            &&& !s.ssi.committed.contains_key(id)
            &&& !s.locks.entry(key).holders.contains_key(id)
            &&& s.locks.ranges.len() == 0
        }),
{
}

/// What a read changes: nothing but what is noted of the transaction, and that only where
/// it is serialisable. It is answered from what the transaction wrote or else from the tree,
/// as of the time at which the transaction began.
pub proof fn lemma_read_outcome(
    s: EngineView,
    t: TxnView,
    key: Seq<u8>,
    after: EngineView,
    t_after: TxnView,
    answer: Result<Option<Seq<u8>>, Fault>,
)
    requires
        s.read(t, key, after, t_after, answer),
    ensures
        after.storage == s.storage,
        after.manager == s.manager,
        after.locks == s.locks,
        after.next_txn_id == s.next_txn_id,
        t.isolation != IsolationLevel::Serializable ==> after == s && t_after == t,
        same_txn(t, t_after) && t_after.state == t.state && t_after.writes == t.writes
            && t_after.commit_ts == t.commit_ts,
        t.writes.deletes.contains(key) ==> answer == Ok::<Option<Seq<u8>>, Fault>(None),
        !t.writes.deletes.contains(key) && t.writes.puts.contains_key(key) ==> answer == Ok::<
            Option<Seq<u8>>,
            Fault,
        >(Some(t.writes.puts[key])),
        !t.writes.deletes.contains(key) && !t.writes.puts.contains_key(key) ==> s.storage.reads(
            key,
            t.start_ts,
            answer,
        ),
{
}

/// What a write comes to. It is done exactly where the exclusive lock on the key is granted:
/// where no other's range with the key is locked in any clashing mode, and nobody else holds
/// the key or the transaction itself has it locked beyond need. It waits where others hold the
/// key, and is a lock conflict where a range is in the way. Only a write that is done changes
/// the transaction: it then has the new value or the deletion for the key, and for other keys
/// what it had.
pub proof fn lemma_write_outcome(
    s: EngineView,
    t: TxnView,
    op: OperationView,
    after: EngineView,
    t_after: TxnView,
    result: Result<WriteStep, Error>,
)
    requires
        s.wrote(t, op, after, t_after, result),
    ensures
        after.storage == s.storage,
        after.manager == s.manager,
        after.next_txn_id == s.next_txn_id,
        result matches Err(e) ==> e@ == Fault::LockConflict,
        result is Err <==> grant_laws::fenced(s.locks, t.id, op.key, LockMode::X),
        result matches Ok(WriteStep::Wait(_)) <==> !grant_laws::fenced(
            s.locks,
            t.id,
            op.key,
            LockMode::X,
        ) && !grant_laws::served(s.locks.entry(op.key).holders, t.id, LockMode::X)
            && grant_laws::rivalled(s.locks.entry(op.key).holders, t.id, LockMode::X),
        result == Ok::<WriteStep, Error>(WriteStep::Done) ==> {
            &&& same_txn(t, t_after) && t_after.state == t.state && t_after.reads == t.reads
            &&& t_after.writes.get(op.key) == Some(op.value)
            &&& forall|key: Seq<u8>|
                key != op.key ==> #[trigger] t_after.writes.get(key) == t.writes.get(key)
            &&& after.locks.entry(op.key).holders.contains_key(t.id)
        },
        result != Ok::<WriteStep, Error>(WriteStep::Done) ==> t_after == t && after.ssi == s.ssi,
        result is Err ==> after.locks == s.locks,
        result matches Ok(WriteStep::Wait(p)) ==> p.operation@ == op && p.waiting.txn_id == t.id
            && p.waiting.key@ == op.key && p.waiting.mode == LockMode::X,
{
    let step = match result {
        Ok(WriteStep::Done) => KeyStep::Granted,
        Ok(WriteStep::Wait(p)) => KeyStep::Wait(p.waiting),
        Err(_) => KeyStep::Failed(LockError::RangeConflict),
    };
    grant_laws::lemma_key_request(s.locks, t.id, op.key, LockMode::X, after.locks, step);
    if step is Granted {
        grant_laws::lemma_granted_mode(s.locks, t.id, op.key, LockMode::X, after.locks);
    }
}

/// A write that has waited is done at last or not at all: where it is done, the transaction
/// has it as if it had not waited, and else the transaction stays as it was. The fault is the
/// one that the wait ended with.
pub proof fn lemma_resumed_write(
    s: EngineView,
    t: TxnView,
    p: PendingWrite,
    event: WaitEvent,
    after: EngineView,
    t_after: TxnView,
    result: Result<WriteStep, Error>,
)
    requires
        s.resumed(t, p, event, after, t_after, result),
    ensures
        after.storage == s.storage,
        after.manager == s.manager,
        result == Ok::<WriteStep, Error>(WriteStep::Done) ==> {
            &&& same_txn(t, t_after) && t_after.state == t.state && t_after.reads == t.reads
            &&& t_after.writes.get(p.operation@.key) == Some(p.operation@.value)
            &&& forall|key: Seq<u8>|
                key != p.operation@.key ==> #[trigger] t_after.writes.get(key) == t.writes.get(key)
            &&& s.locks.resumed(p.waiting, event, after.locks, LockStep::Granted)
        },
        result != Ok::<WriteStep, Error>(WriteStep::Done) ==> t_after == t && after.ssi == s.ssi,
        result matches Ok(WriteStep::Wait(q)) ==> q == p && s.locks.resumed(
            p.waiting,
            event,
            after.locks,
            LockStep::Wait,
        ),
        result matches Err(e) ==> exists|cause: LockError| #[trigger]
            mvcc::lock_fault(cause) == e@ && s.locks.resumed(
                p.waiting,
                event,
                after.locks,
                LockStep::Failed(cause),
            ),
{
}

/// What giving a transaction up changes: it is aborted, known neither to the manager nor to
/// the check of reads, and holds nothing. The tree, the commits of others and what is known
/// of others stay.
pub proof fn lemma_abort_outcome(s: EngineView, t: TxnView, other: u64)
    ensures
        ({
            let (after, t_after) = s.aborted(t);
            &&& t_after.state == TransactionState::Aborted
            &&& same_txn(t, t_after) && t_after.writes == t.writes && t_after.reads == t.reads
            &&& after.storage == s.storage
            &&& after.manager.committed == s.manager.committed
            &&& after.ssi.committed == s.ssi.committed
            &&& after.next_txn_id == s.next_txn_id
            &&& !after.manager.active.contains(t.id)
            &&& t.isolation == IsolationLevel::Serializable ==> !after.ssi.active.contains_key(t.id)
            &&& forall|key: Seq<u8>| !(#[trigger] after.locks.entry(key)).holders.contains_key(t.id)
            &&& other != t.id ==> {
                &&& after.manager.active.contains(other) == s.manager.active.contains(other)
                &&& after.ssi.active.contains_key(other) == s.ssi.active.contains_key(other)
                &&& after.ssi.active[other] == s.ssi.active[other]
                &&& forall|key: Seq<u8>|
                    (#[trigger] after.locks.entry(key)).holders.contains_key(other)
                        == s.locks.entry(key).holders.contains_key(other)
            }
        }),
{
    lock_laws::lemma_release_frees(s.locks, t.id);
    grant_laws::lemma_release_keeps_others(s.locks, t.id);
    let after = s.aborted(t).0;
    assert forall|key: Seq<u8>|
        !(#[trigger] after.locks.entry(key)).holders.contains_key(t.id) by {
        assert(!s.locks.released(t.id).entry(key).holders.contains_key(t.id));
    }
    if other != t.id {
        assert forall|key: Seq<u8>|
            (#[trigger] after.locks.entry(key)).holders.contains_key(other) == s.locks.entry(
                key,
            ).holders.contains_key(other) by {
            assert(s.locks.released(t.id).entry(key).holders.contains_key(other)
                <==> s.locks.entry(key).holders.contains_key(other));
        }
    }
}

/// What a commit changes besides the tree. One that succeeds leaves the transaction committed
/// at the time of the first write that it makes, and the manager knows when it began, when it
/// was committed and exactly the keys that it wrote. One that fails leaves the transaction
/// uncommitted and the commits that are known as they are, and releases no lock.
pub proof fn lemma_commit_outcome(
    s: EngineView,
    t: TxnView,
    after: EngineView,
    t_after: TxnView,
    effects: Seq<EffectView>,
    fault: Option<Fault>,
)
    requires
        s.committed(t, after, t_after, effects, fault),
    ensures
        same_txn(t, t_after),
        t_after.writes == t.writes && t_after.reads == t.reads,
        after.next_txn_id == s.next_txn_id,
        fault is None ==> {
            &&& t.state == TransactionState::Active
            &&& t_after.state == TransactionState::Committed
            &&& t_after.commit_ts == Some(s.storage.next_ts)
            &&& !after.manager.active.contains(t.id)
            &&& after.manager.committed.len() == s.manager.committed.len() + 1
            &&& after.manager.committed.drop_last() == s.manager.committed
            &&& after.manager.committed.last().commit_ts == s.storage.next_ts
            &&& after.manager.committed.last().start_ts == t.start_ts
            &&& forall|key: Seq<u8>| #[trigger]
                after.manager.committed.last().keys.contains(key) <==> t.writes.puts.contains_key(
                    key,
                ) || t.writes.deletes.contains(key)
        },
        fault is Some ==> {
            &&& t_after.state == t.state
            &&& after.manager == s.manager
            &&& after.locks == s.locks
        },
        forall|id: u64|
            id != t.id ==> (#[trigger] after.manager.active.contains(id)
                <==> s.manager.active.contains(id)),
        t.isolation != IsolationLevel::Serializable ==> after.ssi == s.ssi,
{
    let commit_ts = s.storage.next_ts;
    let (ssi, conflict) = choose|ssi: SsiView, conflict: Option<Fault>| #[trigger]
        s.validated(t, commit_ts, ssi, conflict) && if conflict is Some {
            &&& after == (EngineView { ssi, ..s })
            &&& t_after == t
            &&& effects == Seq::<EffectView>::empty()
            &&& fault == conflict
        } else {
            (EngineView { ssi, ..s }).pushed_through(t, commit_ts, after, t_after, effects, fault)
        };
    if conflict is None && fault is None {
        assert(after.manager.committed.drop_last() =~= s.manager.committed);
    }
}

} // verus!
