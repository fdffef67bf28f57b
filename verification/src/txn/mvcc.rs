//! The transaction engine: the tree below, and above it locks and validation. The tree's
//! own timestamps say what a transaction sees and in which order transactions commit.

use crate::common::bound::{Bound, BoundView};
use crate::common::codec;
use crate::common::error::{Error, Fault};
use crate::lock::lock_entry::{LockStep, WaitEvent};
use crate::lock::lock_error::LockError;
use crate::lock::lock_manager;
use crate::lock::lock_manager::{LockAttempt, LockManager};
use crate::lock::lock_mode::LockMode;
use crate::lock::lock_table;
use crate::lock::lock_table::{KeyStep, LockConfig, LocksView, Waiting};
use crate::lock::ssi;
use crate::lock::ssi::{SSIConflict, SSIManager, SsiView};
use crate::storage::batch::{BatchOperation, OperationView};
use crate::storage::iterator::Stream;
use crate::storage::lsm;
use crate::storage::lsm::{Effect, EffectView, Lsm, LsmView, Outcome};
use crate::storage::scan::LsmIterator;
use crate::txn::transaction;
use crate::txn::transaction::{
    IsolationLevel, ManagerView, Transaction, TransactionManager, TransactionState, TxnView,
    WritesView,
};
use vstd::prelude::*;

verus! {

/// The fault that a lock error stands for.
pub open spec fn lock_fault(e: LockError) -> Fault {
    match e {
        LockError::Timeout => Fault::LockTimeout,
        LockError::Deadlock => Fault::Deadlock,
        LockError::TransactionAborted => Fault::TransactionAborted,
        _ => Fault::LockConflict,
    }
}

/// The fault that a conflict stands for.
pub open spec fn conflict_fault(c: SSIConflict) -> Fault {
    match c {
        SSIConflict::WriteSkew { .. } => Fault::WriteSkew,
        SSIConflict::Phantom { .. } => Fault::PhantomRead,
        SSIConflict::TxnNotFound => Fault::TransactionAborted,
    }
}

pub fn lock_error_to_common(err: LockError) -> (e: Error)
    ensures
        e@ == lock_fault(err),
{
    match err {
        LockError::Timeout => Error::LockTimeout,
        LockError::Deadlock => Error::Deadlock,
        LockError::TransactionAborted => Error::TransactionAborted,
        LockError::LockEscalationFailed
        | LockError::RangeConflict
        | LockError::RangeLocksDisabled
        | LockError::NotHeld
        | LockError::InvalidUpgrade => Error::LockConflict,
    }
}

pub fn ssi_error_to_common(err: SSIConflict) -> (e: Error)
    ensures
        e@ == conflict_fault(err),
{
    match err {
        SSIConflict::WriteSkew { .. } => Error::WriteSkew,
        SSIConflict::Phantom { .. } => Error::PhantomRead,
        SSIConflict::TxnNotFound => Error::TransactionAborted,
    }
}

/// The state of the engine.
#[verifier::ext_equal]
pub struct EngineView {
    pub storage: LsmView,
    pub manager: ManagerView,
    pub locks: LocksView,
    pub ssi: SsiView,
    pub next_txn_id: u64,
}

/// `list` puts each key of the map once.
pub open spec fn lists_puts(list: Seq<OperationView>, puts: Map<Seq<u8>, Seq<u8>>) -> bool {
    &&& forall|i: int|
        0 <= i < list.len() ==> puts.contains_key((#[trigger] list[i]).key) && list[i].value == Some(
            puts[list[i].key],
        )
    &&& forall|i: int, j: int|
        0 <= i < j < list.len() ==> (#[trigger] list[i]).key != (#[trigger] list[j]).key
    &&& forall|key: Seq<u8>| #[trigger]
        puts.contains_key(key) ==> exists|i: int| 0 <= i < list.len() && (#[trigger] list[i]).key == key
}

/// `list` deletes each key of the set once.
pub open spec fn lists_deletes(list: Seq<OperationView>, deletes: Set<Seq<u8>>) -> bool {
    &&& forall|i: int|
        0 <= i < list.len() ==> deletes.contains((#[trigger] list[i]).key) && list[i].value is None
    &&& forall|i: int, j: int|
        0 <= i < j < list.len() ==> (#[trigger] list[i]).key != (#[trigger] list[j]).key
    &&& forall|key: Seq<u8>| #[trigger]
        deletes.contains(key) ==> exists|i: int| 0 <= i < list.len() && (#[trigger] list[i]).key == key
}

/// `ops` are the writes of a transaction, each once, the values before the deletions.
pub open spec fn lists_writes(ops: Seq<OperationView>, w: WritesView) -> bool {
    exists|puts: Seq<OperationView>, deletes: Seq<OperationView>|
        #![trigger puts.add(deletes)]
        ops == puts.add(deletes) && lists_puts(puts, w.puts) && lists_deletes(deletes, w.deletes)
}

/// To write what a transaction wants to write may come to this. It stops at the first
/// fault.
pub open spec fn applied(
    s: LsmView,
    w: WritesView,
    after: LsmView,
    effects: Seq<EffectView>,
    fault: Option<Fault>,
) -> bool {
    exists|ops: Seq<OperationView>, n: int|
        #![trigger s.stored_all(ops.take(n), after, effects, fault)]
        lists_writes(ops, w) && 0 <= n <= ops.len() && s.stored_all(
            ops.take(n),
            after,
            effects,
            fault,
        ) && (fault is None ==> n == ops.len())
}

impl TxnView {
    /// The transaction with one more write.
    pub open spec fn with_write(self, op: OperationView) -> TxnView {
        TxnView {
            writes: match op.value {
                Some(v) => self.writes.put(op.key, v),
                None => self.writes.delete(op.key),
            },
            ..self
        }
    }
}

impl EngineView {
    /// The engine once the log of its tree has reached the disk.
    pub open spec fn synced(self) -> EngineView {
        EngineView { storage: self.storage.synced(), ..self }
    }

    /// The time at which a transaction begins: that of the last write in the tree.
    pub open spec fn start_ts(self) -> u64 {
        if self.storage.next_ts == 0 {
            0
        } else {
            (self.storage.next_ts - 1) as u64
        }
    }

    /// What beginning a transaction comes to.
    pub open spec fn begun(self, isolation: IsolationLevel) -> (EngineView, TxnView) {
        let start_ts = self.start_ts();
        let id = self.next_txn_id;
        (
            EngineView {
                next_txn_id: u64::wrapping_add(id, 1),
                locks: self.locks.registered(id, start_ts, 0),
                ssi: if isolation == IsolationLevel::Serializable {
                    SsiView {
                        active: self.ssi.active.insert(id, ssi::no_accesses()),
                        ..self.ssi
                    }
                } else {
                    self.ssi
                },
                manager: ManagerView { active: self.manager.active.insert(id), ..self.manager },
                ..self
            },
            TxnView::begun(id, start_ts, isolation),
        )
    }

    /// The engine in which a transaction has read a key of the tree.
    pub open spec fn with_read(self, t: TxnView, key: Seq<u8>) -> EngineView {
        if t.isolation == IsolationLevel::Serializable {
            EngineView {
                ssi: self.ssi.with_accesses(t.id, self.ssi.active[t.id].with_read(key)),
                ..self
            }
        } else {
            self
        }
    }

    /// A read may come to this: what the transaction wrote itself goes before what the
    /// tree holds.
    pub open spec fn read(
        self,
        t: TxnView,
        key: Seq<u8>,
        after: EngineView,
        t_after: TxnView,
        answer: Result<Option<Seq<u8>>, Fault>,
    ) -> bool {
        match t.writes.get(key) {
            Some(v) => {
                &&& after == self
                &&& t_after == t
                &&& answer == Ok::<Option<Seq<u8>>, Fault>(v)
            },
            None => {
                &&& after == self.with_read(t, key)
                &&& t_after == t.with_read(key)
                &&& self.storage.reads(key, t.start_ts, answer)
            },
        }
    }

    /// The engine in which a transaction has written a key, once it has the lock.
    pub open spec fn with_write(self, t: TxnView, key: Seq<u8>) -> EngineView {
        if t.isolation == IsolationLevel::Serializable {
            EngineView {
                ssi: self.ssi.with_accesses(t.id, self.ssi.active[t.id].with_write(key)),
                ..self
            }
        } else {
            self
        }
    }

    /// A write may come to this. It needs the exclusive lock on the key.
    pub open spec fn wrote(
        self,
        t: TxnView,
        op: OperationView,
        after: EngineView,
        t_after: TxnView,
        result: Result<WriteStep, Error>,
    ) -> bool {
        let locked = EngineView { locks: after.locks, ..self };
        let step = match result {
            Ok(WriteStep::Done) => KeyStep::Granted,
            Ok(WriteStep::Wait(p)) => KeyStep::Wait(p.waiting),
            Err(_) => KeyStep::Failed(LockError::RangeConflict),
        };
        &&& self.locks.key_locked(t.id, op.key, LockMode::X, after.locks, step)
        &&& match result {
            Ok(WriteStep::Done) => after == locked.with_write(t, op.key) && t_after
                == t.with_write(op),
            Ok(WriteStep::Wait(p)) => after == locked && t_after == t && p.operation@ == op,
            Err(e) => after == locked && t_after == t && e@ == Fault::LockConflict,
        }
    }

    /// What becomes of a write that waits for its lock.
    pub open spec fn resumed(
        self,
        t: TxnView,
        p: PendingWrite,
        event: WaitEvent,
        after: EngineView,
        t_after: TxnView,
        result: Result<WriteStep, Error>,
    ) -> bool {
        let locked = EngineView { locks: after.locks, ..self };
        exists|step: LockStep| #[trigger]
            self.locks.resumed(p.waiting, event, after.locks, step) && match step {
                LockStep::Granted => {
                    &&& result == Ok::<WriteStep, Error>(WriteStep::Done)
                    &&& after == locked.with_write(t, p.operation@.key)
                    &&& t_after == t.with_write(p.operation@)
                },
                LockStep::Wait => {
                    &&& result == Ok::<WriteStep, Error>(WriteStep::Wait(p))
                    &&& after == locked
                    &&& t_after == t
                },
                LockStep::Failed(e) => {
                    &&& result matches Err(err) && err@ == lock_fault(e)
                    &&& after == locked
                    &&& t_after == t
                },
            }
    }

    /// The check of what a transaction read may come to this. Only serialisable ones are
    /// checked.
    pub open spec fn validated(
        self,
        t: TxnView,
        commit_ts: u64,
        after: SsiView,
        fault: Option<Fault>,
    ) -> bool {
        if t.isolation == IsolationLevel::Serializable {
            exists|result: Result<(), SSIConflict>| #[trigger]
                self.ssi.validated(t.id, t.start_ts, commit_ts, after, result) && fault == (
                match result {
                    Ok(()) => None::<Fault>,
                    Err(c) => Some(conflict_fault(c)),
                })
        } else {
            after == self.ssi && fault is None
        }
    }

    /// What becomes of a transaction whose writes are in the tree: it is committed and its
    /// locks are released.
    pub open spec fn concluded(self, t: TxnView) -> (EngineView, TxnView, Option<Fault>) {
        let (manager, done, fault) = self.manager.committing(t);
        (
            EngineView {
                manager,
                locks: if fault is None {
                    self.locks.released(t.id)
                } else {
                    self.locks
                },
                ..self
            },
            done,
            fault,
        )
    }

    /// What becomes of a transaction that has passed the check of its reads: it is
    /// prepared, its writes go to the tree, and it is concluded.
    pub open spec fn pushed_through(
        self,
        t: TxnView,
        commit_ts: u64,
        after: EngineView,
        t_after: TxnView,
        effects: Seq<EffectView>,
        fault: Option<Fault>,
    ) -> bool {
        let (prepared, conflict) = self.manager.prepared(t, commit_ts);
        if conflict is Some {
            &&& after == self
            &&& t_after == prepared
            &&& effects == Seq::<EffectView>::empty()
            &&& fault == conflict
        } else {
            exists|storage: LsmView, trouble: Option<Fault>| #[trigger]
                applied(self.storage, t.writes, storage, effects, trouble) && if trouble is Some {
                    &&& after == (EngineView { storage, ..self })
                    &&& t_after == prepared
                    &&& fault == trouble
                } else {
                    (after, t_after, fault) == (EngineView { storage, ..self }).concluded(prepared)
                }
        }
    }

    /// A commit may come to this. Its time is that of the first write that it makes.
    pub open spec fn committed(
        self,
        t: TxnView,
        after: EngineView,
        t_after: TxnView,
        effects: Seq<EffectView>,
        fault: Option<Fault>,
    ) -> bool {
        let commit_ts = self.storage.next_ts;
        exists|ssi: SsiView, conflict: Option<Fault>| #[trigger]
            self.validated(t, commit_ts, ssi, conflict) && if conflict is Some {
                &&& after == (EngineView { ssi, ..self })
                &&& t_after == t
                &&& effects == Seq::<EffectView>::empty()
                &&& fault == conflict
            } else {
                (EngineView { ssi, ..self }).pushed_through(
                    t,
                    commit_ts,
                    after,
                    t_after,
                    effects,
                    fault,
                )
            }
    }

    /// What giving a transaction up comes to.
    pub open spec fn aborted(self, t: TxnView) -> (EngineView, TxnView) {
        (
            EngineView {
                manager: ManagerView { active: self.manager.active.remove(t.id), ..self.manager },
                ssi: if t.isolation == IsolationLevel::Serializable {
                    SsiView { active: self.ssi.active.remove(t.id), ..self.ssi }
                } else {
                    self.ssi
                },
                locks: self.locks.released(t.id),
                ..self
            },
            TxnView { state: TransactionState::Aborted, ..t },
        )
    }
}

/// A write that waits for the lock on its key.
pub struct PendingWrite {
    pub waiting: Waiting,
    pub operation: BatchOperation,
}

/// What became of a write.
pub enum WriteStep {
    Done,
    Wait(PendingWrite),
}

/// What a commit came to: what has to be done to the files, and which keys were unlocked.
pub struct CommitOutcome {
    pub effects: Vec<Effect>,
    pub freed: Vec<Vec<u8>>,
    pub result: Result<(), Error>,
}

impl CommitOutcome {
    pub open spec fn effects(self) -> Seq<EffectView> {
        lsm::effect_views(self.effects@)
    }

    pub open spec fn fault(self) -> Option<Fault> {
        transaction::fault_of(self.result)
    }
}

pub struct MvccEngine {
    storage: Lsm,
    txn_manager: TransactionManager,
    next_txn_id: u64,
    lock_manager: LockManager,
    ssi_manager: SSIManager,
}

impl View for MvccEngine {
    type V = EngineView;

    closed spec fn view(&self) -> EngineView {
        EngineView {
            storage: self.storage@,
            manager: self.txn_manager@,
            locks: self.lock_manager@,
            ssi: self.ssi_manager@,
            next_txn_id: self.next_txn_id,
        }
    }
}

/// The engine over a tree before the first transaction.
pub open spec fn fresh_engine(storage: LsmView, config: LockConfig) -> EngineView {
    EngineView {
        storage,
        manager: ManagerView { active: Set::empty(), committed: Seq::empty() },
        locks: lock_table::unlocked(config),
        ssi: ssi::no_transactions(),
        next_txn_id: 1,
    }
}

impl MvccEngine {
    pub closed spec fn wf(&self) -> bool {
        self.storage.wf() && self.txn_manager.wf() && self.lock_manager.wf()
    }

    pub fn new(storage: Lsm) -> (engine: Self)
        requires
            storage.wf(),
        ensures
            engine.wf(),
            engine@ == fresh_engine(storage@, lock_table::default_config()),
    {
        Self::with_lock_config(storage, LockConfig::default())
    }

    pub fn with_lock_config(storage: Lsm, lock_config: LockConfig) -> (engine: Self)
        requires
            storage.wf(),
        ensures
            engine.wf(),
            engine@ == fresh_engine(storage@, lock_config),
    {
        MvccEngine {
            storage,
            txn_manager: TransactionManager::new(),
            next_txn_id: 1,
            lock_manager: LockManager::new(lock_config),
            ssi_manager: SSIManager::new(),
        }
    }

    /// Begins a transaction that reads a snapshot.
    pub fn begin(&mut self) -> (txn: Transaction)
        requires
            old(self).wf(),
        ensures
            final(self).wf(),
            txn.wf(),
            (final(self)@, txn@) == old(self)@.begun(IsolationLevel::Snapshot),
    {
        self.begin_with_isolation(IsolationLevel::Snapshot)
    }

    /// Begins a transaction. It sees the tree as it is now.
    pub fn begin_with_isolation(&mut self, isolation: IsolationLevel) -> (txn: Transaction)
        requires
            old(self).wf(),
        ensures
            final(self).wf(),
            txn.wf(),
            (final(self)@, txn@) == old(self)@.begun(isolation),
    {
        let txn_id: u64 = self.next_txn_id;
        self.next_txn_id = txn_id.wrapping_add(1);
        let next_ts: u64 = self.storage.current_ts();
        let start_ts: u64 = if next_ts == 0 {
            0
        } else {
            next_ts - 1
        };
        self.lock_manager.register_txn(txn_id, start_ts);
        if isolation == IsolationLevel::Serializable {
            self.ssi_manager.begin_txn(txn_id);
        }
        let txn = self.txn_manager.begin(txn_id, start_ts, isolation);
        assert(self@ =~= old(self)@.begun(isolation).0);
        txn
    }

    /// Reads a key: what the transaction wrote itself, or else what the tree held when it
    /// began.
    pub fn get(&mut self, txn: &mut Transaction, key: &[u8]) -> (result: Result<
        Option<Vec<u8>>,
        Error,
    >)
        requires
            old(self).wf(),
            old(txn).wf(),
        ensures
            final(self).wf(),
            final(txn).wf(),
            old(self)@.read(old(txn)@, key@, final(self)@, final(txn)@, lsm::answer_of(result)),
    {
        if let Some(local) = txn.local_value(key) {
            return Ok(local);
        }
        let (txn_id, start_ts, isolation) = txn.header();
        if isolation == IsolationLevel::Serializable {
            self.ssi_manager.record_read(txn_id, key);
        }
        txn.record_read(codec::copy_bytes(key));
        let result = self.storage.get_at_ts(key, start_ts);
        assert(self@ =~= old(self)@.with_read(old(txn)@, key@));
        result
    }

    /// Writes a key, as far as the transaction is concerned.
    pub fn put(&mut self, txn: &mut Transaction, key: Vec<u8>, value: Vec<u8>) -> (result: Result<
        WriteStep,
        Error,
    >)
        requires
            old(self).wf(),
            old(txn).wf(),
        ensures
            final(self).wf(),
            final(txn).wf(),
            old(self)@.wrote(
                old(txn)@,
                OperationView { key: key@, value: Some(value@) },
                final(self)@,
                final(txn)@,
                result,
            ),
    {
        self.write(txn, BatchOperation::Put { key, value })
    }

    /// Deletes a key, as far as the transaction is concerned.
    pub fn delete(&mut self, txn: &mut Transaction, key: Vec<u8>) -> (result: Result<
        WriteStep,
        Error,
    >)
        requires
            old(self).wf(),
            old(txn).wf(),
        ensures
            final(self).wf(),
            final(txn).wf(),
            old(self)@.wrote(
                old(txn)@,
                OperationView { key: key@, value: None },
                final(self)@,
                final(txn)@,
                result,
            ),
    {
        self.write(txn, BatchOperation::Delete { key })
    }

    fn write(&mut self, txn: &mut Transaction, operation: BatchOperation) -> (result: Result<
        WriteStep,
        Error,
    >)
        requires
            old(self).wf(),
            old(txn).wf(),
        ensures
            final(self).wf(),
            final(txn).wf(),
            old(self)@.wrote(old(txn)@, operation@, final(self)@, final(txn)@, result),
    {
        let ghost before = self@;
        let (txn_id, _, _) = txn.header();
        let key = operation_key(&operation);
        let attempt = self.lock_manager.lock_key(txn_id, key, LockMode::X);
        assert(self@ =~= EngineView { locks: self@.locks, ..before });
        match attempt {
            Ok(LockAttempt::Granted(_)) => {
                self.perform(txn, operation);
                Ok(WriteStep::Done)
            },
            Ok(LockAttempt::Wait(waiting)) => {
                Ok(WriteStep::Wait(PendingWrite { waiting, operation }))
            },
            Err(e) => Err(lock_error_to_common(e)),
        }
    }

    /// Goes on with a write that waits for its lock.
    pub fn resume_write(&mut self, txn: &mut Transaction, pending: PendingWrite, event: WaitEvent)
        -> (result: Result<WriteStep, Error>)
        requires
            old(self).wf(),
            old(txn).wf(),
        ensures
            final(self).wf(),
            final(txn).wf(),
            old(self)@.resumed(
                old(txn)@,
                pending,
                event,
                final(self)@,
                final(txn)@,
                result,
            ),
    {
        let ghost before = self@;
        let attempt = self.lock_manager.resume_lock_key(&pending.waiting, event);
        let ghost step = match attempt {
            Ok(Some(_)) => LockStep::Granted,
            Ok(None) => LockStep::Wait,
            Err(e) => LockStep::Failed(e),
        };
        assert(before.locks.resumed(pending.waiting, event, self@.locks, step));
        assert(self@ =~= EngineView { locks: self@.locks, ..before });
        match attempt {
            Ok(Some(_)) => {
                self.perform(txn, pending.operation);
                Ok(WriteStep::Done)
            },
            Ok(None) => Ok(WriteStep::Wait(pending)),
            Err(e) => Err(lock_error_to_common(e)),
        }
    }

    /// Notes a write whose lock the transaction has.
    fn perform(&mut self, txn: &mut Transaction, operation: BatchOperation)
        requires
            old(self).wf(),
            old(txn).wf(),
        ensures
            final(self).wf(),
            final(txn).wf(),
            final(self)@ == old(self)@.with_write(old(txn)@, operation@.key),
            final(txn)@ == old(txn)@.with_write(operation@),
    {
        let ghost before = self@;
        let (txn_id, _, isolation) = txn.header();
        if isolation == IsolationLevel::Serializable {
            self.ssi_manager.record_write(txn_id, operation_key(&operation));
        }
        assert(self@ =~= before.with_write(txn@, operation@.key));
        match operation {
            BatchOperation::Put { key, value } => txn.put(key, value),
            BatchOperation::Delete { key } => txn.delete(key),
        }
    }

    /// Commits a transaction.
    pub fn commit(&mut self, txn: &mut Transaction) -> (outcome: CommitOutcome)
        requires
            old(self).wf(),
            old(txn).wf(),
        ensures
            final(self).wf(),
            final(txn).wf(),
            old(self)@.committed(
                old(txn)@,
                final(self)@,
                final(txn)@,
                outcome.effects(),
                outcome.fault(),
            ),
            forall|key: Seq<u8>| #[trigger]
                lock_table::lists(outcome.freed@, key) <==> outcome.fault() is None && old(
                    self,
                )@.locks.entry(key).holders.contains_key(old(txn)@.id),
    {
        let ghost before = self@;
        let ghost t = txn@;
        let (txn_id, start_ts, isolation) = txn.header();
        let commit_ts: u64 = self.storage.current_ts();
        if isolation == IsolationLevel::Serializable {
            let verdict = self.ssi_manager.validate_and_commit(txn_id, start_ts, commit_ts);
            assert(self@ =~= EngineView { ssi: self@.ssi, ..before });
            assert(before.ssi.validated(t.id, t.start_ts, commit_ts, self@.ssi, verdict));
            if let Err(conflict) = verdict {
                let outcome = failed(ssi_error_to_common(conflict));
                assert(before.validated(t, commit_ts, self@.ssi, outcome.fault()));
                return outcome;
            }
        }
        assert(before.validated(t, commit_ts, self@.ssi, None));
        assert(self@ =~= EngineView { ssi: self@.ssi, ..before });
        self.push_through(txn, commit_ts)
    }

    fn push_through(&mut self, txn: &mut Transaction, commit_ts: u64) -> (outcome: CommitOutcome)
        requires
            old(self).wf(),
            old(txn).wf(),
        ensures
            final(self).wf(),
            final(txn).wf(),
            old(self)@.pushed_through(
                old(txn)@,
                commit_ts,
                final(self)@,
                final(txn)@,
                outcome.effects(),
                outcome.fault(),
            ),
            forall|key: Seq<u8>| #[trigger]
                lock_table::lists(outcome.freed@, key) <==> outcome.fault() is None && old(
                    self,
                )@.locks.entry(key).holders.contains_key(old(txn)@.id),
    {
        let ghost before = self@;
        let ghost t = txn@;
        if let Err(e) = self.txn_manager.prepare_commit(txn, commit_ts) {
            return failed(e);
        }
        let ghost prepared = txn@;
        let Outcome { effects, result } = apply(&mut self.storage, txn);
        let ghost trouble = transaction::fault_of(result);
        assert(self@ =~= EngineView { storage: self@.storage, ..before });
        assert(applied(
            before.storage,
            t.writes,
            self@.storage,
            lsm::effect_views(effects@),
            trouble,
        ));
        if let Err(e) = result {
            let outcome = CommitOutcome { effects, freed: Vec::new(), result: Err(e) };
            return outcome;
        }
        let ghost stored = self@;
        if let Err(e) = self.txn_manager.commit(txn) {
            assert(self@ =~= stored);
            let outcome = CommitOutcome { effects, freed: Vec::new(), result: Err(e) };
            return outcome;
        }
        let (txn_id, _, _) = txn.header();
        let freed = self.lock_manager.release_all(txn_id);
        assert(self@ =~= stored.concluded(prepared).0);
        CommitOutcome { effects, freed, result: Ok(()) }
    }

    /// Gives a transaction up. Those who wait for one of the keys that are returned are to
    /// be woken.
    pub fn abort(&mut self, txn: &mut Transaction) -> (freed: Vec<Vec<u8>>)
        requires
            old(self).wf(),
            old(txn).wf(),
        ensures
            final(self).wf(),
            final(txn).wf(),
            (final(self)@, final(txn)@) == old(self)@.aborted(old(txn)@),
            forall|key: Seq<u8>| #[trigger]
                lock_table::lists(freed@, key) <==> old(self)@.locks.entry(
                    key,
                ).holders.contains_key(old(txn)@.id),
    {
        let ghost before = self@;
        let (txn_id, _, isolation) = txn.header();
        self.txn_manager.abort(txn);
        if isolation == IsolationLevel::Serializable {
            self.ssi_manager.abort_txn(txn_id);
        }
        let freed = self.lock_manager.release_all(txn_id);
        assert(self@ =~= before.aborted(old(txn)@).0);
        freed
    }

    pub fn storage(&self) -> (storage: &Lsm)
        requires
            self.wf(),
        ensures
            storage.wf(),
            storage@ == self@.storage,
    {
        &self.storage
    }

    pub fn locks(&self) -> (locks: &LockManager)
        requires
            self.wf(),
        ensures
            locks.wf(),
            locks@ == self@.locks,
    {
        &self.lock_manager
    }

    /// Everything that was written is brought to the disk.
    pub fn sync(&mut self) -> (effect: Effect)
        requires
            old(self).wf(),
        ensures
            final(self).wf(),
            final(self)@ == old(self)@.synced(),
            effect@ == EffectView::SyncLog,
    {
        let effect = self.storage.sync();
        assert(self@ =~= old(self)@.synced());
        effect
    }

    /// An iterator over all keys of the tree.
    pub fn scan(&self) -> (result: Result<LsmIterator, Error>)
        ensures
            match result {
                Ok(iter) => iter.wf() && self@.storage.parts().scanned(
                    BoundView::Unbounded,
                    BoundView::Unbounded,
                    Ok::<Stream, Fault>(iter.stream()),
                ),
                Err(e) => self@.storage.parts().scanned(
                    BoundView::Unbounded,
                    BoundView::Unbounded,
                    Err::<Stream, Fault>(e@),
                ),
            },
    {
        self.storage.scan()
    }

    /// An iterator over the keys of a range of the tree.
    pub fn scan_range(&self, start: Bound, end: Bound) -> (result: Result<LsmIterator, Error>)
        ensures
            match result {
                Ok(iter) => iter.wf() && self@.storage.parts().scanned(
                    start@,
                    end@,
                    Ok::<Stream, Fault>(iter.stream()),
                ),
                Err(e) => self@.storage.parts().scanned(start@, end@, Err::<Stream, Fault>(e@)),
            },
    {
        self.storage.scan_range(start, end)
    }
}

fn operation_key(operation: &BatchOperation) -> (key: &[u8])
    ensures
        key@ == operation@.key,
{
    match operation {
        BatchOperation::Put { key, .. } => key.as_slice(),
        BatchOperation::Delete { key } => key.as_slice(),
    }
}

fn failed(e: Error) -> (outcome: CommitOutcome)
    ensures
        outcome.effects() == Seq::<EffectView>::empty(),
        outcome.fault() == Some(e@),
        forall|key: Seq<u8>| !#[trigger] lock_table::lists(outcome.freed@, key),
{
    let outcome = CommitOutcome { effects: Vec::new(), freed: Vec::new(), result: Err(e) };
    assert(outcome.effects() =~= Seq::<EffectView>::empty());
    outcome
}

/// Writes what a transaction wants to write, up to the first fault.
fn apply(storage: &mut Lsm, txn: &Transaction) -> (outcome: Outcome)
    requires
        old(storage).wf(),
        txn.wf(),
    ensures
        final(storage).wf(),
        applied(
            old(storage)@,
            txn@.writes,
            final(storage)@,
            outcome.effects(),
            outcome.fault(),
        ),
{
    let puts = txn.write_list().iter_puts();
    let deletes = txn.write_list().iter_deletes();
    let ghost put_ops = Seq::new(
        puts@.len(),
        |i: int| OperationView { key: puts@[i].0@, value: Some(puts@[i].1@) },
    );
    let ghost delete_ops = Seq::new(
        deletes@.len(),
        |i: int| OperationView { key: deletes@[i]@, value: None },
    );
    let ghost ops = put_ops.add(delete_ops);
    let ghost start = storage@;
    proof {
        lemma_ops_listed(puts@, deletes@, put_ops, delete_ops, txn@.writes);
        assert(ops.take(0) =~= Seq::empty());
        assert(lsm::effect_views(Seq::<Effect>::empty()) =~= Seq::<EffectView>::empty());
    }
    let mut effects: Vec<Effect> = Vec::new();
    let mut i: usize = 0;
    while i < puts.len()
        invariant
            i <= puts@.len(),
            start == old(storage)@,
            storage.wf(),
            ops == put_ops.add(delete_ops),
            put_ops.len() == puts@.len(),
            forall|k: int|
                0 <= k < puts@.len() ==> #[trigger] put_ops[k] == (OperationView {
                    key: puts@[k].0@,
                    value: Some(puts@[k].1@),
                }),
            lists_writes(ops, txn@.writes),
            start.stored_all(ops.take(i as int), storage@, lsm::effect_views(effects@), None),
        decreases puts@.len() - i,
    {
        let ghost middle = storage@;
        let ghost first = effects@;
        let Outcome { effects: added, result } = storage.put(
            codec::copy_bytes(puts[i].0),
            codec::copy_bytes(puts[i].1),
        );
        let ghost last = added@;
        let ghost fault = transaction::fault_of(result);
        let mut more = added;
        effects.append(&mut more);
        proof {
            assert(ops[i as int] == put_ops[i as int]);
            lemma_stored_step(
                start,
                ops,
                i as int,
                middle,
                storage@,
                first,
                last,
                effects@,
                fault,
            );
        }
        if let Err(e) = result {
            return Outcome { effects, result: Err(e) };
        }
        i += 1;
    }
    let mut j: usize = 0;
    while j < deletes.len()
        invariant
            i == put_ops.len(),
            j <= deletes@.len(),
            i + deletes@.len() == ops.len(),
            start == old(storage)@,
            storage.wf(),
            ops == put_ops.add(delete_ops),
            delete_ops.len() == deletes@.len(),
            forall|k: int|
                0 <= k < deletes@.len() ==> #[trigger] delete_ops[k] == (OperationView {
                    key: deletes@[k]@,
                    value: None,
                }),
            lists_writes(ops, txn@.writes),
            start.stored_all(ops.take(i + j), storage@, lsm::effect_views(effects@), None),
        decreases deletes@.len() - j,
    {
        let ghost middle = storage@;
        let ghost first = effects@;
        let Outcome { effects: added, result } = storage.delete(codec::copy_bytes(deletes[j]));
        let ghost last = added@;
        let ghost fault = transaction::fault_of(result);
        let mut more = added;
        effects.append(&mut more);
        proof {
            assert(ops[i + j] == delete_ops[j as int]);
            lemma_stored_step(start, ops, i + j, middle, storage@, first, last, effects@, fault);
        }
        if let Err(e) = result {
            return Outcome { effects, result: Err(e) };
        }
        j += 1;
    }
    assert(ops.take(ops.len() as int) =~= ops);
    Outcome { effects, result: Ok(()) }
}

proof fn lemma_stored_step(
    start: LsmView,
    ops: Seq<OperationView>,
    n: int,
    middle: LsmView,
    after: LsmView,
    first: Seq<Effect>,
    last: Seq<Effect>,
    effects: Seq<Effect>,
    fault: Option<Fault>,
)
    requires
        0 <= n < ops.len(),
        start.stored_all(ops.take(n), middle, lsm::effect_views(first), None),
        middle.stored(ops[n], after, lsm::effect_views(last), fault),
        effects == first + last,
    ensures
        start.stored_all(ops.take(n + 1), after, lsm::effect_views(effects), fault),
{
    let now = ops.take(n + 1);
    assert(now.drop_last() =~= ops.take(n));
    assert(now.last() == ops[n]);
    assert(lsm::effect_views(effects) =~= lsm::effect_views(first).add(lsm::effect_views(last)));
    assert(middle.stored(now.last(), after, lsm::effect_views(last), fault));
}

proof fn lemma_ops_listed(
    puts: Seq<(&[u8], &[u8])>,
    deletes: Seq<&[u8]>,
    put_ops: Seq<OperationView>,
    delete_ops: Seq<OperationView>,
    w: WritesView,
)
    requires
        transaction::lists_pairs(puts, w.puts),
        transaction::lists_members(deletes, w.deletes),
        put_ops.len() == puts.len(),
        delete_ops.len() == deletes.len(),
        forall|i: int|
            0 <= i < puts.len() ==> #[trigger] put_ops[i] == (OperationView {
                key: puts[i].0@,
                value: Some(puts[i].1@),
            }),
        forall|i: int|
            0 <= i < deletes.len() ==> #[trigger] delete_ops[i] == (OperationView {
                key: deletes[i]@,
                value: None,
            }),
    ensures
        lists_writes(put_ops.add(delete_ops), w),
{
    assert(lists_puts(put_ops, w.puts)) by {
        assert forall|i: int, j: int| 0 <= i < j < put_ops.len() implies (
        #[trigger] put_ops[i]).key != (#[trigger] put_ops[j]).key by {
            assert(puts[i].0@ != puts[j].0@);
        }
        assert forall|key: Seq<u8>| #[trigger] w.puts.contains_key(key) implies exists|i: int|
            0 <= i < put_ops.len() && (#[trigger] put_ops[i]).key == key by {
            let i = choose|i: int| 0 <= i < puts.len() && (#[trigger] puts[i]).0@ == key;
            assert(put_ops[i].key == key);
        }
        assert forall|i: int| 0 <= i < put_ops.len() implies w.puts.contains_key(
            (#[trigger] put_ops[i]).key,
        ) && put_ops[i].value == Some(w.puts[put_ops[i].key]) by {
            assert(w.puts.contains_key(puts[i].0@));
        }
    }
    assert(lists_deletes(delete_ops, w.deletes)) by {
        assert forall|i: int, j: int| 0 <= i < j < delete_ops.len() implies (
        #[trigger] delete_ops[i]).key != (#[trigger] delete_ops[j]).key by {
            assert(deletes[i]@ != deletes[j]@);
        }
        assert forall|key: Seq<u8>| #[trigger] w.deletes.contains(key) implies exists|i: int|
            0 <= i < delete_ops.len() && (#[trigger] delete_ops[i]).key == key by {
            let i = choose|i: int| 0 <= i < deletes.len() && (#[trigger] deletes[i])@ == key;
            assert(delete_ops[i].key == key);
        }
        assert forall|i: int| 0 <= i < delete_ops.len() implies w.deletes.contains(
            (#[trigger] delete_ops[i]).key,
        ) && delete_ops[i].value is None by {
            assert(w.deletes.contains(deletes[i]@));
        }
    }
}

} // verus!
