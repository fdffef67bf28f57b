//! The lock manager: the lock table with the time limit for those who wait.

use crate::common::bound::Bound;
use crate::common::codec;
use crate::lock::deadlock;
use crate::lock::lock_entry::{LockStep, WaitEvent};
use crate::lock::lock_error::LockError;
use crate::lock::lock_mode::LockMode;
use crate::lock::lock_table;
use crate::lock::lock_table::{KeyStep, LockConfig, LockTable, LocksView, Waiting};
use vstd::prelude::*;

verus! {

/// The lock on a key that a transaction has got.
pub struct LockGuard {
    pub txn_id: u64,
    pub key: Vec<u8>,
    pub mode: LockMode,
}

/// The lock on a range that a transaction has got.
pub struct RangeLockGuard {
    pub txn_id: u64,
    pub start: Bound,
    pub end: Bound,
    pub mode: LockMode,
}

/// What became of a request for the lock on a key that was not refused.
pub enum LockAttempt {
    Granted(LockGuard),
    Wait(Waiting),
}

/// The lock step that an attempt stands for.
pub open spec fn step_of(attempt: Result<LockAttempt, LockError>) -> KeyStep {
    match attempt {
        Ok(LockAttempt::Granted(_)) => KeyStep::Granted,
        Ok(LockAttempt::Wait(w)) => KeyStep::Wait(w),
        Err(e) => KeyStep::Failed(e),
    }
}

impl LockGuard {
    pub open spec fn is_for(self, txn_id: u64, key: Seq<u8>, mode: LockMode) -> bool {
        self.txn_id == txn_id && self.key@ == key && self.mode == mode
    }
}

pub struct LockManager {
    lock_table: LockTable,
    config: LockConfig,
}

impl View for LockManager {
    type V = LocksView;

    closed spec fn view(&self) -> LocksView {
        self.lock_table@
    }
}

impl LockManager {
    pub closed spec fn wf(&self) -> bool {
        self.lock_table.wf() && self.config == self.lock_table@.config
    }

    pub fn new(config: LockConfig) -> (manager: Self)
        ensures
            manager.wf(),
            manager@ == lock_table::unlocked(config),
    {
        LockManager { lock_table: LockTable::new(config), config }
    }

    pub fn with_default_config() -> (manager: Self)
        ensures
            manager.wf(),
            manager@ == lock_table::unlocked(lock_table::default_config()),
    {
        Self::new(LockConfig::default())
    }

    /// Makes a transaction known, with the greatest importance.
    pub fn register_txn(&mut self, txn_id: u64, start_ts: u64)
        requires
            old(self).wf(),
        ensures
            final(self).wf(),
            final(self)@ == old(self)@.registered(txn_id, start_ts, 0),
    {
        self.lock_table.register_txn(txn_id, start_ts, 0);
    }

    pub fn register_txn_with_priority(&mut self, txn_id: u64, start_ts: u64, priority: u32)
        requires
            old(self).wf(),
        ensures
            final(self).wf(),
            final(self)@ == old(self)@.registered(txn_id, start_ts, priority),
    {
        self.lock_table.register_txn(txn_id, start_ts, priority);
    }

    /// How long a request may wait, in milliseconds: as long as it says, or else as long as
    /// the configuration says.
    pub fn wait_limit(&self, timeout_ms: Option<u64>) -> (limit: u64)
        requires
            self.wf(),
        ensures
            limit == (match timeout_ms {
                Some(t) => t,
                None => self@.config.lock_timeout_ms,
            }),
    {
        match timeout_ms {
            Some(t) => t,
            None => self.config.lock_timeout_ms,
        }
    }

    /// Asks for the lock on a key.
    pub fn lock_key(&mut self, txn_id: u64, key: &[u8], mode: LockMode) -> (attempt: Result<
        LockAttempt,
        LockError,
    >)
        requires
            old(self).wf(),
        ensures
            final(self).wf(),
            old(self)@.key_locked(txn_id, key@, mode, final(self)@, step_of(attempt)),
            attempt matches Ok(LockAttempt::Granted(guard)) ==> guard.is_for(txn_id, key@, mode),
    {
        match self.lock_table.lock_key(txn_id, key, mode) {
            KeyStep::Granted => Ok(
                LockAttempt::Granted(LockGuard { txn_id, key: codec::copy_bytes(key), mode }),
            ),
            KeyStep::Wait(waiting) => Ok(LockAttempt::Wait(waiting)),
            KeyStep::Failed(e) => Err(e),
        }
    }

    /// Goes on with a request that waits. Nothing is returned while it has to wait on.
    pub fn resume_lock_key(&mut self, waiting: &Waiting, event: WaitEvent) -> (result: Result<
        Option<LockGuard>,
        LockError,
    >)
        requires
            old(self).wf(),
        ensures
            final(self).wf(),
            old(self)@.resumed(
                *waiting,
                event,
                final(self)@,
                match result {
                    Ok(Some(_)) => LockStep::Granted,
                    Ok(None) => LockStep::Wait,
                    Err(e) => LockStep::Failed(e),
                },
            ),
            result matches Ok(Some(guard)) ==> guard.is_for(
                waiting.txn_id,
                waiting.key@,
                waiting.mode,
            ),
    {
        match self.lock_table.resume_lock_key(waiting, event) {
            LockStep::Granted => Ok(
                Some(
                    LockGuard {
                        txn_id: waiting.txn_id,
                        key: codec::copy_bytes(waiting.key.as_slice()),
                        mode: waiting.mode,
                    },
                ),
            ),
            LockStep::Wait => Ok(None),
            LockStep::Failed(e) => Err(e),
        }
    }

    /// Asks for a lock on a range of keys, which is granted or refused at once.
    pub fn lock_range(&mut self, txn_id: u64, start: Bound, end: Bound, mode: LockMode) -> (result:
        Result<RangeLockGuard, LockError>)
        requires
            old(self).wf(),
        ensures
            final(self).wf(),
            old(self)@.range_locked(
                txn_id,
                start@,
                end@,
                mode,
                final(self)@,
                match result {
                    Ok(_) => Ok(()),
                    Err(e) => Err(e),
                },
            ),
            result matches Ok(guard) ==> guard.txn_id == txn_id && guard.start@ == start@
                && guard.end@ == end@ && guard.mode == mode,
    {
        let guard = RangeLockGuard { txn_id, start: start.copy(), end: end.copy(), mode };
        match self.lock_table.lock_range(txn_id, start, end, mode) {
            Ok(()) => Ok(guard),
            Err(e) => Err(e),
        }
    }

    /// Raises the lock that a transaction holds on a key to an exclusive one.
    pub fn upgrade_lock(&mut self, txn_id: u64, key: &[u8], event: WaitEvent) -> (step: LockStep)
        requires
            old(self).wf(),
        ensures
            final(self).wf(),
            (final(self)@, step) == old(self)@.lock_upgraded(txn_id, key@, event),
    {
        self.lock_table.upgrade_lock(txn_id, key, event)
    }

    /// Gives up every lock of a transaction and forgets it. Those who wait for one of the
    /// keys that are returned are to be woken.
    pub fn release_all(&mut self, txn_id: u64) -> (freed: Vec<Vec<u8>>)
        requires
            old(self).wf(),
        ensures
            final(self).wf(),
            final(self)@ == old(self)@.released(txn_id),
            forall|key: Seq<u8>| #[trigger]
                lock_table::lists(freed@, key) <==> old(self)@.entry(key).holders.contains_key(
                    txn_id,
                ),
    {
        self.lock_table.release_all(txn_id)
    }

    /// Whether the lock on a key in this mode would be refused or have to be waited for.
    pub fn check_conflict(&self, txn_id: u64, key: &[u8], mode: LockMode) -> (conflict: bool)
        requires
            self.wf(),
        ensures
            conflict == self@.conflicts(txn_id, key@, mode),
    {
        self.lock_table.check_conflict(txn_id, key, mode)
    }

    /// Whether a range lock stands in the way of the lock on a key.
    pub fn check_range_conflict(&self, txn_id: u64, key: &[u8], mode: LockMode) -> (conflict: bool)
        requires
            self.wf(),
        ensures
            conflict == self@.range_conflicts(txn_id, key@, mode),
    {
        self.lock_table.check_range_conflict(txn_id, key, mode)
    }

    pub fn config(&self) -> (config: &LockConfig)
        requires
            self.wf(),
        ensures
            *config == self@.config,
    {
        &self.config
    }

    /// A transaction that has to be aborted so that a deadlock is broken, if there is one.
    pub fn detect_deadlock(&self) -> (victims: Option<Vec<u64>>)
        requires
            self.wf(),
        ensures
            match victims {
                None => forall|a: u64| !#[trigger] deadlock::deadlocked(self@.graph.edges, a),
                Some(list) => {
                    &&& list@.len() == 1
                    &&& deadlock::deadlocked(self@.graph.edges, list@[0])
                    &&& deadlock::is_victim(self@.graph.edges, self@.graph.info, list@[0])
                },
            },
    {
        self.lock_table.detect_deadlock()
    }
}

} // verus!
