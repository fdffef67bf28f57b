//! The locks on keys and on ranges of keys, together.

use crate::common::bound;
use crate::common::bound::{Bound, BoundView};
use crate::common::codec;
use crate::lock::deadlock;
use crate::lock::deadlock::{Edges, GraphView, WaitForGraph};
use crate::lock::escalation;
use crate::lock::escalation::{
    check_escalation, handle_escalation_action, EscalationConfig, EscalationState, EscalationView,
};
use crate::lock::lock_entry;
use crate::lock::lock_entry::{EntryView, LockEntry, LockStep, WaitEvent};
use crate::lock::lock_error::LockError;
use crate::lock::lock_mode::LockMode;
use crate::lock::range_lock;
use crate::lock::range_lock::{IntervalTree, RangeLockEntry, RangeView};
use crate::lock::shared_maps;
use dashmap::DashMap;
use vstd::prelude::*;

verus! {

#[derive(Debug, Clone, Copy)]
pub struct LockConfig {
    pub lock_timeout_ms: u64,
    pub deadlock_check_interval_ms: u64,
    pub enable_range_locks: bool,
    pub escalation: EscalationConfig,
}

/// The configuration that is used where none is given.
pub open spec fn default_config() -> LockConfig {
    LockConfig {
        lock_timeout_ms: 10_000,
        deadlock_check_interval_ms: 10,
        enable_range_locks: true,
        escalation: EscalationConfig {
            warning_threshold: 1000,
            auto_escalate_threshold: 5000,
            emergency_threshold: 10000,
        },
    }
}

impl Default for LockConfig {
    fn default() -> (config: Self)
        ensures
            config == default_config(),
    {
        LockConfig {
            lock_timeout_ms: 10_000,
            deadlock_check_interval_ms: 10,
            enable_range_locks: true,
            escalation: EscalationConfig::default(),
        }
    }
}

/// A transaction that waits for the lock on a key.
pub struct Waiting {
    pub txn_id: u64,
    pub key: Vec<u8>,
    pub mode: LockMode,
    /// Who held the lock when it began to wait.
    pub holders: Vec<u64>,
}

/// What became of a request for the lock on a key.
pub enum KeyStep {
    Granted,
    Wait(Waiting),
    Failed(LockError),
}

/// The state of the lock table.
#[verifier::ext_equal]
pub struct LocksView {
    pub locks: Map<Seq<u8>, EntryView>,
    pub ranges: Seq<RangeView>,
    pub graph: GraphView,
    pub escalations: Map<u64, EscalationView>,
    pub config: LockConfig,
}

/// A range lock of another transaction that `mode` does not go with.
pub open spec fn opposes(r: RangeView, txn_id: u64, mode: LockMode) -> bool {
    r.txn_id != txn_id && !mode.compatible(r.mode)
}

/// A range lock between `start` and `end` opposes.
pub open spec fn range_conflict(
    ranges: Seq<RangeView>,
    start: BoundView,
    end: BoundView,
    txn_id: u64,
    mode: LockMode,
) -> bool {
    exists|i: int|
        0 <= i < ranges.len() && (#[trigger] ranges[i]).overlaps(start, end) && opposes(
            ranges[i],
            txn_id,
            mode,
        )
}

/// Somebody else holds a key between `start` and `end` in a mode that `mode` does not go
/// with.
pub open spec fn key_conflict(
    locks: Map<Seq<u8>, EntryView>,
    start: BoundView,
    end: BoundView,
    txn_id: u64,
    mode: LockMode,
) -> bool {
    exists|key: Seq<u8>| #[trigger]
        locks.contains_key(key) && bound::in_range(key, start, end) && !locks[key].admits(
            txn_id,
            mode,
        )
}

/// The waits of a transaction with one holder more.
pub open spec fn wait_added(edges: Edges, waiter: u64, holder: u64) -> Edges {
    if waiter == holder {
        edges
    } else {
        edges.insert(waiter, deadlock::waits_of(edges, waiter).insert(holder))
    }
}

pub open spec fn waits_added(edges: Edges, waiter: u64, holders: Seq<u64>) -> Edges
    decreases holders.len(),
{
    if holders.len() == 0 {
        edges
    } else {
        wait_added(waits_added(edges, waiter, holders.drop_last()), waiter, holders.last())
    }
}

/// The waits of a transaction with one holder less.
pub open spec fn wait_dropped(edges: Edges, waiter: u64, holder: u64) -> Edges {
    let rest = deadlock::waits_of(edges, waiter).remove(holder);
    if !edges.contains_key(waiter) {
        edges
    } else if rest.len() == 0 {
        edges.remove(waiter)
    } else {
        edges.insert(waiter, rest)
    }
}

pub open spec fn waits_dropped(edges: Edges, waiter: u64, holders: Seq<u64>) -> Edges
    decreases holders.len(),
{
    if holders.len() == 0 {
        edges
    } else {
        wait_dropped(waits_dropped(edges, waiter, holders.drop_last()), waiter, holders.last())
    }
}

/// The table of a store in which nobody has asked for a lock yet.
pub open spec fn unlocked(config: LockConfig) -> LocksView {
    LocksView {
        locks: Map::empty(),
        ranges: Seq::empty(),
        graph: GraphView { edges: Map::empty(), info: Map::empty() },
        escalations: Map::empty(),
        config,
    }
}

pub open spec fn all_exclusive(locks: Map<Seq<u8>, EntryView>) -> bool {
    forall|key: Seq<u8>| #[trigger]
        locks.contains_key(key) ==> locks[key].exclusive() && locks[key].key == key
}

impl LocksView {
    /// The table with one more transaction, which has no locks yet.
    pub open spec fn registered(self, txn_id: u64, start_ts: u64, priority: u32) -> LocksView {
        LocksView {
            graph: GraphView {
                info: self.graph.info.insert(
                    txn_id,
                    deadlock::TxnInfo { start_ts, lock_count: 0, priority },
                ),
                ..self.graph
            },
            escalations: self.escalations.insert(
                txn_id,
                EscalationView { count: 0, keys: Seq::empty(), escalated: false, warned: false },
            ),
            ..self
        }
    }

    /// The lock on a key, free if nobody has asked for it yet.
    pub open spec fn entry(self, key: Seq<u8>) -> EntryView {
        if self.locks.contains_key(key) {
            self.locks[key]
        } else {
            EntryView { key, holders: Map::empty(), queue: Seq::empty() }
        }
    }

    pub open spec fn with_entry(self, key: Seq<u8>, entry: EntryView) -> LocksView {
        LocksView { locks: self.locks.insert(key, entry), ..self }
    }

    pub open spec fn with_edges(self, edges: Edges) -> LocksView {
        LocksView { graph: GraphView { edges, ..self.graph }, ..self }
    }

    /// One more lock is counted for a transaction.
    pub open spec fn counted(self, txn_id: u64) -> LocksView {
        LocksView {
            graph: GraphView {
                info: deadlock::with_lock_count(
                    self.graph.info,
                    txn_id,
                    usize::wrapping_add(self.graph.info[txn_id].lock_count, 1) as int,
                ),
                ..self.graph
            },
            ..self
        }
    }

    /// What becomes of a request for a range lock.
    pub open spec fn range_locked(
        self,
        txn_id: u64,
        start: BoundView,
        end: BoundView,
        mode: LockMode,
        after: LocksView,
        result: Result<(), LockError>,
    ) -> bool {
        if !self.config.enable_range_locks {
            after == self && result == Err::<(), LockError>(LockError::RangeLocksDisabled)
        } else if range_conflict(self.ranges, start, end, txn_id, mode) || key_conflict(
            self.locks,
            start,
            end,
            txn_id,
            mode,
        ) {
            after == self && result == Err::<(), LockError>(LockError::RangeConflict)
        } else {
            &&& after == (LocksView {
                ranges: self.ranges.push(RangeView { txn_id, mode, start, end }),
                ..self
            })
            &&& result == Ok::<(), LockError>(())
        }
    }

    /// The escalation state of a transaction with one more key.
    pub open spec fn noted(self, txn_id: u64, key: Seq<u8>) -> EscalationView {
        let before = self.escalations[txn_id];
        EscalationView {
            count: usize::wrapping_add(before.count, 1),
            keys: before.keys.push(key),
            ..before
        }
    }

    /// The same after what the number of its locks calls for.
    pub open spec fn handled(self, txn_id: u64, key: Seq<u8>) -> EscalationView {
        let state = self.noted(txn_id, key);
        let action = escalation::action_for(state.count, self.config.escalation);
        EscalationView {
            escalated: state.escalated || escalation::escalates(action, state),
            warned: state.warned || action == escalation::EscalationAction::Warn,
            ..state
        }
    }

    /// The lock that was granted is the one too many.
    pub open spec fn escalates(self, txn_id: u64, key: Seq<u8>) -> bool {
        let state = self.noted(txn_id, key);
        escalation::escalates(
            escalation::action_for(state.count, self.config.escalation),
            state,
        )
    }

    /// What becomes of the table when a transaction has got the lock on a key: the lock is
    /// counted, and where that is one too many, a range lock over all its keys is tried.
    pub open spec fn recorded(self, txn_id: u64, key: Seq<u8>, after: LocksView) -> bool {
        if !self.escalations.contains_key(txn_id) {
            after == self.counted(txn_id)
        } else if self.escalates(txn_id, key) {
            exists|low: Seq<u8>, high: Seq<u8>, mid: LocksView, result: Result<(), LockError>|
                #[trigger] self.range_locked(
                    txn_id,
                    BoundView::Included(low),
                    BoundView::Included(high),
                    LockMode::X,
                    mid,
                    result,
                ) && escalation::is_least(self.noted(txn_id, key).keys, low)
                    && escalation::is_greatest(self.noted(txn_id, key).keys, high) && after == (
                LocksView {
                    escalations: self.escalations.insert(txn_id, self.handled(txn_id, key)),
                    ..mid
                }).counted(txn_id)
        } else {
            after == (LocksView {
                escalations: self.escalations.insert(txn_id, self.handled(txn_id, key)),
                ..self
            }).counted(txn_id)
        }
    }

    /// A request for the lock on a key may come to `after` and `step`.
    pub open spec fn key_locked(
        self,
        txn_id: u64,
        key: Seq<u8>,
        mode: LockMode,
        after: LocksView,
        step: KeyStep,
    ) -> bool {
        let (entry, taken) = self.entry(key).tried(txn_id, mode);
        match step {
            KeyStep::Failed(e) => {
                &&& e == LockError::RangeConflict
                &&& self.range_conflicts(txn_id, key, mode)
                &&& after == self
            },
            KeyStep::Granted => {
                &&& !self.range_conflicts(txn_id, key, mode)
                &&& taken
                &&& self.with_entry(key, entry).recorded(txn_id, key, after)
            },
            KeyStep::Wait(w) => {
                &&& !self.range_conflicts(txn_id, key, mode)
                &&& !taken
                &&& w.txn_id == txn_id && w.key@ == key && w.mode == mode
                &&& lists_ids(w.holders@, self.entry(key).holders)
                &&& after == self.with_entry(
                    key,
                    self.entry(key).acquired(txn_id, mode, WaitEvent::Arrive).0,
                ).with_edges(waits_added(self.graph.edges, txn_id, w.holders@))
            },
        }
    }

    /// What becomes of a transaction that waits for the lock on a key.
    pub open spec fn resumed(
        self,
        w: Waiting,
        event: WaitEvent,
        after: LocksView,
        step: LockStep,
    ) -> bool {
        let (entry, outcome) = self.entry(w.key@).acquired(w.txn_id, w.mode, event);
        let settled = self.with_entry(w.key@, entry).with_edges(
            waits_dropped(self.graph.edges, w.txn_id, w.holders@),
        );
        &&& step == outcome
        &&& match outcome {
            LockStep::Wait => after == self.with_entry(w.key@, entry),
            LockStep::Granted => settled.recorded(w.txn_id, w.key@, after),
            LockStep::Failed(_) => after == settled,
        }
    }

    /// What raising the lock on a key to an exclusive one comes to.
    pub open spec fn lock_upgraded(self, txn_id: u64, key: Seq<u8>, event: WaitEvent) -> (
        LocksView,
        LockStep,
    ) {
        if !self.locks.contains_key(key) {
            (self, LockStep::Failed(LockError::NotHeld))
        } else {
            let (entry, step) = self.locks[key].upgraded(txn_id, LockMode::X, event);
            (self.with_entry(key, entry), step)
        }
    }

    /// A range lock stands in the way of the lock on a key.
    pub open spec fn range_conflicts(self, txn_id: u64, key: Seq<u8>, mode: LockMode) -> bool {
        let point = BoundView::Included(key);
        self.config.enable_range_locks && range_conflict(self.ranges, point, point, txn_id, mode)
    }

    /// A lock stands in the way of the lock on a key.
    pub open spec fn conflicts(self, txn_id: u64, key: Seq<u8>, mode: LockMode) -> bool {
        !self.entry(key).admits(txn_id, mode) || self.range_conflicts(txn_id, key, mode)
    }

    /// The table without a transaction and its locks.
    pub open spec fn released(self, txn_id: u64) -> LocksView {
        LocksView {
            locks: self.locks.map_values(
                |e: EntryView| EntryView { holders: e.holders.remove(txn_id), ..e },
            ),
            ranges: self.ranges.filter(|r: RangeView| r.txn_id != txn_id),
            graph: GraphView {
                edges: deadlock::without(self.graph.edges.remove(txn_id), txn_id),
                info: self.graph.info.remove(txn_id),
            },
            escalations: self.escalations.remove(txn_id),
            ..self
        }
    }

    /// Every key's lock is held only in modes that go together.
    pub open spec fn exclusive(self) -> bool {
        all_exclusive(self.locks)
    }
}

/// `list` names the key.
pub open spec fn lists(list: Seq<Vec<u8>>, key: Seq<u8>) -> bool {
    exists|i: int| 0 <= i < list.len() && (#[trigger] list[i])@ == key
}

/// `ids` names each holder once.
pub open spec fn lists_ids(ids: Seq<u64>, holders: Map<u64, LockMode>) -> bool {
    &&& ids.no_duplicates()
    &&& forall|id: u64| ids.contains(id) <==> #[trigger] holders.contains_key(id)
}

pub struct LockTable {
    key_locks: DashMap<Vec<u8>, LockEntry>,
    range_locks: IntervalTree,
    waiter_graph: WaitForGraph,
    escalation_state: DashMap<u64, EscalationState>,
    config: LockConfig,
}

impl View for LockTable {
    type V = LocksView;

    closed spec fn view(&self) -> LocksView {
        LocksView {
            locks: shared_maps::key_locks(self.key_locks),
            ranges: self.range_locks@,
            graph: self.waiter_graph@,
            escalations: shared_maps::escalations(self.escalation_state),
            config: self.config,
        }
    }
}

impl LockTable {
    pub closed spec fn wf(&self) -> bool {
        &&& self.range_locks.wf()
        &&& self.waiter_graph.wf()
        &&& self@.exclusive()
    }

    /// In every state, each key's lock is held only in modes that go together.
    pub proof fn lemma_holders_go_together(&self)
        requires
            self.wf(),
        ensures
            self@.exclusive(),
    {
    }

    pub fn new(config: LockConfig) -> (table: Self)
        ensures
            table.wf(),
            table@ == unlocked(config),
    {
        LockTable {
            key_locks: shared_maps::new_lock_map(),
            range_locks: IntervalTree::new(),
            waiter_graph: WaitForGraph::new(),
            escalation_state: shared_maps::new_escalation_map(),
            config,
        }
    }

    pub fn register_txn(&mut self, txn_id: u64, start_ts: u64, priority: u32)
        requires
            old(self).wf(),
        ensures
            final(self).wf(),
            final(self)@ == old(self)@.registered(txn_id, start_ts, priority),
    {
        self.waiter_graph.register_txn(txn_id, start_ts, priority);
        shared_maps::put_escalation(&mut self.escalation_state, txn_id, EscalationState::new());
    }

    pub fn unregister_txn(&mut self, txn_id: u64)
        requires
            old(self).wf(),
        ensures
            final(self).wf(),
            final(self)@ == (LocksView {
                graph: GraphView {
                    edges: deadlock::without(old(self)@.graph.edges, txn_id),
                    info: old(self)@.graph.info.remove(txn_id),
                },
                escalations: old(self)@.escalations.remove(txn_id),
                ..old(self)@
            }),
    {
        self.waiter_graph.unregister_txn(txn_id);
        shared_maps::take_escalation(&mut self.escalation_state, txn_id);
    }

    /// Whether a range lock stands in the way between `start` and `end`.
    fn opposing_range(&self, start: &Bound, end: &Bound, txn_id: u64, mode: LockMode) -> (conflict:
        bool)
        requires
            self.wf(),
        ensures
            conflict == range_conflict(self@.ranges, start@, end@, txn_id, mode),
    {
        let found = self.range_locks.find_overlapping(start, end);
        let conflict = any_opposes(&found, txn_id, mode);
        proof {
            lemma_range_conflict(
                self@.ranges,
                self.range_locks.hits(start@, end@),
                found@,
                start@,
                end@,
                txn_id,
                mode,
                conflict,
            );
        }
        conflict
    }

    /// Whether a range lock stands in the way of the lock on a key.
    fn opposing_range_at(&self, key: &[u8], txn_id: u64, mode: LockMode) -> (conflict: bool)
        requires
            self.wf(),
        ensures
            conflict == range_conflict(
                self@.ranges,
                BoundView::Included(key@),
                BoundView::Included(key@),
                txn_id,
                mode,
            ),
    {
        let found = self.range_locks.find_containing_key(key);
        let conflict = any_opposes(&found, txn_id, mode);
        proof {
            let point = BoundView::Included(key@);
            lemma_range_conflict(
                self@.ranges,
                self.range_locks.hits(point, point),
                found@,
                point,
                point,
                txn_id,
                mode,
                conflict,
            );
        }
        conflict
    }

    /// Asks for the lock on a key. It is granted, refused because of a range lock, or has
    /// to be waited for.
    pub fn lock_key(&mut self, txn_id: u64, key: &[u8], mode: LockMode) -> (step: KeyStep)
        requires
            old(self).wf(),
        ensures
            final(self).wf(),
            old(self)@.key_locked(txn_id, key@, mode, final(self)@, step),
    {
        let ghost before = self@;
        if self.config.enable_range_locks {
            if self.opposing_range_at(key, txn_id, mode) {
                return KeyStep::Failed(LockError::RangeConflict);
            }
        }
        let mut entry = match shared_maps::take_lock(&mut self.key_locks, key) {
            Some(entry) => entry,
            None => LockEntry::new(codec::copy_bytes(key)),
        };
        assert(entry@ =~= before.entry(key@));
        let ghost start = entry@;
        proof {
            lock_entry::lemma_locks_exclude(start, txn_id, mode, WaitEvent::Arrive);
        }
        if entry.try_acquire(txn_id, mode) {
            let ghost now = entry@;
            shared_maps::put_lock(&mut self.key_locks, codec::copy_bytes(key), entry);
            proof {
                assert(self@.locks =~= before.locks.insert(key@, now));
                assert(self@ =~= before.with_entry(key@, now));
            }
            self.record_lock_acquired(txn_id, codec::copy_bytes(key));
            return KeyStep::Granted;
        }
        let list = entry.get_holders();
        let holders = first_of_pairs(&list);
        proof {
            lemma_ids_listed(list@, holders@, start.holders);
        }
        let step = entry.acquire(txn_id, mode, WaitEvent::Arrive);
        let ghost now = entry@;
        shared_maps::put_lock(&mut self.key_locks, codec::copy_bytes(key), entry);
        proof {
            assert(self@.locks =~= before.locks.insert(key@, now));
            assert(self@ =~= before.with_entry(key@, now));
        }
        let mut i: usize = 0;
        let ghost edges = before.graph.edges;
        assert(holders@.take(0) =~= Seq::empty());
        assert(self@ =~= before.with_entry(key@, now).with_edges(edges));
        while i < holders.len()
            invariant
                i <= holders@.len(),
                self.wf(),
                self@ == before.with_entry(key@, now).with_edges(
                    waits_added(edges, txn_id, holders@.take(i as int)),
                ),
            decreases holders@.len() - i,
        {
            let ghost locks = self@.locks;
            self.waiter_graph.add_wait_edge(txn_id, holders[i]);
            proof {
                assert(self@.locks == locks);
                assert(holders@.take(i + 1).drop_last() =~= holders@.take(i as int));
                assert(self@ =~= before.with_entry(key@, now).with_edges(
                    waits_added(edges, txn_id, holders@.take(i + 1)),
                ));
            }
            i += 1;
        }
        assert(holders@.take(holders@.len() as int) =~= holders@);
        KeyStep::Wait(Waiting { txn_id, key: codec::copy_bytes(key), mode, holders })
    }

    /// Goes on with a request that waits.
    pub fn resume_lock_key(&mut self, waiting: &Waiting, event: WaitEvent) -> (step: LockStep)
        requires
            old(self).wf(),
        ensures
            final(self).wf(),
            old(self)@.resumed(*waiting, event, final(self)@, step),
    {
        let ghost before = self@;
        let txn_id: u64 = waiting.txn_id;
        let key = waiting.key.as_slice();
        let mut entry = match shared_maps::take_lock(&mut self.key_locks, key) {
            Some(entry) => entry,
            None => LockEntry::new(codec::copy_bytes(key)),
        };
        assert(entry@ =~= before.entry(key@));
        proof {
            lock_entry::lemma_locks_exclude(entry@, txn_id, waiting.mode, event);
        }
        let step = entry.acquire(txn_id, waiting.mode, event);
        let ghost now = entry@;
        shared_maps::put_lock(&mut self.key_locks, codec::copy_bytes(key), entry);
        proof {
            assert(self@.locks =~= before.locks.insert(key@, now));
            assert(self@ =~= before.with_entry(key@, now));
        }
        if let LockStep::Wait = step {
            return step;
        }
        let holders = &waiting.holders;
        let mut i: usize = 0;
        let ghost edges = before.graph.edges;
        assert(holders@.take(0) =~= Seq::empty());
        assert(self@ =~= before.with_entry(key@, now).with_edges(edges));
        while i < holders.len()
            invariant
                i <= holders@.len(),
                self.wf(),
                self@ == before.with_entry(key@, now).with_edges(
                    waits_dropped(edges, txn_id, holders@.take(i as int)),
                ),
            decreases holders@.len() - i,
        {
            let ghost locks = self@.locks;
            self.waiter_graph.remove_wait_edge(txn_id, holders[i]);
            proof {
                assert(self@.locks == locks);
                assert(holders@.take(i + 1).drop_last() =~= holders@.take(i as int));
                assert(self@ =~= before.with_entry(key@, now).with_edges(
                    waits_dropped(edges, txn_id, holders@.take(i + 1)),
                ));
            }
            i += 1;
        }
        assert(holders@.take(holders@.len() as int) =~= holders@);
        if let LockStep::Granted = step {
            self.record_lock_acquired(txn_id, codec::copy_bytes(key));
        }
        step
    }

    /// Asks for a lock on a range of keys, which is granted or refused at once.
    pub fn lock_range(&mut self, txn_id: u64, start: Bound, end: Bound, mode: LockMode) -> (result:
        Result<(), LockError>)
        requires
            old(self).wf(),
        ensures
            final(self).wf(),
            old(self)@.range_locked(txn_id, start@, end@, mode, final(self)@, result),
    {
        if !self.config.enable_range_locks {
            return Err(LockError::RangeLocksDisabled);
        }
        let ghost before = self@;
        if self.opposing_range(&start, &end, txn_id, mode) {
            return Err(LockError::RangeConflict);
        }
        if self.opposing_key(&start, &end, txn_id, mode) {
            return Err(LockError::RangeConflict);
        }
        let ghost range = RangeView { txn_id, mode, start: start@, end: end@ };
        self.range_locks.insert(RangeLockEntry::new(txn_id, mode, start, end));
        proof {
            assert(self@ =~= LocksView { ranges: before.ranges.push(range), ..before });
        }
        Ok(())
    }

    /// Whether the lock on a key stands in the way between `start` and `end`.
    fn opposing_key(&self, start: &Bound, end: &Bound, txn_id: u64, mode: LockMode) -> (conflict:
        bool)
        ensures
            conflict == key_conflict(self@.locks, start@, end@, txn_id, mode),
    {
        let keys = shared_maps::locked_keys(&self.key_locks);
        let ghost locks = self@.locks;
        let mut i: usize = 0;
        while i < keys.len()
            invariant
                i <= keys@.len(),
                locks == self@.locks,
                shared_maps::lists_keys(keys@, locks),
                forall|k: int|
                    0 <= k < i && bound::in_range((#[trigger] keys@[k])@, start@, end@)
                        ==> locks[keys@[k]@].admits(txn_id, mode),
            decreases keys@.len() - i,
        {
            let key = keys[i].as_slice();
            assert(locks.contains_key(keys@[i as int]@));
            if bound::key_in_range(key, start, end) && self.key_opposes(key, txn_id, mode) {
                return true;
            }
            i += 1;
        }
        proof {
            assert forall|key: Seq<u8>| #[trigger]
                locks.contains_key(key) && bound::in_range(key, start@, end@) implies locks[key].admits(
                txn_id,
                mode,
            ) by {
                let k = choose|k: int| 0 <= k < keys@.len() && (#[trigger] keys@[k])@ == key;
                assert(bound::in_range(keys@[k]@, start@, end@));
            }
        }
        false
    }

    /// Whether somebody else holds the key in a mode that `mode` does not go with.
    fn key_opposes(&self, key: &[u8], txn_id: u64, mode: LockMode) -> (result: bool)
        ensures
            result == !self@.entry(key@).admits(txn_id, mode),
    {
        match shared_maps::lock_holders(&self.key_locks, key) {
            Some(list) => {
                let ghost holders = self@.locks[key@].holders;
                let mut i: usize = 0;
                while i < list.len()
                    invariant
                        i <= list@.len(),
                        self@.locks.contains_key(key@),
                        holders == self@.locks[key@].holders,
                        lock_entry::lists_holders(list@, holders),
                        forall|k: int|
                            0 <= k < i && (#[trigger] list@[k]).0 != txn_id ==> mode.compatible(
                                list@[k].1,
                            ),
                    decreases list@.len() - i,
                {
                    if list[i].0 != txn_id && !mode.is_compatible(&list[i].1) {
                        assert(holders.contains_key(list@[i as int].0));
                        return true;
                    }
                    i += 1;
                }
                false
            },
            None => false,
        }
    }

    /// Raises the lock that a transaction holds on a key to an exclusive one.
    pub fn upgrade_lock(&mut self, txn_id: u64, key: &[u8], event: WaitEvent) -> (step: LockStep)
        requires
            old(self).wf(),
        ensures
            final(self).wf(),
            (final(self)@, step) == old(self)@.lock_upgraded(txn_id, key@, event),
    {
        let ghost before = self@;
        match shared_maps::take_lock(&mut self.key_locks, key) {
            Some(taken) => {
                let mut entry = taken;
                proof {
                    assert(before.locks.contains_key(key@));
                    lock_entry::lemma_locks_exclude(entry@, txn_id, LockMode::X, event);
                }
                let step = entry.upgrade(txn_id, LockMode::X, event);
                let ghost now = entry@;
                shared_maps::put_lock(&mut self.key_locks, codec::copy_bytes(key), entry);
                proof {
                    assert(self@.locks =~= before.locks.insert(key@, now));
                    assert(self@ =~= before.with_entry(key@, now));
                }
                step
            },
            None => {
                proof {
                    assert(self@.locks =~= before.locks);
                    assert(self@ =~= before);
                }
                LockStep::Failed(LockError::NotHeld)
            },
        }
    }

    /// Gives up every lock of a transaction and forgets it. Those who wait for one of the
    /// keys that are returned are to be woken.
    pub fn release_all(&mut self, txn_id: u64) -> (freed: Vec<Vec<u8>>)
        requires
            old(self).wf(),
        ensures
            final(self).wf(),
            final(self)@ == old(self)@.released(txn_id),
            forall|key: Seq<u8>| #[trigger]
                lists(freed@, key) <==> old(self)@.entry(key).holders.contains_key(txn_id),
    {
        let ghost before = self@;
        let ghost lose = |e: EntryView| EntryView { holders: e.holders.remove(txn_id), ..e };
        let keys = shared_maps::locked_keys(&self.key_locks);
        let mut freed: Vec<Vec<u8>> = Vec::new();
        let mut i: usize = 0;
        while i < keys.len()
            invariant
                i <= keys@.len(),
                self.wf(),
                shared_maps::lists_keys(keys@, before.locks),
                lose == (|e: EntryView|
                    (EntryView { holders: e.holders.remove(txn_id), ..e })),
                self@ == (LocksView { locks: self@.locks, ..before }),
                self@.locks.dom() == before.locks.dom(),
                forall|k: int|
                    0 <= k < i ==> self@.locks[(#[trigger] keys@[k])@] == lose(
                        before.locks[keys@[k]@],
                    ),
                forall|k: int|
                    i <= k < keys@.len() ==> self@.locks[(#[trigger] keys@[k])@]
                        == before.locks[keys@[k]@],
                forall|key: Seq<u8>| #[trigger]
                    lists(freed@, key) <==> lists(keys@.take(i as int), key)
                        && before.locks[key].holders.contains_key(txn_id),
            decreases keys@.len() - i,
        {
            let key = keys[i].as_slice();
            let ghost here = key@;
            assert(before.locks.contains_key(keys@[i as int]@));
            let ghost prev = self@;
            let ghost freed_before = freed@;
            if let Some(taken) = shared_maps::take_lock(&mut self.key_locks, key) {
                let mut entry = taken;
                proof {
                    lock_entry::lemma_locks_exclude(entry@, txn_id, LockMode::X, WaitEvent::Wake);
                }
                let held = entry.release(txn_id);
                let ghost now = entry@;
                shared_maps::put_lock(&mut self.key_locks, codec::copy_bytes(key), entry);
                if held {
                    freed.push(codec::copy_bytes(key));
                }
                proof {
                    assert(now == lose(before.locks[here]));
                    assert(self@.locks =~= prev.locks.insert(here, now));
                    assert(self@.locks.dom() =~= before.locks.dom());
                    assert(self@ =~= LocksView { locks: self@.locks, ..before });
                    assert forall|key: Seq<u8>| #[trigger] lists(freed@, key) <==> lists(
                        keys@.take(i + 1),
                        key,
                    ) && before.locks[key].holders.contains_key(txn_id) by {
                        lemma_lists_push(keys@.take(i as int), keys@[i as int], key);
                        assert(keys@.take(i + 1) =~= keys@.take(i as int).push(keys@[i as int]));
                        assert(lists(freed_before, key) <==> lists(keys@.take(i as int), key)
                            && before.locks[key].holders.contains_key(txn_id));
                        if held {
                            lemma_lists_push(freed_before, freed@.last(), key);
                            assert(freed@ =~= freed_before.push(freed@.last()));
                        }
                    }
                }
            }
            i += 1;
        }
        proof {
            assert(keys@.take(keys@.len() as int) =~= keys@);
            assert forall|key: Seq<u8>| #[trigger] lists(freed@, key) <==> before.locks.contains_key(
                key,
            ) && before.locks[key].holders.contains_key(txn_id) by {
                if lists(keys@, key) {
                    let k = choose|k: int| 0 <= k < keys@.len() && (#[trigger] keys@[k])@ == key;
                    assert(before.locks.contains_key(keys@[k]@));
                }
            }
            assert(self@.locks =~= before.locks.map_values(lose)) by {
                assert forall|key: Seq<u8>| before.locks.contains_key(key) implies self@.locks[key]
                    == lose(before.locks[key]) by {
                    let k = choose|k: int| 0 <= k < keys@.len() && (#[trigger] keys@[k])@ == key;
                    assert(self@.locks[keys@[k]@] == lose(before.locks[keys@[k]@]));
                }
            }
        }
        self.range_locks.remove_by_txn(txn_id);
        self.waiter_graph.remove_all_waits(txn_id);
        self.unregister_txn(txn_id);
        assert(self@ =~= before.released(txn_id));
        freed
    }

    /// Whether the lock on a key in this mode would be refused or have to be waited for.
    pub fn check_conflict(&self, txn_id: u64, key: &[u8], mode: LockMode) -> (conflict: bool)
        requires
            self.wf(),
        ensures
            conflict == self@.conflicts(txn_id, key@, mode),
    {
        self.key_opposes(key, txn_id, mode) || self.check_range_conflict(txn_id, key, mode)
    }

    /// Whether a range lock stands in the way of the lock on a key.
    pub fn check_range_conflict(&self, txn_id: u64, key: &[u8], mode: LockMode) -> (conflict: bool)
        requires
            self.wf(),
        ensures
            conflict == self@.range_conflicts(txn_id, key@, mode),
    {
        if !self.config.enable_range_locks {
            return false;
        }
        self.opposing_range_at(key, txn_id, mode)
    }

    /// Counts a lock that was granted, and escalates where it is one too many.
    fn record_lock_acquired(&mut self, txn_id: u64, key: Vec<u8>)
        requires
            old(self).wf(),
        ensures
            final(self).wf(),
            old(self)@.recorded(txn_id, key@, final(self)@),
    {
        let ghost before = self@;
        if let Some(taken) = shared_maps::take_escalation(&mut self.escalation_state, txn_id) {
            let mut state = taken;
            let ghost k = key@;
            state.record_key_lock(key);
            assert(state@ =~= before.noted(txn_id, k));
            let count: usize = state.get_lock_count();
            let action = check_escalation(count, &self.config.escalation);
            let escalate = handle_escalation_action(action, &mut state);
            assert(state@ =~= before.handled(txn_id, k));
            let range = state.compute_bounding_range();
            shared_maps::put_escalation(&mut self.escalation_state, txn_id, state);
            let ghost mid = LocksView {
                escalations: before.escalations.insert(txn_id, before.handled(txn_id, k)),
                ..before
            };
            proof {
                assert(self@.escalations =~= mid.escalations);
                assert(self@ =~= mid);
            }
            if escalate {
                if let Some((start, end)) = range {
                    let ghost low = start@;
                    let ghost high = end@;
                    let result = self.lock_range(txn_id, start, end, LockMode::X);
                    proof {
                        let after = self@;
                        let plain = LocksView { escalations: before.escalations, ..after };
                        assert(before.range_locked(
                            txn_id,
                            BoundView::Included(low->Included_0),
                            BoundView::Included(high->Included_0),
                            LockMode::X,
                            plain,
                            result,
                        )) by {
                            lemma_escalations_aside(
                                before,
                                mid,
                                txn_id,
                                low,
                                high,
                                after,
                                result,
                            );
                        }
                        assert(after =~= LocksView { escalations: mid.escalations, ..plain });
                        self.lemma_recorded(before, txn_id, k, low, high, plain, result);
                    }
                } else {
                    assert(before.noted(txn_id, k).keys.len() > 0);
                }
            }
        } else {
            proof {
                assert(self@.escalations =~= before.escalations);
                assert(self@ =~= before);
            }
        }
        let ghost last = self@;
        self.waiter_graph.increment_lock_count(txn_id);
        assert(self@ =~= last.counted(txn_id));
    }

    proof fn lemma_recorded(
        &self,
        before: LocksView,
        txn_id: u64,
        key: Seq<u8>,
        low: BoundView,
        high: BoundView,
        plain: LocksView,
        result: Result<(), LockError>,
    )
        requires
            before.escalations.contains_key(txn_id),
            before.escalates(txn_id, key),
            low matches BoundView::Included(l) && escalation::is_least(
                before.noted(txn_id, key).keys,
                l,
            ),
            high matches BoundView::Included(h) && escalation::is_greatest(
                before.noted(txn_id, key).keys,
                h,
            ),
            before.range_locked(txn_id, low, high, LockMode::X, plain, result),
        ensures
            before.recorded(
                txn_id,
                key,
                (LocksView {
                    escalations: before.escalations.insert(txn_id, before.handled(txn_id, key)),
                    ..plain
                }).counted(txn_id),
            ),
    {
        assert(before.range_locked(
            txn_id,
            BoundView::Included(low->Included_0),
            BoundView::Included(high->Included_0),
            LockMode::X,
            plain,
            result,
        ));
    }

    /// The number of keys that a lock was ever asked for.
    pub fn key_lock_count(&self) -> (count: usize)
        ensures
            self@.locks.dom().finite(),
            count == self@.locks.len(),
    {
        shared_maps::lock_count(&self.key_locks)
    }

    pub fn range_lock_count(&self) -> (count: usize)
        ensures
            count == self@.ranges.len(),
    {
        self.range_locks.len()
    }

    pub fn config(&self) -> (config: LockConfig)
        ensures
            config == self@.config,
    {
        self.config
    }

    /// A transaction that has to be aborted so that a deadlock is broken, if there is one.
    pub fn detect_deadlock(&self) -> (victims: Option<Vec<u64>>)
        requires
            self.wf(),
        ensures
            match victims {
                None => forall|a: u64| !#[trigger] deadlock::deadlocked(self@.graph.edges, a),
                Some(list) => {
                    &&& list@.len() == 1
                    &&& deadlock::deadlocked(self@.graph.edges, list@[0])
                    &&& deadlock::is_victim(self@.graph.edges, self@.graph.info, list@[0])
                },
            },
    {
        self.waiter_graph.detect_deadlock()
    }
}

/// The escalation states play no part in a request for a range lock.
proof fn lemma_escalations_aside(
    before: LocksView,
    mid: LocksView,
    txn_id: u64,
    start: BoundView,
    end: BoundView,
    after: LocksView,
    result: Result<(), LockError>,
)
    requires
        mid == (LocksView { escalations: mid.escalations, ..before }),
        mid.range_locked(txn_id, start, end, LockMode::X, after, result),
    ensures
        before.range_locked(
            txn_id,
            start,
            end,
            LockMode::X,
            LocksView { escalations: before.escalations, ..after },
            result,
        ),
{
}

proof fn lemma_lists_push(list: Seq<Vec<u8>>, last: Vec<u8>, key: Seq<u8>)
    ensures
        lists(list.push(last), key) <==> lists(list, key) || last@ == key,
{
    let longer = list.push(last);
    assert(longer[list.len() as int] == last);
    if lists(longer, key) {
        let i = choose|i: int| 0 <= i < longer.len() && (#[trigger] longer[i])@ == key;
        if i < list.len() {
            assert(list[i]@ == key);
        }
    }
    if lists(list, key) {
        let i = choose|i: int| 0 <= i < list.len() && (#[trigger] list[i])@ == key;
        assert(longer[i]@ == key);
    }
}

/// Whether one of the range locks belongs to another transaction and `mode` does not go
/// with it.
fn any_opposes(found: &Vec<&RangeLockEntry>, txn_id: u64, mode: LockMode) -> (result: bool)
    ensures
        result == exists|i: int|
            0 <= i < found@.len() && opposes((#[trigger] found@[i])@, txn_id, mode),
{
    let mut i: usize = 0;
    while i < found.len()
        invariant
            i <= found@.len(),
            forall|k: int| 0 <= k < i ==> !opposes((#[trigger] found@[k])@, txn_id, mode),
        decreases found@.len() - i,
    {
        let entry = found[i];
        if entry.txn_id != txn_id && !mode.is_compatible(&entry.mode) {
            assert(opposes(found@[i as int]@, txn_id, mode));
            return true;
        }
        i += 1;
    }
    false
}

proof fn lemma_range_conflict(
    ranges: Seq<RangeView>,
    hits: Seq<int>,
    found: Seq<&RangeLockEntry>,
    start: BoundView,
    end: BoundView,
    txn_id: u64,
    mode: LockMode,
    conflict: bool,
)
    requires
        range_lock::lists_overlaps(ranges, hits, start, end),
        found.len() == hits.len(),
        forall|a: int| 0 <= a < found.len() ==> (#[trigger] found[a])@ == ranges[hits[a]],
        conflict == exists|i: int|
            0 <= i < found.len() && opposes((#[trigger] found[i])@, txn_id, mode),
    ensures
        conflict == range_conflict(ranges, start, end, txn_id, mode),
{
    if conflict {
        let i = choose|i: int| 0 <= i < found.len() && opposes((#[trigger] found[i])@, txn_id, mode);
        assert(ranges[hits[i]].overlaps(start, end));
    } else {
        assert forall|k: int|
            0 <= k < ranges.len() && (#[trigger] ranges[k]).overlaps(start, end) && opposes(
                ranges[k],
                txn_id,
                mode,
            ) implies false by {
            let a = choose|a: int| 0 <= a < hits.len() && hits[a] == k;
            assert(found[a]@ == ranges[k]);
        }
    }
}

fn first_of_pairs(list: &Vec<(u64, LockMode)>) -> (ids: Vec<u64>)
    ensures
        ids@ == list@.map_values(|p: (u64, LockMode)| p.0),
{
    let mut ids: Vec<u64> = Vec::new();
    let mut i: usize = 0;
    while i < list.len()
        invariant
            i <= list@.len(),
            ids@.len() == i,
            forall|k: int| 0 <= k < i ==> ids@[k] == (#[trigger] list@[k]).0,
        decreases list@.len() - i,
    {
        ids.push(list[i].0);
        i += 1;
    }
    assert(ids@ =~= list@.map_values(|p: (u64, LockMode)| p.0));
    ids
}

proof fn lemma_ids_listed(
    list: Seq<(u64, LockMode)>,
    ids: Seq<u64>,
    holders: Map<u64, LockMode>,
)
    requires
        lock_entry::lists_holders(list, holders),
        ids == list.map_values(|p: (u64, LockMode)| p.0),
    ensures
        lists_ids(ids, holders),
{
    assert forall|i: int, j: int| 0 <= i < ids.len() && 0 <= j < ids.len() && i != j implies ids[i]
        != ids[j] by {
        assert(ids[i] == list[i].0 && ids[j] == list[j].0);
        if i < j {
            assert(list[i].0 != list[j].0);
        } else {
            assert(list[j].0 != list[i].0);
        }
    }
    assert forall|id: u64| ids.contains(id) <==> #[trigger] holders.contains_key(id) by {
        if ids.contains(id) {
            let i = choose|i: int| 0 <= i < ids.len() && ids[i] == id;
            assert(list[i].0 == id);
        }
        if holders.contains_key(id) {
            let i = choose|i: int| 0 <= i < list.len() && (#[trigger] list[i]).0 == id;
            assert(ids[i] == id);
        }
    }
}

} // verus!
