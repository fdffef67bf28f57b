//! The lock on one key: who holds it, and who waits for it.

use crate::common::listing::keys_of;
use crate::lock::lock_error::LockError;
use crate::lock::lock_mode;
use crate::lock::lock_mode::LockMode;
use std::collections::{HashMap, VecDeque};
use std::time::{Duration, Instant};
use vstd::prelude::*;

verus! {

broadcast use vstd::std_specs::hash::group_hash_axioms;

#[verifier::external_type_specification]
#[verifier::external_body]
pub struct ExInstant(std::time::Instant);

/// Calls `std::time::Instant::now`, of which nothing is claimed: the result is the time.
#[verifier::external_body]
fn current_instant() -> (now: Instant) {
    Instant::now()
}

/// Calls `std::time::Instant::elapsed`, of which nothing is claimed: the result depends on
/// the time.
#[verifier::external_body]
fn time_since(instant: &Instant) -> (elapsed: Duration) {
    instant.elapsed()
}

/// A transaction that waits for a lock.
pub struct LockRequest {
    pub txn_id: u64,
    pub mode: LockMode,
    pub granted: bool,
    pub enqueue_time: Instant,
    pub is_upgrade: bool,
}

/// A request as a mathematical value.
#[verifier::ext_equal]
pub struct RequestView {
    pub txn_id: u64,
    pub mode: LockMode,
    pub granted: bool,
    pub is_upgrade: bool,
}

impl View for LockRequest {
    type V = RequestView;

    open spec fn view(&self) -> RequestView {
        RequestView {
            txn_id: self.txn_id,
            mode: self.mode,
            granted: self.granted,
            is_upgrade: self.is_upgrade,
        }
    }
}

impl LockRequest {
    pub fn new(txn_id: u64, mode: LockMode, is_upgrade: bool) -> (request: Self)
        ensures
            request@ == (RequestView { txn_id, mode, granted: false, is_upgrade }),
    {
        LockRequest { txn_id, mode, granted: false, enqueue_time: current_instant(), is_upgrade }
    }

    pub fn is_granted(&self) -> (granted: bool)
        ensures
            granted == self@.granted,
    {
        self.granted
    }

    pub fn grant(&mut self)
        ensures
            final(self)@ == (RequestView { granted: true, ..old(self)@ }),
    {
        self.granted = true;
    }

    /// How long the request has been waiting.
    pub fn elapsed(&self) -> (waited: Duration) {
        time_since(&self.enqueue_time)
    }
}

/// What happened to a transaction that wants a lock.
#[derive(Debug, Clone, Copy, PartialEq, Eq, Structural)]
pub enum WaitEvent {
    /// It has asked for the lock.
    Arrive,
    /// A holder has released the lock.
    Wake,
    /// Its time is up.
    TimeOut,
}

/// What becomes of it.
#[derive(Debug, Clone, Copy, PartialEq, Eq, Structural)]
pub enum LockStep {
    /// It holds the lock.
    Granted,
    /// It has to wait until a holder releases the lock or its time is up.
    Wait,
    Failed(LockError),
}

/// A lock as a mathematical value.
#[verifier::ext_equal]
pub struct EntryView {
    pub key: Seq<u8>,
    pub holders: Map<u64, LockMode>,
    pub queue: Seq<RequestView>,
}

impl EntryView {
    /// Nobody else holds the lock in a mode that `mode` does not go with.
    pub open spec fn admits(self, txn_id: u64, mode: LockMode) -> bool {
        forall|id: u64| #[trigger]
            self.holders.contains_key(id) && id != txn_id ==> mode.compatible(self.holders[id])
    }

    /// The transaction already has the lock, and `mode` is not above the mode that it has.
    pub open spec fn suffices(self, txn_id: u64, mode: LockMode) -> bool {
        self.holders.contains_key(txn_id) && (self.holders[txn_id] == mode
            || !self.holders[txn_id].upgradable(mode))
    }

    /// The lock with one more holder, whose requests are settled.
    pub open spec fn granted(self, txn_id: u64, mode: LockMode) -> EntryView {
        EntryView { holders: self.holders.insert(txn_id, mode), ..self }
    }

    /// The lock without the requests of a transaction.
    pub open spec fn dequeued(self, txn_id: u64) -> EntryView {
        EntryView { queue: self.queue.filter(|r: RequestView| r.txn_id != txn_id), ..self }
    }

    /// Any two holders have modes that go together.
    pub open spec fn exclusive(self) -> bool {
        forall|a: u64, b: u64| #[trigger]
            self.holders.contains_key(a) && #[trigger] self.holders.contains_key(b) && a != b
                ==> self.holders[a].compatible(self.holders[b])
    }

    /// What an attempt to take the lock without waiting comes to.
    pub open spec fn tried(self, txn_id: u64, mode: LockMode) -> (EntryView, bool) {
        if self.suffices(txn_id, mode) {
            (self, true)
        } else if self.admits(txn_id, mode) {
            (self.granted(txn_id, mode), true)
        } else {
            (self, false)
        }
    }

    /// What becomes of a transaction that waits for the lock when the lock is released.
    pub open spec fn woken(self, txn_id: u64, mode: LockMode) -> (EntryView, LockStep) {
        if self.admits(txn_id, mode) {
            (self.granted(txn_id, mode).dequeued(txn_id), LockStep::Granted)
        } else {
            (self, LockStep::Wait)
        }
    }

    /// What taking the lock comes to, from event to event.
    pub open spec fn acquired(self, txn_id: u64, mode: LockMode, event: WaitEvent) -> (
        EntryView,
        LockStep,
    ) {
        match event {
            WaitEvent::Arrive => {
                let (after, done) = self.tried(txn_id, mode);
                if done {
                    (after, LockStep::Granted)
                } else {
                    (
                        EntryView {
                            queue: self.queue.push(
                                RequestView { txn_id, mode, granted: false, is_upgrade: false },
                            ),
                            ..self
                        },
                        LockStep::Wait,
                    )
                }
            },
            WaitEvent::Wake => self.woken(txn_id, mode),
            WaitEvent::TimeOut => (self.dequeued(txn_id), LockStep::Failed(LockError::Timeout)),
        }
    }

    /// What raising a lock that is held comes to, from event to event. Such requests go
    /// before the others.
    pub open spec fn upgraded(self, txn_id: u64, target: LockMode, event: WaitEvent) -> (
        EntryView,
        LockStep,
    ) {
        match event {
            WaitEvent::Arrive => {
                if !self.holders.contains_key(txn_id) {
                    (self, LockStep::Failed(LockError::NotHeld))
                } else if self.holders[txn_id] == target {
                    (self, LockStep::Granted)
                } else if !self.holders[txn_id].upgradable(target) {
                    (self, LockStep::Failed(LockError::InvalidUpgrade))
                } else {
                    (EntryView {
                        queue: seq![
                            RequestView { txn_id, mode: target, granted: false, is_upgrade: true },
                        ] + self.queue,
                        ..self
                    }).woken(txn_id, target)
                }
            },
            WaitEvent::Wake => self.woken(txn_id, target),
            WaitEvent::TimeOut => (self.dequeued(txn_id), LockStep::Failed(LockError::Timeout)),
        }
    }
}

/// Holders whose modes go together stay so, whatever happens to the lock.
pub proof fn lemma_locks_exclude(e: EntryView, txn_id: u64, mode: LockMode, event: WaitEvent)
    requires
        e.exclusive(),
    ensures
        e.tried(txn_id, mode).0.exclusive(),
        e.acquired(txn_id, mode, event).0.exclusive(),
        e.upgraded(txn_id, mode, event).0.exclusive(),
        (EntryView { holders: e.holders.remove(txn_id), ..e }).exclusive(),
{
    let after = e.granted(txn_id, mode);
    if e.admits(txn_id, mode) {
        assert forall|a: u64, b: u64| #[trigger]
            after.holders.contains_key(a) && #[trigger] after.holders.contains_key(b) && a
                != b implies after.holders[a].compatible(after.holders[b]) by {
            if a != txn_id {
                assert(e.holders.contains_key(a));
                lock_mode::lemma_compatible_symmetric(mode, e.holders[a]);
            }
            if b != txn_id {
                assert(e.holders.contains_key(b));
            }
        }
    }
}

/// A holder of an exclusive lock is the only holder.
pub proof fn lemma_exclusive_holder_is_alone(e: EntryView, txn_id: u64, other: u64)
    requires
        e.exclusive(),
        e.holders.contains_key(txn_id),
        e.holders[txn_id] == LockMode::X,
        e.holders.contains_key(other),
    ensures
        other == txn_id,
{
    if other != txn_id {
        lock_mode::lemma_exclusive_alone(e.holders[other]);
    }
}

pub open spec fn request_views(queue: Seq<LockRequest>) -> Seq<RequestView> {
    queue.map_values(|r: LockRequest| r@)
}

/// `list` names each holder once, with its mode.
pub open spec fn lists_holders(list: Seq<(u64, LockMode)>, holders: Map<u64, LockMode>) -> bool {
    &&& forall|i: int|
        0 <= i < list.len() ==> holders.contains_key((#[trigger] list[i]).0)
            && holders[list[i].0] == list[i].1
    &&& forall|i: int, j: int|
        0 <= i < j < list.len() ==> (#[trigger] list[i]).0 != (#[trigger] list[j]).0
    &&& forall|id: u64| #[trigger]
        holders.contains_key(id) ==> exists|i: int| 0 <= i < list.len() && (#[trigger] list[i]).0 == id
}

pub struct LockEntry {
    key: Vec<u8>,
    holders: HashMap<u64, LockMode>,
    wait_queue: VecDeque<LockRequest>,
}

impl View for LockEntry {
    type V = EntryView;

    closed spec fn view(&self) -> EntryView {
        EntryView {
            key: self.key@,
            holders: self.holders@,
            queue: request_views(self.wait_queue@),
        }
    }
}

impl LockEntry {
    pub fn new(key: Vec<u8>) -> (entry: Self)
        ensures
            entry@ == (EntryView { key: key@, holders: Map::empty(), queue: Seq::empty() }),
            entry@.exclusive(),
    {
        let entry = LockEntry { key, holders: HashMap::new(), wait_queue: VecDeque::new() };
        assert(entry@.queue =~= Seq::empty());
        entry
    }

    pub fn key(&self) -> (key: &[u8])
        ensures
            key@ == self@.key,
    {
        self.key.as_slice()
    }

    /// Takes the lock if nobody stands in the way.
    pub fn try_acquire(&mut self, txn_id: u64, mode: LockMode) -> (taken: bool)
        ensures
            (final(self)@, taken) == old(self)@.tried(txn_id, mode),
    {
        if let Some(held) = self.holders.get(&txn_id) {
            if *held == mode || !held.can_upgrade_to(&mode) {
                return true;
            }
        }
        if self.is_compatible_with_holders(txn_id, mode) {
            self.holders.insert(txn_id, mode);
            assert(self@ =~= old(self)@.granted(txn_id, mode));
            return true;
        }
        false
    }

    /// Takes the lock, waiting for it where it must.
    pub fn acquire(&mut self, txn_id: u64, mode: LockMode, event: WaitEvent) -> (step: LockStep)
        ensures
            (final(self)@, step) == old(self)@.acquired(txn_id, mode, event),
    {
        match event {
            WaitEvent::Arrive => {
                if self.try_acquire(txn_id, mode) {
                    return LockStep::Granted;
                }
                self.wait_queue.push_back(LockRequest::new(txn_id, mode, false));
                assert(self@.queue =~= old(self)@.acquired(txn_id, mode, event).0.queue);
                LockStep::Wait
            },
            WaitEvent::Wake => self.wake(txn_id, mode),
            WaitEvent::TimeOut => {
                self.remove_from_queue(txn_id);
                LockStep::Failed(LockError::Timeout)
            },
        }
    }

    /// Raises a lock that is held to a stronger mode, waiting where it must.
    pub fn upgrade(&mut self, txn_id: u64, target_mode: LockMode, event: WaitEvent) -> (step:
        LockStep)
        ensures
            (final(self)@, step) == old(self)@.upgraded(txn_id, target_mode, event),
    {
        match event {
            WaitEvent::Arrive => {
                match self.holders.get(&txn_id) {
                    Some(current) => {
                        if *current == target_mode {
                            return LockStep::Granted;
                        }
                        if !current.can_upgrade_to(&target_mode) {
                            return LockStep::Failed(LockError::InvalidUpgrade);
                        }
                    },
                    None => {
                        return LockStep::Failed(LockError::NotHeld);
                    },
                }
                self.wait_queue.push_front(LockRequest::new(txn_id, target_mode, true));
                assert(self@.queue =~= seq![
                    RequestView { txn_id, mode: target_mode, granted: false, is_upgrade: true },
                ] + old(self)@.queue);
                self.wake(txn_id, target_mode)
            },
            WaitEvent::Wake => self.wake(txn_id, target_mode),
            WaitEvent::TimeOut => {
                self.remove_from_queue(txn_id);
                LockStep::Failed(LockError::Timeout)
            },
        }
    }

    fn wake(&mut self, txn_id: u64, mode: LockMode) -> (step: LockStep)
        ensures
            (final(self)@, step) == old(self)@.woken(txn_id, mode),
    {
        if self.is_compatible_with_holders(txn_id, mode) {
            self.holders.insert(txn_id, mode);
            assert(self@ =~= old(self)@.granted(txn_id, mode));
            self.remove_from_queue(txn_id);
            LockStep::Granted
        } else {
            LockStep::Wait
        }
    }

    /// Gives the lock up; those who wait for it are to be woken if it was held.
    pub fn release(&mut self, txn_id: u64) -> (released: bool)
        ensures
            released == old(self)@.holders.contains_key(txn_id),
            final(self)@ == (EntryView {
                holders: old(self)@.holders.remove(txn_id),
                ..old(self)@
            }),
    {
        let released = self.holders.remove(&txn_id).is_some();
        assert(self@.holders =~= old(self)@.holders.remove(txn_id));
        released
    }

    pub fn is_held_by(&self, txn_id: u64) -> (held: bool)
        ensures
            held == self@.holders.contains_key(txn_id),
    {
        self.holders.contains_key(&txn_id)
    }

    pub fn get_mode(&self, txn_id: u64) -> (mode: Option<LockMode>)
        ensures
            mode == (if self@.holders.contains_key(txn_id) {
                Some(self@.holders[txn_id])
            } else {
                None
            }),
    {
        match self.holders.get(&txn_id) {
            Some(mode) => Some(*mode),
            None => None,
        }
    }

    pub fn holder_count(&self) -> (count: usize)
        ensures
            count == self@.holders.len(),
    {
        self.holders.len()
    }

    pub fn waiter_count(&self) -> (count: usize)
        ensures
            count == self@.queue.len(),
    {
        self.wait_queue.len()
    }

    /// The holders and their modes, in some order.
    pub fn get_holders(&self) -> (list: Vec<(u64, LockMode)>)
        ensures
            lists_holders(list@, self@.holders),
    {
        let ids = keys_of(&self.holders);
        let mut list: Vec<(u64, LockMode)> = Vec::new();
        let mut i: usize = 0;
        while i < ids.len()
            invariant
                i <= ids@.len(),
                ids@.no_duplicates(),
                forall|v: u64| ids@.contains(v) <==> self.holders@.contains_key(v),
                list@.len() == i,
                forall|k: int|
                    0 <= k < i ==> (#[trigger] list@[k]).0 == ids@[k] && list@[k].1
                        == self.holders@[ids@[k]],
            decreases ids@.len() - i,
        {
            let id: u64 = ids[i];
            assert(ids@.contains(id));
            if let Some(mode) = self.holders.get(&id) {
                list.push((id, *mode));
            }
            i += 1;
        }
        proof {
            assert forall|k: int| 0 <= k < list@.len() implies self.holders@.contains_key(
                (#[trigger] list@[k]).0,
            ) by {
                assert(ids@.contains(ids@[k]));
            }
            assert forall|id: u64| #[trigger] self.holders@.contains_key(id) implies exists|k: int|
                0 <= k < list@.len() && (#[trigger] list@[k]).0 == id by {
                assert(ids@.contains(id));
                let k = choose|k: int| 0 <= k < ids@.len() && ids@[k] == id;
                assert(list@[k].0 == id);
            }
        }
        list
    }

    /// The transactions that wait, in the order of the queue.
    pub fn get_waiters(&self) -> (ids: Vec<u64>)
        ensures
            ids@ == self@.queue.map_values(|r: RequestView| r.txn_id),
    {
        let mut ids: Vec<u64> = Vec::new();
        let mut i: usize = 0;
        while i < self.wait_queue.len()
            invariant
                i <= self.wait_queue@.len(),
                ids@.len() == i,
                forall|k: int| 0 <= k < i ==> ids@[k] == (#[trigger] self.wait_queue@[k]).txn_id,
            decreases self.wait_queue@.len() - i,
        {
            ids.push(self.wait_queue[i].txn_id);
            i += 1;
        }
        assert(ids@ =~= self@.queue.map_values(|r: RequestView| r.txn_id));
        ids
    }

    fn is_compatible_with_holders(&self, txn_id: u64, mode: LockMode) -> (result: bool)
        ensures
            result == self@.admits(txn_id, mode),
    {
        let list = self.get_holders();
        let mut i: usize = 0;
        while i < list.len()
            invariant
                i <= list@.len(),
                lists_holders(list@, self@.holders),
                forall|k: int|
                    0 <= k < i && (#[trigger] list@[k]).0 != txn_id ==> mode.compatible(list@[k].1),
            decreases list@.len() - i,
        {
            if list[i].0 != txn_id && !mode.is_compatible(&list[i].1) {
                assert(self@.holders.contains_key(list@[i as int].0));
                return false;
            }
            i += 1;
        }
        true
    }

    fn remove_from_queue(&mut self, txn_id: u64)
        ensures
            final(self)@ == old(self)@.dequeued(txn_id),
    {
        let mut queue: VecDeque<LockRequest> = VecDeque::new();
        std::mem::swap(&mut queue, &mut self.wait_queue);
        let ghost all = request_views(queue@);
        let ghost keep = |r: RequestView| r.txn_id != txn_id;
        let n: usize = queue.len();
        let mut i: usize = 0;
        let ghost start = queue@;
        assert(all.take(0) =~= Seq::empty());
        assert(request_views(self.wait_queue@) =~= all.take(0).filter(keep)) by {
            reveal(Seq::filter);
        }
        assert(start.skip(0) =~= start);
        while i < n
            invariant
                i <= n,
                n == start.len(),
                queue@ == start.skip(i as int),
                all == request_views(start),
                keep == |r: RequestView| r.txn_id != txn_id,
                request_views(self.wait_queue@) == all.take(i as int).filter(keep),
                self.holders@ == old(self).holders@,
                self.key@ == old(self).key@,
            decreases n - i,
        {
            proof {
                assert(all.take(i + 1).drop_last() =~= all.take(i as int));
                reveal(Seq::filter);
                assert(all[i as int] == start[i as int]@);
            }
            if let Some(request) = queue.pop_front() {
                let ghost before = request_views(self.wait_queue@);
                if request.txn_id != txn_id {
                    self.wait_queue.push_back(request);
                    assert(request_views(self.wait_queue@) =~= before.push(request@));
                }
            }
            assert(queue@ =~= start.skip(i + 1));
            i += 1;
        }
        assert(all.take(all.len() as int) =~= all);
    }
}

} // verus!
