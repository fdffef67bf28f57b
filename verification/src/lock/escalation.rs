//! Escalation: a transaction with many key locks gets one range lock in their
//! place.

use crate::common::bound::{Bound, BoundView};
use crate::common::codec;
use crate::common::order;
use crate::common::simd::bytes_less;
use vstd::prelude::*;

verus! {

#[derive(Debug, Clone, Copy)]
pub struct EscalationConfig {
    pub warning_threshold: usize,
    pub auto_escalate_threshold: usize,
    pub emergency_threshold: usize,
}

impl Default for EscalationConfig {
    fn default() -> (config: Self)
        ensures
            config == (EscalationConfig {
                warning_threshold: 1000,
                auto_escalate_threshold: 5000,
                emergency_threshold: 10000,
            }),
    {
        EscalationConfig {
            warning_threshold: 1000,
            auto_escalate_threshold: 5000,
            emergency_threshold: 10000,
        }
    }
}

/// The key locks of one transaction.
pub struct EscalationState {
    pub key_lock_count: usize,
    locked_keys: Vec<Vec<u8>>,
    pub escalated: bool,
    warning_logged: bool,
}

/// The escalation state as a mathematical value.
#[verifier::ext_equal]
pub struct EscalationView {
    pub count: usize,
    pub keys: Seq<Seq<u8>>,
    pub escalated: bool,
    pub warned: bool,
}

impl View for EscalationState {
    type V = EscalationView;

    closed spec fn view(&self) -> EscalationView {
        EscalationView {
            count: self.key_lock_count,
            keys: self.locked_keys@.map_values(|k: Vec<u8>| k@),
            escalated: self.escalated,
            warned: self.warning_logged,
        }
    }
}

/// `key` is the least of `keys`.
pub open spec fn is_least(keys: Seq<Seq<u8>>, key: Seq<u8>) -> bool {
    keys.contains(key) && forall|i: int|
        0 <= i < keys.len() ==> order::at_most(key, #[trigger] keys[i])
}

/// `key` is the greatest of `keys`.
pub open spec fn is_greatest(keys: Seq<Seq<u8>>, key: Seq<u8>) -> bool {
    keys.contains(key) && forall|i: int|
        0 <= i < keys.len() ==> order::at_most(#[trigger] keys[i], key)
}

impl EscalationState {
    pub fn new() -> (state: Self)
        ensures
            state@.count == 0,
            state@.keys == Seq::<Seq<u8>>::empty(),
            !state@.escalated,
            !state@.warned,
    {
        let state = EscalationState {
            key_lock_count: 0,
            locked_keys: Vec::new(),
            escalated: false,
            warning_logged: false,
        };
        assert(state@.keys =~= Seq::<Seq<u8>>::empty());
        state
    }

    /// Notes one more key lock. The counter wraps around.
    pub fn record_key_lock(&mut self, key: Vec<u8>)
        ensures
            final(self)@.count == old(self)@.count.wrapping_add(1),
            final(self)@.keys == old(self)@.keys.push(key@),
            final(self)@.escalated == old(self)@.escalated,
            final(self)@.warned == old(self)@.warned,
    {
        self.key_lock_count = self.key_lock_count.wrapping_add(1);
        self.locked_keys.push(key);
        assert(self@.keys =~= old(self)@.keys.push(key@));
    }

    pub fn get_lock_count(&self) -> (count: usize)
        ensures
            count == self@.count,
    {
        self.key_lock_count
    }

    pub fn is_escalated(&self) -> (result: bool)
        ensures
            result == self@.escalated,
    {
        self.escalated
    }

    /// Marks the state as escalated, and says whether this was the first time.
    pub fn mark_escalated(&mut self) -> (first: bool)
        ensures
            first == !old(self)@.escalated,
            final(self)@ == (EscalationView { escalated: true, ..old(self)@ }),
    {
        let first: bool = !self.escalated;
        self.escalated = true;
        first
    }

    /// The least range that covers every key noted: nothing without keys, else from
    /// the least key to the greatest, both included.
    pub fn compute_bounding_range(&self) -> (range: Option<(Bound, Bound)>)
        ensures
            match range {
                None => self@.keys.len() == 0,
                Some((start, end)) => {
                    &&& self@.keys.len() > 0
                    &&& start@ matches BoundView::Included(s) && is_least(self@.keys, s)
                    &&& end@ matches BoundView::Included(e) && is_greatest(self@.keys, e)
                },
            },
    {
        if self.locked_keys.len() == 0 {
            return None;
        }
        let ghost keys = self@.keys;
        let mut min: usize = 0;
        let mut max: usize = 0;
        let mut i: usize = 1;
        proof {
            order::lemma_irreflexive(keys[0]);
        }
        while i < self.locked_keys.len()
            invariant
                keys == self@.keys,
                self.locked_keys@.len() == keys.len(),
                min < i,
                max < i,
                i <= keys.len(),
                forall|j: int| 0 <= j < keys.len() ==> self.locked_keys@[j]@ == #[trigger] keys[j],
                forall|j: int| 0 <= j < i ==> order::at_most(keys[min as int], #[trigger] keys[j]),
                forall|j: int| 0 <= j < i ==> order::at_most(#[trigger] keys[j], keys[max as int]),
            decreases keys.len() - i,
        {
            let ghost old_min = min;
            let ghost old_max = max;
            let ghost k = keys[i as int];
            if bytes_less(self.locked_keys[i].as_slice(), self.locked_keys[min].as_slice()) {
                min = i;
            }
            if bytes_less(self.locked_keys[max].as_slice(), self.locked_keys[i].as_slice()) {
                max = i;
            }
            proof {
                assert forall|j: int| 0 <= j <= i implies order::at_most(
                    keys[min as int],
                    #[trigger] keys[j],
                ) by {
                    order::lemma_order(k, keys[old_min as int], keys[j]);
                    order::lemma_order(keys[old_min as int], k, k);
                }
                assert forall|j: int| 0 <= j <= i implies order::at_most(
                    #[trigger] keys[j],
                    keys[max as int],
                ) by {
                    order::lemma_order(keys[j], keys[old_max as int], k);
                    order::lemma_order(k, keys[old_max as int], k);
                }
            }
            i += 1;
        }
        assert(keys[min as int] == self.locked_keys@[min as int]@);
        assert(keys[max as int] == self.locked_keys@[max as int]@);
        Some(
            (
                Bound::Included(codec::copy_bytes(self.locked_keys[min].as_slice())),
                Bound::Included(codec::copy_bytes(self.locked_keys[max].as_slice())),
            ),
        )
    }

    /// Back to the state of a transaction without locks.
    pub fn clear(&mut self)
        ensures
            final(self)@.count == 0,
            final(self)@.keys == Seq::<Seq<u8>>::empty(),
            !final(self)@.escalated,
            !final(self)@.warned,
    {
        self.key_lock_count = 0;
        self.locked_keys.clear();
        self.escalated = false;
        self.warning_logged = false;
        assert(self@.keys =~= Seq::<Seq<u8>>::empty());
    }
}

impl Default for EscalationState {
    fn default() -> (state: Self)
        ensures
            state@.count == 0,
            state@.keys == Seq::<Seq<u8>>::empty(),
            !state@.escalated,
            !state@.warned,
    {
        Self::new()
    }
}

#[derive(Debug, Clone, Copy, PartialEq, Eq, Structural)]
pub enum EscalationAction {
    NoAction,
    Warn,
    Escalate,
    ForceEscalate,
}

/// What a number of key locks calls for.
pub open spec fn action_for(count: usize, config: EscalationConfig) -> EscalationAction {
    if count >= config.emergency_threshold {
        EscalationAction::ForceEscalate
    } else if count >= config.auto_escalate_threshold {
        EscalationAction::Escalate
    } else if count >= config.warning_threshold {
        EscalationAction::Warn
    } else {
        EscalationAction::NoAction
    }
}

pub fn check_escalation(count: usize, config: &EscalationConfig) -> (action: EscalationAction)
    ensures
        action == action_for(count, *config),
{
    if count >= config.emergency_threshold {
        EscalationAction::ForceEscalate
    } else if count >= config.auto_escalate_threshold {
        EscalationAction::Escalate
    } else if count >= config.warning_threshold {
        EscalationAction::Warn
    } else {
        EscalationAction::NoAction
    }
}

/// An action escalates a state that has not been escalated yet.
pub open spec fn escalates(action: EscalationAction, state: EscalationView) -> bool {
    (action == EscalationAction::Escalate || action == EscalationAction::ForceEscalate)
        && !state.escalated
}

/// Carries an action out on the state, and says whether the key locks are now to be
/// replaced by a range lock. That is so once at most.
pub fn handle_escalation_action(action: EscalationAction, state: &mut EscalationState) -> (result:
    bool)
    ensures
        result == escalates(action, old(state)@),
        final(state)@ == (EscalationView {
            escalated: old(state)@.escalated || escalates(action, old(state)@),
            warned: old(state)@.warned || action == EscalationAction::Warn,
            ..old(state)@
        }),
{
    match action {
        EscalationAction::NoAction => false,
        EscalationAction::Warn => {
            state.warning_logged = true;
            false
        },
        EscalationAction::Escalate | EscalationAction::ForceEscalate => state.mark_escalated(),
    }
}

/// More locks never call for a milder action.
pub proof fn lemma_actions_grow(a: usize, b: usize, config: EscalationConfig)
    requires
        a <= b,
    ensures
        action_for(a, config) == EscalationAction::ForceEscalate ==> action_for(b, config)
            == EscalationAction::ForceEscalate,
        action_for(a, config) == EscalationAction::Escalate ==> action_for(b, config)
            == EscalationAction::Escalate || action_for(b, config)
            == EscalationAction::ForceEscalate,
        action_for(a, config) == EscalationAction::Warn ==> action_for(b, config)
            != EscalationAction::NoAction,
{
}

/// Every key noted lies in the bounding range.
pub proof fn lemma_bounding_range_covers(keys: Seq<Seq<u8>>, low: Seq<u8>, high: Seq<u8>, key: Seq<u8>)
    requires
        is_least(keys, low),
        is_greatest(keys, high),
        keys.contains(key),
    ensures
        crate::common::bound::in_range(
            key,
            BoundView::Included(low),
            BoundView::Included(high),
        ),
{
    let i = choose|i: int| 0 <= i < keys.len() && keys[i] == key;
    assert(order::at_most(low, keys[i]));
    assert(order::at_most(keys[i], high));
}

} // verus!
