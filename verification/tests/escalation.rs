use crabstash::common::Bound;
use crabstash::lock::escalation::{check_escalation, handle_escalation_action};
use crabstash::lock::{EscalationAction, EscalationConfig, EscalationState};

#[test]
fn test_escalation_thresholds() {
    let config = EscalationConfig::default();

    assert_eq!(check_escalation(500, &config), EscalationAction::NoAction);
    assert_eq!(check_escalation(1000, &config), EscalationAction::Warn);
    assert_eq!(check_escalation(3000, &config), EscalationAction::Warn);
    assert_eq!(check_escalation(5000, &config), EscalationAction::Escalate);
    assert_eq!(check_escalation(10000, &config), EscalationAction::ForceEscalate);
}

#[test]
fn test_escalation_state() {
    let mut state = EscalationState::new();

    state.record_key_lock(b"key1".to_vec());
    state.record_key_lock(b"key2".to_vec());
    state.record_key_lock(b"key3".to_vec());

    assert_eq!(state.get_lock_count(), 3);
    assert!(!state.is_escalated());

    let range = state.compute_bounding_range();
    assert!(range.is_some());

    let (start, end) = range.unwrap();
    assert_eq!(start, Bound::Included(b"key1".to_vec()));
    assert_eq!(end, Bound::Included(b"key3".to_vec()));
}

#[test]
fn test_mark_escalated_once() {
    let mut state = EscalationState::new();

    assert!(state.mark_escalated());
    assert!(!state.mark_escalated());
    assert!(state.is_escalated());
}

#[test]
fn bounding_range_does_not_depend_on_the_order_of_locking() {
    let mut state = EscalationState::default();
    assert!(state.compute_bounding_range().is_none());
    for key in ["m", "zz", "a", "z", "b"] {
        state.record_key_lock(key.as_bytes().to_vec());
    }
    let (start, end) = state.compute_bounding_range().unwrap();
    assert_eq!(start, Bound::Included(b"a".to_vec()));
    assert_eq!(end, Bound::Included(b"zz".to_vec()));
    state.clear();
    assert_eq!(state.get_lock_count(), 0);
    assert!(state.compute_bounding_range().is_none());
}

#[test]
fn only_the_first_escalation_counts() {
    let mut state = EscalationState::new();
    assert!(!handle_escalation_action(EscalationAction::NoAction, &mut state));
    assert!(!handle_escalation_action(EscalationAction::Warn, &mut state));
    assert!(!state.is_escalated());
    assert!(handle_escalation_action(EscalationAction::Escalate, &mut state));
    assert!(state.is_escalated());
    assert!(!handle_escalation_action(EscalationAction::ForceEscalate, &mut state));
}

#[test]
fn thresholds_are_exact() {
    let config = EscalationConfig {
        warning_threshold: 2,
        auto_escalate_threshold: 4,
        emergency_threshold: 6,
    };
    let expected = [
        EscalationAction::NoAction,
        EscalationAction::NoAction,
        EscalationAction::Warn,
        EscalationAction::Warn,
        EscalationAction::Escalate,
        EscalationAction::Escalate,
        EscalationAction::ForceEscalate,
    ];
    for (count, action) in expected.iter().enumerate() {
        assert_eq!(check_escalation(count, &config), *action);
    }
}
