use crabstash::common::Bound;
use crabstash::lock::lock_entry::{LockStep, WaitEvent};
use crabstash::lock::lock_table::{KeyStep, Waiting};
use crabstash::lock::{
    EscalationConfig, LockAttempt, LockConfig, LockEntry, LockError, LockManager, LockMode,
    LockRequest, LockTable,
};

fn bound(key: &str) -> Bound {
    Bound::Included(key.as_bytes().to_vec())
}

fn waiting(step: KeyStep) -> Waiting {
    match step {
        KeyStep::Wait(waiting) => waiting,
        _ => panic!("the request should wait"),
    }
}

#[test]
fn test_single_shared_lock() {
    let mut entry = LockEntry::new(b"key1".to_vec());
    assert!(entry.try_acquire(1, LockMode::S));
    assert!(entry.is_held_by(1));
    assert_eq!(entry.get_mode(1), Some(LockMode::S));
}

#[test]
fn test_multiple_shared_locks() {
    let mut entry = LockEntry::new(b"key1".to_vec());
    assert!(entry.try_acquire(1, LockMode::S));
    assert!(entry.try_acquire(2, LockMode::S));
    assert!(entry.try_acquire(3, LockMode::S));
    assert_eq!(entry.holder_count(), 3);
}

#[test]
fn lock_entry_test_exclusive_blocks_shared() {
    let mut entry = LockEntry::new(b"key1".to_vec());
    assert!(entry.try_acquire(1, LockMode::X));
    assert!(!entry.try_acquire(2, LockMode::S));
    assert!(!entry.try_acquire(3, LockMode::X));
}

#[test]
fn test_shared_blocks_exclusive() {
    let mut entry = LockEntry::new(b"key1".to_vec());
    assert!(entry.try_acquire(1, LockMode::S));
    assert!(!entry.try_acquire(2, LockMode::X));
}

#[test]
fn test_release_notifies_waiters() {
    let mut entry = LockEntry::new(b"key1".to_vec());
    assert!(entry.try_acquire(1, LockMode::X));
    assert!(entry.release(1));
    assert!(entry.try_acquire(2, LockMode::X));
}

#[test]
fn test_reentrant_lock() {
    let mut entry = LockEntry::new(b"key1".to_vec());
    assert!(entry.try_acquire(1, LockMode::S));
    assert!(entry.try_acquire(1, LockMode::S));
    assert_eq!(entry.holder_count(), 1);
}

#[test]
fn waiters_queue_and_are_granted_in_turn() {
    let mut entry = LockEntry::new(b"key1".to_vec());
    assert_eq!(entry.key(), b"key1");
    assert_eq!(entry.acquire(1, LockMode::X, WaitEvent::Arrive), LockStep::Granted);
    assert_eq!(entry.acquire(2, LockMode::X, WaitEvent::Arrive), LockStep::Wait);
    assert_eq!(entry.acquire(3, LockMode::S, WaitEvent::Arrive), LockStep::Wait);
    assert_eq!(entry.get_waiters(), vec![2, 3]);
    assert_eq!(entry.acquire(2, LockMode::X, WaitEvent::Wake), LockStep::Wait);
    assert!(entry.release(1));
    assert!(!entry.release(1));
    assert_eq!(entry.acquire(2, LockMode::X, WaitEvent::Wake), LockStep::Granted);
    assert_eq!(entry.get_waiters(), vec![3]);
    assert_eq!(
        entry.acquire(3, LockMode::S, WaitEvent::TimeOut),
        LockStep::Failed(LockError::Timeout)
    );
    assert_eq!(entry.waiter_count(), 0);
    assert_eq!(entry.get_holders(), vec![(2, LockMode::X)]);
}

#[test]
fn upgrades_go_to_the_front_of_the_queue() {
    let mut entry = LockEntry::new(b"key1".to_vec());
    assert_eq!(
        entry.upgrade(1, LockMode::X, WaitEvent::Arrive),
        LockStep::Failed(LockError::NotHeld)
    );
    assert!(entry.try_acquire(1, LockMode::S));
    assert!(entry.try_acquire(2, LockMode::S));
    assert_eq!(entry.acquire(3, LockMode::X, WaitEvent::Arrive), LockStep::Wait);
    assert_eq!(entry.upgrade(1, LockMode::X, WaitEvent::Arrive), LockStep::Wait);
    assert_eq!(entry.get_waiters(), vec![1, 3]);
    assert!(entry.release(2));
    assert_eq!(entry.upgrade(1, LockMode::X, WaitEvent::Wake), LockStep::Granted);
    assert_eq!(entry.get_mode(1), Some(LockMode::X));
    assert_eq!(entry.upgrade(1, LockMode::X, WaitEvent::Arrive), LockStep::Granted);
    assert_eq!(
        entry.upgrade(1, LockMode::S, WaitEvent::Arrive),
        LockStep::Failed(LockError::InvalidUpgrade)
    );
}

#[test]
fn a_weaker_request_keeps_the_stronger_lock() {
    let mut entry = LockEntry::new(b"key1".to_vec());
    assert!(entry.try_acquire(1, LockMode::X));
    assert!(entry.try_acquire(1, LockMode::S));
    assert_eq!(entry.get_mode(1), Some(LockMode::X));
}

#[test]
fn requests_are_granted_once() {
    let mut request = LockRequest::new(4, LockMode::SIX, true);
    assert!(!request.is_granted());
    assert!(request.is_upgrade);
    assert_eq!(request.txn_id, 4);
    request.grant();
    assert!(request.is_granted());
    assert!(request.elapsed() <= request.elapsed());
}

#[test]
fn test_basic_lock_unlock() {
    let mut table = LockTable::new(LockConfig::default());
    table.register_txn(1, 100, 0);

    assert!(matches!(table.lock_key(1, b"key1", LockMode::X), KeyStep::Granted));
    assert!(table.check_conflict(2, b"key1", LockMode::S));

    table.release_all(1);
    assert!(!table.check_conflict(2, b"key1", LockMode::S));
}

#[test]
fn test_shared_locks_compatible() {
    let mut table = LockTable::new(LockConfig::default());
    table.register_txn(1, 100, 0);
    table.register_txn(2, 200, 0);

    assert!(matches!(table.lock_key(1, b"key1", LockMode::S), KeyStep::Granted));
    assert!(matches!(table.lock_key(2, b"key1", LockMode::S), KeyStep::Granted));
}

#[test]
fn lock_table_test_exclusive_blocks_shared() {
    let mut table = LockTable::new(LockConfig::default());
    table.register_txn(1, 100, 0);
    table.register_txn(2, 200, 0);

    assert!(matches!(table.lock_key(1, b"key1", LockMode::X), KeyStep::Granted));

    let request = waiting(table.lock_key(2, b"key1", LockMode::S));
    let result = table.resume_lock_key(&request, WaitEvent::TimeOut);
    assert_eq!(result, LockStep::Failed(LockError::Timeout));
}

#[test]
fn test_range_lock() {
    let mut table = LockTable::new(LockConfig::default());
    table.register_txn(1, 100, 0);

    table
        .lock_range(1, bound("a"), Bound::Excluded(b"z".to_vec()), LockMode::S)
        .unwrap();

    assert!(table.check_range_conflict(2, b"m", LockMode::X));
    assert!(!table.check_range_conflict(1, b"m", LockMode::X));
}

#[test]
fn interleaved_locking_of_disjoint_keys() {
    let mut table = LockTable::new(LockConfig::default());
    table.register_txn(1, 100, 0);
    table.register_txn(2, 200, 0);
    for i in 0..100 {
        let first = format!("key{}", i);
        let second = format!("key{}", i + 100);
        assert!(matches!(table.lock_key(1, first.as_bytes(), LockMode::S), KeyStep::Granted));
        assert!(matches!(table.lock_key(2, second.as_bytes(), LockMode::S), KeyStep::Granted));
    }
    assert_eq!(table.key_lock_count(), 200);
    assert_eq!(table.release_all(1).len(), 100);
    assert_eq!(table.release_all(2).len(), 100);
    assert_eq!(table.release_all(2).len(), 0);
}

#[test]
fn waiters_get_the_lock_once_it_is_released() {
    let mut table = LockTable::new(LockConfig::default());
    table.register_txn(1, 100, 0);
    table.register_txn(2, 200, 0);
    assert!(matches!(table.lock_key(1, b"key1", LockMode::X), KeyStep::Granted));
    let request = waiting(table.lock_key(2, b"key1", LockMode::X));
    assert_eq!(request.holders, vec![1]);
    assert_eq!(table.resume_lock_key(&request, WaitEvent::Wake), LockStep::Wait);
    assert_eq!(table.release_all(1), vec![b"key1".to_vec()]);
    assert_eq!(table.resume_lock_key(&request, WaitEvent::Wake), LockStep::Granted);
    assert!(table.check_conflict(1, b"key1", LockMode::IS));
}

#[test]
fn waiting_for_each_other_is_found() {
    let mut table = LockTable::new(LockConfig::default());
    table.register_txn(1, 100, 0);
    table.register_txn(2, 200, 0);
    assert!(matches!(table.lock_key(1, b"a", LockMode::X), KeyStep::Granted));
    assert!(matches!(table.lock_key(2, b"b", LockMode::X), KeyStep::Granted));
    let first = waiting(table.lock_key(1, b"b", LockMode::X));
    assert!(table.detect_deadlock().is_none());
    let _second = waiting(table.lock_key(2, b"a", LockMode::X));
    assert_eq!(table.detect_deadlock(), Some(vec![2]));
    table.release_all(2);
    assert!(table.detect_deadlock().is_none());
    assert_eq!(table.resume_lock_key(&first, WaitEvent::Wake), LockStep::Granted);
}

#[test]
fn locked_keys_and_ranges_stand_in_each_others_way() {
    let mut table = LockTable::new(LockConfig::default());
    assert!(matches!(table.lock_key(1, b"m", LockMode::X), KeyStep::Granted));
    assert_eq!(
        table.lock_range(2, bound("a"), bound("z"), LockMode::S),
        Err(LockError::RangeConflict)
    );
    assert_eq!(table.lock_range(2, bound("n"), bound("z"), LockMode::X), Ok(()));
    assert!(matches!(
        table.lock_key(1, b"o", LockMode::S),
        KeyStep::Failed(LockError::RangeConflict)
    ));
    assert_eq!(
        table.lock_range(1, bound("a"), Bound::Unbounded, LockMode::S),
        Err(LockError::RangeConflict)
    );
    assert_eq!(table.lock_range(1, bound("a"), bound("m"), LockMode::X), Ok(()));
    assert_eq!(table.range_lock_count(), 2);
    table.release_all(2);
    assert_eq!(table.range_lock_count(), 1);
    assert!(matches!(table.lock_key(1, b"o", LockMode::S), KeyStep::Granted));
}

#[test]
fn range_locks_can_be_disabled() {
    let config = LockConfig { enable_range_locks: false, ..LockConfig::default() };
    let mut table = LockTable::new(config);
    assert_eq!(
        table.lock_range(1, bound("a"), bound("z"), LockMode::S),
        Err(LockError::RangeLocksDisabled)
    );
    assert!(!table.check_range_conflict(2, b"m", LockMode::X));
}

#[test]
fn many_locks_become_a_range_lock() {
    let config = LockConfig {
        escalation: EscalationConfig {
            warning_threshold: 1,
            auto_escalate_threshold: 3,
            emergency_threshold: 100,
        },
        ..LockConfig::default()
    };
    let mut table = LockTable::new(config);
    table.register_txn(1, 100, 0);
    for key in ["d", "b"] {
        assert!(matches!(table.lock_key(1, key.as_bytes(), LockMode::S), KeyStep::Granted));
    }
    assert_eq!(table.range_lock_count(), 0);
    assert!(matches!(table.lock_key(1, b"f", LockMode::S), KeyStep::Granted));
    assert_eq!(table.range_lock_count(), 1);
    assert!(table.check_range_conflict(2, b"c", LockMode::IS));
    assert!(table.check_range_conflict(2, b"b", LockMode::IS));
    assert!(!table.check_range_conflict(2, b"a", LockMode::IS));
    assert!(!table.check_range_conflict(2, b"g", LockMode::IS));
    assert!(matches!(table.lock_key(1, b"h", LockMode::S), KeyStep::Granted));
    assert_eq!(table.range_lock_count(), 1);
}

#[test]
fn only_held_locks_are_upgraded() {
    let mut table = LockTable::new(LockConfig::default());
    assert_eq!(
        table.upgrade_lock(1, b"key1", WaitEvent::Arrive),
        LockStep::Failed(LockError::NotHeld)
    );
    assert!(matches!(table.lock_key(1, b"key1", LockMode::S), KeyStep::Granted));
    assert!(matches!(table.lock_key(2, b"key1", LockMode::S), KeyStep::Granted));
    assert_eq!(table.upgrade_lock(1, b"key1", WaitEvent::Arrive), LockStep::Wait);
    table.release_all(2);
    assert_eq!(table.upgrade_lock(1, b"key1", WaitEvent::Wake), LockStep::Granted);
    assert!(table.check_conflict(2, b"key1", LockMode::IS));
}

#[test]
fn forgotten_transactions_keep_their_locks() {
    let mut table = LockTable::new(LockConfig::default());
    table.register_txn(1, 100, 0);
    assert!(matches!(table.lock_key(1, b"key1", LockMode::X), KeyStep::Granted));
    table.unregister_txn(1);
    assert!(table.check_conflict(2, b"key1", LockMode::S));
    assert_eq!(table.config().lock_timeout_ms, 10_000);
}

#[test]
fn test_lock_manager_basic() {
    let mut manager = LockManager::with_default_config();
    manager.register_txn(1, 100);

    let guard = match manager.lock_key(1, b"key1", LockMode::X).unwrap() {
        LockAttempt::Granted(guard) => guard,
        LockAttempt::Wait(_) => panic!("the lock is free"),
    };
    assert_eq!(guard.txn_id, 1);
    assert_eq!(guard.mode, LockMode::X);

    assert!(manager.check_conflict(2, b"key1", LockMode::S));

    manager.release_all(1);
    assert!(!manager.check_conflict(2, b"key1", LockMode::S));
}

#[test]
fn test_lock_manager_range() {
    let mut manager = LockManager::with_default_config();
    manager.register_txn(1, 100);

    let guard = manager
        .lock_range(1, bound("a"), Bound::Excluded(b"z".to_vec()), LockMode::S)
        .ok()
        .unwrap();

    assert_eq!(guard.txn_id, 1);
    assert!(manager.check_range_conflict(2, b"m", LockMode::X));

    manager.release_all(1);
    assert!(!manager.check_range_conflict(2, b"m", LockMode::X));
}

#[test]
fn test_multiple_transactions() {
    let mut manager = LockManager::with_default_config();
    manager.register_txn(1, 100);
    manager.register_txn(2, 200);

    assert!(matches!(manager.lock_key(1, b"key1", LockMode::S), Ok(LockAttempt::Granted(_))));
    assert!(matches!(manager.lock_key(2, b"key1", LockMode::S), Ok(LockAttempt::Granted(_))));

    assert!(matches!(manager.lock_key(1, b"key2", LockMode::X), Ok(LockAttempt::Granted(_))));

    let request = match manager.lock_key(2, b"key2", LockMode::S) {
        Ok(LockAttempt::Wait(request)) => request,
        _ => panic!("the lock is held"),
    };
    let result = manager.resume_lock_key(&request, WaitEvent::TimeOut);
    assert!(matches!(result, Err(LockError::Timeout)));

    manager.release_all(1);
    assert!(matches!(manager.lock_key(2, b"key2", LockMode::X), Ok(LockAttempt::Granted(_))));
}

#[test]
fn manager_waits_as_long_as_it_is_told() {
    let config = LockConfig { lock_timeout_ms: 77, ..LockConfig::default() };
    let mut manager = LockManager::new(config);
    assert_eq!(manager.wait_limit(None), 77);
    assert_eq!(manager.wait_limit(Some(5)), 5);
    assert_eq!(manager.config().deadlock_check_interval_ms, 10);
    manager.register_txn_with_priority(1, 100, 9);
    manager.register_txn_with_priority(2, 100, 1);
    assert!(matches!(manager.lock_key(1, b"k", LockMode::S), Ok(LockAttempt::Granted(_))));
    assert!(matches!(manager.lock_key(2, b"k", LockMode::S), Ok(LockAttempt::Granted(_))));
    assert_eq!(manager.upgrade_lock(1, b"k", WaitEvent::Arrive), LockStep::Wait);
    assert!(manager.detect_deadlock().is_none());
}

#[test]
fn lock_errors_have_texts() {
    let texts: Vec<String> = [
        LockError::Timeout,
        LockError::Deadlock,
        LockError::TransactionAborted,
        LockError::LockEscalationFailed,
        LockError::RangeConflict,
        LockError::RangeLocksDisabled,
        LockError::NotHeld,
        LockError::InvalidUpgrade,
    ]
    .iter()
    .map(|e| e.message())
    .collect();
    assert_eq!(
        texts,
        vec![
            "lock acquisition timed out",
            "deadlock detected",
            "transaction was aborted",
            "lock escalation failed",
            "range lock conflict",
            "range locks are disabled",
            "lock not held by transaction",
            "invalid lock upgrade path",
        ]
    );
}
