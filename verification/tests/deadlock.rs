use crabstash::lock::{TxnInfo, WaitForGraph};

#[test]
fn test_no_deadlock() {
    let mut graph = WaitForGraph::new();
    graph.register_txn(1, 100, 0);
    graph.register_txn(2, 200, 0);
    graph.add_wait_edge(1, 2);

    assert!(graph.detect_deadlock().is_none());
}

#[test]
fn test_simple_deadlock() {
    let mut graph = WaitForGraph::new();
    graph.register_txn(1, 100, 0);
    graph.register_txn(2, 200, 0);
    graph.add_wait_edge(1, 2);
    graph.add_wait_edge(2, 1);

    let victims = graph.detect_deadlock();
    assert!(victims.is_some());
    let victims = victims.unwrap();
    assert_eq!(victims.len(), 1);
    assert!(victims.contains(&1) || victims.contains(&2));
}

#[test]
fn test_three_way_deadlock() {
    let mut graph = WaitForGraph::new();
    graph.register_txn(1, 100, 0);
    graph.register_txn(2, 200, 0);
    graph.register_txn(3, 300, 0);
    graph.add_wait_edge(1, 2);
    graph.add_wait_edge(2, 3);
    graph.add_wait_edge(3, 1);

    let victims = graph.detect_deadlock();
    assert!(victims.is_some());
}

#[test]
fn test_victim_selection_youngest() {
    let mut graph = WaitForGraph::new();
    graph.register_txn(1, 100, 0);
    graph.register_txn(2, 200, 0);
    graph.add_wait_edge(1, 2);
    graph.add_wait_edge(2, 1);

    let victims = graph.detect_deadlock().unwrap();
    assert_eq!(victims, vec![2]);
}

#[test]
fn test_unregister_breaks_cycle() {
    let mut graph = WaitForGraph::new();
    graph.register_txn(1, 100, 0);
    graph.register_txn(2, 200, 0);
    graph.add_wait_edge(1, 2);
    graph.add_wait_edge(2, 1);

    assert!(graph.detect_deadlock().is_some());

    graph.unregister_txn(1);
    assert!(graph.detect_deadlock().is_none());
}

#[test]
fn waiting_for_oneself_is_no_deadlock() {
    let mut graph = WaitForGraph::default();
    graph.add_wait_edge(1, 1);
    assert!(graph.detect_deadlock().is_none());
}

#[test]
fn less_important_transaction_is_the_victim() {
    let mut graph = WaitForGraph::new();
    graph.register_txn(1, 100, 7);
    graph.register_txn(2, 200, 3);
    graph.add_wait_edge(1, 2);
    graph.add_wait_edge(2, 1);
    assert_eq!(graph.detect_deadlock(), Some(vec![1]));
}

#[test]
fn fewer_locks_decide_between_equals() {
    let mut graph = WaitForGraph::new();
    graph.register_txn(1, 100, 0);
    graph.register_txn(2, 100, 0);
    graph.increment_lock_count(1);
    graph.increment_lock_count(1);
    graph.increment_lock_count(2);
    graph.add_wait_edge(1, 2);
    graph.add_wait_edge(2, 1);
    assert_eq!(graph.detect_deadlock(), Some(vec![2]));
    graph.decrement_lock_count(1);
    graph.decrement_lock_count(1);
    graph.decrement_lock_count(1);
    assert_eq!(graph.detect_deadlock(), Some(vec![1]));
}

#[test]
fn edges_that_are_taken_back_end_the_deadlock() {
    let mut graph = WaitForGraph::new();
    graph.add_wait_edge(1, 2);
    graph.add_wait_edge(2, 3);
    graph.add_wait_edge(3, 1);
    assert!(graph.detect_deadlock().is_some());
    graph.remove_wait_edge(2, 3);
    assert!(graph.detect_deadlock().is_none());
    graph.add_wait_edge(2, 3);
    graph.remove_all_waits(3);
    assert!(graph.detect_deadlock().is_none());
}

#[test]
fn deadlock_behind_a_long_queue_is_found() {
    let mut graph = WaitForGraph::new();
    for i in 0..200u64 {
        graph.add_wait_edge(i, i + 1);
    }
    assert!(graph.detect_deadlock().is_none());
    graph.register_txn(150, 1, 0);
    graph.add_wait_edge(200, 150);
    assert_eq!(graph.detect_deadlock(), Some(vec![150]));
}

#[test]
fn unknown_transactions_are_least_important() {
    let info = TxnInfo::default();
    assert_eq!(info.start_ts, 0);
    assert_eq!(info.lock_count, 0);
    assert_eq!(info.priority, u32::MAX);
}
