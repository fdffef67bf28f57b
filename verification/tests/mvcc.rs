use crabstash::common::{Bound, Error};
use crabstash::lock::lock_entry::WaitEvent;
use crabstash::lock::{LockConfig, LockError, SSIConflict};
use crabstash::storage::lsm::{Effect, Lsm, LsmOptions};
use crabstash::storage::manifest::Manifest;
use crabstash::txn::mvcc::{lock_error_to_common, ssi_error_to_common, PendingWrite, WriteStep};
use crabstash::txn::{IsolationLevel, MvccEngine, Transaction};
use std::collections::HashMap;

fn engine_with(options: LsmOptions) -> MvccEngine {
    let (storage, _) =
        Lsm::open(Manifest::create(), HashMap::new(), HashMap::new(), options).unwrap();
    MvccEngine::new(storage)
}

fn create_test_engine() -> MvccEngine {
    engine_with(LsmOptions::default())
}

fn put(engine: &mut MvccEngine, txn: &mut Transaction, key: &str, value: &str) {
    let step = engine.put(txn, key.as_bytes().to_vec(), value.as_bytes().to_vec());
    assert!(matches!(step, Ok(WriteStep::Done)));
}

fn pending(step: Result<WriteStep, Error>) -> PendingWrite {
    match step {
        Ok(WriteStep::Wait(pending)) => pending,
        _ => panic!("the write should wait"),
    }
}

fn begin(engine: &mut MvccEngine, isolation: IsolationLevel) -> Transaction {
    engine.begin_with_isolation(isolation)
}

fn commit(engine: &mut MvccEngine, txn: &mut Transaction) -> Result<(), Error> {
    engine.commit(txn).result
}

#[test]
fn test_serializable_write_skew_detection() {
    let mut engine = create_test_engine();

    let mut setup_txn = begin(&mut engine, IsolationLevel::Snapshot);
    put(&mut engine, &mut setup_txn, "account_a", "100");
    put(&mut engine, &mut setup_txn, "account_b", "100");
    commit(&mut engine, &mut setup_txn).unwrap();

    let mut txn1 = begin(&mut engine, IsolationLevel::Serializable);
    let mut txn2 = begin(&mut engine, IsolationLevel::Serializable);

    engine.get(&mut txn1, b"account_a").unwrap();
    engine.get(&mut txn1, b"account_b").unwrap();
    engine.get(&mut txn2, b"account_a").unwrap();
    engine.get(&mut txn2, b"account_b").unwrap();

    put(&mut engine, &mut txn1, "account_a", "0");
    put(&mut engine, &mut txn2, "account_b", "0");

    commit(&mut engine, &mut txn1).unwrap();
    let result = commit(&mut engine, &mut txn2);

    assert!(result.is_err());
    let err = result.unwrap_err();
    assert!(err.message().contains("Write skew"));
}

#[test]
fn test_serializable_no_conflict_disjoint() {
    let mut engine = create_test_engine();

    let mut txn1 = begin(&mut engine, IsolationLevel::Serializable);
    let mut txn2 = begin(&mut engine, IsolationLevel::Serializable);

    put(&mut engine, &mut txn1, "key_a", "value_a");
    put(&mut engine, &mut txn2, "key_b", "value_b");

    commit(&mut engine, &mut txn1).unwrap();
    commit(&mut engine, &mut txn2).unwrap();
}

#[test]
fn test_serializable_sequential_commits() {
    let mut engine = create_test_engine();

    let mut txn1 = begin(&mut engine, IsolationLevel::Serializable);
    put(&mut engine, &mut txn1, "key", "value1");
    commit(&mut engine, &mut txn1).unwrap();

    let mut txn2 = begin(&mut engine, IsolationLevel::Serializable);
    engine.get(&mut txn2, b"key").unwrap();
    put(&mut engine, &mut txn2, "key", "value2");
    commit(&mut engine, &mut txn2).unwrap();
}

#[test]
fn test_snapshot_isolation_allows_write_skew() {
    let mut engine = create_test_engine();

    let mut setup_txn = begin(&mut engine, IsolationLevel::Snapshot);
    put(&mut engine, &mut setup_txn, "account_a", "100");
    put(&mut engine, &mut setup_txn, "account_b", "100");
    commit(&mut engine, &mut setup_txn).unwrap();

    let mut txn1 = begin(&mut engine, IsolationLevel::Snapshot);
    let mut txn2 = begin(&mut engine, IsolationLevel::Snapshot);

    engine.get(&mut txn1, b"account_a").unwrap();
    engine.get(&mut txn1, b"account_b").unwrap();
    engine.get(&mut txn2, b"account_a").unwrap();
    engine.get(&mut txn2, b"account_b").unwrap();

    put(&mut engine, &mut txn1, "account_a", "0");
    put(&mut engine, &mut txn2, "account_b", "0");

    commit(&mut engine, &mut txn1).unwrap();
    commit(&mut engine, &mut txn2).unwrap();
}

#[test]
fn test_abort_cleans_up_ssi_state() {
    let mut engine = create_test_engine();

    let mut txn1 = begin(&mut engine, IsolationLevel::Serializable);
    put(&mut engine, &mut txn1, "key", "value");
    engine.abort(&mut txn1);

    let mut txn2 = begin(&mut engine, IsolationLevel::Serializable);
    put(&mut engine, &mut txn2, "key", "value2");
    commit(&mut engine, &mut txn2).unwrap();
}

#[test]
fn own_writes_are_read_and_others_see_them_after_the_commit() {
    let mut engine = create_test_engine();
    let mut txn1 = engine.begin();
    let mut txn2 = engine.begin();
    put(&mut engine, &mut txn1, "k", "v");
    assert_eq!(engine.get(&mut txn1, b"k").unwrap(), Some(b"v".to_vec()));
    assert_eq!(engine.get(&mut txn2, b"k").unwrap(), None);
    assert!(matches!(engine.delete(&mut txn1, b"gone".to_vec()), Ok(WriteStep::Done)));
    assert_eq!(engine.get(&mut txn1, b"gone").unwrap(), None);
    let outcome = engine.commit(&mut txn1);
    assert!(outcome.result.is_ok());
    assert_eq!(outcome.effects.len(), 2);
    assert!(matches!(&outcome.effects[0], Effect::AppendLog { .. }));
    let mut freed = outcome.freed;
    freed.sort();
    assert_eq!(freed, vec![b"gone".to_vec(), b"k".to_vec()]);
    let mut txn3 = engine.begin();
    assert_eq!(engine.get(&mut txn3, b"k").unwrap(), Some(b"v".to_vec()));
}

#[test]
fn snapshots_do_not_change() {
    for memtable_size in [1, 1 << 20] {
        let mut engine = engine_with(LsmOptions { memtable_size, ..LsmOptions::default() });
        let mut setup = engine.begin();
        put(&mut engine, &mut setup, "k", "before");
        assert!(engine.commit(&mut setup).result.is_ok());
        let mut reader = engine.begin();
        assert_eq!(engine.get(&mut reader, b"k").unwrap(), Some(b"before".to_vec()));
        let mut writer = engine.begin();
        put(&mut engine, &mut writer, "k", "after");
        put(&mut engine, &mut writer, "fresh", "x");
        assert!(engine.commit(&mut writer).result.is_ok());
        let mut eraser = engine.begin();
        assert!(matches!(engine.delete(&mut eraser, b"k".to_vec()), Ok(WriteStep::Done)));
        assert_eq!(engine.get(&mut eraser, b"fresh").unwrap(), Some(b"x".to_vec()));
        assert!(engine.commit(&mut eraser).result.is_ok());
        assert_eq!(engine.get(&mut reader, b"k").unwrap(), Some(b"before".to_vec()));
        assert_eq!(engine.get(&mut reader, b"fresh").unwrap(), None);
        let mut late = engine.begin();
        assert_eq!(engine.get(&mut late, b"k").unwrap(), None);
        assert_eq!(engine.get(&mut late, b"fresh").unwrap(), Some(b"x".to_vec()));
    }
}

#[test]
fn snapshots_do_not_change_when_tables_are_written() {
    let mut engine = engine_with(LsmOptions { memtable_size: 1, ..LsmOptions::default() });
    let mut first = begin(&mut engine, IsolationLevel::Snapshot);
    put(&mut engine, &mut first, "a", "old");
    put(&mut engine, &mut first, "b", "kept");
    commit(&mut engine, &mut first).unwrap();
    let mut reader = begin(&mut engine, IsolationLevel::Snapshot);
    assert_eq!(engine.get(&mut reader, b"a").unwrap(), Some(b"old".to_vec()));
    let mut writer = begin(&mut engine, IsolationLevel::Snapshot);
    put(&mut engine, &mut writer, "a", "new");
    let outcome = engine.commit(&mut writer);
    outcome.result.unwrap();
    assert!(outcome.effects.iter().any(|e| matches!(e, Effect::WriteTable { .. })));
    assert_eq!(engine.get(&mut reader, b"a").unwrap(), Some(b"old".to_vec()));
    assert_eq!(engine.get(&mut reader, b"b").unwrap(), Some(b"kept".to_vec()));
    let mut later = begin(&mut engine, IsolationLevel::Snapshot);
    assert_eq!(engine.get(&mut later, b"a").unwrap(), Some(b"new".to_vec()));
}

#[test]
fn writers_wait_for_each_other() {
    let mut engine = create_test_engine();
    let mut txn1 = engine.begin();
    let mut txn2 = engine.begin();
    put(&mut engine, &mut txn1, "k", "one");
    let write = pending(engine.put(&mut txn2, b"k".to_vec(), b"two".to_vec()));
    let write = pending(engine.resume_write(&mut txn2, write, WaitEvent::Wake));
    let outcome = engine.commit(&mut txn1);
    assert_eq!(outcome.freed, vec![b"k".to_vec()]);
    assert!(matches!(
        engine.resume_write(&mut txn2, write, WaitEvent::Wake),
        Ok(WriteStep::Done)
    ));
    assert!(engine.commit(&mut txn2).result.is_ok());
    let mut txn3 = engine.begin();
    assert_eq!(engine.get(&mut txn3, b"k").unwrap(), Some(b"two".to_vec()));
}

#[test]
fn a_write_that_waits_too_long_fails() {
    let mut engine = create_test_engine();
    let mut txn1 = engine.begin();
    let mut txn2 = engine.begin();
    put(&mut engine, &mut txn1, "k", "one");
    let write = pending(engine.delete(&mut txn2, b"k".to_vec()));
    assert!(matches!(
        engine.resume_write(&mut txn2, write, WaitEvent::TimeOut),
        Err(Error::LockTimeout)
    ));
    assert_eq!(engine.get(&mut txn2, b"k").unwrap(), None);
    assert_eq!(engine.locks().wait_limit(None), 10_000);
}

#[test]
fn aborted_writes_leave_no_trace() {
    let mut engine = create_test_engine();
    let mut txn1 = engine.begin();
    put(&mut engine, &mut txn1, "k", "v");
    assert_eq!(engine.abort(&mut txn1), vec![b"k".to_vec()]);
    assert!(!txn1.is_active());
    let mut txn2 = engine.begin();
    assert_eq!(engine.get(&mut txn2, b"k").unwrap(), None);
    assert_eq!(engine.storage().current_ts(), 1);
    assert!(matches!(engine.commit(&mut txn1).result, Err(Error::TransactionAborted)));
}

#[test]
fn reads_that_were_overwritten_are_refused_at_commit() {
    let mut engine = create_test_engine();
    let mut reader = begin(&mut engine, IsolationLevel::Serializable);
    let mut writer = begin(&mut engine, IsolationLevel::Snapshot);
    engine.get(&mut reader, b"k").unwrap();
    put(&mut engine, &mut writer, "k", "v");
    commit(&mut engine, &mut writer).unwrap();
    put(&mut engine, &mut reader, "other", "x");
    assert!(matches!(commit(&mut engine, &mut reader), Err(Error::TransactionConflict)));
}

#[test]
fn scans_see_what_is_committed() {
    let mut engine = MvccEngine::with_lock_config(
        Lsm::open(Manifest::create(), HashMap::new(), HashMap::new(), LsmOptions::default())
            .unwrap()
            .0,
        LockConfig::default(),
    );
    let mut txn = engine.begin();
    for key in ["b", "a", "c"] {
        put(&mut engine, &mut txn, key, key);
    }
    engine.commit(&mut txn);
    let mut iter = engine.scan().unwrap();
    let mut keys: Vec<Vec<u8>> = Vec::new();
    while iter.is_valid() {
        keys.push(iter.key().unwrap().to_vec());
        iter.advance().unwrap();
    }
    assert_eq!(keys, vec![b"a".to_vec(), b"b".to_vec(), b"c".to_vec()]);
    let iter = engine.scan_range(Bound::Included(b"b".to_vec()), Bound::Unbounded).unwrap();
    assert_eq!(iter.key(), Some(b"b".as_slice()));
    assert!(matches!(engine.sync(), Effect::SyncLog));
}

#[test]
fn lock_errors_become_errors_of_the_store() {
    let cases = [
        (LockError::Timeout, Error::LockTimeout),
        (LockError::Deadlock, Error::Deadlock),
        (LockError::TransactionAborted, Error::TransactionAborted),
        (LockError::LockEscalationFailed, Error::LockConflict),
        (LockError::RangeConflict, Error::LockConflict),
        (LockError::RangeLocksDisabled, Error::LockConflict),
        (LockError::NotHeld, Error::LockConflict),
        (LockError::InvalidUpgrade, Error::LockConflict),
    ];
    for (err, expected) in cases {
        assert_eq!(lock_error_to_common(err), expected);
    }
}

#[test]
fn conflicts_become_errors_of_the_store() {
    assert_eq!(
        ssi_error_to_common(SSIConflict::WriteSkew { conflicting_ts: 1 }),
        Error::WriteSkew
    );
    assert_eq!(
        ssi_error_to_common(SSIConflict::Phantom { conflicting_ts: 1 }),
        Error::PhantomRead
    );
    assert_eq!(ssi_error_to_common(SSIConflict::TxnNotFound), Error::TransactionAborted);
}
