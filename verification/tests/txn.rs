use crabstash::common::Error;
use crabstash::txn::{
    IsolationLevel, TimestampOracle, Transaction, TransactionManager, TransactionState, WriteSet,
};

#[test]
fn timestamps_hold_time_and_counter() {
    let mut oracle = TimestampOracle::new();
    let first = oracle.timestamp_at(1000);
    assert_eq!(first, 1000 << 18);
    let second = oracle.timestamp_at(1000);
    assert_eq!(second, 1000 << 18);
    let third = oracle.timestamp_at(999);
    assert_eq!(third, (1000 << 18) | 1);
    assert_eq!(TimestampOracle::physical(third), 1000);
    assert_eq!(TimestampOracle::logical(third), 1);
    assert_eq!(oracle.timestamp_at(1001), 1001 << 18);
}

#[test]
fn timestamps_never_fall() {
    let mut oracle = TimestampOracle::default();
    let mut last = 0;
    for i in 0..1000u64 {
        let ts = oracle.timestamp_at(500 + (i * 7919) % 13);
        assert!(ts >= last);
        last = ts;
    }
    let a = oracle.get_timestamp();
    let b = oracle.get_timestamp();
    assert!(a <= b);
    assert!(TimestampOracle::physical(a) > 1_600_000_000_000);
}

#[test]
fn isolation_levels() {
    let levels = [
        (IsolationLevel::Snapshot, false, false, false),
        (IsolationLevel::Serializable, true, false, false),
        (IsolationLevel::SerializableReadOnly, true, true, false),
        (IsolationLevel::SerializableDeferrable, true, true, true),
    ];
    for (level, serializable, read_only, deferrable) in levels {
        assert_eq!(level.is_serializable(), serializable);
        assert_eq!(level.is_read_only(), read_only);
        assert_eq!(level.is_deferrable(), deferrable);
    }
}

#[test]
fn write_sets_keep_the_last_write() {
    let mut writes = WriteSet::new();
    assert!(writes.get(b"a").is_none());
    writes.put(b"a".to_vec(), b"1".to_vec());
    writes.put(b"b".to_vec(), b"2".to_vec());
    writes.put(b"a".to_vec(), b"3".to_vec());
    assert_eq!(writes.get(b"a"), Some(Some(&b"3".to_vec())));
    writes.delete(b"a".to_vec());
    assert_eq!(writes.get(b"a"), Some(None));
    assert_eq!(writes.iter_puts(), vec![(b"b".as_slice(), b"2".as_slice())]);
    assert_eq!(writes.iter_deletes(), vec![b"a".as_slice()]);
    writes.put(b"a".to_vec(), b"4".to_vec());
    assert_eq!(writes.iter_deletes().len(), 0);
    assert_eq!(writes.iter_puts().len(), 2);
}

#[test]
fn only_validated_reads_are_kept() {
    for (level, kept) in [
        (IsolationLevel::Snapshot, 0),
        (IsolationLevel::Serializable, 2),
        (IsolationLevel::SerializableReadOnly, 0),
        (IsolationLevel::SerializableDeferrable, 0),
    ] {
        let mut txn = Transaction::new(1, 2, level);
        txn.record_read(b"a".to_vec());
        txn.record_read(b"b".to_vec());
        txn.record_read(b"a".to_vec());
        assert_eq!(txn.read_set().len(), kept);
    }
}

#[test]
fn managers_validate_and_commit() {
    let mut manager = TransactionManager::new();
    let mut writer = manager.begin(1, 10, IsolationLevel::Snapshot);
    let mut reader = manager.begin(2, 11, IsolationLevel::Serializable);
    let mut later = manager.begin(3, 30, IsolationLevel::Serializable);
    writer.write_set.delete(b"k".to_vec());
    reader.record_read(b"k".to_vec());
    later.record_read(b"k".to_vec());
    assert!(matches!(manager.commit(&mut writer), Err(Error::TransactionAborted)));
    manager.prepare_commit(&mut writer, 20).unwrap();
    assert_eq!(writer.commit_ts, Some(20));
    manager.commit(&mut writer).unwrap();
    assert_eq!(writer.state, TransactionState::Committed);
    assert!(matches!(manager.commit(&mut writer), Err(Error::TransactionAborted)));
    assert!(matches!(
        manager.prepare_commit(&mut reader, 25),
        Err(Error::TransactionConflict)
    ));
    assert_eq!(reader.commit_ts, None);
    manager.prepare_commit(&mut later, 40).unwrap();
    manager.abort(&mut later);
    assert_eq!(later.state, TransactionState::Aborted);
    manager.gc(19);
    assert!(manager.prepare_commit(&mut reader, 25).is_err());
    manager.gc(20);
    assert!(manager.prepare_commit(&mut reader, 25).is_ok());
    assert!(!manager.is_read_only_txn(&reader));
    let quiet = manager.begin(4, 50, IsolationLevel::SerializableReadOnly);
    assert!(manager.is_read_only_txn(&quiet));
}
