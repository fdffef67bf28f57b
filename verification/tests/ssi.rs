use crabstash::common::Bound;
use crabstash::lock::{ReadWriteSet, SSIConflict, SSIManager};

#[test]
fn test_read_write_set_basic() {
    let mut rw_set = ReadWriteSet::new();
    rw_set.record_read(b"key1");
    rw_set.record_write(b"key2");

    assert_eq!(rw_set.read_set().len(), 1);
    assert_eq!(rw_set.write_set().len(), 1);
}

#[test]
fn test_read_write_overlap() {
    let mut rw_set1 = ReadWriteSet::new();
    rw_set1.record_read(b"key1");
    rw_set1.record_read(b"key2");

    let mut rw_set2 = ReadWriteSet::new();
    rw_set2.record_write(b"key2");
    rw_set2.record_write(b"key3");

    assert!(rw_set1.has_read_write_overlap(rw_set2.write_set()));
}

#[test]
fn test_no_overlap() {
    let mut rw_set1 = ReadWriteSet::new();
    rw_set1.record_read(b"key1");

    let mut rw_set2 = ReadWriteSet::new();
    rw_set2.record_write(b"key2");

    assert!(!rw_set1.has_read_write_overlap(rw_set2.write_set()));
}

#[test]
fn test_ssi_manager_basic() {
    let mut ssi = SSIManager::new();

    ssi.begin_txn(1);
    ssi.record_read(1, b"key1");
    ssi.record_write(1, b"key2");

    let result = ssi.validate_and_commit(1, 0, 10);
    assert!(result.is_ok());
}

#[test]
fn test_ssi_write_skew_detection() {
    let mut ssi = SSIManager::new();

    ssi.begin_txn(1);
    ssi.record_read(1, b"account_a");
    ssi.record_read(1, b"account_b");

    ssi.begin_txn(2);
    ssi.record_read(2, b"account_a");
    ssi.record_read(2, b"account_b");

    ssi.record_write(1, b"account_a");
    ssi.record_write(2, b"account_b");

    let result1 = ssi.validate_and_commit(1, 0, 10);
    assert!(result1.is_ok());

    let result2 = ssi.validate_and_commit(2, 0, 20);
    assert!(matches!(result2, Err(SSIConflict::WriteSkew { .. })));
}

#[test]
fn test_ssi_no_conflict_sequential() {
    let mut ssi = SSIManager::new();

    ssi.begin_txn(1);
    ssi.record_read(1, b"key1");
    ssi.record_write(1, b"key1");
    ssi.validate_and_commit(1, 0, 10).unwrap();

    ssi.begin_txn(2);
    ssi.record_read(2, b"key1");
    ssi.record_write(2, b"key1");
    let result = ssi.validate_and_commit(2, 10, 20);
    assert!(result.is_ok());
}

#[test]
fn test_range_read_tracking() {
    let mut rw_set = ReadWriteSet::new();
    rw_set.record_range_read(Bound::Included(b"a".to_vec()), Bound::Excluded(b"z".to_vec()));

    assert!(rw_set.has_range_overlap(b"m"));
    assert!(!rw_set.has_range_overlap(b"z"));
}

#[test]
fn test_watermark_advancement() {
    let mut ssi = SSIManager::new();

    ssi.begin_txn(1);
    ssi.record_write(1, b"key1");
    ssi.validate_and_commit(1, 0, 10).unwrap();

    ssi.begin_txn(2);
    ssi.record_write(2, b"key2");
    ssi.validate_and_commit(2, 10, 20).unwrap();

    assert_eq!(ssi.committed_count(), 2);

    ssi.advance_watermark(15);
    assert_eq!(ssi.committed_count(), 1);
}

#[test]
fn hashes_are_those_of_the_hash_function() {
    let mut set = ReadWriteSet::default();
    set.record_read(b"key1");
    set.record_write(b"key2");
    assert!(set.read_set().contains(&rapidhash::rapidhash(b"key1")));
    assert!(set.write_set().contains(&rapidhash::rapidhash(b"key2")));
}

#[test]
fn ranges_that_were_read_conflict_with_any_write() {
    let mut ssi = SSIManager::default();
    ssi.begin_txn(1);
    ssi.begin_txn(2);
    ssi.record_range_read(1, Bound::Included(b"a".to_vec()), Bound::Included(b"b".to_vec()));
    ssi.record_write(2, b"zzz");
    ssi.validate_and_commit(2, 0, 5).unwrap();
    assert_eq!(
        ssi.validate_and_commit(1, 0, 10),
        Err(SSIConflict::Phantom { conflicting_ts: 5 })
    );
    assert_eq!(ssi.validate_and_commit(1, 5, 10), Ok(()));
}

#[test]
fn refused_transactions_stay_active() {
    let mut ssi = SSIManager::new();
    assert_eq!(ssi.validate_and_commit(9, 0, 1), Err(SSIConflict::TxnNotFound));
    ssi.begin_txn(1);
    ssi.begin_txn(2);
    ssi.record_read(1, b"k");
    ssi.record_write(2, b"k");
    ssi.validate_and_commit(2, 0, 7).unwrap();
    assert!(ssi.get_rw_set(2).is_none());
    assert_eq!(
        ssi.validate_and_commit(1, 0, 9),
        Err(SSIConflict::WriteSkew { conflicting_ts: 7 })
    );
    assert_eq!(ssi.get_rw_set(1).unwrap().read_set().len(), 1);
    ssi.abort_txn(1);
    assert!(ssi.get_rw_set(1).is_none());
}

#[test]
fn watermark_never_falls() {
    let mut ssi = SSIManager::new();
    ssi.begin_txn(1);
    ssi.validate_and_commit(1, 0, 10).unwrap();
    ssi.advance_watermark(10);
    assert_eq!(ssi.committed_count(), 1);
    ssi.advance_watermark(11);
    assert_eq!(ssi.committed_count(), 0);
    ssi.begin_txn(2);
    ssi.validate_and_commit(2, 0, 5).unwrap();
    ssi.advance_watermark(8);
    assert_eq!(ssi.committed_count(), 1);
}

#[test]
fn conflicts_have_texts() {
    assert_eq!(
        SSIConflict::WriteSkew { conflicting_ts: 42 }.message(),
        "write skew conflict with txn at ts 42"
    );
    assert_eq!(
        SSIConflict::Phantom { conflicting_ts: 0 }.message(),
        "phantom conflict with txn at ts 0"
    );
    assert_eq!(SSIConflict::TxnNotFound.message(), "transaction not found");
}
