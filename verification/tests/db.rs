use crabstash::common::{Bound, Error};
use crabstash::db::{prefix_end_bound, Db, DbIterator, DbOptions, DbStep};
use crabstash::lock::lock_entry::WaitEvent;
use crabstash::storage::lsm::Effect;
use crabstash::storage::manifest::Manifest;
use crabstash::txn::mvcc::WriteStep;
use crabstash::txn::IsolationLevel;
use std::collections::HashMap;

fn open() -> Db {
    let (db, effects) = Db::open(Manifest::create(), HashMap::new(), HashMap::new()).unwrap();
    assert_eq!(effects.len(), 2);
    assert!(matches!(effects[0], Effect::CreateLog { id: 1 }));
    assert!(matches!(&effects[1], Effect::AppendManifest { lines } if lines == b"WAL:1\n"));
    db
}

fn done(step: Result<WriteStep, Error>) -> bool {
    matches!(step, Ok(WriteStep::Done))
}

fn put(db: &mut Db, key: &str, value: &str) {
    match db.put(key.as_bytes().to_vec(), value.as_bytes().to_vec()) {
        DbStep::Finished(outcome) => outcome.result.unwrap(),
        DbStep::Wait(_) => panic!("nobody holds the lock"),
    }
}

fn keys(mut iter: DbIterator) -> Vec<String> {
    let mut list = Vec::new();
    while let Some(entry) = iter.next() {
        list.push(String::from_utf8(entry.unwrap().0).unwrap());
    }
    list
}

#[test]
fn put_get_delete() {
    let mut db = open();
    put(&mut db, "hello", "world");
    assert_eq!(db.get(b"hello").unwrap(), Some(b"world".to_vec()));
    assert!(matches!(db.delete(b"hello".to_vec()), DbStep::Finished(_)));
    assert_eq!(db.get(b"hello").unwrap(), None);
}

#[test]
fn transactions_commit_together() {
    let mut db = open();
    let mut txn = db.begin_with_isolation(IsolationLevel::Serializable);
    assert!(done(txn.put(&mut db, b"key1".to_vec(), b"value1".to_vec())));
    assert!(done(txn.put(&mut db, b"key2".to_vec(), b"value2".to_vec())));
    assert_eq!(db.get(b"key1").unwrap(), None);
    assert_eq!(txn.get(&mut db, b"key1").unwrap(), Some(b"value1".to_vec()));
    assert!(txn.commit(&mut db).result.is_ok());
    assert_eq!(db.get(b"key1").unwrap(), Some(b"value1".to_vec()));
    assert_eq!(db.get(b"key2").unwrap(), Some(b"value2".to_vec()));
}

#[test]
fn single_writes_wait_for_transactions() {
    let mut db = open();
    let mut txn = db.begin();
    assert!(done(txn.put(&mut db, b"k".to_vec(), b"txn".to_vec())));
    let waiting = match db.put(b"k".to_vec(), b"single".to_vec()) {
        DbStep::Wait(waiting) => waiting,
        DbStep::Finished(_) => panic!("the key is locked"),
    };
    assert!(txn.commit(&mut db).result.is_ok());
    assert!(matches!(db.resume(waiting, WaitEvent::Wake), DbStep::Finished(_)));
    assert_eq!(db.get(b"k").unwrap(), Some(b"single".to_vec()));
}

#[test]
fn a_write_without_its_lock_fails() {
    let mut db = open();
    let mut txn = db.begin();
    assert!(done(txn.put(&mut db, b"k".to_vec(), b"txn".to_vec())));
    let waiting = match db.delete(b"k".to_vec()) {
        DbStep::Wait(waiting) => waiting,
        DbStep::Finished(_) => panic!("the key is locked"),
    };
    match db.resume(waiting, WaitEvent::TimeOut) {
        DbStep::Finished(outcome) => {
            assert!(matches!(outcome.result, Err(Error::LockTimeout)));
            assert!(outcome.effects.is_empty());
            assert!(outcome.freed.is_empty());
        }
        DbStep::Wait(_) => panic!("the time is up"),
    }
    let mut other = db.begin();
    let pending = match other.delete(&mut db, b"k".to_vec()) {
        Ok(WriteStep::Wait(pending)) => pending,
        _ => panic!("the key is locked"),
    };
    let late = other.resume(&mut db, pending, WaitEvent::TimeOut);
    assert!(matches!(late, Err(Error::LockTimeout)));
    let outcome = other.commit(&mut db);
    assert!(outcome.result.is_ok() && outcome.effects.is_empty());
    assert_eq!(txn.abort(&mut db), vec![b"k".to_vec()]);
    assert_eq!(db.get(b"k").unwrap(), None);
}

#[test]
fn scans_go_in_order() {
    let mut db = open();
    for key in ["b", "ab", "a", "abc", "ac"] {
        put(&mut db, key, "v");
    }
    assert_eq!(keys(db.scan().unwrap()), vec!["a", "ab", "abc", "ac", "b"]);
    assert_eq!(keys(db.prefix_scan(b"ab").unwrap()), vec!["ab", "abc"]);
    let range = db
        .scan_range(Bound::Excluded(b"ab".to_vec()), Bound::Included(b"ac".to_vec()))
        .unwrap();
    assert_eq!(keys(range), vec!["abc", "ac"]);
}

#[test]
fn iterators_stop_at_deleted_keys() {
    let mut db = open();
    put(&mut db, "a", "1");
    put(&mut db, "b", "2");
    put(&mut db, "c", "3");
    db.delete(b"b".to_vec());
    let mut iter = db.scan().unwrap();
    assert!(iter.next().is_some());
    assert!(iter.next().is_none());
    assert!(iter.is_valid());
    assert_eq!(iter.key(), Some(b"b".as_slice()));
    assert_eq!(iter.value(), None);
    iter.advance().unwrap();
    assert_eq!(iter.next().unwrap().unwrap(), (b"c".to_vec(), b"3".to_vec()));
    assert!(!iter.is_valid());
    assert!(iter.advance().is_ok());
    assert!(iter.next().is_none());
}

#[test]
fn prefixes_end_where_the_last_byte_can_be_raised() {
    assert_eq!(prefix_end_bound(b"abc"), Bound::Excluded(b"abd".to_vec()));
    assert_eq!(prefix_end_bound(b"a\xff\xff"), Bound::Excluded(b"b".to_vec()));
    assert_eq!(prefix_end_bound(b"\xff"), Bound::Unbounded);
    assert_eq!(prefix_end_bound(b""), Bound::Unbounded);
}

#[test]
fn small_memory_tables_are_written_to_files() {
    let options = DbOptions { memtable_size: 64, ..DbOptions::default() };
    let (mut db, begun) =
        Db::open_with_options(Manifest::create(), HashMap::new(), HashMap::new(), options)
            .unwrap();
    let mut tables: HashMap<u64, Vec<u8>> = HashMap::new();
    let mut logs: HashMap<u64, Vec<u8>> = HashMap::new();
    let mut manifest: Vec<u8> = Vec::new();
    let mut log: u64 = 0;
    let mut effects = begun;
    for i in 0..40 {
        let step = db.put(format!("key{:02}", i).into_bytes(), format!("value{}", i).into_bytes());
        if let DbStep::Finished(outcome) = step {
            effects.extend(outcome.effects);
        }
    }
    for effect in effects {
        match effect {
            Effect::CreateLog { id } => {
                log = id;
                logs.insert(id, Vec::new());
            }
            Effect::AppendLog { bytes, .. } => logs.get_mut(&log).unwrap().extend(bytes),
            Effect::AppendManifest { lines } => manifest.extend(lines),
            Effect::WriteTable { id, image } => {
                tables.insert(id, image);
            }
            Effect::SyncLog | Effect::NotifyCompaction => {}
        }
    }
    assert!(tables.len() > 3);
    for i in 0..40 {
        let value = db.get(format!("key{:02}", i).as_bytes()).unwrap();
        assert_eq!(value, Some(format!("value{}", i).into_bytes()));
    }
    assert_eq!(db.scan().unwrap().key(), Some(b"key00".as_slice()));
    let manifest = Manifest::open(&manifest).unwrap();
    let (mut again, _) = Db::open(manifest, tables, logs).unwrap();
    for i in 0..40 {
        let value = again.get(format!("key{:02}", i).as_bytes()).unwrap();
        assert_eq!(value, Some(format!("value{}", i).into_bytes()));
    }
}

#[test]
fn damaged_files_are_reported() {
    let mut manifest = Manifest::create();
    let id = manifest.allocate_sst_id();
    manifest.add_sst(0, id);
    let mut tables = HashMap::new();
    tables.insert(id, vec![0u8; 5]);
    let result = Db::open(manifest, tables, HashMap::new());
    assert!(matches!(result, Err(Error::Corruption(_))));
    let mut db = open();
    assert!(matches!(db.sync(), Effect::SyncLog));
    assert!(db.engine().locks().detect_deadlock().is_none());
}
