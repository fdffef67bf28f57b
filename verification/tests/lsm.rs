use crabstash::common::{Bound, Error, Key};
use crabstash::storage::batch::WriteBatch;
use crabstash::storage::compaction::{
    CompactionSignal, CompactionStep, CompactionTask, Compactor,
};
use crabstash::storage::file_names::{log_file_name, manifest_file_name, table_file_name};
use crabstash::storage::lsm::{Effect, Lsm, LsmOptions};
use crabstash::storage::manifest::{parse_line, Manifest, ManifestEdit};
use crabstash::storage::sstable::{CompressionType, SSTable};
use crabstash::storage::iterator::StorageIterator;
use crabstash::storage::table_builder::SSTableBuilder;
use crabstash::storage::table_iterator::SSTableIterator;
use crabstash::storage::wal::{SyncAction, Wal};
use std::collections::HashMap;
use std::sync::Arc;

struct Disk {
    manifest: Vec<u8>,
    tables: HashMap<u64, Vec<u8>>,
    logs: HashMap<u64, Vec<u8>>,
    log: u64,
}

impl Disk {
    fn new() -> Disk {
        Disk { manifest: Vec::new(), tables: HashMap::new(), logs: HashMap::new(), log: 0 }
    }

    fn perform(&mut self, effects: Vec<Effect>) {
        for effect in effects {
            match effect {
                Effect::CreateLog { id } => {
                    self.log = id;
                    self.logs.insert(id, Vec::new());
                }
                Effect::AppendLog { bytes, sync } => {
                    assert_eq!(sync, SyncAction::Buffer);
                    self.logs.get_mut(&self.log).unwrap().extend(bytes);
                }
                Effect::AppendManifest { lines } => self.manifest.extend(lines),
                Effect::WriteTable { id, image } => {
                    self.tables.insert(id, image);
                }
                Effect::SyncLog | Effect::NotifyCompaction => {}
            }
        }
    }

    fn open(&mut self, options: LsmOptions) -> Result<Lsm, Error> {
        let manifest = Manifest::open(&self.manifest)?;
        let (lsm, effects) = Lsm::open(manifest, self.tables.clone(), self.logs.clone(), options)?;
        self.perform(effects);
        Ok(lsm)
    }
}

fn put(lsm: &mut Lsm, disk: &mut Disk, key: &str, value: &str) {
    let outcome = lsm.put(key.as_bytes().to_vec(), value.as_bytes().to_vec());
    outcome.result.unwrap();
    disk.perform(outcome.effects);
}

fn small(memtable_size: usize) -> LsmOptions {
    LsmOptions { memtable_size, ..LsmOptions::default() }
}

#[test]
fn writes_are_read_at_their_time() {
    let mut disk = Disk::new();
    let mut lsm = disk.open(LsmOptions::default()).unwrap();
    assert_eq!(lsm.current_ts(), 1);
    put(&mut lsm, &mut disk, "k", "one");
    put(&mut lsm, &mut disk, "k", "two");
    lsm.delete(b"k".to_vec()).result.unwrap();
    assert_eq!(lsm.get(b"k").unwrap(), None);
    assert_eq!(lsm.get_at_ts(b"k", 2).unwrap(), Some(b"two".to_vec()));
    assert_eq!(lsm.get_at_ts(b"k", 1).unwrap(), Some(b"one".to_vec()));
    assert_eq!(lsm.get_at_ts(b"k", 0).unwrap(), None);
    assert_eq!(lsm.current_ts(), 4);
}

#[test]
fn batches_are_written_together() {
    let mut disk = Disk::new();
    let mut lsm = disk.open(LsmOptions::default()).unwrap();
    let outcome = lsm.write_batch(WriteBatch::new());
    assert!(outcome.effects.is_empty());
    assert_eq!(lsm.current_ts(), 1);
    let mut batch = WriteBatch::with_capacity(3);
    batch.put(b"a".to_vec(), b"1".to_vec());
    batch.put(b"b".to_vec(), b"2".to_vec());
    batch.delete(b"a".to_vec());
    assert_eq!(batch.len(), 3);
    assert_eq!(batch.approximate_size(), 5);
    assert_eq!(batch.iter().len(), 3);
    let outcome = lsm.write_batch(batch);
    assert_eq!(outcome.effects.len(), 1);
    if let Effect::AppendLog { bytes, .. } = &outcome.effects[0] {
        let records = Wal::recover(bytes).unwrap();
        assert_eq!(records.len(), 3);
        assert_eq!(records[2].timestamp, 3);
    } else {
        panic!("the batch is logged");
    }
    assert_eq!(lsm.get(b"a").unwrap(), None);
    assert_eq!(lsm.get(b"b").unwrap(), Some(b"2".to_vec()));
    let mut batch = WriteBatch::new();
    batch.put(b"x".to_vec(), b"y".to_vec());
    batch.clear();
    assert!(batch.is_empty());
    assert_eq!(batch.approximate_size(), 0);
}

#[test]
fn full_memory_tables_become_tables() {
    let mut disk = Disk::new();
    let mut lsm = disk.open(small(30)).unwrap();
    for i in 0..20 {
        put(&mut lsm, &mut disk, &format!("key{:02}", i), &format!("value{:02}", i));
    }
    assert_eq!(disk.tables.len(), 6);
    assert_eq!(disk.log, 7);
    assert_eq!(lsm.manifest().levels[&0].sst_ids.len(), 6);
    for i in 0..20 {
        assert_eq!(
            lsm.get(format!("key{:02}", i).as_bytes()).unwrap(),
            Some(format!("value{:02}", i).into_bytes())
        );
    }
    put(&mut lsm, &mut disk, "key00", "newer and longer than before");
    assert_eq!(lsm.get(b"key00").unwrap(), Some(b"newer and longer than before".to_vec()));
    let mut iter = lsm.scan_range(Bound::Included(b"key05".to_vec()), Bound::Unbounded).unwrap();
    assert_eq!(iter.key(), Some(b"key05".as_slice()));
    iter.advance().unwrap();
    assert_eq!(iter.value().unwrap(), b"value06");
    assert_eq!(lsm.cache_stats().capacity, 67108864);
    assert!(lsm.block_cache().entry_count() <= 7);
}

#[test]
fn rotated_logs_are_replayed() {
    let mut disk = Disk::new();
    let mut lsm = disk.open(small(30)).unwrap();
    for i in 0..7 {
        put(&mut lsm, &mut disk, &format!("key{:02}", i), &format!("value{:02}", i));
    }
    let mut again = disk.open(small(30)).unwrap();
    for i in 0..7 {
        assert_eq!(
            again.get_at_ts(format!("key{:02}", i).as_bytes(), 100).unwrap(),
            Some(format!("value{:02}", i).into_bytes())
        );
    }
    assert_eq!(again.current_ts(), 8);
    disk.tables.clear();
    let mut again = disk.open(small(30)).unwrap();
    assert_eq!(again.get_at_ts(b"key02", 100).unwrap(), Some(b"value02".to_vec()));
    assert_eq!(again.get_at_ts(b"key03", 100).unwrap(), Some(b"value03".to_vec()));
    assert_eq!(again.get_at_ts(b"key06", 100).unwrap(), Some(b"value06".to_vec()));
    assert_eq!(again.get_at_ts(b"key06", 6).unwrap(), None);
}

#[test]
fn the_log_of_the_first_memory_table_is_replayed() {
    let mut disk = Disk::new();
    let mut lsm = disk.open(LsmOptions::default()).unwrap();
    assert_eq!(disk.manifest, b"WAL:1\n");
    put(&mut lsm, &mut disk, "k", "v");
    let written = disk.logs[&1].clone();
    assert!(!written.is_empty());
    let mut again = disk.open(LsmOptions::default()).unwrap();
    assert_eq!(disk.log, 2);
    assert_eq!(disk.logs[&1], written);
    assert_eq!(again.get(b"k").unwrap(), Some(b"v".to_vec()));
    assert_eq!(again.current_ts(), 2);
}

#[test]
fn every_reopening_keeps_what_was_written() {
    let mut disk = Disk::new();
    for round in 0..5 {
        let mut lsm = disk.open(small(20)).unwrap();
        for earlier in 0..round {
            assert_eq!(
                lsm.get(format!("key{}", earlier).as_bytes()).unwrap(),
                Some(format!("value{}", earlier).into_bytes())
            );
        }
        assert_eq!(lsm.get(b"shared").unwrap(), if round % 2 == 1 { Some(b"s".to_vec()) } else { None });
        put(&mut lsm, &mut disk, &format!("key{}", round), &format!("value{}", round));
        if round % 2 == 0 {
            put(&mut lsm, &mut disk, "shared", "s");
        } else {
            let outcome = lsm.delete(b"shared".to_vec());
            outcome.result.unwrap();
            disk.perform(outcome.effects);
        }
        assert_eq!(lsm.current_ts(), 2 * round + 3);
    }
}

#[test]
fn deletions_hide_what_older_tables_hold() {
    let mut disk = Disk::new();
    let mut lsm = disk.open(small(1)).unwrap();
    put(&mut lsm, &mut disk, "hello", "world");
    let outcome = lsm.delete(b"hello".to_vec());
    outcome.result.unwrap();
    disk.perform(outcome.effects);
    put(&mut lsm, &mut disk, "x", "y");
    assert_eq!(disk.tables.len(), 2);
    assert_eq!(lsm.get(b"hello").unwrap(), None);
    assert_eq!(lsm.get_at_ts(b"hello", 1).unwrap(), Some(b"world".to_vec()));
    assert_eq!(lsm.get(b"x").unwrap(), Some(b"y".to_vec()));
}

#[test]
fn versions_are_read_from_tables_at_their_time() {
    let mut disk = Disk::new();
    let mut lsm = disk.open(small(1)).unwrap();
    put(&mut lsm, &mut disk, "k", "one");
    put(&mut lsm, &mut disk, "k", "two");
    put(&mut lsm, &mut disk, "other", "z");
    assert_eq!(lsm.get_at_ts(b"k", 0).unwrap(), None);
    assert_eq!(lsm.get_at_ts(b"k", 1).unwrap(), Some(b"one".to_vec()));
    assert_eq!(lsm.get_at_ts(b"k", 2).unwrap(), Some(b"two".to_vec()));
    assert_eq!(lsm.get(b"k").unwrap(), Some(b"two".to_vec()));
    let mut batch = WriteBatch::new();
    batch.put(b"k".to_vec(), b"three".to_vec());
    batch.put(b"k".to_vec(), b"four".to_vec());
    let outcome = lsm.write_batch(batch);
    outcome.result.unwrap();
    assert_eq!(lsm.get_at_ts(b"k", 4).unwrap(), Some(b"three".to_vec()));
    assert_eq!(lsm.get_at_ts(b"k", 5).unwrap(), Some(b"four".to_vec()));
}

#[test]
fn scans_give_the_newest_version_of_each_key() {
    let mut disk = Disk::new();
    let mut lsm = disk.open(small(1)).unwrap();
    for (key, value) in [("a", "1"), ("b", "1"), ("a", "2"), ("c", "1"), ("a", "3")] {
        put(&mut lsm, &mut disk, key, value);
    }
    let outcome = lsm.delete(b"b".to_vec());
    outcome.result.unwrap();
    let mut iter = lsm.scan().unwrap();
    let mut list: Vec<(Vec<u8>, Option<Vec<u8>>)> = Vec::new();
    while iter.is_valid() {
        list.push((iter.key().unwrap().to_vec(), iter.value().cloned()));
        iter.advance().unwrap();
    }
    assert_eq!(
        list,
        vec![
            (b"a".to_vec(), Some(b"3".to_vec())),
            (b"b".to_vec(), None),
            (b"c".to_vec(), Some(b"1".to_vec())),
        ]
    );
    assert!(iter.advance().is_ok());
    assert!(!iter.is_valid());
}

#[test]
fn scans_at_a_time_give_what_was_there() {
    for memtable_size in [1, 1 << 20] {
        let mut disk = Disk::new();
        let mut lsm = disk.open(small(memtable_size)).unwrap();
        put(&mut lsm, &mut disk, "a", "a1");
        put(&mut lsm, &mut disk, "b", "b2");
        put(&mut lsm, &mut disk, "a", "a3");
        lsm.delete(b"b".to_vec()).result.unwrap();
        put(&mut lsm, &mut disk, "c", "c5");
        let mut shown: Vec<Vec<(String, String)>> = Vec::new();
        for ts in [0, 1, 2, 3, 4, 5] {
            let mut iter = lsm.scan_at_ts(Bound::Unbounded, Bound::Unbounded, ts).unwrap();
            let mut pairs = Vec::new();
            while iter.is_valid() {
                let key = String::from_utf8(iter.key().unwrap().to_vec()).unwrap();
                let value = String::from_utf8(iter.value().unwrap().clone()).unwrap();
                pairs.push((key, value));
                iter.advance().unwrap();
            }
            assert!(iter.key().is_none() && iter.value().is_none());
            assert!(iter.advance().is_ok());
            shown.push(pairs);
        }
        let pair = |key: &str, value: &str| (key.to_string(), value.to_string());
        assert_eq!(shown[0], vec![]);
        assert_eq!(shown[1], vec![pair("a", "a1")]);
        assert_eq!(shown[2], vec![pair("a", "a1"), pair("b", "b2")]);
        assert_eq!(shown[3], vec![pair("a", "a3"), pair("b", "b2")]);
        assert_eq!(shown[4], vec![pair("a", "a3")]);
        assert_eq!(shown[5], vec![pair("a", "a3"), pair("c", "c5")]);
        let start = Bound::Excluded(b"a".to_vec());
        let iter = lsm.scan_at_ts(start, Bound::Included(b"b".to_vec()), 2).unwrap();
        assert_eq!(iter.key(), Some(b"b".as_slice()));
    }
}

#[test]
fn scans_agree_with_reads() {
    let mut disk = Disk::new();
    let mut lsm = disk.open(small(40)).unwrap();
    for i in 0..60u32 {
        let key = format!("key{:02}", i * 7 % 20);
        if i % 5 == 4 {
            let outcome = lsm.delete(key.into_bytes());
            outcome.result.unwrap();
            disk.perform(outcome.effects);
        } else {
            put(&mut lsm, &mut disk, &key, &format!("value{}", i));
        }
    }
    assert!(disk.tables.len() > 5);
    let mut again = disk.open(small(40)).unwrap();
    for tree in [&mut lsm, &mut again] {
        let start = Bound::Excluded(b"key03".to_vec());
        let mut iter = tree.scan_range(start, Bound::Included(b"key17".to_vec())).unwrap();
        let mut seen: Vec<Vec<u8>> = Vec::new();
        while iter.is_valid() {
            let key = iter.key().unwrap().to_vec();
            assert_eq!(tree.get(&key).unwrap(), iter.value().cloned());
            seen.push(key);
            iter.advance().unwrap();
        }
        let expected: Vec<Vec<u8>> = (4..18).map(|i| format!("key{:02}", i).into_bytes()).collect();
        assert_eq!(seen, expected);
    }
}

#[test]
fn damaged_logs_keep_the_tree_from_opening() {
    let mut disk = Disk::new();
    let mut lsm = disk.open(small(30)).unwrap();
    for i in 0..4 {
        put(&mut lsm, &mut disk, &format!("key{:02}", i), &format!("value{:02}", i));
    }
    disk.logs.get_mut(&1).unwrap()[12] ^= 1;
    assert!(matches!(disk.open(small(30)), Err(Error::Corruption(_))));
}

#[test]
fn manifests_are_replayed() {
    let mut manifest = Manifest::create();
    let mut lines: Vec<u8> = Vec::new();
    assert_eq!(manifest.allocate_sst_id(), 1);
    lines.extend(manifest.add_sst(0, 1));
    assert_eq!(manifest.allocate_sst_id(), 2);
    lines.extend(manifest.add_sst(1, 2));
    assert_eq!(manifest.allocate_wal_id(), 1);
    lines.extend(manifest.add_wal(1));
    lines.extend(manifest.remove_sst(0, 1));
    let again = Manifest::open(&lines).unwrap();
    assert_eq!(again.next_sst_id, 3);
    assert_eq!(again.next_wal_id, 2);
    assert_eq!(again.levels[&0].sst_ids.len(), 0);
    assert_eq!(again.levels[&1].sst_ids, vec![2]);
    assert!(Manifest::open(b"").unwrap().levels.is_empty());
}

#[test]
fn manifest_lines_are_parsed() {
    let mut manifest = Manifest::create();
    let line = manifest.add_sst(3, 17);
    let edit = parse_line(&line[..line.len() - 1]).unwrap();
    assert!(matches!(edit, Some(ManifestEdit::AddSst { level: 3, id: 17 })));
    assert_eq!(line, b"SST:3:17\n");
    assert!(matches!(parse_line(b"WAL:4"), Ok(Some(ManifestEdit::AddWal { id: 4 }))));
    assert!(matches!(parse_line(b"something else"), Ok(None)));
    assert!(matches!(Manifest::open(b"SST:x:1\n"), Err(Error::Corruption(_))));
    assert!(matches!(Manifest::open(b"DEL:1\n"), Err(Error::Corruption(_))));
    let last = u64::MAX;
    let line = format!("DEL:1:{}", last);
    assert_eq!(
        parse_line(line.as_bytes()).unwrap(),
        Some(ManifestEdit::RemoveSst { level: 1, id: last })
    );
    assert!(parse_line(format!("SST:1:{}", last).as_bytes()).is_err());
    assert!(matches!(Manifest::open(b"\xff\xfe\n"), Err(Error::Io(_))));
    assert!(matches!(Manifest::open(b"SST:0:1\nother \xc3\n"), Err(Error::Io(_))));
    assert!(Manifest::open("other \u{fc}\n".as_bytes()).is_ok());
}

#[test]
fn compactions_are_picked_by_level() {
    let compactor = Compactor::new("data");
    assert_eq!(compactor.dir(), "data");
    let mut manifest = Manifest::create();
    for id in 1..4 {
        manifest.add_sst(0, id);
    }
    assert!(compactor.pick_compaction(&manifest).is_none());
    manifest.add_sst(0, 4);
    let task = compactor.pick_compaction(&manifest).unwrap();
    assert_eq!((task.level, task.output_level), (0, 1));
    assert_eq!(task.input_ssts, vec![1, 2, 3, 4]);
    let mut manifest = Manifest::create();
    for id in 1..12 {
        manifest.add_sst(1, id);
    }
    let task = compactor.pick_compaction(&manifest).unwrap();
    assert_eq!((task.level, task.output_level), (1, 2));
    assert_eq!(task.input_ssts, vec![1]);
}

#[test]
fn compactions_take_the_place_of_their_inputs() {
    let compactor = Compactor::new("data");
    let mut disk = Disk::new();
    let mut lsm = disk.open(small(1)).unwrap();
    put(&mut lsm, &mut disk, "a", "old");
    put(&mut lsm, &mut disk, "b", "gone");
    put(&mut lsm, &mut disk, "a", "new");
    let outcome = lsm.delete(b"b".to_vec());
    outcome.result.unwrap();
    disk.perform(outcome.effects);
    put(&mut lsm, &mut disk, "d", "kept");
    let mut manifest = Manifest::open(&disk.manifest).unwrap();
    let task = compactor.pick_compaction(&manifest).unwrap();
    assert_eq!(task.input_ssts, vec![1, 2, 3, 4]);
    let images = task.input_ssts.iter().map(|id| disk.tables[id].clone()).collect();
    let done = compactor.compact(&task, &mut manifest, images).unwrap();
    assert_eq!(done.new_sst_id, 5);
    assert_eq!(manifest.levels[&0].sst_ids.len(), 0);
    assert_eq!(manifest.levels[&1].sst_ids, vec![5]);
    let table = SSTable::open(5, done.image.clone()).unwrap();
    assert_eq!(table.get_at_ts(b"a", u64::MAX).unwrap(), Some(Some(b"new".to_vec())));
    assert_eq!(table.get_at_ts(b"b", u64::MAX).unwrap(), Some(None));
    assert_eq!(table.get_at_ts(b"c", u64::MAX).unwrap(), None);
    let mut iter = SSTableIterator::new(Arc::new(table)).unwrap();
    let mut entries: Vec<(Vec<u8>, u64)> = Vec::new();
    while iter.is_valid() {
        entries.push((iter.key().data().to_vec(), iter.key().timestamp()));
        iter.next().unwrap();
    }
    assert_eq!(entries, vec![(b"a".to_vec(), 3), (b"b".to_vec(), 4), (b"d".to_vec(), 5)]);

    disk.manifest.extend(done.manifest_lines);
    disk.tables.clear();
    disk.tables.insert(5, done.image);
    disk.logs.clear();
    let mut again = disk.open(LsmOptions::default()).unwrap();
    assert_eq!(again.current_ts(), 6);
    assert_eq!(again.get(b"a").unwrap(), Some(b"new".to_vec()));
    assert_eq!(again.get(b"b").unwrap(), None);
    assert_eq!(again.get(b"d").unwrap(), Some(b"kept".to_vec()));
    assert_eq!(again.manifest().levels[&1].sst_ids, vec![5]);
}

#[test]
fn tables_are_read_without_their_logs() {
    let mut disk = Disk::new();
    let mut lsm = disk.open(small(1)).unwrap();
    put(&mut lsm, &mut disk, "a", "one");
    put(&mut lsm, &mut disk, "b", "two");
    put(&mut lsm, &mut disk, "a", "three");
    assert_eq!(disk.tables.len(), 3);
    disk.logs.clear();
    let mut again = disk.open(LsmOptions::default()).unwrap();
    assert_eq!(again.current_ts(), 4);
    assert_eq!(again.get(b"a").unwrap(), Some(b"three".to_vec()));
    assert_eq!(again.get(b"b").unwrap(), Some(b"two".to_vec()));
    put(&mut again, &mut disk, "b", "four");
    assert_eq!(again.get(b"b").unwrap(), Some(b"four".to_vec()));
    assert_eq!(again.get_at_ts(b"b", 3).unwrap(), Some(b"two".to_vec()));
}

#[test]
fn levels_say_their_numbers() {
    let mut manifest = Manifest::create();
    manifest.add_sst(3, 1);
    manifest.add_sst(0, 2);
    manifest.remove_sst(3, 1);
    let read = Manifest::open(b"SST:5:1\nSST:2:4\nDEL:5:1\n").unwrap();
    for (level, meta) in manifest.levels.iter().chain(read.levels.iter()) {
        assert_eq!(meta.level, *level);
    }
    assert_eq!(manifest.levels.len() + read.levels.len(), 4);
}

#[test]
fn deleted_keys_stay_deleted_in_compressed_tables() {
    let mut disk = Disk::new();
    let mut lsm = disk.open(small(2000)).unwrap();
    put(&mut lsm, &mut disk, "gone", &"x".repeat(1000));
    let outcome = lsm.delete(b"gone".to_vec());
    outcome.result.unwrap();
    disk.perform(outcome.effects);
    put(&mut lsm, &mut disk, "other", &"y".repeat(1000));
    assert_eq!(disk.tables.len(), 1);
    assert_eq!(lsm.get(b"gone").unwrap(), None);
    assert_eq!(lsm.get_at_ts(b"gone", 1).unwrap(), Some(vec![b'x'; 1000]));
    assert_eq!(lsm.get(b"other").unwrap(), Some(vec![b'y'; 1000]));
    let mut again = disk.open(small(2000)).unwrap();
    assert_eq!(again.get(b"gone").unwrap(), None);
}

#[test]
fn values_that_do_not_compress_are_read_from_tables() {
    let mut disk = Disk::new();
    let mut lsm = disk.open(small(1)).unwrap();
    let mut value: Vec<u8> = Vec::new();
    let mut x: u32 = 1;
    for _ in 0..300_000 {
        x = x.wrapping_mul(1_664_525).wrapping_add(1_013_904_223);
        value.push((x >> 24) as u8);
    }
    let outcome = lsm.put(b"big".to_vec(), value.clone());
    outcome.result.unwrap();
    disk.perform(outcome.effects);
    assert!(disk.tables[&1].len() > value.len());
    assert!(disk.tables[&1].len() <= 200 + (value.len() + 19) * 110 / 100);
    assert_eq!(lsm.get(b"big").unwrap(), Some(value));
}

#[test]
fn compactions_report_damaged_inputs() {
    let compactor = Compactor::new("data");
    let mut manifest = Manifest::create();
    let bad = CompactionTask { level: 0, input_ssts: vec![9], output_level: 1 };
    assert!(compactor.compact(&bad, &mut manifest, vec![vec![1, 2, 3]]).is_err());
    assert_eq!(manifest.next_sst_id, 1);
    let mut builder = SSTableBuilder::new_with_compression(10, CompressionType::Plain);
    builder.add(&Key::new(b"k".to_vec(), 1), Some(b"v"));
    let mut image = builder.finish();
    image[5] ^= 1;
    assert!(matches!(
        compactor.compact(&bad, &mut manifest, vec![image]),
        Err(Error::Corruption(_))
    ));
    assert!(manifest.levels.is_empty());
}

#[test]
fn errors_have_texts() {
    let texts: Vec<String> = [
        Error::Io("gone".to_string()),
        Error::Corruption("torn".to_string()),
        Error::KeyNotFound,
        Error::TransactionConflict,
        Error::TransactionAborted,
        Error::InvalidArgument("odd".to_string()),
        Error::LockTimeout,
        Error::Deadlock,
        Error::LockConflict,
        Error::WriteSkew,
        Error::PhantomRead,
        Error::SerializableConflict,
    ]
    .iter()
    .map(|e| e.message())
    .collect();
    assert_eq!(
        texts,
        vec![
            "I/O error: gone",
            "Corruption: torn",
            "Key not found",
            "Transaction conflict",
            "Transaction aborted",
            "Invalid argument: odd",
            "Lock acquisition timed out",
            "Deadlock detected",
            "Lock conflict",
            "Write skew detected (serializable violation)",
            "Phantom read detected (serializable violation)",
            "Serializable conflict (dangerous structure detected)",
        ]
    );
}

#[test]
fn files_are_named_by_number() {
    assert_eq!(table_file_name(0), "000000.sst");
    assert_eq!(table_file_name(42), "000042.sst");
    assert_eq!(log_file_name(123456), "123456.wal");
    assert_eq!(log_file_name(1234567), "1234567.wal");
    assert_eq!(table_file_name(u64::MAX), "18446744073709551615.sst");
    assert_eq!(manifest_file_name(), "MANIFEST");
}

#[test]
fn compaction_follows_its_signal() {
    let mut signal = CompactionSignal::new();
    assert_eq!(signal.woken(true), CompactionStep::WaitAgain);
    assert_eq!(signal.woken(false), CompactionStep::Compact);
    signal.notify();
    assert_eq!(signal.woken(true), CompactionStep::Compact);
    assert_eq!(signal.woken(true), CompactionStep::WaitAgain);
    signal.notify();
    signal.stop();
    assert_eq!(signal.woken(false), CompactionStep::Stop);
    assert!(signal.work_available);
}
