use crabstash::common::Error;
use crabstash::storage::wal::{
    RecordType, SyncAction, SyncMode, Wal, WalOptions, WalRecord,
};

fn put(key: &str, value: &str, timestamp: u64) -> WalRecord {
    WalRecord {
        record_type: RecordType::Put,
        key: key.as_bytes().to_vec(),
        value: Some(value.as_bytes().to_vec()),
        timestamp,
    }
}

fn delete(key: &str, timestamp: u64) -> WalRecord {
    WalRecord {
        record_type: RecordType::Delete,
        key: key.as_bytes().to_vec(),
        value: None,
        timestamp,
    }
}

#[test]
fn test_wal_basic_write_recover() {
    let mut log: Vec<u8> = Vec::new();
    let mut wal = Wal::create();
    log.extend(wal.append(&put("key1", "value1", 1)).bytes);
    log.extend(wal.append(&delete("key2", 2)).bytes);

    let records = Wal::recover(&log).unwrap();
    assert_eq!(records.len(), 2);
    assert_eq!(records[0].key, b"key1");
    assert_eq!(records[0].value.as_ref().unwrap(), b"value1");
    assert_eq!(records[1].key, b"key2");
    assert!(records[1].value.is_none());
}

#[test]
fn test_wal_compression() {
    let options = WalOptions { enable_compression: true, ..Default::default() };
    let large_value = "x".repeat(1024);

    let mut wal = Wal::create_with_options(options);
    let log = wal.append(&put("key", &large_value, 1)).bytes;
    assert!(log.len() < 1024);

    let records = Wal::recover(&log).unwrap();
    assert_eq!(records.len(), 1);
    assert_eq!(records[0].value.as_ref().unwrap(), large_value.as_bytes());
}

#[test]
fn test_wal_sync_modes() {
    for sync_mode in [SyncMode::NoSync, SyncMode::Sync, SyncMode::DataSync] {
        let options = WalOptions { sync_mode, ..Default::default() };
        let mut wal = Wal::create_with_options(options);
        let log = wal.append(&put("key", "value", 1)).bytes;

        let records = Wal::recover(&log).unwrap();
        assert_eq!(records.len(), 1);
    }
}

#[test]
fn test_wal_group_sync() {
    let options = WalOptions {
        sync_mode: SyncMode::GroupSync,
        group_commit_size_bytes: 100,
        group_commit_interval_ms: 10,
        ..Default::default()
    };

    let mut wal = Wal::create_with_options(options);
    let mut log: Vec<u8> = Vec::new();

    for i in 0..10 {
        log.extend(wal.append(&put(&format!("key{}", i), &format!("value{}", i), i as u64)).bytes);
    }
    assert_eq!(wal.sync(), SyncAction::SyncAll);

    let records = Wal::recover(&log).unwrap();
    assert_eq!(records.len(), 10);
}

#[test]
fn test_wal_batch() {
    let mut wal = Wal::create();

    let records: Vec<WalRecord> =
        (0..5).map(|i| put(&format!("key{}", i), &format!("value{}", i), i as u64)).collect();

    let log = wal.append_batch(&records).bytes;

    let recovered = Wal::recover(&log).unwrap();
    assert_eq!(recovered.len(), 5);
}

#[test]
fn frames_have_length_and_checksum() {
    let mut wal = Wal::create();
    let log = wal.append(&put("k", "v", 7)).bytes;
    let body = &log[8..];
    assert_eq!(log[..4], crc32fast::hash(body).to_le_bytes());
    assert_eq!(log[4..8], (body.len() as u32).to_le_bytes());
    assert_eq!(body[0], RecordType::Put.to_u8());
}

#[test]
fn sync_follows_the_mode() {
    let cases = [
        (SyncMode::NoSync, SyncAction::Buffer),
        (SyncMode::Sync, SyncAction::SyncAll),
        (SyncMode::DataSync, SyncAction::SyncData),
    ];
    for (sync_mode, expected) in cases {
        let mut wal = Wal::create_with_options(WalOptions { sync_mode, ..Default::default() });
        let write = wal.append(&put("k", "v", 1));
        assert_eq!(write.sync, expected);
        let pending = if expected == SyncAction::Buffer { write.bytes.len() } else { 0 };
        assert_eq!(wal.pending_bytes(), pending);
    }
}

#[test]
fn groups_are_synced_by_size() {
    let mut wal = Wal::create_with_options(WalOptions {
        sync_mode: SyncMode::GroupSync,
        group_commit_size_bytes: 100,
        ..Default::default()
    });
    let record = put("key0", "value0", 1);
    let steps = [
        (SyncAction::Buffer, 35),
        (SyncAction::Buffer, 70),
        (SyncAction::SyncAll, 0),
        (SyncAction::Buffer, 35),
    ];
    for (action, pending) in steps {
        let write = wal.append(&record);
        assert_eq!(write.bytes.len(), 35);
        assert_eq!(write.sync, action);
        assert_eq!(wal.pending_bytes(), pending);
    }
    assert_eq!(wal.sync(), SyncAction::SyncAll);
    assert_eq!(wal.pending_bytes(), 0);
}

#[test]
fn damaged_logs_are_refused() {
    let mut wal = Wal::create();
    let log = wal.append(&put("key", "value", 1)).bytes;
    for at in (0..4).chain(8..log.len()) {
        let mut damaged = log.clone();
        damaged[at] ^= 1;
        assert!(matches!(Wal::recover(&damaged), Err(Error::Corruption(_))));
    }
    assert!(Wal::recover(&log[..log.len() - 1]).is_err());
    assert_eq!(Wal::recover(&log[..7]).unwrap().len(), 0);
    let mut trailing = log.clone();
    trailing.extend([1, 2, 3]);
    assert_eq!(Wal::recover(&trailing).unwrap().len(), 1);
}

#[test]
fn damage_in_any_frame_is_found() {
    let mut wal = Wal::create();
    let frames: Vec<Vec<u8>> =
        (0..3).map(|i| wal.append(&put("key", &format!("value{}", i), i)).bytes).collect();
    let log: Vec<u8> = frames.concat();
    assert_eq!(Wal::recover(&log).unwrap().len(), 3);
    let mut start = 0;
    for frame in &frames {
        let mut damaged = log.clone();
        damaged[start + 10] ^= 4;
        assert!(matches!(Wal::recover(&damaged), Err(Error::Corruption(_))));
        start += frame.len();
    }
}

#[test]
fn compressed_logs_can_be_read_as_they_stand() {
    let options = WalOptions { enable_compression: true, ..Default::default() };
    let mut wal = Wal::create_with_options(options);
    let log = wal.append(&put("key", &"y".repeat(500), 3)).bytes;
    let records = Wal::recover_with_compression(&log, true).unwrap();
    assert_eq!(records[0].timestamp, 3);
    assert_eq!(records[0].value.as_ref().unwrap().len(), 500);
    let short = wal.append(&put("a", "b", 4)).bytes;
    assert_eq!(Wal::recover_with_compression(&short, true).unwrap()[0].key, b"a");
}

#[test]
fn compressed_records_are_recovered() {
    let options = WalOptions { enable_compression: true, ..WalOptions::default() };
    let mut wal = Wal::create_with_options(options);
    let mut noise = String::new();
    let mut x: u32 = 7;
    for _ in 0..1024 {
        x = x.wrapping_mul(1_664_525).wrapping_add(1_013_904_223);
        noise.push((b' ' + (x >> 24) as u8 % 95) as char);
    }
    let records = [put("even", &"v".repeat(1024), 1), put("odd", &noise, 2), delete("even", 3)];
    let mut log: Vec<u8> = Vec::new();
    for record in records.iter() {
        log.extend(wal.append(record).bytes);
    }
    assert!(log.len() < 1500);
    let read = Wal::recover(&log).unwrap();
    assert_eq!(read.len(), 3);
    assert_eq!(read[0].value, Some(vec![b'v'; 1024]));
    assert_eq!(read[1].value, Some(noise.into_bytes()));
    assert_eq!((read[2].key.clone(), read[2].timestamp), (b"even".to_vec(), 3));
}

#[test]
fn record_types_have_codes() {
    assert_eq!(RecordType::Put.to_u8(), 1);
    assert_eq!(RecordType::Delete.to_u8(), 2);
    assert!(matches!(RecordType::try_from(1), Ok(RecordType::Put)));
    assert!(matches!(RecordType::try_from(2), Ok(RecordType::Delete)));
    assert!(matches!(RecordType::try_from(3), Err(Error::Corruption(_))));
}
