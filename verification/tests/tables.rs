use crabstash::common::{Bound, Error, Key};
use crabstash::storage::block::{get_entry, put_entry, search_block};
use crabstash::storage::bloom::BloomFilter;
use crabstash::storage::cache::{block_weight, BlockCache, BlockCacheKey};
use crabstash::storage::iterator::{
    BoundedIterator, MemTableIterator, MergeIterator, StorageIterator, TwoMergeIterator,
};
use crabstash::storage::memtable::MemTable;
use crabstash::storage::sstable::{filled_block, CompressionType, SSTable};
use crabstash::storage::table_builder::SSTableBuilder;
use crabstash::storage::table_iterator::SSTableIterator;
use std::sync::Arc;

fn build(compression: CompressionType, count: usize) -> Vec<u8> {
    let mut builder = SSTableBuilder::new_with_compression(count, compression);
    for i in 0..count {
        let key = Key::new(format!("key{:05}", i).into_bytes(), 1);
        let value = format!("value number {} {}", i, "z".repeat(20));
        if i % 10 == 3 {
            builder.add(&key, None);
        } else {
            builder.add(&key, Some(value.as_bytes()));
        }
    }
    builder.finish()
}

fn keys<I: StorageIterator>(iter: &mut I) -> Vec<(String, u64)> {
    let mut list = Vec::new();
    while iter.is_valid() {
        let key = iter.key();
        list.push((String::from_utf8(key.data().to_vec()).unwrap(), key.timestamp()));
        iter.next().unwrap();
    }
    list
}

fn table(entries: &[(&str, u64)]) -> MemTable {
    let mut table = MemTable::new();
    for (key, ts) in entries {
        table.put(Key::new(key.as_bytes().to_vec(), *ts), vec![*ts as u8]);
    }
    table
}

#[test]
fn tables_give_back_what_was_added() {
    for compression in [CompressionType::Plain, CompressionType::Lz4] {
        let image = build(compression, 500);
        let table = SSTable::open(7, image).unwrap();
        assert_eq!(table.id(), 7);
        assert!(table.num_blocks() > 2);
        assert_eq!(table.min_key(), b"key00000");
        assert_eq!(table.max_key(), b"key00499");
        let mut cache = BlockCache::new(1 << 20);
        for i in 0..500 {
            let key = format!("key{:05}", i);
            let expected = if i % 10 == 3 {
                None
            } else {
                Some(format!("value number {} {}", i, "z".repeat(20)).into_bytes())
            };
            assert_eq!(table.get(key.as_bytes()).unwrap(), expected);
            assert_eq!(table.get_at_ts(key.as_bytes(), 1).unwrap(), Some(expected.clone()));
            assert_eq!(
                table.get_with_cache(key.as_bytes(), 1, &mut cache).unwrap(),
                Some(expected)
            );
            assert_eq!(table.get_with_cache(key.as_bytes(), 0, &mut cache).unwrap(), None);
        }
        assert_eq!(table.get(b"absent").unwrap(), None);
        assert_eq!(table.get(b"zzz").unwrap(), None);
    }
}

#[test]
fn compressed_tables_are_smaller() {
    let plain = build(CompressionType::Plain, 500);
    let packed = build(CompressionType::Lz4, 500);
    assert!(packed.len() < plain.len());
}

#[test]
fn tables_know_their_newest_timestamp() {
    let mut builder = SSTableBuilder::new(4);
    builder.add(&Key::new(b"a".to_vec(), 3), Some(b"x"));
    builder.add(&Key::new(b"b".to_vec(), 9), None);
    builder.add(&Key::new(b"b".to_vec(), 4), Some(b"y"));
    assert_eq!(SSTable::open(1, builder.finish()).unwrap().newest(), 9);
    assert_eq!(SSTable::open(1, SSTableBuilder::new(0).finish()).unwrap().newest(), 0);
}

#[test]
fn blocks_are_read_through_the_cache() {
    let table = SSTable::open(3, build(CompressionType::Lz4, 300)).unwrap();
    let mut cache = BlockCache::new(1 << 20);
    let direct = table.read_block(1).unwrap();
    let cached = table.read_block_cached(1, &mut cache).unwrap();
    assert_eq!(direct, *cached);
    let key = BlockCacheKey::new(3, 1);
    assert_eq!(*cache.get(&key).unwrap(), direct);
    assert_eq!(table.block_meta(1).uncompressed_length as usize, direct.len());
}

#[test]
fn damaged_tables_are_refused() {
    let image = build(CompressionType::Plain, 50);
    assert!(matches!(SSTable::open(1, image[..11].to_vec()), Err(Error::Corruption(_))));
    let mut wrong_magic = image.clone();
    let last = wrong_magic.len() - 1;
    wrong_magic[last] ^= 1;
    assert!(matches!(SSTable::open(1, wrong_magic), Err(Error::Corruption(_))));
    let mut wrong_block = image.clone();
    wrong_block[5] ^= 1;
    let table = SSTable::open(1, wrong_block).unwrap();
    assert!(matches!(table.read_block(0), Err(Error::Corruption(_))));
    assert!(table.get(b"key00000").is_err());
}

#[test]
fn blocks_that_do_not_unpack_are_reported() {
    assert!(matches!(filled_block(Err("short".to_string())), Err(Error::Corruption(_))));
    assert_eq!(filled_block(Ok(vec![1, 2])).unwrap(), vec![1, 2]);
}

#[test]
fn compression_codes() {
    assert_eq!(CompressionType::Plain.to_u8(), 0);
    assert_eq!(CompressionType::Lz4.to_u8(), 1);
    assert!(matches!(CompressionType::from_u8(1), CompressionType::Lz4));
    assert!(matches!(CompressionType::from_u8(0), CompressionType::Plain));
    assert!(matches!(CompressionType::from_u8(200), CompressionType::Plain));
}

#[test]
fn table_iterators_walk_all_entries() {
    let table = Arc::new(SSTable::open(1, build(CompressionType::Lz4, 200)).unwrap());
    let mut iter = SSTableIterator::new(table).unwrap();
    let all = keys(&mut iter);
    assert_eq!(all.len(), 200);
    assert!(all.windows(2).all(|w| w[0].0 < w[1].0));
    iter.seek_to_first().unwrap();
    assert_eq!(iter.key().data(), b"key00000");
    iter.seek(b"key00123").unwrap();
    assert_eq!(iter.key().data(), b"key00123");
    assert!(iter.value().is_none());
    iter.seek(b"key00123x").unwrap();
    assert_eq!(iter.key().data(), b"key00124");
    iter.seek(b"zzz").unwrap();
    assert!(!iter.is_valid());
}

#[test]
fn block_entries_are_framed_by_their_lengths() {
    let mut block: Vec<u8> = Vec::new();
    put_entry(&mut block, b"ab", 258, Some(b"xyz"));
    put_entry(&mut block, b"c", 3, None);
    assert_eq!(
        block,
        [
            2, 0, 0, 0, b'a', b'b', 2, 1, 0, 0, 0, 0, 0, 0, 3, 0, 0, 0, b'x', b'y', b'z', 1, 0, 0,
            0, b'c', 3, 0, 0, 0, 0, 0, 0, 0, 255, 255, 255, 255
        ]
    );
    let (entry, next) = get_entry(&block, 0).unwrap();
    assert_eq!(entry.key, b"ab");
    assert_eq!(entry.value, Some(b"xyz".to_vec()));
    assert_eq!(entry.timestamp, 258);
    assert_eq!(next, 21);
    assert_eq!(search_block(&block, b"ab", 258).unwrap(), Some(Some(b"xyz".to_vec())));
    assert_eq!(search_block(&block, b"ab", 257).unwrap(), None);
    assert_eq!(search_block(&block, b"c", 3).unwrap(), Some(None));
    assert_eq!(search_block(&block, b"d", 9).unwrap(), None);
    assert!(matches!(search_block(&block[..30], b"d", 9), Err(Error::Corruption(_))));
}

#[test]
fn versions_are_found_across_blocks() {
    let mut builder = SSTableBuilder::new_with_compression(1000, CompressionType::Plain);
    builder.add(&Key::new(b"a".to_vec(), 1), Some(b"first"));
    for ts in (1..=1000u64).rev() {
        let value = format!("version {} {}", ts, "y".repeat(40));
        builder.add(&Key::new(b"k".to_vec(), ts), Some(value.as_bytes()));
    }
    builder.add(&Key::new(b"l".to_vec(), 2), Some(b"last"));
    let table = SSTable::open(1, builder.finish()).unwrap();
    assert!(table.num_blocks() > 5);
    for ts in [1u64, 2, 77, 500, 999, 1000] {
        let expected = format!("version {} {}", ts, "y".repeat(40)).into_bytes();
        assert_eq!(table.get_at_ts(b"k", ts).unwrap(), Some(Some(expected)));
    }
    assert_eq!(table.get_at_ts(b"k", 0).unwrap(), None);
    let newest = format!("version 1000 {}", "y".repeat(40)).into_bytes();
    assert_eq!(table.get(b"k").unwrap(), Some(newest));
    assert_eq!(table.get(b"l").unwrap(), Some(b"last".to_vec()));
    assert_eq!(table.get_at_ts(b"l", 1).unwrap(), None);
    assert_eq!(table.get(b"a").unwrap(), Some(b"first".to_vec()));
}

#[test]
fn iterators_end_behind_a_fault() {
    let mut image = build(CompressionType::Plain, 500);
    let table = SSTable::open(1, image.clone()).unwrap();
    let second = table.block_meta(1).offset as usize;
    image[second + 6] ^= 1;
    let table = Arc::new(SSTable::open(1, image).unwrap());
    let mut iter = SSTableIterator::new(table.clone()).unwrap();
    while iter.next().is_ok() {
        assert!(iter.is_valid());
    }
    assert!(!iter.is_valid());
    let mut merged = MergeIterator::new(vec![SSTableIterator::new(table).unwrap()]);
    while merged.next().is_ok() {
        assert!(merged.is_valid());
    }
    assert!(!merged.is_valid());
}

#[test]
fn filters_have_the_density_of_one_percent() {
    let rate: f64 = 0.01;
    let ln2 = std::f64::consts::LN_2;
    let bits_per_key = (-rate.ln() / (ln2 * ln2)).ceil() as usize;
    let num_hashes = ((bits_per_key as f64) * ln2).ceil() as u32;
    assert_eq!(bits_per_key, 10);
    assert_eq!(num_hashes, 7);
    let table = SSTable::open(1, build(CompressionType::Plain, 100)).unwrap();
    assert_eq!(table.get(b"key00001").unwrap().unwrap().len(), 35);
    let filter = BloomFilter::with_density(100, 10, 7);
    assert_eq!(filter.bits().len(), 125);
    assert_eq!(filter.num_hashes(), 7);
    assert_eq!(BloomFilter::with_density(1, 10, 7).bits().len(), 8);
}

#[test]
fn filters_never_lose_a_key() {
    let mut filter = BloomFilter::with_density(200, 10, 7);
    for i in 0..200 {
        filter.insert(format!("key{}", i).as_bytes());
    }
    for i in 0..200 {
        assert!(filter.may_contain(format!("key{}", i).as_bytes()));
    }
    let misses = (0..1000).filter(|i| !filter.may_contain(format!("no{}", i).as_bytes())).count();
    assert!(misses > 900);
    let copy = BloomFilter::from_bytes(filter.bits().to_vec(), filter.num_hashes());
    assert!(copy.may_contain(b"key0"));
    assert!(!BloomFilter::from_bytes(vec![0; 8], 3).may_contain(b"key0"));
}

#[test]
fn caches_forget_the_blocks_of_a_table() {
    let mut cache = BlockCache::new(1 << 20);
    cache.insert(BlockCacheKey::new(1, 0), vec![1; 10]);
    cache.insert(BlockCacheKey::new(1, 1), vec![2; 10]);
    cache.insert(BlockCacheKey::new(2, 0), vec![3; 10]);
    assert_eq!(*cache.get(&BlockCacheKey::new(1, 1)).unwrap(), vec![2; 10]);
    assert!(cache.get(&BlockCacheKey::new(9, 9)).is_none());
    cache.invalidate_sst(1);
    assert!(cache.get(&BlockCacheKey::new(1, 0)).is_none());
    assert!(cache.get(&BlockCacheKey::new(1, 1)).is_none());
    assert_eq!(*cache.get(&BlockCacheKey::new(2, 0)).unwrap(), vec![3; 10]);
    assert!(cache.entry_count() <= 3);
    assert!(cache.weighted_size() <= 30);
    assert_eq!(block_weight(&vec![0; 17]), 17);
}

#[test]
fn memory_tables_show_versions() {
    let mut table = MemTable::default();
    assert!(table.is_empty());
    table.put(Key::new(b"k".to_vec(), 1), b"one".to_vec());
    table.put(Key::new(b"k".to_vec(), 5), b"five".to_vec());
    table.delete(Key::new(b"k".to_vec(), 8));
    assert_eq!(table.len(), 3);
    assert_eq!(table.size(), 4 + 5 + 1);
    assert_eq!(table.get_at_ts(b"k", 0), None);
    assert_eq!(table.get_at_ts(b"k", 4), Some(Some(b"one".to_vec())));
    assert_eq!(table.get_at_ts(b"k", 7), Some(Some(b"five".to_vec())));
    assert_eq!(table.get_at_ts(b"k", u64::MAX), Some(None));
    assert_eq!(table.get_at_ts(b"j", 9), None);
    assert_eq!(table.get(&Key::new(b"k".to_vec(), 5)), Some(Some(b"five".to_vec())));
    assert_eq!(table.get(&Key::new(b"k".to_vec(), 6)), None);
    let order: Vec<u64> = table.iter().iter().map(|(k, _)| k.timestamp()).collect();
    assert_eq!(order, vec![8, 5, 1]);
}

#[test]
fn memory_iterators_seek() {
    let table = table(&[("a", 1), ("c", 2), ("c", 7), ("e", 3)]);
    let mut iter = MemTableIterator::new(&table);
    iter.seek(b"b");
    assert_eq!(keys(&mut iter), vec![("c".into(), 7), ("c".into(), 2), ("e".into(), 3)]);
}

#[test]
fn merges_go_in_order_and_drop_equal_keys() {
    let a = table(&[("a", 1), ("c", 2)]);
    let b = table(&[("b", 3), ("c", 2)]);
    let c = table(&[("a", 9), ("d", 4)]);
    let mut merged = MergeIterator::new(vec![
        MemTableIterator::new(&a),
        MemTableIterator::new(&b),
        MemTableIterator::new(&c),
    ]);
    assert_eq!(
        keys(&mut merged),
        vec![("a".into(), 9), ("b".into(), 3), ("c".into(), 2), ("d".into(), 4)]
    );
    let mut two = TwoMergeIterator::new(MemTableIterator::new(&a), MemTableIterator::new(&c));
    assert_eq!(keys(&mut two), vec![("a".into(), 9), ("c".into(), 2), ("d".into(), 4)]);
}

#[test]
fn bounded_iterators_stop_at_their_end() {
    let table = table(&[("a", 1), ("b", 1), ("c", 1)]);
    let end = Bound::Excluded(b"c".to_vec());
    let mut iter = BoundedIterator::new(MemTableIterator::new(&table), end);
    assert_eq!(keys(&mut iter).len(), 2);
    let end = Bound::Included(b"c".to_vec());
    let mut iter = BoundedIterator::new(MemTableIterator::new(&table), end);
    assert_eq!(keys(&mut iter).len(), 3);
    let mut iter = BoundedIterator::new(MemTableIterator::new(&table), Bound::Unbounded);
    assert_eq!(keys(&mut iter).len(), 3);
}
