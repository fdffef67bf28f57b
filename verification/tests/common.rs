use crabstash::common::byte_map::ByteMap;
use crabstash::common::clock::clock_reading;
use crabstash::common::codec::{copy_range, get_u32, get_u64, put_sized, put_u32, put_u64};
use crabstash::common::listing::{copy_set, keys_of, members};
use crabstash::common::lz4::is_overlong;
use crabstash::common::text::{decimal, parse_decimal, put_decimal, split};
use crabstash::common::{Bound, Key};
use std::collections::{HashMap, HashSet};

#[test]
fn integers_are_little_endian() {
    let mut buf: Vec<u8> = Vec::new();
    put_u32(&mut buf, 0x01020304);
    put_u64(&mut buf, 0x1112131415161718);
    put_sized(&mut buf, b"ab");
    assert_eq!(
        buf,
        [4, 3, 2, 1, 0x18, 0x17, 0x16, 0x15, 0x14, 0x13, 0x12, 0x11, 2, 0, 0, 0, b'a', b'b']
    );
    assert_eq!(get_u32(&buf, 0), 0x01020304);
    assert_eq!(get_u64(&buf, 4), 0x1112131415161718);
    assert_eq!(copy_range(&buf, 16, 18), b"ab");
}

#[test]
fn decimals_are_read_back() {
    for n in [0, 1, 9, 10, 12345, u64::MAX] {
        assert_eq!(decimal(n), n.to_string());
        let mut buf = Vec::new();
        put_decimal(&mut buf, n);
        assert_eq!(parse_decimal(&buf, u64::MAX), Some(n));
    }
    assert_eq!(parse_decimal(b"+7", 10), Some(7));
    assert_eq!(parse_decimal(b"", 10), None);
    assert_eq!(parse_decimal(b"-7", 10), None);
    assert_eq!(parse_decimal(b"11", 10), None);
    assert_eq!(parse_decimal(b"18446744073709551616", u64::MAX), None);
}

#[test]
fn lines_are_split() {
    let parts = split(b"a,b,,c", b',');
    assert_eq!(parts, vec![b"a".to_vec(), b"b".to_vec(), b"".to_vec(), b"c".to_vec()]);
}

#[test]
fn keys_are_ordered_from_new_to_old() {
    let old = Key::new(b"k".to_vec(), 1);
    let new = Key::new(b"k".to_vec(), 2);
    let other = Key::new(b"l".to_vec(), 9);
    assert!(new.is_before(&old));
    assert!(!old.is_before(&new));
    assert!(old.is_before(&other));
    assert_eq!(old.compare(&new), std::cmp::Ordering::Greater);
    assert_eq!(old.copy().into_data(), b"k");
}

#[test]
fn bounds_include_and_exclude() {
    let included = Bound::Included(b"m".to_vec());
    let excluded = Bound::Excluded(b"m".to_vec());
    assert!(included.starts_by(b"m"));
    assert!(!excluded.starts_by(b"m"));
    assert!(included.ends_after(b"m"));
    assert!(!excluded.ends_after(b"m"));
    assert!(Bound::Unbounded.starts_by(b""));
    assert_eq!(excluded.copy(), excluded);
}

#[test]
fn byte_maps_keep_their_order() {
    let mut map: ByteMap<u32> = ByteMap::new();
    for (i, key) in ["m", "a", "z", "b", "m"].iter().enumerate() {
        map.insert(key.as_bytes().to_vec(), i as u32);
    }
    assert_eq!(map.len(), 4);
    let keys: Vec<&[u8]> = (0..map.len()).map(|i| map.key_at(i)).collect();
    assert_eq!(keys, vec![b"a".as_slice(), b"b", b"m", b"z"]);
    assert_eq!(map.get(b"m"), Some(&4));
    assert_eq!(*map.value_at(0), 1);
    assert!(map.remove(b"m"));
    assert!(!map.remove(b"m"));
    assert!(!map.contains_key(b"m"));
    assert_eq!(map.len(), 3);
}

#[test]
fn listings_name_everything_once() {
    let set: HashSet<u64> = [5, 1, 9].into_iter().collect();
    let mut list = members(&set);
    list.sort();
    assert_eq!(list, vec![1, 5, 9]);
    assert_eq!(copy_set(&set), set);
    let map: HashMap<u64, bool> = [(3, true), (4, false)].into_iter().collect();
    let mut keys = keys_of(&map);
    keys.sort();
    assert_eq!(keys, vec![3, 4]);
}

#[test]
fn short_runs_are_not_overlong() {
    assert!(!is_overlong(&[]));
    assert!(!is_overlong(&[255; 1000]));
}

#[test]
fn clocks_are_read_in_milliseconds() {
    assert_eq!(clock_reading(None), 0);
    assert_eq!(clock_reading(Some(1_700_000_000_000)), 1_700_000_000_000);
    assert_eq!(clock_reading(Some((1u128 << 64) + 5)), 5);
}
