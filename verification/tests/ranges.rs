use crabstash::common::Bound;
use crabstash::lock::{IntervalTree, LockMode, RangeLockEntry};

fn included(key: &str) -> Bound {
    Bound::Included(key.as_bytes().to_vec())
}

fn excluded(key: &str) -> Bound {
    Bound::Excluded(key.as_bytes().to_vec())
}

#[test]
fn test_range_contains_key() {
    let range = RangeLockEntry::new(1, LockMode::X, included("a"), excluded("z"));

    assert!(range.contains_key(b"a"));
    assert!(range.contains_key(b"m"));
    assert!(range.contains_key(b"y"));
    assert!(!range.contains_key(b"z"));
    assert!(!range.contains_key(b"0"));
}

#[test]
fn test_range_overlaps() {
    let range = RangeLockEntry::new(1, LockMode::X, included("d"), excluded("h"));

    assert!(range.overlaps(&included("a"), &included("e")));
    assert!(range.overlaps(&included("f"), &included("z")));
    assert!(!range.overlaps(&included("a"), &excluded("d")));
    assert!(!range.overlaps(&included("h"), &included("z")));
}

#[test]
fn test_interval_tree_insert_find() {
    let mut tree = IntervalTree::new();

    tree.insert(RangeLockEntry::new(1, LockMode::S, included("a"), excluded("d")));
    tree.insert(RangeLockEntry::new(2, LockMode::S, included("f"), excluded("j")));

    let overlapping = tree.find_overlapping(&included("b"), &included("g"));

    assert_eq!(overlapping.len(), 2);
}

#[test]
fn test_interval_tree_find_containing_key() {
    let mut tree = IntervalTree::new();

    tree.insert(RangeLockEntry::new(1, LockMode::X, included("a"), excluded("m")));
    tree.insert(RangeLockEntry::new(2, LockMode::X, included("n"), excluded("z")));

    let containing = tree.find_containing_key(b"c");
    assert_eq!(containing.len(), 1);
    assert_eq!(containing[0].txn_id, 1);

    let containing = tree.find_containing_key(b"p");
    assert_eq!(containing.len(), 1);
    assert_eq!(containing[0].txn_id, 2);

    let containing = tree.find_containing_key(b"m");
    assert_eq!(containing.len(), 0);
}

#[test]
fn test_remove_by_txn() {
    let mut tree = IntervalTree::new();

    tree.insert(RangeLockEntry::new(1, LockMode::X, included("a"), excluded("m")));
    tree.insert(RangeLockEntry::new(2, LockMode::X, included("n"), excluded("z")));

    assert_eq!(tree.len(), 2);

    tree.remove_by_txn(1);
    assert_eq!(tree.len(), 1);

    let containing = tree.find_containing_key(b"c");
    assert_eq!(containing.len(), 0);
}

#[test]
fn search_agrees_with_looking_at_every_range() {
    let mut tree = IntervalTree::default();
    assert!(tree.is_empty());
    let mut seed: u64 = 12345;
    let mut ranges: Vec<(Bound, Bound)> = Vec::new();
    for id in 0..150u64 {
        seed = seed.wrapping_mul(6364136223846793005).wrapping_add(1442695040888963407);
        let low = (seed >> 33) % 26;
        let len = (seed >> 40) % 6;
        let start = vec![b'a' + low as u8];
        let end = vec![b'a' + (low + len).min(25) as u8];
        let (start, end) = match id % 4 {
            0 => (Bound::Included(start), Bound::Included(end)),
            1 => (Bound::Included(start), Bound::Excluded(end)),
            2 => (Bound::Excluded(start), Bound::Included(end)),
            _ => (Bound::Unbounded, Bound::Excluded(end)),
        };
        ranges.push((start.clone(), end.clone()));
        tree.insert(RangeLockEntry::new(id, LockMode::S, start, end));
    }
    for low in b'a'..=b'z' {
        let start = Bound::Included(vec![low]);
        let end = Bound::Excluded(vec![low + 2]);
        let mut found: Vec<u64> =
            tree.find_overlapping(&start, &end).iter().map(|e| e.txn_id).collect();
        found.sort();
        let mut expected: Vec<u64> = Vec::new();
        for (id, range) in ranges.iter().enumerate() {
            let entry =
                RangeLockEntry::new(id as u64, LockMode::S, range.0.clone(), range.1.clone());
            if entry.overlaps(&start, &end) {
                expected.push(id as u64);
            }
        }
        assert_eq!(found, expected);
    }
}

#[test]
fn ranges_without_an_end_reach_every_key() {
    let mut tree = IntervalTree::new();
    tree.insert(RangeLockEntry::new(1, LockMode::X, included("m"), Bound::Unbounded));
    tree.insert(RangeLockEntry::new(2, LockMode::X, included("a"), excluded("c")));
    tree.insert(RangeLockEntry::new(3, LockMode::X, included("x"), included("y")));
    let far = vec![0xFFu8; 300];
    let found: Vec<u64> = tree.find_containing_key(&far).iter().map(|e| e.txn_id).collect();
    assert_eq!(found, vec![1]);
    assert_eq!(tree.find_overlapping(&Bound::Excluded(far), &Bound::Unbounded).len(), 1);
}

#[test]
fn results_come_by_where_the_ranges_start() {
    let mut tree = IntervalTree::new();
    for (id, key) in ["m", "c", "x", "a", "p"].iter().enumerate() {
        tree.insert(RangeLockEntry::new(id as u64, LockMode::S, included(key), included("z")));
    }
    let starts: Vec<u64> = tree
        .find_overlapping(&Bound::Unbounded, &Bound::Unbounded)
        .iter()
        .map(|e| e.txn_id)
        .collect();
    assert_eq!(starts, vec![3, 1, 0, 4, 2]);
}
