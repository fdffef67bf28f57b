use crabstash::common::simd::{bytes_at_most, bytes_equal, bytes_less, compare_bytes};
use std::cmp::Ordering;

#[test]
fn test_compare_equal() {
    let a = b"hello world";
    let b = b"hello world";
    assert_eq!(compare_bytes(a, b), Ordering::Equal);
}

#[test]
fn test_compare_less() {
    let a = b"hello";
    let b = b"world";
    assert_eq!(compare_bytes(a, b), Ordering::Less);
}

#[test]
fn test_compare_greater() {
    let a = b"world";
    let b = b"hello";
    assert_eq!(compare_bytes(a, b), Ordering::Greater);
}

#[test]
fn test_compare_prefix() {
    let a = b"hello";
    let b = b"hello world";
    assert_eq!(compare_bytes(a, b), Ordering::Less);
}

#[test]
fn test_compare_long_strings() {
    let a = b"this is a very long string that exceeds sixteen bytes";
    let b = b"this is a very long string that exceeds sixteen bytes";
    assert_eq!(compare_bytes(a, b), Ordering::Equal);
}

#[test]
fn test_compare_long_strings_diff() {
    let a = b"this is a very long string that exceeds sixteen bytes AAA";
    let b = b"this is a very long string that exceeds sixteen bytes BBB";
    assert_eq!(compare_bytes(a, b), Ordering::Less);
}

#[test]
fn test_bytes_equal() {
    assert!(bytes_equal(b"hello", b"hello"));
    assert!(!bytes_equal(b"hello", b"world"));
    assert!(!bytes_equal(b"hello", b"hello world"));
}

#[test]
fn test_bytes_equal_long() {
    let a = b"this is a very long string for testing simd equality";
    let b = b"this is a very long string for testing simd equality";
    assert!(bytes_equal(a, b));
}

#[test]
fn comparison_agrees_with_slices_at_every_position() {
    let mut base: Vec<u8> = Vec::new();
    for i in 0..70u8 {
        base.push(i);
    }
    for len in 0..70usize {
        for at in 0..len {
            for delta in [1u8, 200u8] {
                let mut other = base[..len].to_vec();
                other[at] = other[at].wrapping_add(delta);
                let plain = base[..len].cmp(other.as_slice());
                assert_eq!(compare_bytes(&base[..len], &other), plain);
                assert_eq!(compare_bytes(&other, &base[..len]), plain.reverse());
                assert!(!bytes_equal(&base[..len], &other));
            }
        }
        assert!(bytes_equal(&base[..len], &base[..len]));
    }
}

#[test]
fn strict_and_weak_order_differ_on_equal_strings() {
    assert!(!bytes_less(b"a", b"a"));
    assert!(bytes_at_most(b"a", b"a"));
    assert!(bytes_less(b"", b"a"));
    assert!(!bytes_at_most(b"b", b"a"));
}
