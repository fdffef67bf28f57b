//! Comparison of byte strings, sixteen bytes at a time.

use crate::common::order;
use std::cmp::Ordering;
use vstd::prelude::*;
use wide::u8x16;

verus! {

/// How many bytes one vector comparison covers.
pub const CHUNK_SIZE: usize = 16;

/// The mask of a comparison in which every lane agrees.
pub const ALL_EQUAL_MASK: u32 = 0xFFFF;

/// Whether lane `i` is set in `mask`.
pub open spec fn lane(mask: u32, i: int) -> bool {
    mask & (1u32 << (i as u32)) != 0
}

/// Calls `wide::u8x16::simd_eq` and `wide::u8x16::to_bitmask` on two vectors of
/// sixteen lanes. Claimed of them: bit `i` of the result is set exactly where lane
/// `i` of the two agrees, and no bit from the sixteenth on is set.
#[verifier::external_body]
fn equal_lanes(a: [u8; 16], b: [u8; 16]) -> (mask: u32)
    ensures
        mask <= 0xFFFF,
        forall|i: int| 0 <= i < 16 ==> (#[trigger] lane(mask, i) <==> a@[i] == b@[i]),
{
    u8x16::new(a).simd_eq(u8x16::new(b)).to_bitmask()
}

/// The sixteen bytes of `slice` from `offset` on.
fn load_chunk(slice: &[u8], offset: usize) -> (chunk: [u8; 16])
    requires
        offset + CHUNK_SIZE <= slice@.len(),
    ensures
        chunk@ == slice@.subrange(offset as int, offset + CHUNK_SIZE),
{
    let len: usize = slice.len();
    let mut chunk: [u8; 16] = [0u8; 16];
    let mut i: usize = 0;
    while i < CHUNK_SIZE
        invariant
            i <= CHUNK_SIZE,
            len == slice@.len(),
            offset + CHUNK_SIZE <= len,
            forall|j: int| 0 <= j < i ==> chunk@[j] == slice@[offset + j],
        decreases CHUNK_SIZE - i,
    {
        chunk[i] = slice[offset + i];
        i += 1;
    }
    assert(chunk@ =~= slice@.subrange(offset as int, offset + CHUNK_SIZE));
    chunk
}

proof fn lemma_all_lanes(mask: u32)
    requires
        mask <= 0xFFFF,
    ensures
        mask == 0xFFFF <==> forall|i: int| 0 <= i < 16 ==> #[trigger] lane(mask, i),
{
    assert forall|i: int| mask == 0xFFFF && 0 <= i < 16 implies #[trigger] lane(mask, i) by {
        let k = i as u32;
        assert(0xFFFFu32 & (1u32 << k) != 0) by (bit_vector)
            requires
                k < 16,
        ;
    }
    if forall|i: int| 0 <= i < 16 ==> #[trigger] lane(mask, i) {
        assert(lane(mask, 0) && lane(mask, 1) && lane(mask, 2) && lane(mask, 3));
        assert(lane(mask, 4) && lane(mask, 5) && lane(mask, 6) && lane(mask, 7));
        assert(lane(mask, 8) && lane(mask, 9) && lane(mask, 10) && lane(mask, 11));
        assert(lane(mask, 12) && lane(mask, 13) && lane(mask, 14) && lane(mask, 15));
        assert(mask == 0xFFFF) by (bit_vector)
            requires
                mask <= 0xFFFF,
                mask & (1u32 << 0u32) != 0,
                mask & (1u32 << 1u32) != 0,
                mask & (1u32 << 2u32) != 0,
                mask & (1u32 << 3u32) != 0,
                mask & (1u32 << 4u32) != 0,
                mask & (1u32 << 5u32) != 0,
                mask & (1u32 << 6u32) != 0,
                mask & (1u32 << 7u32) != 0,
                mask & (1u32 << 8u32) != 0,
                mask & (1u32 << 9u32) != 0,
                mask & (1u32 << 10u32) != 0,
                mask & (1u32 << 11u32) != 0,
                mask & (1u32 << 12u32) != 0,
                mask & (1u32 << 13u32) != 0,
                mask & (1u32 << 14u32) != 0,
                mask & (1u32 << 15u32) != 0,
        ;
    }
}

/// The first lane in which a mask that is not full is clear.
fn first_clear_lane(mask: u32) -> (first: usize)
    requires
        mask < 0xFFFF,
    ensures
        first < 16,
        !lane(mask, first as int),
        forall|i: int| 0 <= i < first ==> #[trigger] lane(mask, i),
{
    let inverted: u32 = !mask;
    assert(inverted != 0) by (bit_vector)
        requires
            mask < 0xFFFF,
            inverted == !mask,
    ;
    let first: u32 = inverted.trailing_zeros();
    proof {
        vstd::std_specs::bits::axiom_u32_trailing_zeros(inverted);
        assert forall|i: int| 0 <= i < first implies #[trigger] lane(mask, i) by {
            let k = i as u32;
            assert((inverted >> k) & 1u32 == 0u32);
            assert(mask & (1u32 << k) != 0) by (bit_vector)
                requires
                    inverted == !mask,
                    k < 32,
                    (inverted >> k) & 1u32 == 0u32,
            ;
        }
        lemma_all_lanes(mask);
        assert(mask & (1u32 << first) == 0) by (bit_vector)
            requires
                inverted == !mask,
                first < 32,
                (inverted >> first) & 1u32 == 1u32,
        ;
    }
    first as usize
}

/// Compares two byte strings lexicographically.
pub fn compare_bytes(a: &[u8], b: &[u8]) -> (result: Ordering)
    ensures
        result == order::compare(a@, b@),
{
    let min_len: usize = if a.len() < b.len() {
        a.len()
    } else {
        b.len()
    };
    let mut offset: usize = 0;
    while min_len - offset >= CHUNK_SIZE
        invariant
            offset <= min_len,
            min_len <= a@.len(),
            min_len <= b@.len(),
            forall|j: int| 0 <= j < offset ==> a@[j] == b@[j],
        decreases min_len - offset,
    {
        let chunk_a: [u8; 16] = load_chunk(a, offset);
        let chunk_b: [u8; 16] = load_chunk(b, offset);
        let bitmask: u32 = equal_lanes(chunk_a, chunk_b);
        proof {
            lemma_all_lanes(bitmask);
            assert forall|i: int| 0 <= i < 16 implies #[trigger] chunk_a@[i] == a@[offset + i]
                && chunk_b@[i] == b@[offset + i] by {}
        }
        if bitmask != ALL_EQUAL_MASK {
            let idx: usize = offset + first_clear_lane(bitmask);
            proof {
                assert forall|j: int| 0 <= j < idx implies a@[j] == b@[j] by {
                    if j >= offset {
                        assert(lane(bitmask, j - offset));
                        assert(chunk_a@[j - offset] == a@[offset + (j - offset)]);
                    }
                }
                lemma_first_difference(a@, b@, idx);
            }
            return if a[idx] < b[idx] {
                Ordering::Less
            } else {
                Ordering::Greater
            };
        }
        assert forall|j: int| 0 <= j < offset + CHUNK_SIZE implies a@[j] == b@[j] by {
            if j >= offset {
                assert(lane(bitmask, j - offset));
                assert(chunk_a@[j - offset] == a@[offset + (j - offset)]);
            }
        }
        offset += CHUNK_SIZE;
    }
    let mut i: usize = offset;
    while i < min_len
        invariant
            i <= min_len,
            min_len <= a@.len(),
            min_len <= b@.len(),
            forall|j: int| 0 <= j < i ==> a@[j] == b@[j],
        decreases min_len - i,
    {
        if a[i] != b[i] {
            proof {
                lemma_first_difference(a@, b@, i);
            }
            return if a[i] < b[i] {
                Ordering::Less
            } else {
                Ordering::Greater
            };
        }
        i += 1;
    }
    if a.len() == b.len() {
        assert(a@ =~= b@);
        Ordering::Equal
    } else {
        proof {
            lemma_proper_prefix(a@, b@, min_len);
        }
        if a.len() < b.len() {
            Ordering::Less
        } else {
            Ordering::Greater
        }
    }
}

proof fn lemma_first_difference(a: Seq<u8>, b: Seq<u8>, i: usize)
    requires
        i < a.len(),
        i < b.len(),
        a[i as int] != b[i as int],
        forall|j: int| 0 <= j < i ==> a[j] == b[j],
    ensures
        a != b,
        order::less(a, b) <==> a[i as int] < b[i as int],
        order::less(b, a) <==> b[i as int] < a[i as int],
{
    reveal(order::less);
    if a[i as int] < b[i as int] {
        assert(order::precedes_at(a, b, i as int));
        order::lemma_asymmetric(a, b);
    } else {
        assert(order::precedes_at(b, a, i as int));
        order::lemma_asymmetric(b, a);
    }
}

proof fn lemma_proper_prefix(a: Seq<u8>, b: Seq<u8>, n: usize)
    requires
        a.len() != b.len(),
        n == a.len() || n == b.len(),
        n <= a.len(),
        n <= b.len(),
        forall|j: int| 0 <= j < n ==> a[j] == b[j],
    ensures
        order::less(a, b) <==> a.len() < b.len(),
{
    reveal(order::less);
    if a.len() < b.len() {
        assert(order::precedes_at(a, b, n as int));
    } else {
        assert(order::precedes_at(b, a, n as int));
        order::lemma_asymmetric(b, a);
    }
}

/// Whether two byte strings are equal.
pub fn bytes_equal(a: &[u8], b: &[u8]) -> (result: bool)
    ensures
        result == (a@ == b@),
{
    if a.len() != b.len() {
        return false;
    }
    let len: usize = a.len();
    let mut offset: usize = 0;
    while len - offset >= CHUNK_SIZE
        invariant
            offset <= len,
            len == a@.len(),
            len == b@.len(),
            forall|j: int| 0 <= j < offset ==> a@[j] == b@[j],
        decreases len - offset,
    {
        let chunk_a: [u8; 16] = load_chunk(a, offset);
        let chunk_b: [u8; 16] = load_chunk(b, offset);
        let bitmask: u32 = equal_lanes(chunk_a, chunk_b);
        proof {
            lemma_all_lanes(bitmask);
            assert forall|i: int| 0 <= i < 16 implies #[trigger] chunk_a@[i] == a@[offset + i]
                && chunk_b@[i] == b@[offset + i] by {}
        }
        if bitmask != ALL_EQUAL_MASK {
            proof {
                let i = choose|i: int| 0 <= i < 16 && !#[trigger] lane(bitmask, i);
                assert(a@[offset + i] != b@[offset + i]);
            }
            return false;
        }
        assert forall|j: int| 0 <= j < offset + CHUNK_SIZE implies a@[j] == b@[j] by {
            if j >= offset {
                assert(lane(bitmask, j - offset));
                assert(chunk_a@[j - offset] == a@[offset + (j - offset)]);
            }
        }
        offset += CHUNK_SIZE;
    }
    let mut i: usize = offset;
    while i < len
        invariant
            i <= len,
            len == a@.len(),
            len == b@.len(),
            forall|j: int| 0 <= j < i ==> a@[j] == b@[j],
        decreases len - i,
    {
        if a[i] != b[i] {
            return false;
        }
        i += 1;
    }
    assert(a@ =~= b@);
    true
}

/// Whether `a` stands strictly before `b`.
pub fn bytes_less(a: &[u8], b: &[u8]) -> (result: bool)
    ensures
        result == order::less(a@, b@),
{
    proof {
        order::lemma_compare_reversed(a@, b@);
    }
    match compare_bytes(a, b) {
        Ordering::Less => true,
        _ => false,
    }
}

/// Whether `a` stands before `b` or is equal to it.
pub fn bytes_at_most(a: &[u8], b: &[u8]) -> (result: bool)
    ensures
        result == order::at_most(a@, b@),
{
    proof {
        order::lemma_compare_reversed(a@, b@);
    }
    match compare_bytes(a, b) {
        Ordering::Greater => false,
        _ => true,
    }
}

} // verus!
