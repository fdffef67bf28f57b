//! LZ4 block compression.

use crate::common::codec;
use vstd::prelude::*;

verus! {

/// What `lz4_flex::decompress_size_prepended` makes of `packed`: the bytes, or the text
/// of its error.
pub uninterp spec fn lz4_unpacked(packed: Seq<u8>) -> Result<Seq<u8>, Seq<char>>;

/// What `lz4_flex::decompress_into` makes of `packed` in a buffer of `size` zero bytes:
/// the whole buffer afterwards, or the text of its error.
pub uninterp spec fn lz4_filled(packed: Seq<u8>, size: nat) -> Result<Seq<u8>, Seq<char>>;

/// How many bytes compression makes of `len` bytes at most.
pub open spec fn longest_packed(len: nat) -> nat {
    20 + len * 110 / 100
}

/// `packed` begins with the length of `data`, in 32 bits. Decompressed, it gives `data`, if
/// that is short enough for such a length.
pub open spec fn unpacks_to(packed: Seq<u8>, data: Seq<u8>) -> bool {
    &&& 4 <= packed.len() <= 4 + longest_packed(data.len())
    &&& data.len() <= u32::MAX ==> codec::int32_at(packed, 0) == data.len() && lz4_unpacked(packed)
        == Ok::<Seq<u8>, Seq<char>>(data)
}

/// Decompressed into a buffer of its length, `packed` gives `data`, if that is short
/// enough for a 32-bit length.
pub open spec fn fills_to(packed: Seq<u8>, data: Seq<u8>) -> bool {
    &&& packed.len() <= longest_packed(data.len())
    &&& data.len() <= u32::MAX ==> lz4_filled(packed, data.len()) == Ok::<Seq<u8>, Seq<char>>(data)
}

/// An input of this length can be compressed: the size of the output buffer, a tenth
/// more than that of the input, is computed without overflow and can be allocated.
pub open spec fn packable(len: nat) -> bool {
    len <= usize::MAX / 220
}

/// The decompressor's sums of lengths stay within `usize`: a byte of compressed data adds at
/// most 255 to a length, and these come on top of the `size` of the output.
pub open spec fn countable(len: nat, size: nat) -> bool {
    255 * len + 19 + size <= usize::MAX
}

/// The output has a size that can be allocated, and no sum of lengths overflows.
pub open spec fn allocatable(len: nat, size: nat) -> bool {
    size <= isize::MAX && countable(len, size)
}

/// The length in front of `packed`, if there is one, is such a size.
pub open spec fn size_allocatable(packed: Seq<u8>) -> bool {
    packed.len() >= 4 ==> allocatable(packed.len(), codec::int32_at(packed, 0) as nat)
}

/// Whether `size` bytes can be had from `len` compressed ones.
pub fn is_allocatable(len: usize, size: usize) -> (result: bool)
    ensures
        result == allocatable(len as nat, size as nat),
{
    size <= isize::MAX as usize && 255 * len as u128 + 19 + size as u128 <= usize::MAX as u128
}

/// Whether the length in front of compressed data, if there is one, can be allocated.
pub fn is_size_allocatable(packed: &[u8]) -> (result: bool)
    ensures
        result == size_allocatable(packed@),
{
    if packed.len() < 4 {
        return true;
    }
    let size: u32 = codec::get_u32(packed, 0);
    if size as u64 > isize::MAX as u64 {
        return false;
    }
    is_allocatable(packed.len(), size as usize)
}

/// How many bytes of value 255 a length in compressed data can hold in a row before the
/// decompressor's 32-bit sum of them overflows.
pub const LONGEST_RUN: usize = 16_843_009;

/// `data` holds `LONGEST_RUN` bytes of value 255 in a row, up to `end`.
pub open spec fn run_ends_at(data: Seq<u8>, end: int) -> bool {
    &&& LONGEST_RUN <= end <= data.len()
    &&& forall|j: int| end - LONGEST_RUN <= j < end ==> data[j] == 255
}

/// A length in `data` may overflow the decompressor's sum.
pub open spec fn overlong(data: Seq<u8>) -> bool {
    exists|end: int| run_ends_at(data, end)
}

/// Short data holds no length that could overflow.
pub proof fn lemma_short_is_not_overlong(data: Seq<u8>)
    requires
        data.len() < LONGEST_RUN,
    ensures
        !overlong(data),
{
}

/// Up to this length, data is given back once it was compressed, whatever it is: no length
/// in what is made of it can overflow.
pub const RESTORABLE: usize = 15_100_000;

/// Data that is not too long can be compressed.
pub proof fn lemma_is_packable(len: nat)
    requires
        len <= RESTORABLE,
    ensures
        packable(len),
{
}

/// Data that is not too long is given back by a buffer of its length.
pub proof fn lemma_filled_again(packed: Seq<u8>, data: Seq<u8>)
    requires
        fills_to(packed, data),
        data.len() <= RESTORABLE,
    ensures
        !overlong(packed),
        allocatable(packed.len(), data.len()),
        lz4_filled(packed, data.len()) == Ok::<Seq<u8>, Seq<char>>(data),
        packed.len() <= 16_700_000,
{
    lemma_short_is_not_overlong(packed);
}

/// Data that is not too long is given back by its length.
pub proof fn lemma_unpacked_again(packed: Seq<u8>, data: Seq<u8>)
    requires
        unpacks_to(packed, data),
        data.len() <= RESTORABLE,
    ensures
        !overlong(packed),
        size_allocatable(packed),
        lz4_unpacked(packed) == Ok::<Seq<u8>, Seq<char>>(data),
{
    lemma_short_is_not_overlong(packed);
}

/// Whether a length in `data` may overflow the decompressor's sum.
pub fn is_overlong(data: &[u8]) -> (result: bool)
    ensures
        result == overlong(data@),
{
    if data.len() < LONGEST_RUN {
        proof {
            lemma_short_is_not_overlong(data@);
        }
        return false;
    }
    let mut run: usize = 0;
    let mut i: usize = 0;
    while i < data.len()
        invariant
            i <= data@.len(),
            run <= i,
            run < LONGEST_RUN,
            forall|j: int| i - run <= j < i ==> data@[j] == 255,
            run < i ==> data@[i - run - 1] != 255,
            forall|end: int| end <= i ==> !run_ends_at(data@, end),
        decreases data@.len() - i,
    {
        let ghost before = i as int;
        let ghost shorter = run as int;
        if data[i] == 255 {
            run += 1;
            if run == LONGEST_RUN {
                assert(run_ends_at(data@, i + 1));
                return true;
            }
        } else {
            run = 0;
        }
        i += 1;
        assert(!run_ends_at(data@, i as int)) by {
            if run_ends_at(data@, i as int) {
                if run == 0 {
                    assert(data@[i - 1] == 255);
                } else {
                    assert(data@[i - run - 1] == 255);
                }
            }
        }
    }
    assert forall|end: int| !run_ends_at(data@, end) by {
        if end > data@.len() {
        }
    }
    false
}

/// Calls `lz4_flex::compress_prepend_size`, which returns the length of `data` in four
/// bytes, the least first, and the compressed data, which is no longer than the room that it
/// makes for it: a tenth more than that length and 20 bytes. What it wrote of at most
/// `u32::MAX` bytes, `lz4_flex::decompress_size_prepended` gives back. The compressed bytes
/// themselves depend on the machine, and nothing else is claimed of them.
#[verifier::external_body]
pub(crate) fn pack_with_size(data: &[u8]) -> (packed: Vec<u8>)
    requires
        packable(data@.len()),
    ensures
        unpacks_to(packed@, data@),
{
    lz4_flex::compress_prepend_size(data)
}

/// Calls `lz4_flex::decompress_size_prepended`, which returns the decompressed bytes or
/// an error, here its text. The input alone determines which and what.
#[verifier::external_body]
pub(crate) fn unpack_with_size(packed: &[u8]) -> (data: Result<Vec<u8>, String>)
    requires
        !overlong(packed@),
        size_allocatable(packed@),
    ensures
        match data {
            Ok(bytes) => lz4_unpacked(packed@) matches Ok(d) && d == bytes@,
            Err(text) => lz4_unpacked(packed@) matches Err(t) && t == text@,
        },
{
    lz4_flex::decompress_size_prepended(packed).map_err(|e| e.to_string())
}

/// Calls `lz4_flex::compress`, which returns the compressed data, which is no longer than the
/// room that it makes for it: a tenth more than the length of `data` and 20 bytes. What it
/// wrote of at most `u32::MAX` bytes, `lz4_flex::decompress_into` gives back in a buffer of
/// their length. The compressed bytes themselves depend on the machine, and nothing else is
/// claimed of them.
#[verifier::external_body]
pub(crate) fn pack(data: &[u8]) -> (packed: Vec<u8>)
    requires
        packable(data@.len()),
    ensures
        fills_to(packed@, data@),
{
    lz4_flex::compress(data)
}

/// Calls `lz4_flex::decompress_into` on a buffer of `size` zero bytes, which it fills
/// from the front or leaves with an error, here its text. The input and the size alone
/// determine which and what; the buffer keeps its length.
#[verifier::external_body]
pub(crate) fn unpack_into(packed: &[u8], size: usize) -> (data: Result<Vec<u8>, String>)
    requires
        !overlong(packed@),
        allocatable(packed@.len(), size as nat),
    ensures
        match data {
            Ok(bytes) => bytes@.len() == size && (lz4_filled(packed@, size as nat) matches Ok(d) && d
                == bytes@),
            Err(text) => lz4_filled(packed@, size as nat) matches Err(t) && t == text@,
        },
{
    let mut output = vec![0u8; size];
    match lz4_flex::decompress_into(packed, &mut output) {
        Ok(_) => Ok(output),
        Err(e) => Err(e.to_string()),
    }
}

} // verus!
