//! Little-endian integers and byte strings in buffers.

use vstd::bytes::{
    spec_u32_from_le_bytes, spec_u32_to_le_bytes, spec_u64_from_le_bytes, spec_u64_to_le_bytes,
    u32_from_le_bytes, u32_to_le_bytes, u64_from_le_bytes, u64_to_le_bytes,
};
use vstd::prelude::*;
use vstd::slice::{slice_subrange, slice_to_vec};

verus! {

/// The four little-endian bytes of `x`.
pub open spec fn le32(x: u32) -> Seq<u8> {
    spec_u32_to_le_bytes(x)
}

/// The eight little-endian bytes of `x`.
pub open spec fn le64(x: u64) -> Seq<u8> {
    spec_u64_to_le_bytes(x)
}

/// The 32-bit integer that stands at `pos`.
pub open spec fn int32_at(data: Seq<u8>, pos: int) -> u32 {
    spec_u32_from_le_bytes(data.subrange(pos, pos + 4))
}

/// The 64-bit integer that stands at `pos`.
pub open spec fn int64_at(data: Seq<u8>, pos: int) -> u64 {
    spec_u64_from_le_bytes(data.subrange(pos, pos + 8))
}

/// A byte string behind its 32-bit length.
pub open spec fn sized(data: Seq<u8>) -> Seq<u8> {
    le32(data.len() as u32) + data
}

/// An integer that was written is read back.
pub proof fn lemma_le_round_trip()
    ensures
        forall|x: u32| #[trigger] le32(x).len() == 4,
        forall|x: u64| #[trigger] le64(x).len() == 8,
        forall|x: u32| spec_u32_from_le_bytes(#[trigger] le32(x)) == x,
        forall|x: u64| spec_u64_from_le_bytes(#[trigger] le64(x)) == x,
{
    vstd::bytes::lemma_auto_spec_u32_to_from_le_bytes();
    vstd::bytes::lemma_auto_spec_u64_to_from_le_bytes();
    assert forall|x: u32| spec_u32_from_le_bytes(#[trigger] le32(x)) == x by {
        assert(spec_u32_to_le_bytes(x).len() == 4);
    }
}

/// An integer is read back from the middle of a buffer.
pub proof fn lemma_int32_at(before: Seq<u8>, x: u32, after: Seq<u8>)
    ensures
        int32_at(before + le32(x) + after, before.len() as int) == x,
        le32(x).len() == 4,
{
    lemma_le_round_trip();
    let data = before + le32(x) + after;
    assert(data.subrange(before.len() as int, before.len() as int + 4) =~= le32(x));
}

/// A 64-bit integer is read back from the middle of a buffer.
pub proof fn lemma_int64_at(before: Seq<u8>, x: u64, after: Seq<u8>)
    ensures
        int64_at(before + le64(x) + after, before.len() as int) == x,
        le64(x).len() == 8,
{
    lemma_le_round_trip();
    let data = before + le64(x) + after;
    assert(data.subrange(before.len() as int, before.len() as int + 8) =~= le64(x));
}

/// Appends a 32-bit integer.
pub fn put_u32(buf: &mut Vec<u8>, x: u32)
    ensures
        final(buf)@ == old(buf)@ + le32(x),
{
    let mut bytes: Vec<u8> = u32_to_le_bytes(x);
    buf.append(&mut bytes);
}

/// Appends a 64-bit integer.
pub fn put_u64(buf: &mut Vec<u8>, x: u64)
    ensures
        final(buf)@ == old(buf)@ + le64(x),
{
    let mut bytes: Vec<u8> = u64_to_le_bytes(x);
    buf.append(&mut bytes);
}

/// Appends a byte string as it stands.
pub fn put_slice(buf: &mut Vec<u8>, data: &[u8])
    ensures
        final(buf)@ == old(buf)@ + data@,
{
    let mut bytes: Vec<u8> = slice_to_vec(data);
    buf.append(&mut bytes);
}

/// Appends a byte string behind its length, of which the low 32 bits are kept.
pub fn put_sized(buf: &mut Vec<u8>, data: &[u8])
    ensures
        final(buf)@ == old(buf)@ + sized(data@),
{
    put_u32(buf, #[verifier::truncate] (data.len() as u32));
    put_slice(buf, data);
    assert(buf@ =~= old(buf)@ + sized(data@));
}

/// Reads the 32-bit integer at `pos`.
pub fn get_u32(data: &[u8], pos: usize) -> (x: u32)
    requires
        pos + 4 <= data@.len(),
    ensures
        x == int32_at(data@, pos as int),
{
    let len: usize = data.len();
    u32_from_le_bytes(slice_subrange(data, pos, pos + 4))
}

/// Reads the 64-bit integer at `pos`.
pub fn get_u64(data: &[u8], pos: usize) -> (x: u64)
    requires
        pos + 8 <= data@.len(),
    ensures
        x == int64_at(data@, pos as int),
{
    let len: usize = data.len();
    u64_from_le_bytes(slice_subrange(data, pos, pos + 8))
}

/// Copies the bytes from `from` up to `to`.
pub fn copy_range(data: &[u8], from: usize, to: usize) -> (copy: Vec<u8>)
    requires
        from <= to <= data@.len(),
    ensures
        copy@ == data@.subrange(from as int, to as int),
{
    slice_to_vec(slice_subrange(data, from, to))
}

/// Copies a whole byte string.
pub fn copy_bytes(data: &[u8]) -> (copy: Vec<u8>)
    ensures
        copy@ == data@,
{
    slice_to_vec(data)
}

} // verus!
