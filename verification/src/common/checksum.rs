//! Checksums of byte strings.

use vstd::prelude::*;

verus! {

/// The CRC-32 checksum of `data`, as crc32fast computes it.
pub uninterp spec fn crc32(data: Seq<u8>) -> u32;

/// Calls `crc32fast::hash`, which returns the CRC-32 checksum of the bytes. Nothing is
/// claimed of the checksum but that the bytes alone determine it.
#[verifier::external_body]
pub(crate) fn checksum(data: &[u8]) -> (sum: u32)
    ensures
        sum == crc32(data@),
{
    crc32fast::hash(data)
}

} // verus!
