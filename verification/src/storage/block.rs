//! The entries of a table block.
//!
//! An entry is its key behind the key's length, its timestamp, and its value behind the
//! value's length. A deleted key has the greatest length and no value.

use crate::common::codec;
use crate::common::error::{Error, Fault};
use crate::common::simd::bytes_equal;
use vstd::prelude::*;

verus! {

/// The length that stands for a deleted key.
pub const TOMBSTONE: u32 = 0xFFFF_FFFF;

/// A version of a key and its value, or none where the key is deleted.
pub struct BlockEntry {
    pub key: Vec<u8>,
    pub timestamp: u64,
    pub value: Option<Vec<u8>>,
}

/// An entry as a mathematical value.
#[verifier::ext_equal]
pub struct EntryView {
    pub key: Seq<u8>,
    pub timestamp: u64,
    pub value: Option<Seq<u8>>,
}

/// What a lookup gave: a value, that the key is deleted, or nothing.
pub open spec fn version_view(found: Option<Option<Vec<u8>>>) -> Option<Option<Seq<u8>>> {
    match found {
        Some(Some(v)) => Some(Some(v@)),
        Some(None) => Some(None),
        None => None,
    }
}

/// A lookup gave what is written.
pub open spec fn found(
    result: Result<Option<Option<Vec<u8>>>, Error>,
    answer: Result<Option<Option<Seq<u8>>>, Fault>,
) -> bool {
    match result {
        Ok(v) => answer == Ok::<Option<Option<Seq<u8>>>, Fault>(version_view(v)),
        Err(e) => answer == Err::<Option<Option<Seq<u8>>>, Fault>(e@),
    }
}

impl View for BlockEntry {
    type V = EntryView;

    open spec fn view(&self) -> EntryView {
        EntryView {
            key: self.key@,
            timestamp: self.timestamp,
            value: match self.value {
                Some(v) => Some(v@),
                None => None,
            },
        }
    }
}

impl EntryView {
    pub open spec fn encoded(self) -> Seq<u8> {
        codec::sized(self.key) + codec::le64(self.timestamp) + match self.value {
            Some(v) => codec::sized(v),
            None => codec::le32(TOMBSTONE),
        }
    }

    /// The lengths of key and value can be told apart from those that are cut off and
    /// from that of a deleted key.
    pub open spec fn storable(self) -> bool {
        &&& self.key.len() <= u32::MAX
        &&& self.value matches Some(v) ==> v.len() < u32::MAX
    }
}

/// The entries, one behind the other.
pub open spec fn encoded_block(entries: Seq<EntryView>) -> Seq<u8>
    decreases entries.len(),
{
    if entries.len() == 0 {
        Seq::empty()
    } else {
        encoded_block(entries.drop_last()) + entries.last().encoded()
    }
}

/// The entry at `pos` and where the next one begins, if the block holds a whole one.
pub open spec fn entry_at(block: Seq<u8>, pos: int) -> Option<(EntryView, int)> {
    if pos + 4 > block.len() {
        None
    } else {
        let key_end = pos + 4 + codec::int32_at(block, pos);
        if key_end + 12 > block.len() {
            None
        } else {
            let key = block.subrange(pos + 4, key_end);
            let timestamp = codec::int64_at(block, key_end);
            let value_len = codec::int32_at(block, key_end + 8);
            let start = key_end + 12;
            if value_len == TOMBSTONE {
                Some((EntryView { key, timestamp, value: None }, start))
            } else if start + value_len > block.len() {
                None
            } else {
                let value = Some(block.subrange(start, start + value_len));
                Some((EntryView { key, timestamp, value }, start + value_len))
            }
        }
    }
}

pub open spec fn torn_block() -> Fault {
    Fault::Corruption("Truncated block entry"@)
}

/// What a search from `pos` on finds of `key` for a reader at `ts`: the first version that
/// is not newer than `ts`, if there is one.
pub open spec fn searched(block: Seq<u8>, pos: int, key: Seq<u8>, ts: u64) -> Result<
    Option<Option<Seq<u8>>>,
    Fault,
>
    decreases block.len() - pos,
{
    if pos >= block.len() {
        Ok(None)
    } else {
        match entry_at(block, pos) {
            None => Err(torn_block()),
            Some((e, next)) => if e.key == key && e.timestamp <= ts {
                Ok(Some(e.value))
            } else {
                searched(block, next, key, ts)
            },
        }
    }
}

/// Appends an entry to a block.
pub fn put_entry(block: &mut Vec<u8>, key: &[u8], timestamp: u64, value: Option<&[u8]>)
    ensures
        final(block)@ == old(block)@ + (EntryView {
            key: key@,
            timestamp,
            value: match value {
                Some(v) => Some(v@),
                None => None,
            },
        }).encoded(),
{
    codec::put_sized(block, key);
    codec::put_u64(block, timestamp);
    let ghost head = codec::sized(key@) + codec::le64(timestamp);
    match value {
        Some(v) => {
            codec::put_sized(block, v);
            assert(block@ =~= old(block)@ + (head + codec::sized(v@)));
        },
        None => {
            codec::put_u32(block, TOMBSTONE);
            assert(block@ =~= old(block)@ + (head + codec::le32(TOMBSTONE)));
        },
    }
}

/// Reads the entry at `pos`.
pub fn get_entry(block: &[u8], pos: usize) -> (result: Result<(BlockEntry, usize), Error>)
    requires
        pos <= block@.len(),
    ensures
        match result {
            Ok((entry, next)) => entry_at(block@, pos as int) == Some((entry@, next as int)) && pos
                < next <= block@.len(),
            Err(e) => entry_at(block@, pos as int) is None && e@ == torn_block(),
        },
{
    let len: usize = block.len();
    if len - pos < 4 {
        return Err(Error::corruption("Truncated block entry"));
    }
    let key_len: usize = codec::get_u32(block, pos) as usize;
    if key_len > len - pos - 4 || len - pos - 4 - key_len < 12 {
        return Err(Error::corruption("Truncated block entry"));
    }
    let key_end: usize = pos + 4 + key_len;
    let timestamp: u64 = codec::get_u64(block, key_end);
    let value_len: u32 = codec::get_u32(block, key_end + 8);
    let key = codec::copy_range(block, pos + 4, key_end);
    let start: usize = key_end + 12;
    if value_len == TOMBSTONE {
        return Ok((BlockEntry { key, timestamp, value: None }, start));
    }
    if value_len as usize > len - start {
        return Err(Error::corruption("Truncated block entry"));
    }
    let next: usize = start + value_len as usize;
    let value = codec::copy_range(block, start, next);
    Ok((BlockEntry { key, timestamp, value: Some(value) }, next))
}

/// Looks in a block for the version of `key` that a reader at `ts` sees.
pub fn search_block(block: &[u8], key: &[u8], ts: u64) -> (result: Result<
    Option<Option<Vec<u8>>>,
    Error,
>)
    ensures
        found(result, searched(block@, 0, key@, ts)),
{
    let mut pos: usize = 0;
    while pos < block.len()
        invariant
            pos <= block@.len(),
            searched(block@, pos as int, key@, ts) == searched(block@, 0, key@, ts),
        decreases block@.len() - pos,
    {
        let (entry, next) = get_entry(block, pos)?;
        if entry.timestamp <= ts && bytes_equal(entry.key.as_slice(), key) {
            return Ok(Some(entry.value));
        }
        pos = next;
    }
    Ok(None)
}

/// An entry is read back from the middle of a block.
pub proof fn lemma_entry_at(before: Seq<u8>, e: EntryView, after: Seq<u8>)
    requires
        e.storable(),
    ensures
        entry_at(before + e.encoded() + after, before.len() as int) == Some(
            (e, (before.len() + e.encoded().len()) as int),
        ),
        e.encoded().len() >= 16,
{
    codec::lemma_le_round_trip();
    let block = before + e.encoded() + after;
    let pos = before.len() as int;
    let key_len = codec::le32(e.key.len() as u32);
    let stamp = codec::le64(e.timestamp);
    let tail = match e.value {
        Some(v) => codec::sized(v),
        None => codec::le32(TOMBSTONE),
    };
    assert(block =~= before + key_len + (e.key + stamp + tail + after));
    codec::lemma_int32_at(before, e.key.len() as u32, e.key + stamp + tail + after);
    let key_end = pos + 4 + e.key.len();
    assert(block.subrange(pos + 4, key_end) =~= e.key);
    let front = before + key_len + e.key;
    assert(block =~= front + stamp + (tail + after));
    codec::lemma_int64_at(front, e.timestamp, tail + after);
    let head = front + stamp;
    match e.value {
        Some(v) => {
            assert(block =~= head + codec::le32(v.len() as u32) + (v + after));
            codec::lemma_int32_at(head, v.len() as u32, v + after);
            assert(block.subrange(key_end + 12, key_end + 12 + v.len()) =~= v);
        },
        None => {
            assert(block =~= head + codec::le32(TOMBSTONE) + after);
            codec::lemma_int32_at(head, TOMBSTONE, after);
        },
    }
}

/// The first version of a key among `entries`, from the `k`th on, that is not newer than
/// `ts`.
pub open spec fn first_version(
    entries: Seq<EntryView>,
    k: int,
    key: Seq<u8>,
    ts: u64,
) -> Option<Option<Seq<u8>>>
    decreases entries.len() - k,
{
    if k < 0 || k >= entries.len() {
        None
    } else if entries[k].key == key && entries[k].timestamp <= ts {
        Some(entries[k].value)
    } else {
        first_version(entries, k + 1, key, ts)
    }
}

pub open spec fn all_storable(entries: Seq<EntryView>) -> bool {
    forall|i: int| 0 <= i < entries.len() ==> (#[trigger] entries[i]).storable()
}

/// Where the `k`th entry stands, its block is made of what comes before it, of it and of
/// the rest.
pub proof fn lemma_block_split(entries: Seq<EntryView>, k: int) -> (after: Seq<u8>)
    requires
        0 <= k < entries.len(),
    ensures
        encoded_block(entries) == encoded_block(entries.take(k)) + entries[k].encoded() + after,
        encoded_block(entries.take(k + 1)) == encoded_block(entries.take(k))
            + entries[k].encoded(),
    decreases entries.len() - k,
{
    assert(entries.take(k + 1).drop_last() =~= entries.take(k));
    let here = encoded_block(entries.take(k)) + entries[k].encoded();
    if k + 1 == entries.len() {
        assert(entries.take(k + 1) =~= entries);
        assert(here + Seq::<u8>::empty() =~= here);
        Seq::empty()
    } else {
        let after = lemma_block_split(entries, k + 1);
        let rest = entries[k + 1].encoded() + after;
        assert(encoded_block(entries) =~= here + rest);
        rest
    }
}

/// A search of a block that was written finds the first version.
pub proof fn lemma_search_finds_first(entries: Seq<EntryView>, key: Seq<u8>, ts: u64)
    requires
        all_storable(entries),
    ensures
        searched(encoded_block(entries), 0, key, ts) == Ok::<Option<Option<Seq<u8>>>, Fault>(
            first_version(entries, 0, key, ts),
        ),
{
    assert(entries.take(0) =~= Seq::empty());
    lemma_search_from(entries, 0, key, ts);
}

proof fn lemma_search_from(entries: Seq<EntryView>, k: int, key: Seq<u8>, ts: u64)
    requires
        all_storable(entries),
        0 <= k <= entries.len(),
    ensures
        searched(encoded_block(entries), encoded_block(entries.take(k)).len() as int, key, ts)
            == Ok::<Option<Option<Seq<u8>>>, Fault>(first_version(entries, k, key, ts)),
    decreases entries.len() - k,
{
    if k == entries.len() {
        assert(entries.take(k) =~= entries);
    } else {
        let before = encoded_block(entries.take(k));
        let after = lemma_block_split(entries, k);
        lemma_entry_at(before, entries[k], after);
        lemma_search_from(entries, k + 1, key, ts);
    }
}

/// Versions are looked for in the first part of the entries and then in the second.
pub proof fn lemma_first_version_split(
    a: Seq<EntryView>,
    b: Seq<EntryView>,
    k: int,
    key: Seq<u8>,
    ts: u64,
)
    requires
        0 <= k <= a.len(),
    ensures
        first_version(a + b, k, key, ts) == match first_version(a, k, key, ts) {
            Some(v) => Some(v),
            None => first_version(b, 0, key, ts),
        },
    decreases a.len() - k,
{
    if k == a.len() {
        lemma_first_version_shift(a, b, 0, key, ts);
    } else {
        assert((a + b)[k] == a[k]);
        lemma_first_version_split(a, b, k + 1, key, ts);
    }
}

proof fn lemma_first_version_shift(
    a: Seq<EntryView>,
    b: Seq<EntryView>,
    k: int,
    key: Seq<u8>,
    ts: u64,
)
    requires
        0 <= k <= b.len(),
    ensures
        first_version(a + b, a.len() + k, key, ts) == first_version(b, k, key, ts),
    decreases b.len() - k,
{
    if k < b.len() {
        assert((a + b)[a.len() + k] == b[k]);
        lemma_first_version_shift(a, b, k + 1, key, ts);
    }
}

/// There is no version of a key that no entry has.
pub proof fn lemma_no_version(entries: Seq<EntryView>, k: int, key: Seq<u8>, ts: u64)
    requires
        0 <= k <= entries.len(),
        forall|i: int|
            k <= i < entries.len() ==> !((#[trigger] entries[i]).key == key
                && entries[i].timestamp <= ts),
    ensures
        first_version(entries, k, key, ts) is None,
    decreases entries.len() - k,
{
    if k < entries.len() {
        lemma_no_version(entries, k + 1, key, ts);
    }
}

/// The first version is the one with no other in front of it.
pub proof fn lemma_first_version(entries: Seq<EntryView>, k: int, n: int, ts: u64)
    requires
        0 <= k <= n < entries.len(),
        entries[n].timestamp <= ts,
        forall|i: int|
            k <= i < n ==> !((#[trigger] entries[i]).key == entries[n].key
                && entries[i].timestamp <= ts),
    ensures
        first_version(entries, k, entries[n].key, ts) == Some(entries[n].value),
    decreases n - k,
{
    if k < n {
        lemma_first_version(entries, k + 1, n, ts);
    }
}

} // verus!
