//! Sorted tables: blocks of entries, an index over the blocks and a filter over the keys.

use crate::common::checksum;
use crate::common::codec;
use crate::common::error::{Error, Fault};
use crate::common::lz4;
use crate::common::order;
use crate::common::simd::bytes_less;
use crate::storage::block;
use crate::storage::bloom::{BloomFilter, FilterView};
use crate::storage::cache::{BlockCache, BlockCacheKey};
use vstd::prelude::*;

verus! {

/// What a table's file ends with. Entries have a timestamp, and the file has the newest.
pub const SSTABLE_MAGIC: u32 = 0x53535456;

/// How a table's blocks are stored.
#[derive(Debug, Clone, Copy, PartialEq, Eq, Structural)]
pub enum CompressionType {
    Plain,
    Lz4,
}

impl Default for CompressionType {
    fn default() -> (compression: Self)
        ensures
            compression == CompressionType::Plain,
    {
        CompressionType::Plain
    }
}

impl CompressionType {
    pub open spec fn code(self) -> u8 {
        match self {
            CompressionType::Plain => 0,
            CompressionType::Lz4 => 1,
        }
    }

    pub open spec fn of(v: u8) -> CompressionType {
        if v == 1 {
            CompressionType::Lz4
        } else {
            CompressionType::Plain
        }
    }

    pub fn to_u8(self) -> (v: u8)
        ensures
            v == self.code(),
    {
        match self {
            CompressionType::Plain => 0,
            CompressionType::Lz4 => 1,
        }
    }

    pub fn from_u8(v: u8) -> (compression: Self)
        ensures
            compression == CompressionType::of(v),
    {
        if v == 1 {
            CompressionType::Lz4
        } else {
            CompressionType::Plain
        }
    }
}

/// Where a block stands and which keys it starts and ends with.
#[derive(Debug)]
pub struct BlockMeta {
    pub offset: u64,
    pub length: u32,
    pub uncompressed_length: u32,
    pub first_key: Vec<u8>,
    pub last_key: Vec<u8>,
}

/// A block's metadata as a mathematical value.
#[verifier::ext_equal]
pub struct BlockMetaView {
    pub offset: u64,
    pub length: u32,
    pub uncompressed_length: u32,
    pub first_key: Seq<u8>,
    pub last_key: Seq<u8>,
}

impl View for BlockMeta {
    type V = BlockMetaView;

    open spec fn view(&self) -> BlockMetaView {
        BlockMetaView {
            offset: self.offset,
            length: self.length,
            uncompressed_length: self.uncompressed_length,
            first_key: self.first_key@,
            last_key: self.last_key@,
        }
    }
}

pub open spec fn meta_views(metas: Seq<BlockMeta>) -> Seq<BlockMetaView> {
    metas.map_values(|m: BlockMeta| m@)
}

/// A table: the file it stands in and what its index says.
#[verifier::ext_equal]
pub struct TableView {
    pub id: u64,
    pub image: Seq<u8>,
    pub metas: Seq<BlockMetaView>,
    pub bloom: FilterView,
    pub compression: CompressionType,
    /// The newest timestamp of an entry, 0 where there is none.
    pub newest: u64,
}

pub open spec fn torn_metadata() -> Fault {
    Fault::Corruption("Truncated SSTable metadata"@)
}

/// The metadata of the block whose entry in the index begins at `pos`, and where the next
/// one begins.
pub open spec fn meta_at(data: Seq<u8>, pos: int) -> Option<(BlockMetaView, int)> {
    if pos + 20 > data.len() {
        None
    } else {
        let first_end = pos + 20 + codec::int32_at(data, pos + 16);
        if first_end + 4 > data.len() {
            None
        } else {
            let last_end = first_end + 4 + codec::int32_at(data, first_end);
            if last_end > data.len() {
                None
            } else {
                Some(
                    (
                        BlockMetaView {
                            offset: codec::int64_at(data, pos),
                            length: codec::int32_at(data, pos + 8),
                            uncompressed_length: codec::int32_at(data, pos + 12),
                            first_key: data.subrange(pos + 20, first_end),
                            last_key: data.subrange(first_end + 4, last_end),
                        },
                        last_end,
                    ),
                )
            }
        }
    }
}

/// The metadata of `n` blocks from `pos` on, and where it ends.
pub open spec fn metas_at(data: Seq<u8>, pos: int, n: nat) -> Option<(Seq<BlockMetaView>, int)>
    decreases n,
{
    if n == 0 {
        Some((Seq::empty(), pos))
    } else {
        match meta_at(data, pos) {
            None => None,
            Some((meta, next)) => match metas_at(data, next, (n - 1) as nat) {
                None => None,
                Some((rest, end)) => Some((seq![meta] + rest, end)),
            },
        }
    }
}

/// What a table's metadata says of its blocks, filter and compression.
pub open spec fn metadata(data: Seq<u8>) -> Option<
    (Seq<BlockMetaView>, FilterView, CompressionType),
> {
    if data.len() < 5 {
        None
    } else {
        match metas_at(data, 5, codec::int32_at(data, 1) as nat) {
            None => None,
            Some((metas, pos)) => if pos + 8 > data.len() {
                None
            } else {
                let end = pos + 8 + codec::int32_at(data, pos + 4);
                if end > data.len() {
                    None
                } else {
                    Some(
                        (
                            metas,
                            FilterView {
                                bits: data.subrange(pos + 8, end),
                                num_hashes: codec::int32_at(data, pos),
                            },
                            CompressionType::of(data[0]),
                        ),
                    )
                }
            },
        }
    }
}

/// The table in a file, or what is wrong with the file.
pub open spec fn opened(id: u64, image: Seq<u8>) -> Result<TableView, Fault> {
    let len = image.len() as int;
    if len < 4 {
        Err(Fault::Io("file too short"@))
    } else if codec::int32_at(image, len - 4) != SSTABLE_MAGIC {
        Err(Fault::Corruption("Invalid SSTable magic"@))
    } else if len < 20 {
        Err(Fault::Io("file too short"@))
    } else {
        let meta_offset = codec::int64_at(image, len - 12) as int;
        if meta_offset > len - 20 {
            Err(torn_metadata())
        } else {
            match metadata(image.subrange(meta_offset, len - 20)) {
                None => Err(torn_metadata()),
                Some((metas, bloom, compression)) => Ok(
                    TableView {
                        id,
                        image,
                        metas,
                        bloom,
                        compression,
                        newest: codec::int64_at(image, len - 20),
                    },
                ),
            }
        }
    }
}

/// What decompressing a stored block gives.
pub open spec fn unpacked_block(
    compression: CompressionType,
    stored: Seq<u8>,
    size: nat,
) -> Result<Seq<u8>, Fault> {
    match compression {
        CompressionType::Plain => Ok(stored),
        CompressionType::Lz4 => if lz4::overlong(stored) || !lz4::allocatable(stored.len(), size) {
            Err(Fault::Corruption("LZ4 decompression failed: "@ + "length out of range"@))
        } else {
            match lz4::lz4_filled(stored, size) {
                Ok(data) => Ok(data),
                Err(reason) => Err(Fault::Corruption("LZ4 decompression failed: "@ + reason)),
            }
        },
    }
}

/// The data of a block whose bytes in the file are `raw`: a checksum follows what is
/// stored.
pub open spec fn checked_block(
    compression: CompressionType,
    raw: Seq<u8>,
    size: nat,
) -> Result<Seq<u8>, Fault> {
    if raw.len() < 4 {
        Err(Fault::Corruption("Truncated block"@))
    } else {
        let stored = raw.take(raw.len() - 4);
        if codec::int32_at(raw, raw.len() - 4) != checksum::crc32(stored) {
            Err(Fault::Corruption("Block checksum mismatch"@))
        } else {
            unpacked_block(compression, stored, size)
        }
    }
}

impl TableView {
    /// The data of the block at `idx`.
    pub open spec fn block(self, idx: int) -> Result<Seq<u8>, Fault> {
        let meta = self.metas[idx];
        if meta.offset + meta.length > self.image.len() {
            Err(Fault::Io("failed to fill whole buffer"@))
        } else {
            checked_block(
                self.compression,
                self.image.subrange(meta.offset as int, meta.offset + meta.length),
                meta.uncompressed_length as nat,
            )
        }
    }

    /// What a lookup of `key` from the block at `idx` on gives to a reader at `ts`. It goes
    /// on to the next block as long as that does not begin behind the key.
    pub open spec fn lookup(self, idx: int, key: Seq<u8>, ts: u64) -> Result<
        Option<Option<Seq<u8>>>,
        Fault,
    >
        decreases self.metas.len() - idx,
    {
        if idx < 0 || idx >= self.metas.len() {
            Ok(None)
        } else {
            match self.block(idx) {
                Err(f) => Err(f),
                Ok(data) => match block::searched(data, 0, key, ts) {
                    Ok(None) => if self.goes_on(idx, key) {
                        self.lookup(idx + 1, key, ts)
                    } else {
                        Ok(None)
                    },
                    answer => answer,
                },
            }
        }
    }

    /// There is a block behind `idx`, and it does not begin behind the key.
    pub open spec fn goes_on(self, idx: int, key: Seq<u8>) -> bool {
        idx + 1 < self.metas.len() && !order::less(key, self.metas[idx + 1].first_key)
    }

    /// A lookup of `key` may give this to a reader at `ts`.
    pub open spec fn answers(
        self,
        key: Seq<u8>,
        ts: u64,
        answer: Result<Option<Option<Seq<u8>>>, Fault>,
    ) -> bool {
        if self.excludes(key) {
            answer == Ok::<Option<Option<Seq<u8>>>, Fault>(None)
        } else {
            exists|idx: int| #[trigger]
                self.located(key, idx) && answer == self.lookup(idx, key, ts)
        }
    }

    /// The filter rules the key out.
    pub open spec fn excludes(self, key: Seq<u8>) -> bool {
        self.bloom.usable() && !self.bloom.admits(key)
    }

    /// The first keys of the blocks are in order.
    pub open spec fn sorted(self) -> bool {
        forall|i: int, j: int|
            #![trigger self.metas[i], self.metas[j]]
            0 <= i < j < self.metas.len() ==> order::at_most(
                self.metas[i].first_key,
                self.metas[j].first_key,
            )
    }

    /// `idx` is where the search for `key` begins: the blocks being in order, the last one
    /// that begins before the key, or the first block if none does. No block in front of it
    /// can hold the key.
    pub open spec fn located(self, key: Seq<u8>, idx: int) -> bool {
        &&& 0 <= idx
        &&& idx < self.metas.len() || idx == 0
        &&& self.sorted() ==> self.begins_before(key, idx)
    }

    pub open spec fn begins_before(self, key: Seq<u8>, idx: int) -> bool {
        &&& forall|i: int|
            0 < i <= idx && i < self.metas.len() ==> order::less(
                (#[trigger] self.metas[i]).first_key,
                key,
            )
        &&& forall|i: int|
            idx < i < self.metas.len() ==> !order::less((#[trigger] self.metas[i]).first_key, key)
    }

    pub open spec fn min_key(self) -> Seq<u8> {
        if self.metas.len() > 0 {
            self.metas[0].first_key
        } else {
            Seq::empty()
        }
    }

    pub open spec fn max_key(self) -> Seq<u8> {
        if self.metas.len() > 0 {
            self.metas.last().last_key
        } else {
            Seq::empty()
        }
    }

    /// What the cache holds of the table's blocks, under its number, is their data.
    pub open spec fn agrees(self, cached: Map<(u64, usize), Seq<u8>>) -> bool {
        forall|idx: usize| #[trigger]
            cached.contains_key((self.id, idx)) ==> idx < self.metas.len() && self.block(
                idx as int,
            ) == Ok::<Seq<u8>, Fault>(cached[(self.id, idx)])
    }
}

pub struct SSTable {
    image: Vec<u8>,
    block_metas: Vec<BlockMeta>,
    bloom: BloomFilter,
    compression: CompressionType,
    newest: u64,
    id: u64,
    min_key: Vec<u8>,
    max_key: Vec<u8>,
}

impl View for SSTable {
    type V = TableView;

    closed spec fn view(&self) -> TableView {
        TableView {
            id: self.id,
            image: self.image@,
            metas: meta_views(self.block_metas@),
            bloom: self.bloom@,
            compression: self.compression,
            newest: self.newest,
        }
    }
}

impl SSTable {
    /// The outermost keys are those of the outermost blocks.
    pub closed spec fn wf(&self) -> bool {
        self.min_key@ == self@.min_key() && self.max_key@ == self@.max_key()
    }

    /// Reads the index of the table whose file holds `image`.
    pub fn open(id: u64, image: Vec<u8>) -> (result: Result<Self, Error>)
        ensures
            match result {
                Ok(table) => {
                    &&& opened(id, image@) == Ok::<TableView, Fault>(table@)
                    &&& table.wf()
                },
                Err(e) => opened(id, image@) == Err::<TableView, Fault>(e@),
            },
    {
        let len: usize = image.len();
        if len < 4 {
            return Err(Error::Io("file too short".to_owned()));
        }
        if codec::get_u32(image.as_slice(), len - 4) != SSTABLE_MAGIC {
            return Err(Error::corruption("Invalid SSTable magic"));
        }
        if len < 20 {
            return Err(Error::Io("file too short".to_owned()));
        }
        let meta_offset: u64 = codec::get_u64(image.as_slice(), len - 12);
        if meta_offset > (len - 20) as u64 {
            return Err(Error::corruption("Truncated SSTable metadata"));
        }
        let meta_data = codec::copy_range(image.as_slice(), meta_offset as usize, len - 20);
        let newest: u64 = codec::get_u64(image.as_slice(), len - 20);
        let (block_metas, bloom, compression, min_key, max_key) = Self::decode_metadata(
            meta_data.as_slice(),
        )?;
        Ok(SSTable { image, block_metas, bloom, compression, newest, id, min_key, max_key })
    }

    /// The newest timestamp of an entry, 0 where there is none.
    pub fn newest(&self) -> (newest: u64)
        ensures
            newest == self@.newest,
    {
        self.newest
    }

    /// Reads the index, the filter and the outermost keys.
    pub fn decode_metadata(data: &[u8]) -> (result: Result<
        (Vec<BlockMeta>, BloomFilter, CompressionType, Vec<u8>, Vec<u8>),
        Error,
    >)
        ensures
            match result {
                Ok((metas, bloom, compression, min_key, max_key)) => {
                    let views = meta_views(metas@);
                    &&& metadata(data@) == Some((views, bloom@, compression))
                    &&& min_key@ == (if views.len() > 0 {
                        views[0].first_key
                    } else {
                        Seq::empty()
                    })
                    &&& max_key@ == (if views.len() > 0 {
                        views.last().last_key
                    } else {
                        Seq::empty()
                    })
                },
                Err(e) => metadata(data@) is None && e@ == torn_metadata(),
            },
    {
        let len: usize = data.len();
        if len < 5 {
            return Err(Error::corruption("Truncated SSTable metadata"));
        }
        let compression = CompressionType::from_u8(data[0]);
        let num_blocks: u32 = codec::get_u32(data, 1);
        let mut metas: Vec<BlockMeta> = Vec::new();
        let mut pos: usize = 5;
        let mut i: u32 = 0;
        assert(match metas_at(data@, 5, num_blocks as nat) {
            Some((rest, end)) => meta_views(metas@) + rest =~= rest,
            None => true,
        });
        while i < num_blocks
            invariant
                i <= num_blocks,
                5 <= pos <= len,
                len == data@.len(),
                num_blocks == codec::int32_at(data@, 1),
                match metas_at(data@, pos as int, (num_blocks - i) as nat) {
                    Some((rest, end)) => metas_at(data@, 5, num_blocks as nat) == Some(
                        (meta_views(metas@) + rest, end),
                    ),
                    None => metas_at(data@, 5, num_blocks as nat) is None,
                },
            decreases num_blocks - i,
        {
            let (meta, next) = Self::decode_block_meta(data, pos)?;
            let ghost before = meta_views(metas@);
            let ghost left = metas_at(data@, next as int, (num_blocks - i - 1) as nat);
            metas.push(meta);
            proof {
                assert(meta_views(metas@) =~= before.push(meta@));
                if let Some((rest, end)) = left {
                    assert(before + (seq![meta@] + rest) =~= meta_views(metas@) + rest);
                }
            }
            pos = next;
            i += 1;
        }
        assert(meta_views(metas@) + Seq::empty() =~= meta_views(metas@));
        if len - pos < 8 {
            return Err(Error::corruption("Truncated SSTable metadata"));
        }
        let num_hashes: u32 = codec::get_u32(data, pos);
        let bloom_len: usize = codec::get_u32(data, pos + 4) as usize;
        if bloom_len > len - pos - 8 {
            return Err(Error::corruption("Truncated SSTable metadata"));
        }
        let bits = codec::copy_range(data, pos + 8, pos + 8 + bloom_len);
        let bloom = BloomFilter::from_bytes(bits, num_hashes);
        let (min_key, max_key) = if metas.len() > 0 {
            (
                codec::copy_bytes(metas[0].first_key.as_slice()),
                codec::copy_bytes(metas[metas.len() - 1].last_key.as_slice()),
            )
        } else {
            (Vec::new(), Vec::new())
        };
        Ok((metas, bloom, compression, min_key, max_key))
    }

    fn decode_block_meta(data: &[u8], pos: usize) -> (result: Result<(BlockMeta, usize), Error>)
        requires
            pos <= data@.len(),
        ensures
            match result {
                Ok((meta, next)) => meta_at(data@, pos as int) == Some((meta@, next as int)) && pos
                    <= next <= data@.len(),
                Err(e) => meta_at(data@, pos as int) is None && e@ == torn_metadata(),
            },
    {
        let len: usize = data.len();
        if len - pos < 20 {
            return Err(Error::corruption("Truncated SSTable metadata"));
        }
        let offset: u64 = codec::get_u64(data, pos);
        let length: u32 = codec::get_u32(data, pos + 8);
        let uncompressed_length: u32 = codec::get_u32(data, pos + 12);
        let first_len: usize = codec::get_u32(data, pos + 16) as usize;
        let left: usize = len - pos - 20;
        if first_len > left || left - first_len < 4 {
            return Err(Error::corruption("Truncated SSTable metadata"));
        }
        let first_end: usize = pos + 20 + first_len;
        let first_key = codec::copy_range(data, pos + 20, first_end);
        let last_len: usize = codec::get_u32(data, first_end) as usize;
        if last_len > len - first_end - 4 {
            return Err(Error::corruption("Truncated SSTable metadata"));
        }
        let last_end: usize = first_end + 4 + last_len;
        let last_key = codec::copy_range(data, first_end + 4, last_end);
        Ok((BlockMeta { offset, length, uncompressed_length, first_key, last_key }, last_end))
    }

    /// The newest value of `key`, none if it is deleted or not there.
    pub fn get(&self, key: &[u8]) -> (result: Result<Option<Vec<u8>>, Error>)
        ensures
            exists|answer: Result<Option<Option<Seq<u8>>>, Fault>| #[trigger]
                self@.answers(key@, u64::MAX, answer) && newest_value(result, answer),
    {
        let found = self.get_at_ts(key, u64::MAX);
        let ghost answer = choose|answer: Result<Option<Option<Seq<u8>>>, Fault>| #[trigger]
            self@.answers(key@, u64::MAX, answer) && block::found(found, answer);
        match found {
            Ok(Some(value)) => Ok(value),
            Ok(None) => Ok(None),
            Err(e) => Err(e),
        }
    }

    /// What the table has of `key` for a reader at `ts`: the value of the newest version
    /// that is not newer, that it is deleted, or nothing.
    pub fn get_at_ts(&self, key: &[u8], ts: u64) -> (result: Result<
        Option<Option<Vec<u8>>>,
        Error,
    >)
        ensures
            exists|answer: Result<Option<Option<Seq<u8>>>, Fault>| #[trigger]
                self@.answers(key@, ts, answer) && block::found(result, answer),
    {
        if self.is_excluded(key) {
            assert(self@.answers(key@, ts, Ok::<Option<Option<Seq<u8>>>, Fault>(None)));
            return Ok(None);
        }
        let start: usize = self.find_block(key);
        let ghost answer = self@.lookup(start as int, key@, ts);
        assert(self@.located(key@, start as int));
        assert(self@.answers(key@, ts, answer));
        let mut idx: usize = start;
        while idx < self.block_metas.len()
            invariant
                self@.answers(key@, ts, answer),
                answer == self@.lookup(idx as int, key@, ts),
            decreases self.block_metas@.len() - idx,
        {
            let data = match self.read_block(idx) {
                Ok(data) => data,
                Err(e) => {
                    return Err(e);
                },
            };
            let found = block::search_block(data.as_slice(), key, ts);
            if !self.is_open(&found, idx, key) {
                return found;
            }
            idx += 1;
        }
        Ok(None)
    }

    /// The same by way of the cache, which keeps the blocks that were read.
    pub fn get_with_cache(&self, key: &[u8], ts: u64, cache: &mut BlockCache) -> (result: Result<
        Option<Option<Vec<u8>>>,
        Error,
    >)
        requires
            self@.agrees(old(cache)@),
        ensures
            exists|answer: Result<Option<Option<Seq<u8>>>, Fault>| #[trigger]
                self@.answers(key@, ts, answer) && block::found(result, answer),
            self@.agrees(final(cache)@),
            others_kept(self@.id, old(cache)@, final(cache)@),
            final(cache).wf() == old(cache).wf(),
    {
        if self.is_excluded(key) {
            assert(self@.answers(key@, ts, Ok::<Option<Option<Seq<u8>>>, Fault>(None)));
            return Ok(None);
        }
        let start: usize = self.find_block(key);
        let ghost answer = self@.lookup(start as int, key@, ts);
        assert(self@.located(key@, start as int));
        assert(self@.answers(key@, ts, answer));
        let mut idx: usize = start;
        while idx < self.block_metas.len()
            invariant
                self@.answers(key@, ts, answer),
                answer == self@.lookup(idx as int, key@, ts),
                self@.agrees(cache@),
                others_kept(self@.id, old(cache)@, cache@),
                cache.wf() == old(cache).wf(),
            decreases self.block_metas@.len() - idx,
        {
            let data = match self.read_block_cached(idx, cache) {
                Ok(data) => data,
                Err(e) => {
                    return Err(e);
                },
            };
            let found = block::search_block(data.as_slice(), key, ts);
            if !self.is_open(&found, idx, key) {
                return found;
            }
            idx += 1;
        }
        Ok(None)
    }

    /// Whether a search that found this in the block at `idx` goes on in the next one.
    fn is_open(
        &self,
        found: &Result<Option<Option<Vec<u8>>>, Error>,
        idx: usize,
        key: &[u8],
    ) -> (open: bool)
        requires
            idx < self@.metas.len(),
        ensures
            open == (*found == Ok::<Option<Option<Vec<u8>>>, Error>(None) && self@.goes_on(
                idx as int,
                key@,
            )),
    {
        match found {
            Ok(None) => {
                let n: usize = self.block_metas.len();
                if idx >= n - 1 {
                    return false;
                }
                let first_key = self.block_metas[idx + 1].first_key.as_slice();
                assert(self@.metas[idx + 1].first_key == first_key@);
                !bytes_less(key, first_key)
            },
            _ => false,
        }
    }

    fn is_excluded(&self, key: &[u8]) -> (result: bool)
        ensures
            result == self@.excludes(key@),
    {
        let len: usize = self.bloom.bits().len();
        0 < len && len <= usize::MAX / 8 && !self.bloom.may_contain(key)
    }

    /// The block with which the search for `key` begins.
    pub fn find_block(&self, key: &[u8]) -> (idx: usize)
        ensures
            self@.located(key@, idx as int),
    {
        let n: usize = self.block_metas.len();
        let ghost metas = self@.metas;
        let mut low: usize = 0;
        let mut high: usize = n;
        while low < high
            invariant
                low <= high <= n,
                n == metas.len(),
                metas == self@.metas,
                n == self.block_metas@.len(),
                self@.sorted() ==> forall|i: int|
                    0 <= i < low ==> order::less((#[trigger] metas[i]).first_key, key@),
                self@.sorted() ==> forall|i: int|
                    high <= i < n ==> !order::less((#[trigger] metas[i]).first_key, key@),
            decreases high - low,
        {
            let mid: usize = low + (high - low) / 2;
            let first_key = self.block_metas[mid].first_key.as_slice();
            let ghost here = metas[mid as int].first_key;
            assert(here == first_key@);
            if bytes_less(first_key, key) {
                assert(self@.sorted() ==> forall|i: int|
                    0 <= i <= mid ==> order::less((#[trigger] metas[i]).first_key, key@)) by {
                    if self@.sorted() {
                        assert forall|i: int| 0 <= i <= mid implies order::less(
                            (#[trigger] metas[i]).first_key,
                            key@,
                        ) by {
                            order::lemma_order(metas[i].first_key, here, key@);
                        }
                    }
                }
                low = mid + 1;
            } else {
                assert(self@.sorted() ==> forall|i: int|
                    mid <= i < n ==> !order::less((#[trigger] metas[i]).first_key, key@)) by {
                    if self@.sorted() {
                        assert forall|i: int| mid <= i < n implies !order::less(
                            (#[trigger] metas[i]).first_key,
                            key@,
                        ) by {
                            order::lemma_order(here, metas[i].first_key, key@);
                        }
                    }
                }
                high = mid;
            }
        }
        if low > 0 {
            low - 1
        } else {
            0
        }
    }

    /// The data of a block.
    pub fn read_block(&self, idx: usize) -> (result: Result<Vec<u8>, Error>)
        requires
            idx < self@.metas.len(),
        ensures
            match result {
                Ok(data) => self@.block(idx as int) == Ok::<Seq<u8>, Fault>(data@),
                Err(e) => self@.block(idx as int) == Err::<Seq<u8>, Fault>(e@),
            },
    {
        let meta = &self.block_metas[idx];
        assert(self@.metas[idx as int] == meta@);
        let len: usize = self.image.len();
        if meta.offset > len as u64 || meta.length as u64 > len as u64 - meta.offset {
            return Err(Error::Io("failed to fill whole buffer".to_owned()));
        }
        let start: usize = meta.offset as usize;
        let raw = codec::copy_range(self.image.as_slice(), start, start + meta.length as usize);
        if raw.len() < 4 {
            return Err(Error::corruption("Truncated block"));
        }
        let checksum_start: usize = raw.len() - 4;
        let expected: u32 = codec::get_u32(raw.as_slice(), checksum_start);
        let stored = codec::copy_range(raw.as_slice(), 0, checksum_start);
        assert(stored@ =~= raw@.take(checksum_start as int));
        if expected != checksum::checksum(stored.as_slice()) {
            return Err(Error::corruption("Block checksum mismatch"));
        }
        self.decompress_block(stored, meta.uncompressed_length as usize)
    }

    /// The data of a block, from the cache where that has it.
    pub fn read_block_cached(&self, idx: usize, cache: &mut BlockCache) -> (result: Result<
        Vec<u8>,
        Error,
    >)
        requires
            idx < self@.metas.len(),
            self@.agrees(old(cache)@),
        ensures
            match result {
                Ok(data) => self@.block(idx as int) == Ok::<Seq<u8>, Fault>(data@),
                Err(e) => self@.block(idx as int) == Err::<Seq<u8>, Fault>(e@),
            },
            self@.agrees(final(cache)@),
            others_kept(self@.id, old(cache)@, final(cache)@),
            final(cache).wf() == old(cache).wf(),
    {
        let cache_key = BlockCacheKey::new(self.id, idx);
        if let Some(data) = cache.get(&cache_key) {
            return Ok(codec::copy_bytes(data.as_slice()));
        }
        let data = self.read_block(idx)?;
        cache.insert(cache_key, codec::copy_bytes(data.as_slice()));
        Ok(data)
    }

    fn decompress_block(&self, stored: Vec<u8>, uncompressed_len: usize) -> (result: Result<
        Vec<u8>,
        Error,
    >)
        ensures
            match result {
                Ok(data) => unpacked_block(self.compression, stored@, uncompressed_len as nat)
                    == Ok::<Seq<u8>, Fault>(data@),
                Err(e) => unpacked_block(self.compression, stored@, uncompressed_len as nat)
                    == Err::<Seq<u8>, Fault>(e@),
            },
    {
        match self.compression {
            CompressionType::Plain => Ok(stored),
            CompressionType::Lz4 => if lz4::is_overlong(stored.as_slice())
                || !lz4::is_allocatable(stored.len(), uncompressed_len) {
                filled_block(Err("length out of range".to_owned()))
            } else {
                filled_block(lz4::unpack_into(stored.as_slice(), uncompressed_len))
            },
        }
    }

    pub fn id(&self) -> (id: u64)
        ensures
            id == self@.id,
    {
        self.id
    }

    pub fn min_key(&self) -> (key: &[u8])
        requires
            self.wf(),
        ensures
            key@ == self@.min_key(),
    {
        self.min_key.as_slice()
    }

    pub fn max_key(&self) -> (key: &[u8])
        requires
            self.wf(),
        ensures
            key@ == self@.max_key(),
    {
        self.max_key.as_slice()
    }

    pub fn num_blocks(&self) -> (n: usize)
        ensures
            n == self@.metas.len(),
    {
        self.block_metas.len()
    }

    pub fn block_meta(&self, idx: usize) -> (meta: &BlockMeta)
        requires
            idx < self@.metas.len(),
        ensures
            meta@ == self@.metas[idx as int],
    {
        &self.block_metas[idx]
    }
}

/// The block, given what became of decompressing it.
pub fn filled_block(filled: Result<Vec<u8>, String>) -> (result: Result<Vec<u8>, Error>)
    ensures
        match filled {
            Ok(data) => result == Ok::<Vec<u8>, Error>(data),
            Err(reason) => result matches Err(e) && e@ == Fault::Corruption(
                "LZ4 decompression failed: "@ + reason@,
            ),
        },
{
    match filled {
        Ok(data) => Ok(data),
        Err(reason) => Err(
            Error::Corruption("LZ4 decompression failed: ".to_owned().concat(reason.as_str())),
        ),
    }
}

/// A lookup of the newest value gave what the table answers; one that is deleted counts
/// for none.
pub open spec fn newest_value(
    result: Result<Option<Vec<u8>>, Error>,
    answer: Result<Option<Option<Seq<u8>>>, Fault>,
) -> bool {
    match answer {
        Ok(Some(Some(v))) => result matches Ok(Some(r)) && r@ == v,
        Ok(_) => result == Ok::<Option<Vec<u8>>, Error>(None),
        Err(f) => result matches Err(e) && e@ == f,
    }
}

/// The cache holds of all other tables what it held before.
pub open spec fn others_kept(
    id: u64,
    before: Map<(u64, usize), Seq<u8>>,
    after: Map<(u64, usize), Seq<u8>>,
) -> bool {
    forall|key: (u64, usize)|
        #![trigger after.contains_key(key)]
        key.0 != id ==> (after.contains_key(key) <==> before.contains_key(key)) && (
        after.contains_key(key) ==> after[key] == before[key])
}

} // verus!
