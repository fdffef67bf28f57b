//! Writing sorted tables.

use crate::common::checksum;
use crate::common::codec;
use crate::common::key::{Key, KeyView};
use crate::common::lz4;
use crate::storage::block;
use crate::storage::block::EntryView;
use crate::storage::bloom;
use crate::storage::bloom::{BloomFilter, FilterView};
use crate::storage::sstable;
use crate::storage::sstable::{BlockMeta, BlockMetaView, CompressionType, SSTABLE_MAGIC};
use vstd::prelude::*;

verus! {

/// A block is written once it has this many bytes.
pub const BLOCK_SIZE: usize = 4096;

/// The bits that the filter has for each key, for one false positive in a hundred.
pub const BITS_PER_KEY: usize = 10;

/// The probes that go with that many bits.
pub const NUM_HASHES: u32 = 7;

/// A block that was written: its entries and the bytes that stand for them.
#[verifier::ext_equal]
pub struct BuiltBlock {
    pub entries: Seq<EntryView>,
    pub stored: Seq<u8>,
}

/// `stored` stands for the block `data`. Which bytes compression gives is left open, but
/// they decompress to the data.
pub open spec fn stored_as(compression: CompressionType, data: Seq<u8>, stored: Seq<u8>) -> bool {
    if compression == CompressionType::Lz4 && lz4::packable(data.len()) {
        lz4::fills_to(stored, data)
    } else {
        stored == data
    }
}

/// What the file holds of a block.
pub open spec fn file_block(stored: Seq<u8>) -> Seq<u8> {
    stored + codec::le32(checksum::crc32(stored))
}

/// What the file holds of all blocks.
pub open spec fn file_blocks(blocks: Seq<BuiltBlock>) -> Seq<u8>
    decreases blocks.len(),
{
    if blocks.len() == 0 {
        Seq::empty()
    } else {
        file_blocks(blocks.drop_last()) + file_block(blocks.last().stored)
    }
}

/// The length of a block in the file, in the 32 bits that the index has for it.
pub open spec fn file_len(stored: Seq<u8>) -> u32 {
    (stored.len() + 4) as u32
}

/// Where the next block begins, as the index counts.
pub open spec fn next_offset(blocks: Seq<BuiltBlock>) -> u64
    decreases blocks.len(),
{
    if blocks.len() == 0 {
        0
    } else {
        u64::wrapping_add(
            next_offset(blocks.drop_last()),
            file_len(blocks.last().stored) as u64,
        )
    }
}

pub open spec fn meta_for(b: BuiltBlock, offset: u64) -> BlockMetaView {
    BlockMetaView {
        offset,
        length: file_len(b.stored),
        uncompressed_length: block::encoded_block(b.entries).len() as u32,
        first_key: b.entries[0].key,
        last_key: b.entries.last().key,
    }
}

/// The index over the blocks.
pub open spec fn index_of(blocks: Seq<BuiltBlock>) -> Seq<BlockMetaView> {
    Seq::new(blocks.len(), |i: int| meta_for(blocks[i], next_offset(blocks.take(i))))
}

pub open spec fn encoded_meta(m: BlockMetaView) -> Seq<u8> {
    codec::le64(m.offset) + codec::le32(m.length) + codec::le32(m.uncompressed_length)
        + codec::sized(m.first_key) + codec::sized(m.last_key)
}

pub open spec fn encoded_metas(metas: Seq<BlockMetaView>) -> Seq<u8>
    decreases metas.len(),
{
    if metas.len() == 0 {
        Seq::empty()
    } else {
        encoded_metas(metas.drop_last()) + encoded_meta(metas.last())
    }
}

pub open spec fn encoded_metadata(
    compression: CompressionType,
    metas: Seq<BlockMetaView>,
    bloom: FilterView,
) -> Seq<u8> {
    seq![compression.code()] + codec::le32(metas.len() as u32) + encoded_metas(metas)
        + codec::le32(bloom.num_hashes) + codec::sized(bloom.bits)
}

/// The newest timestamp of an entry, 0 where there is none.
pub open spec fn newest_of(entries: Seq<EntryView>) -> u64
    decreases entries.len(),
{
    if entries.len() == 0 {
        0
    } else {
        let before = newest_of(entries.drop_last());
        if entries.last().timestamp > before {
            entries.last().timestamp
        } else {
            before
        }
    }
}

/// The newest timestamp is that of an entry, and no entry has a newer one.
pub proof fn lemma_newest(entries: Seq<EntryView>)
    ensures
        forall|i: int|
            0 <= i < entries.len() ==> (#[trigger] entries[i]).timestamp <= newest_of(entries),
        newest_of(entries) == 0 || exists|i: int|
            0 <= i < entries.len() && (#[trigger] entries[i]).timestamp == newest_of(entries),
    decreases entries.len(),
{
    if entries.len() > 0 {
        let shorter = entries.drop_last();
        lemma_newest(shorter);
        assert forall|i: int| 0 <= i < entries.len() implies (#[trigger] entries[i]).timestamp
            <= newest_of(entries) by {
            if i < shorter.len() {
                assert(shorter[i] == entries[i]);
            }
        }
        let last = entries.len() - 1;
        assert(entries[last].timestamp == entries.last().timestamp);
        if newest_of(shorter) == newest_of(entries) && newest_of(shorter) != 0 {
            let i = choose|i: int|
                0 <= i < shorter.len() && (#[trigger] shorter[i]).timestamp == newest_of(shorter);
            assert(entries[i] == shorter[i]);
        }
    }
}

/// The file of a table.
pub open spec fn image_of(
    blocks: Seq<BuiltBlock>,
    compression: CompressionType,
    bloom: FilterView,
) -> Seq<u8> {
    file_blocks(blocks) + encoded_metadata(compression, index_of(blocks), bloom) + codec::le64(
        newest_of(entries_of(blocks)),
    ) + codec::le64(next_offset(blocks)) + codec::le32(SSTABLE_MAGIC)
}

/// The entries of all blocks in order.
pub open spec fn entries_of(blocks: Seq<BuiltBlock>) -> Seq<EntryView>
    decreases blocks.len(),
{
    if blocks.len() == 0 {
        Seq::empty()
    } else {
        entries_of(blocks.drop_last()) + blocks.last().entries
    }
}

/// A table that is being written.
#[verifier::ext_equal]
pub struct BuilderView {
    pub blocks: Seq<BuiltBlock>,
    /// The entries of the block that is being filled.
    pub current: Seq<EntryView>,
    pub bloom: FilterView,
    pub compression: CompressionType,
}

impl BuilderView {
    /// Everything that was added.
    pub open spec fn entries(self) -> Seq<EntryView> {
        entries_of(self.blocks) + self.current
    }

    /// Every block that was written is stored as the compression demands, none is empty,
    /// and the filter admits every key that was added.
    pub open spec fn wf(self) -> bool {
        &&& self.bloom.usable()
        &&& forall|i: int|
            0 <= i < self.blocks.len() ==> (#[trigger] self.blocks[i]).entries.len() > 0
                && stored_as(
                self.compression,
                block::encoded_block(self.blocks[i].entries),
                self.blocks[i].stored,
            )
        &&& forall|i: int|
            0 <= i < self.entries().len() ==> self.bloom.admits((#[trigger] self.entries()[i]).key)
    }

    /// `self` with the current block, of which `stored` is what is stored, written.
    pub open spec fn flushed(self, stored: Seq<u8>) -> BuilderView {
        BuilderView {
            blocks: self.blocks.push(BuiltBlock { entries: self.current, stored }),
            current: Seq::empty(),
            ..self
        }
    }

    /// `self` with an entry in the current block, before it is seen whether the block is
    /// full.
    pub open spec fn appended(self, e: EntryView, bloom: FilterView) -> BuilderView {
        BuilderView { current: self.current.push(e), bloom, ..self }
    }

    /// `after` is what the table becomes by the addition of `e`: a block that is full by
    /// it is written.
    pub open spec fn added(self, e: EntryView, after: BuilderView) -> bool {
        let grown = self.appended(e, after.bloom);
        &&& after.bloom.inserted(self.bloom, e.key)
        &&& if block::encoded_block(grown.current).len() >= BLOCK_SIZE {
            exists|stored: Seq<u8>| #[trigger]
                stored_as(self.compression, block::encoded_block(grown.current), stored) && after
                    == grown.flushed(stored)
        } else {
            after == grown
        }
    }

    /// `done` is the table with nothing left in the current block.
    pub open spec fn finished(self, done: BuilderView) -> bool {
        if self.current.len() > 0 {
            exists|stored: Seq<u8>| #[trigger]
                stored_as(self.compression, block::encoded_block(self.current), stored) && done
                    == self.flushed(stored)
        } else {
            done == self
        }
    }

    pub open spec fn image(self) -> Seq<u8> {
        image_of(self.blocks, self.compression, self.bloom)
    }
}

pub struct SSTableBuilder {
    out: Vec<u8>,
    block_metas: Vec<BlockMeta>,
    current_block: Vec<u8>,
    block_first_key: Option<Vec<u8>>,
    last_key: Vec<u8>,
    block_offset: u64,
    bloom: BloomFilter,
    compression: CompressionType,
    newest: u64,
    blocks: Ghost<Seq<BuiltBlock>>,
    current: Ghost<Seq<EntryView>>,
}

impl View for SSTableBuilder {
    type V = BuilderView;

    closed spec fn view(&self) -> BuilderView {
        BuilderView {
            blocks: self.blocks@,
            current: self.current@,
            bloom: self.bloom@,
            compression: self.compression,
        }
    }
}

impl SSTableBuilder {
    pub closed spec fn wf(&self) -> bool {
        &&& self@.wf()
        &&& self.out@ == file_blocks(self.blocks@)
        &&& sstable::meta_views(self.block_metas@) == index_of(self.blocks@)
        &&& self.current_block@ == block::encoded_block(self.current@)
        &&& self.block_offset == next_offset(self.blocks@)
        &&& self.newest == newest_of(self@.entries())
        &&& match self.block_first_key {
            Some(k) => self.current@.len() > 0 && k@ == self.current@[0].key && self.last_key@
                == self.current@.last().key,
            None => self.current@.len() == 0,
        }
    }

    pub fn new(estimated_keys: usize) -> (builder: Self)
        requires
            estimated_keys < usize::MAX / 10,
        ensures
            builder.wf(),
            builder@.blocks.len() == 0,
            builder@.current.len() == 0,
            builder@.compression == CompressionType::Plain,
            builder@.bloom.num_hashes == NUM_HASHES,
            builder@.bloom.bits == empty_bits(estimated_keys as nat),
    {
        Self::new_with_compression(estimated_keys, CompressionType::Plain)
    }

    pub fn new_with_compression(
        estimated_keys: usize,
        compression: CompressionType,
    ) -> (builder: Self)
        requires
            estimated_keys < usize::MAX / 10,
        ensures
            builder.wf(),
            builder@.blocks.len() == 0,
            builder@.current.len() == 0,
            builder@.compression == compression,
            builder@.bloom.num_hashes == NUM_HASHES,
            builder@.bloom.bits == empty_bits(estimated_keys as nat),
    {
        let num_keys: usize = if estimated_keys > 1 {
            estimated_keys
        } else {
            1
        };
        let builder = SSTableBuilder {
            out: Vec::new(),
            block_metas: Vec::new(),
            current_block: Vec::new(),
            block_first_key: None,
            last_key: Vec::new(),
            block_offset: 0,
            bloom: BloomFilter::with_density(num_keys, BITS_PER_KEY, NUM_HASHES),
            compression,
            newest: 0,
            blocks: Ghost(Seq::empty()),
            current: Ghost(Seq::empty()),
        };
        assert(sstable::meta_views(builder.block_metas@) =~= index_of(builder.blocks@));
        builder
    }

    /// Adds an entry. Entries are to be added in the order of their keys.
    pub fn add(&mut self, key: &Key, value: Option<&[u8]>)
        requires
            old(self).wf(),
        ensures
            final(self).wf(),
            old(self)@.added(entry_of(key@, value), final(self)@),
            final(self)@.entries() == old(self)@.entries().push(entry_of(key@, value)),
    {
        let key_bytes = key.data();
        let ghost e = entry_of(key@, value);
        let ghost before = self@;
        self.bloom.insert(key_bytes);
        if self.block_first_key.is_none() {
            self.block_first_key = Some(codec::copy_bytes(key_bytes));
        }
        self.last_key = codec::copy_bytes(key_bytes);
        block::put_entry(&mut self.current_block, key_bytes, key.timestamp(), value);
        if key.timestamp() > self.newest {
            self.newest = key.timestamp();
        }
        let ghost grown = before.appended(e, self.bloom@);
        proof {
            assert(grown.current.drop_last() =~= before.current);
            self.current@ = grown.current;
            assert(self@ == grown);
            assert(grown.entries() =~= before.entries().push(e));
            assert(grown.entries().drop_last() =~= before.entries());
            assert forall|i: int| 0 <= i < grown.entries().len() implies grown.bloom.admits(
                (#[trigger] grown.entries()[i]).key,
            ) by {
                if i < before.entries().len() {
                    assert(before.bloom.admits(before.entries()[i].key));
                    bloom::lemma_no_false_negatives(
                        before.bloom,
                        grown.bloom,
                        e.key,
                        before.entries()[i].key,
                    );
                } else {
                    bloom::lemma_no_false_negatives(before.bloom, grown.bloom, e.key, e.key);
                }
            }
        }
        if self.current_block.len() >= BLOCK_SIZE {
            self.flush_block();
        }
    }

    /// Writes the current block.
    fn flush_block(&mut self)
        requires
            old(self).wf(),
            old(self)@.current.len() > 0,
        ensures
            final(self).wf(),
            exists|stored: Seq<u8>| #[trigger]
                stored_as(
                    old(self)@.compression,
                    block::encoded_block(old(self)@.current),
                    stored,
                ) && final(self)@ == old(self)@.flushed(stored),
            final(self)@.entries() == old(self)@.entries(),
    {
        let ghost before = *self;
        let ghost data = self.current_block@;
        let uncompressed_length: u32 = #[verifier::truncate] (self.current_block.len() as u32);
        let stored = self.compress_block(self.current_block.as_slice());
        let sum: u32 = checksum::checksum(stored.as_slice());
        let mut output = codec::copy_bytes(stored.as_slice());
        codec::put_u32(&mut output, sum);
        proof {
            codec::lemma_le_round_trip();
        }
        let length: u32 = #[verifier::truncate] (output.len() as u32);
        codec::put_slice(&mut self.out, output.as_slice());
        let first_key = match self.block_first_key.take() {
            Some(k) => k,
            None => Vec::new(),
        };
        let last_key = codec::copy_bytes(self.last_key.as_slice());
        let ghost b = BuiltBlock { entries: self.current@, stored: stored@ };
        let offset: u64 = self.block_offset;
        self.block_metas.push(
            BlockMeta { offset, length, uncompressed_length, first_key, last_key },
        );
        self.block_offset = self.block_offset.wrapping_add(length as u64);
        self.current_block = Vec::new();
        proof {
            let blocks = self.blocks@;
            let more = blocks.push(b);
            assert(more.drop_last() =~= blocks);
            self.blocks@ = more;
            self.current@ = Seq::empty();
            assert(self@ == before@.flushed(stored@));
            assert(entries_of(more) + Seq::empty() =~= before@.entries());
            assert(sstable::meta_views(self.block_metas@) =~= index_of(more)) by {
                assert(sstable::meta_views(before.block_metas@).len() == index_of(blocks).len());
                assert forall|i: int| 0 <= i < more.len() implies sstable::meta_views(
                    self.block_metas@,
                )[i] == #[trigger] index_of(more)[i] by {
                    if i < blocks.len() {
                        assert(more.take(i) =~= blocks.take(i));
                        assert(sstable::meta_views(before.block_metas@)[i] == index_of(blocks)[i]);
                    } else {
                        assert(more.take(i) =~= blocks);
                    }
                }
            }
            assert(self.out@ =~= file_blocks(blocks) + file_block(stored@));
            assert forall|i: int| 0 <= i < more.len() implies (#[trigger] more[i]).entries.len() > 0
                && stored_as(
                self.compression,
                block::encoded_block(more[i].entries),
                more[i].stored,
            ) by {
                if i < blocks.len() {
                    assert(more[i] == blocks[i]);
                }
            }
            assert(self@.entries() =~= before@.entries());
            assert forall|i: int| 0 <= i < self@.entries().len() implies self@.bloom.admits(
                (#[trigger] self@.entries()[i]).key,
            ) by {
                assert(before@.bloom.admits(before@.entries()[i].key));
            }
        }
    }

    fn compress_block(&self, data: &[u8]) -> (stored: Vec<u8>)
        ensures
            stored_as(self.compression, data@, stored@),
    {
        match self.compression {
            CompressionType::Plain => codec::copy_bytes(data),
            CompressionType::Lz4 => if data.len() <= usize::MAX / 220 {
                lz4::pack(data)
            } else {
                codec::copy_bytes(data)
            },
        }
    }

    /// The file of the table.
    pub fn finish(self) -> (image: Vec<u8>)
        requires
            self.wf(),
        ensures
            exists|done: BuilderView| #[trigger]
                self@.finished(done) && done.wf() && done.entries() == self@.entries()
                    && image@ == done.image(),
    {
        let mut builder = self;
        builder.close();
        let ghost done = builder@;
        let SSTableBuilder { out, block_metas, block_offset, bloom, compression, newest, .. } = builder;
        let mut image = out;
        put_metadata(&mut image, &block_metas, &bloom, compression);
        codec::put_u64(&mut image, newest);
        codec::put_u64(&mut image, block_offset);
        codec::put_u32(&mut image, SSTABLE_MAGIC);
        assert(done.entries() =~= entries_of(done.blocks));
        assert(image@ =~= done.image());
        image
    }

    /// Writes what is left in the current block.
    fn close(&mut self)
        requires
            old(self).wf(),
        ensures
            final(self).wf(),
            old(self)@.finished(final(self)@),
            final(self)@.entries() == old(self)@.entries(),
    {
        if self.current_block.len() > 0 {
            self.flush_block();
        } else {
            proof {
                lemma_nothing_pending(self.current@);
            }
        }
    }
}

fn put_metadata(
    image: &mut Vec<u8>,
    block_metas: &Vec<BlockMeta>,
    bloom: &BloomFilter,
    compression: CompressionType,
)
    ensures
        final(image)@ == old(image)@ + encoded_metadata(
            compression,
            sstable::meta_views(block_metas@),
            bloom@,
        ),
{
    let ghost metas = sstable::meta_views(block_metas@);
    image.push(compression.to_u8());
    codec::put_u32(image, #[verifier::truncate] (block_metas.len() as u32));
    let ghost head = image@;
    let mut i: usize = 0;
    assert(metas.take(0) =~= Seq::empty());
    assert(image@ =~= head + encoded_metas(metas.take(0)));
    while i < block_metas.len()
        invariant
            i <= block_metas@.len(),
            metas == sstable::meta_views(block_metas@),
            image@ == head + encoded_metas(metas.take(i as int)),
        decreases block_metas@.len() - i,
    {
        let meta = &block_metas[i];
        let ghost so_far = image@;
        assert(meta@ == metas[i as int]);
        put_meta(image, meta);
        proof {
            assert(metas.take(i + 1).drop_last() =~= metas.take(i as int));
            assert(image@ =~= head + encoded_metas(metas.take(i + 1)));
        }
        i += 1;
    }
    assert(metas.take(metas.len() as int) =~= metas);
    codec::put_u32(image, bloom.num_hashes());
    codec::put_sized(image, bloom.bits());
    assert(image@ =~= old(image)@ + encoded_metadata(compression, metas, bloom@));
}

fn put_meta(image: &mut Vec<u8>, meta: &BlockMeta)
    ensures
        final(image)@ == old(image)@ + encoded_meta(meta@),
{
    codec::put_u64(image, meta.offset);
    codec::put_u32(image, meta.length);
    codec::put_u32(image, meta.uncompressed_length);
    codec::put_sized(image, meta.first_key.as_slice());
    codec::put_sized(image, meta.last_key.as_slice());
    assert(image@ =~= old(image)@ + encoded_meta(meta@));
}

pub open spec fn empty_bits(estimated_keys: nat) -> Seq<u8> {
    let num_keys = if estimated_keys > 1 {
        estimated_keys
    } else {
        1
    };
    Seq::new(bloom::filter_len(num_keys, BITS_PER_KEY as nat), |i: int| 0u8)
}

pub open spec fn entry_of(key: KeyView, value: Option<&[u8]>) -> EntryView {
    EntryView {
        key: key.data,
        timestamp: key.timestamp,
        value: match value {
            Some(v) => Some(v@),
            None => None,
        },
    }
}

/// A block without bytes has no entries.
proof fn lemma_nothing_pending(entries: Seq<EntryView>)
    requires
        block::encoded_block(entries).len() == 0,
    ensures
        entries.len() == 0,
{
    if entries.len() > 0 {
        codec::lemma_le_round_trip();
        let e = entries.last();
        assert(codec::sized(e.key).len() >= 4);
        assert(e.encoded().len() > 0);
    }
}

/// How a table is cut into blocks. An entry goes to the end of the block that is being
/// filled. The block is closed exactly where it has 4096 bytes or more with it, and then
/// holds what was put into it in order. Blocks that are closed stay as they are.
pub proof fn lemma_blocks_are_cut(b: BuilderView, e: EntryView, after: BuilderView)
    requires
        b.added(e, after),
    ensures
        after.entries() == b.entries().push(e),
        after.compression == b.compression,
        after.bloom.inserted(b.bloom, e.key),
        block::encoded_block(b.current.push(e)).len() < 4096 ==> after.blocks == b.blocks
            && after.current == b.current.push(e),
        block::encoded_block(b.current.push(e)).len() >= 4096 ==> {
            &&& after.current.len() == 0
            &&& after.blocks.len() == b.blocks.len() + 1
            &&& after.blocks.drop_last() == b.blocks
            &&& after.blocks.last().entries == b.current.push(e)
        },
{
    if block::encoded_block(b.current.push(e)).len() >= 4096 {
        assert(after.blocks.drop_last() =~= b.blocks);
        assert(after.entries() =~= b.entries().push(e));
    } else {
        assert(after.entries() =~= b.entries().push(e));
    }
}

/// A table that is finished has all that was added to it, and no block is left open. Of what
/// was closed nothing changes.
pub proof fn lemma_finished_is_closed(b: BuilderView, done: BuilderView)
    requires
        b.finished(done),
    ensures
        done.current.len() == 0,
        done.entries() == b.entries(),
        done.bloom == b.bloom,
        done.compression == b.compression,
        b.current.len() == 0 ==> done.blocks == b.blocks,
        b.current.len() > 0 ==> done.blocks.len() == b.blocks.len() + 1 && done.blocks.drop_last()
            == b.blocks && done.blocks.last().entries == b.current,
{
    if b.current.len() > 0 {
        assert(done.blocks.drop_last() =~= b.blocks);
        assert(done.entries() =~= b.entries());
    }
}

} // verus!
