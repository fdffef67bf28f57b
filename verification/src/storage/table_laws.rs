//! What holds of a table from its building to its reading.

use crate::common::checksum;
use crate::common::codec;
use crate::common::error::Fault;
use crate::common::key::KeyView;
use crate::common::lz4;
use crate::common::order;
use crate::storage::block;
use crate::storage::block::EntryView;
use crate::storage::sstable;
use crate::storage::sstable::{BlockMetaView, CompressionType, TableView, SSTABLE_MAGIC};
use crate::storage::table_builder;
use crate::storage::table_builder::{BuilderView, BuiltBlock};
use vstd::prelude::*;

verus! {

/// The block's lengths fit in the 32 bits that the index has for each of them.
pub open spec fn block_fits(b: BuiltBlock) -> bool {
    &&& block::encoded_block(b.entries).len() <= u32::MAX
    &&& b.stored.len() + 4 <= u32::MAX
    &&& b.entries[0].key.len() <= u32::MAX
    &&& b.entries.last().key.len() <= u32::MAX
}

/// Every length and offset in the table fits in the bits that the file has for it.
pub open spec fn fits(built: BuilderView) -> bool {
    &&& built.blocks.len() <= u32::MAX
    &&& built.bloom.bits.len() <= u32::MAX
    &&& table_builder::file_blocks(built.blocks).len() <= u64::MAX
    &&& forall|i: int| 0 <= i < built.blocks.len() ==> block_fits(#[trigger] built.blocks[i])
}

/// No length in a compressed block overflows when it is decompressed.
pub open spec fn readable(compression: CompressionType, b: BuiltBlock) -> bool {
    let len = block::encoded_block(b.entries).len();
    compression == CompressionType::Lz4 ==> !lz4::overlong(b.stored) && lz4::packable(len)
        && lz4::countable(b.stored.len(), len)
}

/// The table that stands in the file of `built`.
pub open spec fn table_of(id: u64, built: BuilderView) -> TableView {
    TableView {
        id,
        image: built.image(),
        metas: table_builder::index_of(built.blocks),
        bloom: built.bloom,
        compression: built.compression,
        newest: table_builder::newest_of(table_builder::entries_of(built.blocks)),
    }
}

/// A block's entry in the index is read back.
proof fn lemma_meta_at(before: Seq<u8>, m: BlockMetaView, after: Seq<u8>)
    requires
        m.first_key.len() <= u32::MAX,
        m.last_key.len() <= u32::MAX,
    ensures
        sstable::meta_at(
            before + table_builder::encoded_meta(m) + after,
            before.len() as int,
        ) == Some((m, (before.len() + table_builder::encoded_meta(m).len()) as int)),
{
    codec::lemma_le_round_trip();
    let data = before + table_builder::encoded_meta(m) + after;
    let pos = before.len() as int;
    let offset = codec::le64(m.offset);
    let length = codec::le32(m.length);
    let size = codec::le32(m.uncompressed_length);
    let first = codec::sized(m.first_key);
    let first_len = codec::le32(m.first_key.len() as u32);
    let last = codec::sized(m.last_key);
    let last_len = codec::le32(m.last_key.len() as u32);
    assert(data =~= before + offset + (length + size + first + last + after));
    codec::lemma_int64_at(before, m.offset, length + size + first + last + after);
    assert(data =~= (before + offset) + length + (size + first + last + after));
    codec::lemma_int32_at(before + offset, m.length, size + first + last + after);
    let at_size = before + offset + length;
    assert(data =~= at_size + size + (first + last + after));
    codec::lemma_int32_at(at_size, m.uncompressed_length, first + last + after);
    let at_first = at_size + size;
    assert(data =~= at_first + first_len + (m.first_key + last + after));
    codec::lemma_int32_at(at_first, m.first_key.len() as u32, m.first_key + last + after);
    let at_last = at_first + first;
    assert(data =~= at_last + last_len + (m.last_key + after));
    codec::lemma_int32_at(at_last, m.last_key.len() as u32, m.last_key + after);
    let first_end = pos + 20 + m.first_key.len();
    assert(data.subrange(pos + 20, first_end) =~= m.first_key);
    assert(data.subrange(first_end + 4, first_end + 4 + m.last_key.len()) =~= m.last_key);
}

spec fn keys_fit(metas: Seq<BlockMetaView>) -> bool {
    forall|i: int|
        0 <= i < metas.len() ==> (#[trigger] metas[i]).first_key.len() <= u32::MAX
            && metas[i].last_key.len() <= u32::MAX
}

/// The index is read back from its `k`th entry on.
proof fn lemma_metas_at(before: Seq<u8>, metas: Seq<BlockMetaView>, after: Seq<u8>, k: int)
    requires
        keys_fit(metas),
        0 <= k <= metas.len(),
    ensures
        sstable::metas_at(
            before + table_builder::encoded_metas(metas) + after,
            (before.len() + table_builder::encoded_metas(metas.take(k)).len()) as int,
            (metas.len() - k) as nat,
        ) == Some(
            (
                metas.skip(k),
                (before.len() + table_builder::encoded_metas(metas).len()) as int,
            ),
        ),
    decreases metas.len() - k,
{
    let data = before + table_builder::encoded_metas(metas) + after;
    if k == metas.len() {
        assert(metas.take(k) =~= metas);
        assert(metas.skip(k) =~= Seq::empty());
    } else {
        lemma_metas_at(before, metas, after, k + 1);
        let rest = lemma_metas_split(metas, k);
        let head = table_builder::encoded_metas(metas.take(k));
        let own = table_builder::encoded_meta(metas[k]);
        assert(data =~= (before + head) + own + (rest + after));
        lemma_meta_at(before + head, metas[k], rest + after);
        assert(metas.skip(k) =~= seq![metas[k]] + metas.skip(k + 1));
    }
}

proof fn lemma_metas_split(metas: Seq<BlockMetaView>, k: int) -> (rest: Seq<u8>)
    requires
        0 <= k < metas.len(),
    ensures
        table_builder::encoded_metas(metas) == table_builder::encoded_metas(metas.take(k))
            + table_builder::encoded_meta(metas[k]) + rest,
        table_builder::encoded_metas(metas.take(k + 1)) == table_builder::encoded_metas(
            metas.take(k),
        ) + table_builder::encoded_meta(metas[k]),
    decreases metas.len() - k,
{
    assert(metas.take(k + 1).drop_last() =~= metas.take(k));
    let here = table_builder::encoded_metas(metas.take(k)) + table_builder::encoded_meta(metas[k]);
    if k + 1 == metas.len() {
        assert(metas.take(k + 1) =~= metas);
        assert(here + Seq::<u8>::empty() =~= here);
        Seq::empty()
    } else {
        let after = lemma_metas_split(metas, k + 1);
        let rest = table_builder::encoded_meta(metas[k + 1]) + after;
        assert(table_builder::encoded_metas(metas) =~= here + rest);
        rest
    }
}

/// The metadata of a table is read back.
proof fn lemma_metadata(built: BuilderView)
    requires
        fits(built),
    ensures
        sstable::metadata(
            table_builder::encoded_metadata(
                built.compression,
                table_builder::index_of(built.blocks),
                built.bloom,
            ),
        ) == Some((table_builder::index_of(built.blocks), built.bloom, built.compression)),
{
    codec::lemma_le_round_trip();
    let metas = table_builder::index_of(built.blocks);
    let bloom = built.bloom;
    let data = table_builder::encoded_metadata(built.compression, metas, bloom);
    let code = seq![built.compression.code()];
    let count = codec::le32(metas.len() as u32);
    let index = table_builder::encoded_metas(metas);
    let hashes = codec::le32(bloom.num_hashes);
    let bits = codec::sized(bloom.bits);
    assert(data =~= code + count + (index + hashes + bits));
    codec::lemma_int32_at(code, metas.len() as u32, index + hashes + bits);
    let before = code + count;
    assert(keys_fit(metas)) by {
        assert forall|i: int| 0 <= i < metas.len() implies (#[trigger] metas[i]).first_key.len()
            <= u32::MAX && metas[i].last_key.len() <= u32::MAX by {
            assert(block_fits(built.blocks[i]));
        }
    }
    assert(metas.take(0) =~= Seq::empty());
    assert(metas.skip(0) =~= metas);
    assert(data =~= before + index + (hashes + bits));
    lemma_metas_at(before, metas, hashes + bits, 0);
    let at_hashes = before + index;
    assert(data =~= at_hashes + hashes + bits);
    codec::lemma_int32_at(at_hashes, bloom.num_hashes, bits);
    let at_len = at_hashes + hashes;
    let bits_len = codec::le32(bloom.bits.len() as u32);
    assert(data =~= at_len + bits_len + bloom.bits);
    codec::lemma_int32_at(at_len, bloom.bits.len() as u32, bloom.bits);
    let pos = at_hashes.len() as int;
    assert(data.subrange(pos + 8, pos + 8 + bloom.bits.len()) =~= bloom.bits);
    assert(data[0] == built.compression.code());
}

/// The index counts the bytes in front of a block as the file has them.
proof fn lemma_offsets(built: BuilderView, k: int)
    requires
        fits(built),
        0 <= k <= built.blocks.len(),
    ensures
        table_builder::next_offset(built.blocks.take(k)) == table_builder::file_blocks(
            built.blocks.take(k),
        ).len(),
        table_builder::file_blocks(built.blocks.take(k)).len() <= table_builder::file_blocks(
            built.blocks,
        ).len(),
    decreases k,
{
    codec::lemma_le_round_trip();
    let rest = lemma_blocks_prefix(built.blocks, k);
    if k > 0 {
        lemma_offsets(built, k - 1);
        assert(built.blocks.take(k).drop_last() =~= built.blocks.take(k - 1));
        assert(built.blocks.take(k).last() == built.blocks[k - 1]);
        assert(block_fits(built.blocks[k - 1]));
    }
}

/// The blocks that come first stand at the front of the file.
proof fn lemma_blocks_prefix(blocks: Seq<BuiltBlock>, k: int) -> (rest: Seq<u8>)
    requires
        0 <= k <= blocks.len(),
    ensures
        table_builder::file_blocks(blocks) == table_builder::file_blocks(blocks.take(k)) + rest,
    decreases blocks.len() - k,
{
    if k == blocks.len() {
        assert(blocks.take(k) =~= blocks);
        assert(table_builder::file_blocks(blocks) + Seq::<u8>::empty()
            =~= table_builder::file_blocks(blocks));
        Seq::empty()
    } else {
        let after = lemma_blocks_prefix(blocks, k + 1);
        assert(blocks.take(k + 1).drop_last() =~= blocks.take(k));
        let rest = table_builder::file_block(blocks[k].stored) + after;
        assert(table_builder::file_blocks(blocks) =~= table_builder::file_blocks(blocks.take(k))
            + rest);
        rest
    }
}

/// The file of a table can be opened, and its index is that of the blocks that were
/// written.
pub proof fn lemma_built_table_opens(id: u64, built: BuilderView)
    requires
        fits(built),
    ensures
        sstable::opened(id, built.image()) == Ok::<TableView, Fault>(table_of(id, built)),
{
    codec::lemma_le_round_trip();
    let image = built.image();
    let data = table_builder::file_blocks(built.blocks);
    let meta = table_builder::encoded_metadata(
        built.compression,
        table_builder::index_of(built.blocks),
        built.bloom,
    );
    let offset = table_builder::next_offset(built.blocks);
    let none = Seq::<u8>::empty();
    let newest = table_builder::newest_of(table_builder::entries_of(built.blocks));
    let magic = codec::le32(SSTABLE_MAGIC);
    let at_offset = data + meta + codec::le64(newest);
    let at_magic = at_offset + codec::le64(offset);
    assert(image =~= at_magic + magic + none);
    codec::lemma_int32_at(at_magic, SSTABLE_MAGIC, none);
    assert(image =~= at_offset + codec::le64(offset) + magic);
    codec::lemma_int64_at(at_offset, offset, magic);
    assert(image =~= (data + meta) + codec::le64(newest) + (codec::le64(offset) + magic));
    codec::lemma_int64_at(data + meta, newest, codec::le64(offset) + magic);
    assert(built.blocks.take(built.blocks.len() as int) =~= built.blocks);
    lemma_offsets(built, built.blocks.len() as int);
    let len = image.len() as int;
    assert(image.subrange(data.len() as int, len - 20) =~= meta);
    lemma_metadata(built);
}

/// A block that was written is read back.
pub proof fn lemma_block_is_read_back(id: u64, built: BuilderView, i: int)
    requires
        built.wf(),
        fits(built),
        0 <= i < built.blocks.len(),
        readable(built.compression, built.blocks[i]),
    ensures
        table_of(id, built).block(i) == Ok::<Seq<u8>, Fault>(
            block::encoded_block(built.blocks[i].entries),
        ),
{
    codec::lemma_le_round_trip();
    let table = table_of(id, built);
    let b = built.blocks[i];
    let image = built.image();
    let before = table_builder::file_blocks(built.blocks.take(i));
    let rest = lemma_blocks_prefix(built.blocks, i + 1);
    assert(built.blocks.take(i + 1).drop_last() =~= built.blocks.take(i));
    lemma_offsets(built, i);
    assert(block_fits(b));
    let raw = table_builder::file_block(b.stored);
    let meta = table.metas[i];
    assert(meta == table_builder::meta_for(b, table_builder::next_offset(built.blocks.take(i))));
    assert(meta.length == raw.len());
    let start = before.len() as int;
    assert(image.subrange(start, start + raw.len()) =~= raw);
    assert(raw.take(raw.len() - 4) =~= b.stored);
    let sum = checksum::crc32(b.stored);
    let none = Seq::<u8>::empty();
    assert(raw =~= b.stored + codec::le32(sum) + none);
    codec::lemma_int32_at(b.stored, sum, none);
}

/// How many entries stand in the first `i` blocks.
spec fn entries_before(blocks: Seq<BuiltBlock>, i: int) -> nat {
    table_builder::entries_of(blocks.take(i)).len()
}

/// Where an entry of a block stands among all of them.
proof fn lemma_entry_position(blocks: Seq<BuiltBlock>, i: int, p: int)
    requires
        0 <= i < blocks.len(),
        0 <= p < blocks[i].entries.len(),
    ensures
        entries_before(blocks, i) + p < table_builder::entries_of(blocks).len(),
        table_builder::entries_of(blocks)[entries_before(blocks, i) + p] == blocks[i].entries[p],
    decreases blocks.len(),
{
    let shorter = blocks.drop_last();
    if i < shorter.len() {
        lemma_entry_position(shorter, i, p);
        assert(shorter.take(i) =~= blocks.take(i));
        assert(shorter[i] == blocks[i]);
    } else {
        assert(blocks.take(i) =~= shorter);
    }
}

proof fn lemma_entries_before_grow(blocks: Seq<BuiltBlock>, i: int, j: int)
    requires
        0 <= i < j <= blocks.len(),
    ensures
        entries_before(blocks, i) + blocks[i].entries.len() <= entries_before(blocks, j),
    decreases j,
{
    assert(blocks.take(j).drop_last() =~= blocks.take(j - 1));
    if i < j - 1 {
        lemma_entries_before_grow(blocks, i, j - 1);
    }
}

/// The key of an entry with its timestamp.
pub open spec fn key_of(e: EntryView) -> KeyView {
    KeyView { data: e.key, timestamp: e.timestamp }
}

/// The versions are in order, and none occurs twice.
pub open spec fn in_order(entries: Seq<EntryView>) -> bool {
    forall|i: int, j: int|
        #![trigger entries[i], entries[j]]
        0 <= i < j < entries.len() ==> key_of(entries[i]).before(key_of(entries[j]))
}

/// The keys of entries in order do not go back.
proof fn lemma_keys_in_order(entries: Seq<EntryView>, i: int, j: int)
    requires
        in_order(entries),
        0 <= i <= j < entries.len(),
    ensures
        order::at_most(entries[i].key, entries[j].key),
{
    if i < j {
        assert(key_of(entries[i]).before(key_of(entries[j])));
    }
}

/// The blocks begin in order.
proof fn lemma_sorted(id: u64, built: BuilderView)
    requires
        built.wf(),
        in_order(table_builder::entries_of(built.blocks)),
    ensures
        table_of(id, built).sorted(),
        forall|i: int|
            0 <= i < built.blocks.len() ==> (#[trigger] table_of(id, built).metas[i]).first_key
                == built.blocks[i].entries[0].key,
{
    let blocks = built.blocks;
    let all = table_builder::entries_of(blocks);
    let table = table_of(id, built);
    assert forall|i: int, j: int|
        #![trigger table.metas[i], table.metas[j]]
        0 <= i < j < table.metas.len() implies order::at_most(
        table.metas[i].first_key,
        table.metas[j].first_key,
    ) by {
        assert(blocks[i].entries.len() > 0);
        assert(blocks[j].entries.len() > 0);
        lemma_entry_position(blocks, i, 0);
        lemma_entry_position(blocks, j, 0);
        lemma_entries_before_grow(blocks, i, j);
        lemma_keys_in_order(
            all,
            entries_before(blocks, i) as int,
            entries_before(blocks, j) as int,
        );
    }
}

/// The entries from a block on.
pub open spec fn entries_from(blocks: Seq<BuiltBlock>, i: int) -> Seq<EntryView> {
    table_builder::entries_of(blocks.skip(i))
}

/// The entries are those in front of a block and those from it on, its own first.
pub proof fn lemma_entries_from(blocks: Seq<BuiltBlock>, i: int)
    requires
        0 <= i <= blocks.len(),
    ensures
        table_builder::entries_of(blocks) == table_builder::entries_of(blocks.take(i))
            + entries_from(blocks, i),
        i < blocks.len() ==> entries_from(blocks, i) == blocks[i].entries + entries_from(
            blocks,
            i + 1,
        ),
    decreases blocks.len(),
{
    if blocks.len() == 0 {
        assert(blocks.take(i) =~= blocks);
        assert(blocks.skip(i) =~= blocks);
        assert(table_builder::entries_of(blocks) + table_builder::entries_of(blocks)
            =~= table_builder::entries_of(blocks));
    } else if i == blocks.len() {
        assert(blocks.take(i) =~= blocks);
        assert(blocks.skip(i) =~= Seq::empty());
        assert(table_builder::entries_of(blocks) + Seq::<EntryView>::empty()
            =~= table_builder::entries_of(blocks));
    } else {
        let shorter = blocks.drop_last();
        let last = blocks.last().entries;
        lemma_entries_from(shorter, i);
        assert(blocks.take(i) =~= shorter.take(i));
        assert(blocks.skip(i).drop_last() =~= shorter.skip(i));
        assert(blocks.skip(i).last() == blocks.last());
        let front = table_builder::entries_of(blocks.take(i));
        assert((front + entries_from(shorter, i)) + last =~= front + (entries_from(shorter, i)
            + last));
        if i + 1 == blocks.len() {
            assert(blocks.skip(i + 1) =~= Seq::empty());
            assert(shorter.skip(i) =~= Seq::empty());
            assert(Seq::<EntryView>::empty() + last =~= last + Seq::<EntryView>::empty());
        } else {
            assert(blocks.skip(i + 1).drop_last() =~= shorter.skip(i + 1));
            assert(blocks.skip(i + 1).last() == blocks.last());
            assert(shorter[i] == blocks[i]);
            let mid = entries_from(shorter, i + 1);
            assert((blocks[i].entries + mid) + last =~= blocks[i].entries + (mid + last));
        }
    }
}

/// The entries of a block are storable if all are.
pub proof fn lemma_block_storable(built: BuilderView, i: int)
    requires
        block::all_storable(built.entries()),
        0 <= i < built.blocks.len(),
    ensures
        block::all_storable(built.blocks[i].entries),
{
    let own = built.blocks[i].entries;
    assert forall|p: int| 0 <= p < own.len() implies (#[trigger] own[p]).storable() by {
        lemma_entry_position(built.blocks, i, p);
        assert(built.entries()[entries_before(built.blocks, i) + p] == own[p]);
    }
}

/// A search from a block on finds the first version from there on.
proof fn lemma_lookup_from(id: u64, built: BuilderView, key: Seq<u8>, ts: u64, i: int)
    requires
        whole(built),
        in_order(table_builder::entries_of(built.blocks)),
        0 <= i < built.blocks.len(),
    ensures
        table_of(id, built).lookup(i, key, ts) == Ok::<Option<Option<Seq<u8>>>, Fault>(
            block::first_version(entries_from(built.blocks, i), 0, key, ts),
        ),
    decreases built.blocks.len() - i,
{
    let blocks = built.blocks;
    let table = table_of(id, built);
    let own = blocks[i].entries;
    let all = table_builder::entries_of(blocks);
    lemma_block_is_read_back(id, built, i);
    lemma_block_storable(built, i);
    block::lemma_search_finds_first(own, key, ts);
    lemma_entries_from(blocks, i);
    let rest = entries_from(blocks, i + 1);
    block::lemma_first_version_split(own, rest, 0, key, ts);
    lemma_sorted(id, built);
    if i + 1 < blocks.len() {
        if table.goes_on(i, key) {
            lemma_lookup_from(id, built, key, ts, i + 1);
        } else {
            lemma_entries_from(blocks, i + 1);
            let n = table_builder::entries_of(blocks.take(i + 1)).len() as int;
            assert(blocks[i + 1].entries.len() > 0);
            assert forall|k: int| 0 <= k < rest.len() implies (#[trigger] rest[k]).key != key by {
                assert(all[n + k] == rest[k]);
                assert(all[n] == rest[0]);
                assert(rest[0] == blocks[i + 1].entries[0]);
                lemma_keys_in_order(all, n, n + k);
                order::lemma_order(key, rest[0].key, rest[k].key);
                order::lemma_irreflexive(key);
            }
            block::lemma_no_version(rest, 0, key, ts);
        }
    } else {
        assert(blocks.skip(i + 1) =~= Seq::empty());
    }
}

/// The blocks in front of the one where a search begins hold nothing but lesser keys.
pub proof fn lemma_front_is_less(id: u64, built: BuilderView, key: Seq<u8>, idx: int)
    requires
        built.wf(),
        in_order(table_builder::entries_of(built.blocks)),
        table_of(id, built).located(key, idx),
        idx < built.blocks.len(),
    ensures
        forall|i: int|
            0 <= i < table_builder::entries_of(built.blocks.take(idx)).len() ==> order::less(
                (#[trigger] table_builder::entries_of(built.blocks.take(idx))[i]).key,
                key,
            ),
{
    let blocks = built.blocks;
    let all = table_builder::entries_of(blocks);
    let table = table_of(id, built);
    lemma_sorted(id, built);
    lemma_entries_from(blocks, idx);
    let front = table_builder::entries_of(blocks.take(idx));
    let rest = entries_from(blocks, idx);
    assert forall|i: int| 0 <= i < front.len() implies order::less(
        (#[trigger] front[i]).key,
        key,
    ) by {
        assert(all[i] == front[i]);
        assert(blocks[idx].entries.len() > 0);
        if idx == 0 {
            assert(blocks.take(0) =~= Seq::empty());
        }
        let n = front.len() as int;
        assert(all[n] == rest[0]);
        assert(rest[0] == blocks[idx].entries[0]);
        assert(order::less(table.metas[idx].first_key, key));
        lemma_keys_in_order(all, i, n);
        order::lemma_order(front[i].key, rest[0].key, key);
    }
}

/// The table is finished, its lengths fit in the file, and its blocks can be decompressed.
pub open spec fn whole(built: BuilderView) -> bool {
    &&& built.wf()
    &&& fits(built)
    &&& built.current.len() == 0
    &&& block::all_storable(built.entries())
    &&& forall|i: int|
        0 <= i < built.blocks.len() ==> readable(built.compression, #[trigger] built.blocks[i])
}

/// A lookup in a table gives the newest version of the key that was added and is not newer
/// than `ts`, and nothing for a key of which there is none.
pub proof fn lemma_lookup_gives_what_was_added(
    id: u64,
    built: BuilderView,
    key: Seq<u8>,
    ts: u64,
    answer: Result<Option<Option<Seq<u8>>>, Fault>,
)
    requires
        whole(built),
        in_order(built.entries()),
        table_of(id, built).answers(key, ts, answer),
    ensures
        answer == Ok::<Option<Option<Seq<u8>>>, Fault>(
            block::first_version(built.entries(), 0, key, ts),
        ),
{
    let blocks = built.blocks;
    let all = table_builder::entries_of(blocks);
    let table = table_of(id, built);
    assert(built.entries() =~= all);
    if table.excludes(key) {
        assert forall|i: int| 0 <= i < all.len() implies (#[trigger] all[i]).key != key by {
            assert(built.bloom.admits(built.entries()[i].key));
        }
        block::lemma_no_version(all, 0, key, ts);
    } else {
        let idx = choose|idx: int| #[trigger]
            table.located(key, idx) && answer == table.lookup(idx, key, ts);
        if idx < blocks.len() {
            lemma_lookup_from(id, built, key, ts, idx);
            lemma_entries_from(blocks, idx);
            let front = table_builder::entries_of(blocks.take(idx));
            let rest = entries_from(blocks, idx);
            lemma_front_is_less(id, built, key, idx);
            order::lemma_irreflexive(key);
            block::lemma_no_version(front, 0, key, ts);
            block::lemma_first_version_split(front, rest, 0, key, ts);
        } else {
            assert(blocks.len() == 0);
        }
    }
}

} // verus!
