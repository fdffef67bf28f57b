//! Which tables are read as they were written: those whose entries are not too many and not
//! too long.

use crate::common::codec;
use crate::common::error::Fault;
use crate::common::key::KeyView;
use crate::common::lz4;
use crate::storage::batch::OperationView;
use crate::storage::block;
use crate::storage::block::EntryView;
use crate::storage::iterator;
use crate::storage::iterator::Item;
use crate::storage::lsm;
use crate::storage::lsm::{EffectView, LsmOptions, LsmView, MemView};
use crate::storage::manifest::{ManifestView, MAX_ID};
use crate::storage::sstable;
use crate::storage::sstable::CompressionType;
use crate::storage::table_builder;
use crate::storage::table_builder::{BuilderView, BuiltBlock, BLOCK_SIZE};
use crate::storage::table_laws;
use crate::storage::wal;
use crate::storage::wal::RecordView;
use vstd::prelude::*;

verus! {

/// A table has fewer entries than this.
pub const MOST_ENTRIES: u64 = 0x8000_0000;

/// How many bytes the key and the value of an entry may have together. What is compressed
/// has to be shorter, for the decompressor counts in fewer bits.
pub open spec fn longest_entry(compression: CompressionType) -> nat {
    match compression {
        CompressionType::Plain => 0x8000_0000,
        CompressionType::Lz4 => 15_000_000,
    }
}

/// How many bytes a key and its value have together.
pub open spec fn version_len(key: Seq<u8>, value: Option<Seq<u8>>) -> nat {
    key.len() + match value {
        Some(v) => v.len(),
        None => 0,
    }
}

/// No entry is too long.
pub open spec fn all_short(compression: CompressionType, entries: Seq<EntryView>) -> bool {
    forall|i: int|
        0 <= i < entries.len() ==> version_len(
            (#[trigger] entries[i]).key,
            entries[i].value,
        ) <= longest_entry(compression)
}

/// How many bytes a block has at most: an entry is added only to one that is not full.
spec fn longest_block(compression: CompressionType) -> nat {
    BLOCK_SIZE as nat + 16 + longest_entry(compression)
}

spec fn block_short(compression: CompressionType, b: BuiltBlock) -> bool {
    &&& block::encoded_block(b.entries).len() <= longest_block(compression)
    &&& all_short(compression, b.entries)
}

/// No block is too long, and the current one is not full.
spec fn short(b: BuilderView) -> bool {
    &&& forall|i: int|
        0 <= i < b.blocks.len() ==> block_short(b.compression, #[trigger] b.blocks[i])
    &&& block::encoded_block(b.current).len() < BLOCK_SIZE
    &&& all_short(b.compression, b.current)
}

proof fn lemma_added_stays_short(before: BuilderView, e: EntryView, after: BuilderView)
    requires
        before.added(e, after),
        short(before),
        version_len(e.key, e.value) <= longest_entry(before.compression),
    ensures
        short(after),
        after.compression == before.compression,
        after.bloom.bits.len() == before.bloom.bits.len(),
        after.entries() == before.entries().push(e),
{
    codec::lemma_le_round_trip();
    let grown = before.appended(e, after.bloom);
    assert(grown.current.drop_last() =~= before.current);
    assert(block::encoded_block(grown.current).len() <= longest_block(before.compression));
    assert(all_short(before.compression, grown.current)) by {
        assert forall|i: int| 0 <= i < grown.current.len() implies version_len(
            (#[trigger] grown.current[i]).key,
            grown.current[i].value,
        ) <= longest_entry(before.compression) by {
            if i < before.current.len() {
                assert(grown.current[i] == before.current[i]);
            }
        }
    }
    if block::encoded_block(grown.current).len() >= BLOCK_SIZE {
        assert(after.blocks.drop_last() =~= before.blocks);
        assert forall|i: int| 0 <= i < after.blocks.len() implies block_short(
            after.compression,
            #[trigger] after.blocks[i],
        ) by {
            if i < before.blocks.len() {
                assert(after.blocks[i] == before.blocks[i]);
            }
        }
    }
    assert(after.entries() =~= before.entries().push(e));
}

/// No item is too long.
pub open spec fn items_short(compression: CompressionType, items: Seq<Item>) -> bool {
    forall|i: int|
        0 <= i < items.len() ==> version_len((#[trigger] items[i]).key.data, items[i].value)
            <= longest_entry(compression)
}

proof fn lemma_built_is_short(
    estimated_keys: nat,
    compression: CompressionType,
    items: Seq<Item>,
    filled: BuilderView,
)
    requires
        lsm::builds(lsm::blank(estimated_keys, compression), items, filled),
        items_short(compression, items),
    ensures
        short(filled),
        filled.compression == compression,
        filled.bloom.bits.len() == table_builder::empty_bits(estimated_keys).len(),
        filled.entries() == items.map_values(|item: Item| lsm::entry_of(item)),
    decreases items.len(),
{
    let blank = lsm::blank(estimated_keys, compression);
    if items.len() == 0 {
        assert(filled.entries() =~= items.map_values(|item: Item| lsm::entry_of(item)));
    } else {
        let mid = choose|mid: BuilderView|
            lsm::builds(blank, items.drop_last(), mid) && #[trigger] mid.added(
                lsm::entry_of(items.last()),
                filled,
            );
        assert forall|i: int| 0 <= i < items.drop_last().len() implies version_len(
            (#[trigger] items.drop_last()[i]).key.data,
            items.drop_last()[i].value,
        ) <= longest_entry(compression) by {
            assert(items.drop_last()[i] == items[i]);
        }
        lemma_built_is_short(estimated_keys, compression, items.drop_last(), mid);
        lemma_added_stays_short(mid, lsm::entry_of(items.last()), filled);
        assert(filled.entries() =~= items.map_values(|item: Item| lsm::entry_of(item)));
    }
}

/// There are no more blocks than entries, and the file has no more bytes than its blocks.
proof fn lemma_file_len(blocks: Seq<BuiltBlock>, longest: nat)
    requires
        forall|i: int|
            0 <= i < blocks.len() ==> (#[trigger] blocks[i]).entries.len() > 0
                && blocks[i].stored.len() <= longest,
    ensures
        blocks.len() <= table_builder::entries_of(blocks).len(),
        table_builder::file_blocks(blocks).len() <= blocks.len() * (longest + 4),
    decreases blocks.len(),
{
    if blocks.len() > 0 {
        codec::lemma_le_round_trip();
        let shorter = blocks.drop_last();
        assert forall|i: int| 0 <= i < shorter.len() implies (#[trigger] shorter[i]).entries.len()
            > 0 && shorter[i].stored.len() <= longest by {
            assert(shorter[i] == blocks[i]);
        }
        lemma_file_len(shorter, longest);
        assert(blocks.last() == blocks[blocks.len() - 1]);
        assert(blocks.len() * (longest + 4) == shorter.len() * (longest + 4) + (longest + 4))
            by (nonlinear_arith)
            requires
                blocks.len() == shorter.len() + 1,
        ;
    }
}

/// A table with entries that are not too many and not too long is read as it was written,
/// however its blocks are compressed.
pub proof fn lemma_short_table_is_whole(
    estimated_keys: nat,
    compression: CompressionType,
    items: Seq<Item>,
    filled: BuilderView,
    done: BuilderView,
)
    requires
        lsm::builds(lsm::blank(estimated_keys, compression), items, filled),
        filled.finished(done),
        done.wf(),
        estimated_keys < MOST_ENTRIES,
        items.len() < MOST_ENTRIES,
        items_short(compression, items),
    ensures
        table_laws::whole(done),
        done.compression == compression,
        done.entries() == items.map_values(|item: Item| lsm::entry_of(item)),
{
    lemma_built_is_short(estimated_keys, compression, items, filled);
    if filled.current.len() > 0 {
        assert(done.blocks.drop_last() =~= filled.blocks);
        assert forall|i: int| 0 <= i < done.blocks.len() implies block_short(
            compression,
            #[trigger] done.blocks[i],
        ) by {
            if i < filled.blocks.len() {
                assert(done.blocks[i] == filled.blocks[i]);
            }
        }
    }
    assert(done.entries() =~= filled.entries());
    let all = done.entries();
    assert(block::all_storable(all)) by {
        assert forall|i: int| 0 <= i < all.len() implies (#[trigger] all[i]).storable() by {
            assert(all[i] == lsm::entry_of(items[i]));
        }
    }
    let longest: nat = 0x9000_0000;
    assert forall|i: int| 0 <= i < done.blocks.len() implies (
    #[trigger] done.blocks[i]).entries.len() > 0 && done.blocks[i].stored.len() <= longest
        && table_laws::block_fits(done.blocks[i]) && table_laws::readable(
        compression,
        done.blocks[i],
    ) by {
        let b = done.blocks[i];
        let data = block::encoded_block(b.entries);
        assert(block_short(compression, b));
        assert(table_builder::stored_as(compression, data, b.stored));
        if compression == CompressionType::Lz4 {
            lz4::lemma_is_packable(data.len());
            lz4::lemma_filled_again(b.stored, data);
        }
        assert(version_len(b.entries[0].key, b.entries[0].value) <= longest_entry(compression));
        let last = b.entries.len() - 1;
        assert(version_len(b.entries[last].key, b.entries[last].value) <= longest_entry(
            compression,
        ));
    }
    lemma_file_len(done.blocks, longest);
    assert(done.blocks.len() <= done.entries().len());
    assert(done.blocks.len() * (longest + 4) <= 0x8000_0000 * 0x9000_0004) by (nonlinear_arith)
        requires
            done.blocks.len() <= 0x8000_0000,
            longest == 0x9000_0000,
    ;
}

/// What was added to a table that is not too large is read from its file: the file can be
/// opened, and a lookup gives the newest version of the key that was added and is not newer
/// than `ts`, and nothing for a key of which there is none.
pub proof fn lemma_added_is_read(
    estimated_keys: nat,
    compression: CompressionType,
    items: Seq<Item>,
    filled: BuilderView,
    done: BuilderView,
    id: u64,
    key: Seq<u8>,
    ts: u64,
)
    requires
        lsm::builds(lsm::blank(estimated_keys, compression), items, filled),
        filled.finished(done),
        done.wf(),
        iterator::strictly_sorted(items),
        estimated_keys < MOST_ENTRIES,
        items.len() < MOST_ENTRIES,
        items_short(compression, items),
    ensures
        sstable::opened(id, done.image()) matches Ok(table) && forall|
            answer: Result<Option<Option<Seq<u8>>>, Fault>,
        | #[trigger]
            table.answers(key, ts, answer) ==> answer == Ok::<Option<Option<Seq<u8>>>, Fault>(
                block::first_version(
                    items.map_values(|item: Item| lsm::entry_of(item)),
                    0,
                    key,
                    ts,
                ),
            ),
{
    lemma_short_table_is_whole(estimated_keys, compression, items, filled, done);
    table_laws::lemma_built_table_opens(id, done);
    let all = done.entries();
    assert(table_laws::in_order(all)) by {
        assert forall|i: int, j: int|
            #![trigger all[i], all[j]]
            0 <= i < j < all.len() implies table_laws::key_of(all[i]).before(
            table_laws::key_of(all[j]),
        ) by {
            assert(all[i] == lsm::entry_of(items[i]));
            assert(all[j] == lsm::entry_of(items[j]));
            assert(items[i].key.before(items[j].key));
        }
    }
    let table = table_laws::table_of(id, done);
    assert forall|answer: Result<Option<Option<Seq<u8>>>, Fault>| #[trigger]
        table.answers(key, ts, answer) implies answer == Ok::<Option<Option<Seq<u8>>>, Fault>(
        block::first_version(all, 0, key, ts),
    ) by {
        table_laws::lemma_lookup_gives_what_was_added(id, done, key, ts, answer);
    }
}

/// A list of the entries of a table has as many items as that has entries.
proof fn lemma_listed_len(items: Seq<Item>, entries: Map<KeyView, Option<Seq<u8>>>)
    requires
        iterator::lists_table(items, entries),
        entries.dom().finite(),
    ensures
        items.len() <= entries.len(),
{
    let keys = items.map_values(|item: Item| item.key);
    assert(keys.no_duplicates()) by {
        assert forall|i: int, j: int|
            0 <= i < keys.len() && 0 <= j < keys.len() && i != j implies keys[i] != keys[j] by {
            let (a, b) = if i < j {
                (i, j)
            } else {
                (j, i)
            };
            assert(items[a].key.before(items[b].key));
            crate::common::order::lemma_irreflexive(items[a].key.data);
        }
    }
    keys.unique_seq_to_set();
    assert(keys.to_set().subset_of(entries.dom())) by {
        assert forall|k: KeyView| #[trigger] keys.to_set().contains(k) implies entries.dom().contains(
            k,
        ) by {
            let i = choose|i: int| 0 <= i < keys.len() && keys[i] == k;
            assert(entries.contains_key(items[i].key));
        }
    }
    vstd::set_lib::lemma_len_subset(keys.to_set(), entries.dom());
}

/// The versions in memory are not too many and not too long, even with so many more.
pub open spec fn memory_moderate(
    compression: CompressionType,
    entries: Map<KeyView, Option<Seq<u8>>>,
    more: nat,
) -> bool {
    &&& entries.dom().finite()
    &&& entries.len() + more < MOST_ENTRIES
    &&& forall|k: KeyView| #[trigger]
        entries.contains_key(k) ==> version_len(k.data, entries[k]) <= longest_entry(compression)
}

/// The writes of `ops`, and what is in memory before them, are not too many and not too
/// long for a table.
pub open spec fn moderate(s: LsmView, ops: Seq<OperationView>) -> bool {
    &&& memory_moderate(s.options.compression, s.mem.entries, ops.len())
    &&& forall|i: int|
        0 <= i < ops.len() ==> version_len((#[trigger] ops[i]).key, ops[i].value) <= longest_entry(
            s.options.compression,
        )
}

/// A write that is not too long fits in the log.
pub proof fn lemma_short_is_recordable(compression: CompressionType, op: OperationView, ts: u64)
    requires
        version_len(op.key, op.value) <= longest_entry(compression),
    ensures
        wal::recordable(lsm::record_for(op, ts)),
{
    codec::lemma_le_round_trip();
}

/// The table that is written from a memory table that is not too large is read as it was
/// written.
pub proof fn lemma_moderate_table_is_whole(
    compression: CompressionType,
    entries: Map<KeyView, Option<Seq<u8>>>,
    items: Seq<Item>,
    done: BuilderView,
)
    requires
        lsm::table_of(entries, compression, items, done),
        memory_moderate(compression, entries, 0),
    ensures
        table_laws::whole(done),
        done.compression == compression,
{
    lemma_listed_len(items, entries);
    let estimated_keys = lsm::estimate(entries.len());
    let filled = choose|filled: BuilderView| #[trigger]
        lsm::builds(lsm::blank(estimated_keys, compression), items, filled) && filled.finished(
            done,
        );
    assert(items_short(compression, items)) by {
        assert forall|i: int| 0 <= i < items.len() implies version_len(
            (#[trigger] items[i]).key.data,
            items[i].value,
        ) <= longest_entry(compression) by {
            assert(entries.contains_key(items[i].key));
        }
    }
    lemma_short_table_is_whole(estimated_keys, compression, items, filled, done);
}

/// Nothing changes for the writes that are still to come by one that is in memory.
pub proof fn lemma_written_moderate(s: LsmView, op: OperationView, rest: Seq<OperationView>)
    requires
        moderate(s, seq![op] + rest),
    ensures
        moderate(s.written(op), rest),
{
    let all = seq![op] + rest;
    let w = s.written(op);
    let k = KeyView { data: op.key, timestamp: s.next_ts };
    assert(w.mem.entries == s.mem.entries.insert(k, op.value));
    assert(all[0] == op);
    assert(w.mem.entries.dom() =~= s.mem.entries.dom().insert(k));
    assert forall|i: int| 0 <= i < rest.len() implies version_len(
        (#[trigger] rest[i]).key,
        rest[i].value,
    ) <= longest_entry(s.options.compression) by {
        assert(all[i + 1] == rest[i]);
    }
}

/// Whatever becomes of a full memory table, an empty one takes its place.
proof fn lemma_settled_moderate(
    w: LsmView,
    after: LsmView,
    more: Seq<EffectView>,
    fault: Option<Fault>,
    rest: Seq<OperationView>,
)
    requires
        w.settled(after, more, fault),
        moderate(w, rest),
    ensures
        moderate(after, rest),
        after.options == w.options,
        after.manifest.next_sst_id <= w.manifest.next_sst_id + 1,
{
    if w.mem.size >= w.options.memtable_size {
        let aside = w.set_aside();
        assert(aside.mem.entries.dom() =~= Set::<KeyView>::empty());
        if aside.manifest.next_sst_id <= MAX_ID {
            let (image, last) = choose|image: Seq<u8>, last: Seq<EffectView>| #[trigger]
                aside.flushed(image, after, last, fault) && lsm::is_table_file(
                    w.mem.entries,
                    w.options.compression,
                    image,
                ) && more == w.set_aside_effects() + last;
            assert(after.mem == aside.mem);
        }
    }
}

/// The writes that come behind one are as moderate as they were before it.
pub proof fn lemma_stored_moderate(
    s: LsmView,
    op: OperationView,
    after: LsmView,
    effects: Seq<EffectView>,
    fault: Option<Fault>,
    rest: Seq<OperationView>,
)
    requires
        s.stored(op, after, effects, fault),
        moderate(s, seq![op] + rest),
    ensures
        moderate(after, rest),
        after.options == s.options,
        after.manifest.next_sst_id <= s.manifest.next_sst_id + 1,
{
    lemma_written_moderate(s, op, rest);
    if op.value is Some {
        let log = lsm::logging(seq![lsm::record_for(op, s.next_ts)]);
        let more = choose|more: Seq<EffectView>| #[trigger]
            s.written(op).settled(after, more, fault) && effects == seq![log] + more;
        lemma_settled_moderate(s.written(op), after, more, fault, rest);
    }
}

/// Fewer writes are moderate too.
pub proof fn lemma_fewer_moderate(s: LsmView, ops: Seq<OperationView>, rest: Seq<OperationView>)
    requires
        moderate(s, ops + rest),
    ensures
        moderate(s, ops),
        moderate(s, rest),
{
    let all = ops + rest;
    assert forall|i: int| 0 <= i < ops.len() implies version_len(
        (#[trigger] ops[i]).key,
        ops[i].value,
    ) <= longest_entry(s.options.compression) by {
        assert(all[i] == ops[i]);
    }
    assert forall|i: int| 0 <= i < rest.len() implies version_len(
        (#[trigger] rest[i]).key,
        rest[i].value,
    ) <= longest_entry(s.options.compression) by {
        assert(all[ops.len() + i] == rest[i]);
    }
}

/// The writes that come behind several are as moderate as they were before them.
pub proof fn lemma_stored_all_moderate(
    s: LsmView,
    ops: Seq<OperationView>,
    after: LsmView,
    effects: Seq<EffectView>,
    fault: Option<Fault>,
    rest: Seq<OperationView>,
)
    requires
        s.stored_all(ops, after, effects, fault),
        moderate(s, ops + rest),
    ensures
        moderate(after, rest),
        after.options == s.options,
        after.manifest.next_sst_id <= s.manifest.next_sst_id + ops.len(),
    decreases ops.len(),
{
    if ops.len() == 0 {
        assert(ops + rest =~= rest);
    } else {
        let (middle, first, last) = choose|
            middle: LsmView,
            first: Seq<EffectView>,
            last: Seq<EffectView>,
        |
            #![trigger middle.stored(ops.last(), after, last, fault), first.add(last)]
            s.stored_all(ops.drop_last(), middle, first, None) && middle.stored(
                ops.last(),
                after,
                last,
                fault,
            ) && effects == first.add(last);
        assert(ops + rest =~= ops.drop_last() + (seq![ops.last()] + rest));
        lemma_stored_all_moderate(
            s,
            ops.drop_last(),
            middle,
            first,
            None,
            seq![ops.last()] + rest,
        );
        lemma_stored_moderate(middle, ops.last(), after, last, fault, rest);
    }
}

/// A batch that is in memory leaves that as moderate as its writes are.
pub proof fn lemma_batch_moderate(s: LsmView, ops: Seq<OperationView>)
    requires
        moderate(s, ops),
    ensures
        moderate(s.with_batch(ops), Seq::empty()),
{
    lemma_records_moderate(s, ops, ops.len() as int);
    let records = lsm::batch_records(ops, s.next_ts);
    assert(records.take(ops.len() as int) =~= records);
}

proof fn lemma_records_moderate(s: LsmView, ops: Seq<OperationView>, n: int)
    requires
        moderate(s, ops),
        0 <= n <= ops.len(),
    ensures
        memory_moderate(
            s.options.compression,
            s.mem.with_records(lsm::batch_records(ops, s.next_ts).take(n)).entries,
            (ops.len() - n) as nat,
        ),
    decreases n,
{
    let records = lsm::batch_records(ops, s.next_ts);
    if n == 0 {
        assert(s.mem.with_records(records.take(0)) == s.mem);
    } else {
        lemma_records_moderate(s, ops, n - 1);
        assert(records.take(n).drop_last() =~= records.take(n - 1));
        let before = s.mem.with_records(records.take(n - 1)).entries;
        let after = s.mem.with_records(records.take(n)).entries;
        let r = records[n - 1];
        assert(records.take(n).last() == r);
        let k = KeyView { data: r.key, timestamp: r.timestamp };
        assert(after == before.insert(k, ops[n - 1].value));
        assert(after.dom() =~= before.dom().insert(k));
    }
}

/// A full memory table that is not too large is written to a file, and the file can be
/// opened: nothing fails as long as there are numbers for tables.
proof fn lemma_settled_succeeds(
    w: LsmView,
    after: LsmView,
    more: Seq<EffectView>,
    fault: Option<Fault>,
)
    requires
        w.settled(after, more, fault),
        moderate(w, Seq::empty()),
        w.manifest.next_sst_id <= MAX_ID,
    ensures
        fault is None,
{
    if w.mem.size >= w.options.memtable_size {
        let aside = w.set_aside();
        let (image, last) = choose|image: Seq<u8>, last: Seq<EffectView>| #[trigger]
            aside.flushed(image, after, last, fault) && lsm::is_table_file(
                w.mem.entries,
                w.options.compression,
                image,
            ) && more == w.set_aside_effects() + last;
        let (items, done) = choose|items: Seq<Item>, done: BuilderView| #[trigger]
            lsm::table_of(w.mem.entries, w.options.compression, items, done) && image
                == done.image();
        lemma_moderate_table_is_whole(w.options.compression, w.mem.entries, items, done);
        table_laws::lemma_built_table_opens(aside.manifest.next_sst_id, done);
    }
}

/// A write succeeds, whether or not the memory table is written to a file behind it.
pub proof fn lemma_write_succeeds(
    s: LsmView,
    op: OperationView,
    after: LsmView,
    effects: Seq<EffectView>,
    fault: Option<Fault>,
)
    requires
        s.stored(op, after, effects, fault),
        moderate(s, seq![op]),
        s.manifest.next_sst_id <= MAX_ID,
    ensures
        fault is None,
{
    if op.value is Some {
        let log = lsm::logging(seq![lsm::record_for(op, s.next_ts)]);
        let more = choose|more: Seq<EffectView>| #[trigger]
            s.written(op).settled(after, more, fault) && effects == seq![log] + more;
        assert(seq![op] + Seq::<OperationView>::empty() =~= seq![op]);
        lemma_written_moderate(s, op, Seq::empty());
        lemma_settled_succeeds(s.written(op), after, more, fault);
    }
}

/// Several writes, one after the other, succeed.
pub proof fn lemma_writes_succeed(
    s: LsmView,
    ops: Seq<OperationView>,
    after: LsmView,
    effects: Seq<EffectView>,
    fault: Option<Fault>,
)
    requires
        s.stored_all(ops, after, effects, fault),
        moderate(s, ops),
        s.manifest.next_sst_id + ops.len() <= MAX_ID + 1,
    ensures
        fault is None,
{
    if ops.len() > 0 {
        let (middle, first, last) = choose|
            middle: LsmView,
            first: Seq<EffectView>,
            last: Seq<EffectView>,
        |
            #![trigger middle.stored(ops.last(), after, last, fault), first.add(last)]
            s.stored_all(ops.drop_last(), middle, first, None) && middle.stored(
                ops.last(),
                after,
                last,
                fault,
            ) && effects == first.add(last);
        assert(ops =~= ops.drop_last() + seq![ops.last()]);
        lemma_stored_all_moderate(s, ops.drop_last(), middle, first, None, seq![ops.last()]);
        lemma_write_succeeds(middle, ops.last(), after, last, fault);
    }
}

/// A batch succeeds.
pub proof fn lemma_batch_succeeds(
    s: LsmView,
    ops: Seq<OperationView>,
    after: LsmView,
    more: Seq<EffectView>,
    fault: Option<Fault>,
)
    requires
        s.with_batch(ops).settled(after, more, fault),
        moderate(s, ops),
        s.manifest.next_sst_id <= MAX_ID,
    ensures
        fault is None,
{
    lemma_batch_moderate(s, ops);
    lemma_settled_succeeds(s.with_batch(ops), after, more, fault);
}

/// What a tree that was opened has in memory is finite.
pub proof fn lemma_opened_is_finite(
    manifest: ManifestView,
    tables: Map<u64, Seq<u8>>,
    logs: Map<u64, Seq<u8>>,
    options: LsmOptions,
    s: LsmView,
    effects: Seq<EffectView>,
)
    requires
        lsm::opens_to(manifest, tables, logs, options, Ok((s, effects))),
    ensures
        s.mem.entries.dom().finite(),
{
    lemma_logs_are_finite(MemView::fresh(), logs, 1, manifest.next_wal_id);
}

proof fn lemma_logs_are_finite(mem: MemView, logs: Map<u64, Seq<u8>>, from: u64, to: u64)
    requires
        mem.entries.dom().finite(),
    ensures
        lsm::with_logs(mem, logs, from, to) matches Ok(after) ==> after.entries.dom().finite(),
    decreases to - from,
{
    if from < to {
        let next = (from + 1) as u64;
        if !logs.contains_key(from) {
            lemma_logs_are_finite(mem, logs, next, to);
        } else if let Ok(records) = wal::recovered(logs[from], 0, true) {
            lemma_records_are_finite(mem, records);
            lemma_logs_are_finite(mem.with_records(records), logs, next, to);
        }
    }
}

proof fn lemma_records_are_finite(mem: MemView, records: Seq<RecordView>)
    requires
        mem.entries.dom().finite(),
    ensures
        mem.with_records(records).entries.dom().finite(),
    decreases records.len(),
{
    if records.len() > 0 {
        lemma_records_are_finite(mem, records.drop_last());
    }
}

} // verus!
