//! Walking through a table.

use crate::common::error::{Error, Fault};
use crate::common::key::{Key, KeyView};
use crate::common::order;
use crate::common::simd::bytes_less;
use crate::storage::block;
use crate::storage::block::EntryView;
use crate::storage::iterator::{Item, StorageIterator, Stream};
use crate::storage::memtable;
use crate::storage::sstable::{SSTable, TableView};
use crate::storage::table_builder;
use crate::storage::table_builder::BuilderView;
use crate::storage::table_laws;
use std::sync::Arc;
use vstd::prelude::*;

verus! {

/// A table's entry as an iterator gives it.
pub open spec fn item_of(e: EntryView) -> Item {
    Item { key: KeyView { data: e.key, timestamp: e.timestamp }, value: e.value }
}

/// What follows position `pos` of a block and the blocks behind it. An empty block ends
/// the walk.
pub open spec fn walk(t: TableView, idx: int, data: Seq<u8>, pos: int) -> Stream
    decreases t.metas.len() - idx, data.len() - pos,
{
    if pos >= data.len() {
        if idx + 1 >= t.metas.len() {
            Stream::end()
        } else {
            match t.block(idx + 1) {
                Err(f) => Stream { items: Seq::empty(), fault: Some(f) },
                Ok(next) => if next.len() == 0 {
                    Stream::end()
                } else {
                    walk(t, idx + 1, next, 0)
                },
            }
        }
    } else {
        match block::entry_at(data, pos) {
            None => Stream { items: Seq::empty(), fault: Some(block::torn_block()) },
            Some((e, next)) => walk(t, idx, data, next).preceded(item_of(e)),
        }
    }
}

/// What a table holds from a block on.
pub open spec fn walk_from(t: TableView, idx: int) -> Stream {
    if idx >= t.metas.len() {
        Stream::end()
    } else {
        match t.block(idx) {
            Err(f) => Stream { items: Seq::empty(), fault: Some(f) },
            Ok(data) => walk(t, idx, data, 0),
        }
    }
}

/// The stream at its current entry, or the fault that it meets before one.
pub open spec fn settled(s: Stream) -> Result<Stream, Fault> {
    if s.items.len() == 0 && s.fault is Some {
        Err(s.fault->Some_0)
    } else {
        Ok(s)
    }
}

/// The stream at the first entry whose key is not below `target`.
pub open spec fn sought(s: Stream, target: Seq<u8>) -> Result<Stream, Fault>
    decreases s.items.len(),
{
    match settled(s) {
        Err(f) => Err(f),
        Ok(_) => if s.items.len() > 0 && order::less(s.head().key.data, target) {
            sought(Stream { items: s.items.skip(1), ..s }, target)
        } else {
            Ok(s)
        },
    }
}

pub struct SSTableIterator {
    table: Arc<SSTable>,
    block_idx: usize,
    block_data: Vec<u8>,
    block_offset: usize,
    current_key: Key,
    current_value: Option<Vec<u8>>,
    valid: bool,
}

impl SSTableIterator {
    pub closed spec fn source(&self) -> TableView {
        self.table@
    }

    /// What follows the current entry.
    spec fn rest(&self) -> Stream {
        walk(self.table@, self.block_idx as int, self.block_data@, self.block_offset as int)
    }

    spec fn in_place(&self) -> bool {
        &&& self.block_offset <= self.block_data@.len()
        &&& self.block_idx < self.table@.metas.len() || (self.block_idx == 0
            && self.block_data@.len() == 0)
    }

    /// An iterator at the first entry of the table.
    pub fn new(table: Arc<SSTable>) -> (result: Result<Self, Error>)
        ensures
            match result {
                Ok(iter) => {
                    &&& iter.wf()
                    &&& iter.source() == table@
                    &&& settled(walk_from(table@, 0)) == Ok::<Stream, Fault>(iter.stream())
                },
                Err(e) => settled(walk_from(table@, 0)) == Err::<Stream, Fault>(e@),
            },
    {
        let mut iter = SSTableIterator {
            table,
            block_idx: 0,
            block_data: Vec::new(),
            block_offset: 0,
            current_key: Key::new(Vec::new(), 0),
            current_value: None,
            valid: false,
        };
        iter.start_at(0)?;
        Ok(iter)
    }

    /// Goes back to the first entry of the table.
    pub fn seek_to_first(&mut self) -> (result: Result<(), Error>)
        requires
            old(self).wf(),
        ensures
            final(self).source() == old(self).source(),
            final(self).wf(),
            result is Err ==> final(self).stream().items.len() == 0,
            match result {
                Ok(_) => settled(walk_from(old(self).source(), 0)) == Ok::<
                    Stream,
                    Fault,
                >(final(self).stream()),
                Err(e) => settled(walk_from(old(self).source(), 0)) == Err::<Stream, Fault>(e@),
            },
    {
        self.start_at(0)
    }

    /// Goes to the first entry, from the block on in which `target` is looked for, whose
    /// key is not below it.
    pub fn seek(&mut self, target: &[u8]) -> (result: Result<(), Error>)
        requires
            old(self).wf(),
        ensures
            final(self).source() == old(self).source(),
            final(self).wf(),
            result is Err ==> final(self).stream().items.len() == 0,
            exists|idx: int| #[trigger]
                old(self).source().located(target@, idx) && (match result {
                    Ok(_) => sought(walk_from(old(self).source(), idx), target@) == Ok::<
                        Stream,
                        Fault,
                    >(final(self).stream()),
                    Err(e) => sought(walk_from(old(self).source(), idx), target@) == Err::<
                        Stream,
                        Fault,
                    >(e@),
                }),
    {
        let idx: usize = self.table.find_block(target);
        let ghost t = self.table@;
        let ghost start = walk_from(t, idx as int);
        assert(t.located(target@, idx as int));
        self.start_at(idx)?;
        while self.valid && bytes_less(self.current_key.data(), target)
            invariant
                self.wf(),
                self.table@ == t,
                t.located(target@, idx as int),
                t == old(self).source(),
                start == walk_from(t, idx as int),
                sought(start, target@) == sought(self.stream(), target@),
            decreases self.stream().items.len(),
        {
            let ghost before = self.stream();
            let ghost behind = self.rest();
            assert(before.items.skip(1) =~= behind.items);
            assert(sought(before, target@) == sought(behind, target@));
            self.parse_entry()?;
        }
        Ok(())
    }

    fn start_at(&mut self, idx: usize) -> (result: Result<(), Error>)
        requires
            idx < old(self).table@.metas.len() || idx == 0,
            old(self).in_place(),
        ensures
            final(self).table@ == old(self).table@,
            final(self).wf(),
            result is Err ==> !final(self).valid,
            match result {
                Ok(_) => settled(walk_from(old(self).table@, idx as int))
                    == Ok::<Stream, Fault>(final(self).stream()),
                Err(e) => settled(walk_from(old(self).table@, idx as int)) == Err::<Stream, Fault>(
                    e@,
                ),
            },
    {
        if idx >= self.table.num_blocks() {
            self.block_idx = 0;
            self.block_data = Vec::new();
            self.block_offset = 0;
            self.valid = false;
            return Ok(());
        }
        let loaded = self.load_block(idx);
        if let Err(e) = loaded {
            self.valid = false;
            return Err(e);
        }
        self.parse_entry()
    }

    fn load_block(&mut self, idx: usize) -> (result: Result<(), Error>)
        requires
            idx < old(self).table@.metas.len(),
        ensures
            final(self).table@ == old(self).table@,
            match result {
                Ok(_) => {
                    &&& old(self).table@.block(idx as int) == Ok::<Seq<u8>, Fault>(
                        final(self).block_data@,
                    )
                    &&& final(self).block_idx == idx
                    &&& final(self).block_offset == 0
                },
                Err(e) => old(self).table@.block(idx as int) == Err::<Seq<u8>, Fault>(e@)
                    && *final(self) == *old(self),
            },
    {
        let data = self.table.read_block(idx)?;
        self.block_data = data;
        self.block_offset = 0;
        self.block_idx = idx;
        Ok(())
    }

    /// Takes the next entry for the current one.
    fn parse_entry(&mut self) -> (result: Result<(), Error>)
        requires
            old(self).in_place(),
        ensures
            final(self).table@ == old(self).table@,
            final(self).wf(),
            result is Err ==> !final(self).valid,
            match result {
                Ok(_) => settled(old(self).rest()) == Ok::<Stream, Fault>(
                    final(self).stream(),
                ),
                Err(e) => settled(old(self).rest()) == Err::<Stream, Fault>(e@),
            },
    {
        let ghost rest = self.rest();
        let n: usize = self.table.num_blocks();
        if self.block_offset >= self.block_data.len() {
            if n == 0 || self.block_idx >= n - 1 {
                self.valid = false;
                return Ok(());
            }
            let loaded = self.load_block(self.block_idx + 1);
            if let Err(e) = loaded {
                self.valid = false;
                return Err(e);
            }
            if self.block_data.len() == 0 {
                self.valid = false;
                return Ok(());
            }
        }
        let ghost here = self.rest();
        assert(rest == here);
        let parsed = block::get_entry(self.block_data.as_slice(), self.block_offset);
        let (entry, next) = match parsed {
            Ok(found) => found,
            Err(e) => {
                self.valid = false;
                return Err(e);
            },
        };
        self.block_offset = next;
        self.current_key = Key::new(entry.key, entry.timestamp);
        self.current_value = entry.value;
        self.valid = true;
        proof {
            assert(here == self.rest().preceded(item_of(entry@)));
        }
        Ok(())
    }
}

impl StorageIterator for SSTableIterator {
    closed spec fn stream(&self) -> Stream {
        if self.valid {
            self.rest().preceded(
                Item {
                    key: self.current_key@,
                    value: memtable::value_view(self.current_value),
                },
            )
        } else {
            Stream::end()
        }
    }

    closed spec fn wf(&self) -> bool {
        self.in_place()
    }

    fn key(&self) -> (key: &Key) {
        &self.current_key
    }

    fn value(&self) -> (value: Option<&Vec<u8>>) {
        self.current_value.as_ref()
    }

    fn is_valid(&self) -> (valid: bool) {
        self.valid
    }

    fn next(&mut self) -> (result: Result<(), Error>) {
        let ghost before = self.stream();
        let ghost behind = self.rest();
        assert(before.items.skip(1) =~= behind.items);
        self.parse_entry()
    }
}

pub open spec fn items_of(entries: Seq<EntryView>) -> Seq<Item> {
    entries.map_values(|e: EntryView| item_of(e))
}

/// A walk through a block that was written gives its entries from the `k`th on, and then
/// what follows the block.
proof fn lemma_walk_block(t: TableView, idx: int, entries: Seq<EntryView>, k: int)
    requires
        block::all_storable(entries),
        0 <= k <= entries.len(),
    ensures
        ({
            let data = block::encoded_block(entries);
            let after = walk(t, idx, data, data.len() as int);
            walk(t, idx, data, block::encoded_block(entries.take(k)).len() as int) == (Stream {
                items: items_of(entries.skip(k)) + after.items,
                ..after
            })
        }),
    decreases entries.len() - k,
{
    let data = block::encoded_block(entries);
    let after = walk(t, idx, data, data.len() as int);
    if k == entries.len() {
        assert(entries.take(k) =~= entries);
        assert(items_of(entries.skip(k)) + after.items =~= after.items);
    } else {
        let before = block::encoded_block(entries.take(k));
        let tail = block::lemma_block_split(entries, k);
        block::lemma_entry_at(before, entries[k], tail);
        lemma_walk_block(t, idx, entries, k + 1);
        assert(items_of(entries.skip(k)) + after.items =~= seq![item_of(entries[k])] + (items_of(
            entries.skip(k + 1),
        ) + after.items));
    }
}

/// A walk through a table from a block on gives every entry that was added in it and in
/// the blocks behind it, in order.
pub proof fn lemma_walk_gives_what_was_added(id: u64, built: BuilderView, idx: int)
    requires
        built.wf(),
        table_laws::fits(built),
        0 <= idx <= built.blocks.len(),
        forall|i: int|
            0 <= i < built.blocks.len() ==> table_laws::readable(
                built.compression,
                #[trigger] built.blocks[i],
            ) && block::all_storable(built.blocks[i].entries),
    ensures
        walk_from(table_laws::table_of(id, built), idx) == (Stream {
            items: items_of(table_builder::entries_of(built.blocks.skip(idx))),
            fault: None,
        }),
    decreases built.blocks.len() - idx,
{
    let t = table_laws::table_of(id, built);
    let blocks = built.blocks;
    if idx == blocks.len() {
        assert(blocks.skip(idx) =~= Seq::empty());
        assert(items_of(table_builder::entries_of(blocks.skip(idx))) =~= Seq::empty());
    } else {
        let entries = blocks[idx].entries;
        let data = block::encoded_block(entries);
        table_laws::lemma_block_is_read_back(id, built, idx);
        assert(entries.take(0) =~= Seq::empty());
        assert(entries.skip(0) =~= entries);
        lemma_walk_block(t, idx, entries, 0);
        lemma_walk_gives_what_was_added(id, built, idx + 1);
        let after = walk(t, idx, data, data.len() as int);
        if idx + 1 < blocks.len() {
            table_laws::lemma_block_is_read_back(id, built, idx + 1);
            let next = blocks[idx + 1].entries;
            assert(next.len() > 0);
            lemma_block_has_bytes(next);
        }
        assert(after == walk_from(t, idx + 1));
        table_laws::lemma_entries_from(blocks, idx);
        let more = table_builder::entries_of(blocks.skip(idx + 1));
        assert(items_of(entries + more) =~= items_of(entries) + items_of(more));
    }
}

proof fn lemma_block_has_bytes(entries: Seq<EntryView>)
    requires
        entries.len() > 0,
        block::all_storable(entries),
    ensures
        block::encoded_block(entries).len() > 0,
{
    let e = entries.last();
    assert(e == entries[entries.len() - 1]);
    block::lemma_entry_at(Seq::empty(), e, Seq::empty());
}

} // verus!
