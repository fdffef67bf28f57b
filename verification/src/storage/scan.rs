//! Scans over a range of keys, through memory tables and tables on levels.

use crate::common::bound::{Bound, BoundView};
use crate::common::error::{Error, Fault};
use crate::common::key::KeyView;
use crate::common::simd::bytes_equal;
use crate::storage::iterator;
use crate::storage::iterator::{
    BoundedIterator, Item, MemTableIterator, MergeIterator, StorageIterator, Stream,
    TwoMergeIterator,
};
use crate::storage::lsm;
use crate::storage::memtable::MemTable;
use crate::storage::sstable::{SSTable, TableView};
use crate::storage::table_iterator;
use crate::storage::table_iterator::SSTableIterator;
use std::collections::HashMap;
use std::sync::Arc;
use vstd::prelude::*;

verus! {

broadcast use vstd::std_specs::hash::group_hash_axioms;

/// `s` is a walk through a memory table from the key `start` on.
pub open spec fn starts_in_memory(
    entries: Map<KeyView, Option<Seq<u8>>>,
    start: Option<Seq<u8>>,
    s: Stream,
) -> bool {
    exists|items: Seq<Item>| #[trigger]
        iterator::lists_table(items, entries) && s == (Stream {
            items: match start {
                None => items,
                Some(k) => items.skip(iterator::below(items, k) as int),
            },
            fault: None,
        })
}

/// A walk through a table from the key `start` on begins so, or with this fault.
pub open spec fn starts_in_table(
    t: TableView,
    start: Option<Seq<u8>>,
    begun: Result<Stream, Fault>,
) -> bool {
    match table_iterator::settled(table_iterator::walk_from(t, 0)) {
        Err(f) => begun == Err::<Stream, Fault>(f),
        Ok(s) => match start {
            None => begun == Ok::<Stream, Fault>(s),
            Some(k) => exists|idx: int| #[trigger]
                t.located(k, idx) && begun == table_iterator::sought(
                    table_iterator::walk_from(t, idx),
                    k,
                ),
        },
    }
}

/// Walks through all of the tables begin so.
pub open spec fn all_start(
    tables: Seq<TableView>,
    start: Option<Seq<u8>>,
    streams: Seq<Stream>,
) -> bool {
    &&& streams.len() == tables.len()
    &&& forall|i: int|
        0 <= i < tables.len() ==> starts_in_table(
            tables[i],
            start,
            Ok::<Stream, Fault>(#[trigger] streams[i]),
        )
}

/// A walk through one of the tables begins with this fault.
pub open spec fn some_fails(tables: Seq<TableView>, start: Option<Seq<u8>>, f: Fault) -> bool {
    exists|i: int|
        0 <= i < tables.len() && starts_in_table(
            #[trigger] tables[i],
            start,
            Err::<Stream, Fault>(f),
        )
}

/// The tables of level 0, the newest first.
pub open spec fn newest_tables(levels: Map<u32, Seq<TableView>>) -> Seq<TableView> {
    if levels.contains_key(0) {
        levels[0].reverse()
    } else {
        Seq::empty()
    }
}

/// The tables of the levels from `level` on.
pub open spec fn deeper_tables(levels: Map<u32, Seq<TableView>>, level: u32) -> Seq<TableView>
    decreases lsm::NUM_LEVELS - level,
{
    if level >= lsm::NUM_LEVELS {
        Seq::empty()
    } else {
        let here = if levels.contains_key(level) {
            levels[level]
        } else {
            Seq::empty()
        };
        here + deeper_tables(levels, (level + 1) as u32)
    }
}

/// The stream behind the entries at its front that have the key.
pub open spec fn behind_key(s: Stream, key: Seq<u8>) -> Result<Stream, Fault>
    decreases s.items.len(),
{
    if s.items.len() > 0 && s.head().key.data == key {
        match s.advanced() {
            Err(f) => Err(f),
            Ok(rest) => behind_key(rest, key),
        }
    } else {
        Ok(s)
    }
}

/// Where the walks of a scan begin.
pub struct Walks {
    pub mem: Stream,
    pub immutables: Seq<Stream>,
    pub newest: Seq<Stream>,
    pub deeper: Seq<Stream>,
}

impl Walks {
    /// The walks as one.
    pub open spec fn merged(self) -> Stream {
        iterator::merged_two(
            iterator::merged_two(
                iterator::merged(seq![self.mem]),
                iterator::merged(self.immutables),
            ),
            iterator::merged_two(iterator::merged(self.newest), iterator::merged(self.deeper)),
        )
    }
}

/// The parts of a tree that are scanned.
pub struct Parts {
    pub mem: Map<KeyView, Option<Seq<u8>>>,
    pub immutables: Seq<Map<KeyView, Option<Seq<u8>>>>,
    pub levels: Map<u32, Seq<TableView>>,
}

impl Parts {
    /// The walks of a scan from the key `start` on begin so.
    pub open spec fn walked(self, start: Option<Seq<u8>>, w: Walks) -> bool {
        &&& starts_in_memory(self.mem, start, w.mem)
        &&& w.immutables.len() == self.immutables.len()
        &&& forall|i: int|
            0 <= i < w.immutables.len() ==> starts_in_memory(
                self.immutables[w.immutables.len() - 1 - i],
                start,
                #[trigger] w.immutables[i],
            )
        &&& all_start(newest_tables(self.levels), start, w.newest)
        &&& all_start(deeper_tables(self.levels, 1), start, w.deeper)
    }

    /// A scan from `start` to `end` may give this stream, or this fault. Entries at an
    /// excluded start are passed over.
    pub open spec fn scanned(
        self,
        start: BoundView,
        end: BoundView,
        result: Result<Stream, Fault>,
    ) -> bool {
        ||| exists|w: Walks| #[trigger]
            self.walked(start.key(), w) && result == (match start {
                BoundView::Excluded(k) => behind_key(iterator::bounded(w.merged(), end), k),
                _ => Ok(iterator::bounded(w.merged(), end)),
            })
        ||| result matches Err(f) && (some_fails(newest_tables(self.levels), start.key(), f)
            || some_fails(deeper_tables(self.levels, 1), start.key(), f))
    }
}

pub type MemoryMerge = TwoMergeIterator<
    MergeIterator<MemTableIterator>,
    MergeIterator<MemTableIterator>,
>;

pub type TableMerge = TwoMergeIterator<
    MergeIterator<SSTableIterator>,
    MergeIterator<SSTableIterator>,
>;

pub type InnerLsmIterator = BoundedIterator<TwoMergeIterator<MemoryMerge, TableMerge>>;

/// An iterator over a range of keys.
pub struct LsmIterator {
    inner: InnerLsmIterator,
}

impl LsmIterator {
    pub closed spec fn stream(&self) -> Stream {
        self.inner.stream()
    }

    pub closed spec fn wf(&self) -> bool {
        self.inner.wf()
    }

    /// The current key.
    pub fn key(&self) -> (key: Option<&[u8]>)
        requires
            self.wf(),
        ensures
            match key {
                Some(k) => self.stream().items.len() > 0 && k@ == self.stream().head().key.data,
                None => self.stream().items.len() == 0,
            },
    {
        if self.is_valid() {
            Some(self.inner.key().data())
        } else {
            None
        }
    }

    /// The current value, none where the key is deleted.
    pub fn value(&self) -> (value: Option<&Vec<u8>>)
        requires
            self.wf(),
        ensures
            match value {
                Some(v) => self.stream().items.len() > 0 && self.stream().head().value == Some(
                    v@,
                ),
                None => self.stream().items.len() == 0 || self.stream().head().value is None,
            },
    {
        if self.is_valid() {
            self.inner.value()
        } else {
            None
        }
    }

    pub fn is_valid(&self) -> (valid: bool)
        requires
            self.wf(),
        ensures
            valid == (self.stream().items.len() > 0),
    {
        self.inner.is_valid()
    }

    /// Goes on to the next entry. At the end of the range, or behind a fault, it stays.
    pub fn advance(&mut self) -> (result: Result<(), Error>)
        requires
            old(self).wf(),
        ensures
            final(self).wf(),
            old(self).stream().items.len() > 0 ==> iterator::stepped(
                old(self).stream(),
                result,
                final(self).stream(),
            ),
            old(self).stream().items.len() == 0 ==> result is Ok && final(self).stream() == old(
                self,
            ).stream(),
            result is Err ==> final(self).stream().items.len() == 0,
    {
        if !self.inner.is_valid() {
            return Ok(());
        }
        self.inner.next()
    }
}

/// Pairs of keys and values as mathematical values.
pub open spec fn pair_views(pairs: Seq<(Vec<u8>, Vec<u8>)>) -> Seq<(Seq<u8>, Seq<u8>)> {
    pairs.map_values(|p: (Vec<u8>, Vec<u8>)| (p.0@, p.1@))
}

/// An iterator over what a reader at some time sees.
pub struct SnapshotLsmIterator {
    pairs: Vec<(Vec<u8>, Vec<u8>)>,
    pos: usize,
}

impl SnapshotLsmIterator {
    pub closed spec fn wf(&self) -> bool {
        self.pos <= self.pairs@.len()
    }

    /// The pairs that are still to be given, the current one first.
    pub closed spec fn left(&self) -> Seq<(Seq<u8>, Seq<u8>)> {
        pair_views(self.pairs@).skip(self.pos as int)
    }

    pub(crate) fn new(pairs: Vec<(Vec<u8>, Vec<u8>)>) -> (iter: Self)
        ensures
            iter.wf(),
            iter.left() == pair_views(pairs@),
    {
        let iter = SnapshotLsmIterator { pairs, pos: 0 };
        assert(iter.left() =~= pair_views(pairs@));
        iter
    }

    /// The current key.
    pub fn key(&self) -> (key: Option<&[u8]>)
        requires
            self.wf(),
        ensures
            match key {
                Some(k) => self.left().len() > 0 && k@ == self.left()[0].0,
                None => self.left().len() == 0,
            },
    {
        if self.is_valid() {
            Some(self.pairs[self.pos].0.as_slice())
        } else {
            None
        }
    }

    /// The current value.
    pub fn value(&self) -> (value: Option<&Vec<u8>>)
        requires
            self.wf(),
        ensures
            match value {
                Some(v) => self.left().len() > 0 && v@ == self.left()[0].1,
                None => self.left().len() == 0,
            },
    {
        if self.is_valid() {
            Some(&self.pairs[self.pos].1)
        } else {
            None
        }
    }

    pub fn is_valid(&self) -> (valid: bool)
        requires
            self.wf(),
        ensures
            valid == (self.left().len() > 0),
    {
        self.pos < self.pairs.len()
    }

    /// Goes on to the next pair. At the end it stays.
    pub fn advance(&mut self) -> (result: Result<(), Error>)
        requires
            old(self).wf(),
        ensures
            final(self).wf(),
            result is Ok,
            final(self).left() == (if old(self).left().len() > 0 {
                old(self).left().skip(1)
            } else {
                old(self).left()
            }),
    {
        if self.pos < self.pairs.len() {
            self.pos += 1;
            assert(self.left() =~= old(self).left().skip(1));
        }
        Ok(())
    }
}

pub open spec fn view_of(bytes: Option<&[u8]>) -> Option<Seq<u8>> {
    match bytes {
        Some(b) => Some(b@),
        None => None,
    }
}

fn begin_in_memory(table: &MemTable, start: Option<&[u8]>) -> (iter: MemTableIterator)
    ensures
        iter.wf(),
        starts_in_memory(table@, view_of(start), iter.stream()),
{
    let mut iter = MemTableIterator::new(table);
    let ghost items = iter.all();
    if let Some(key) = start {
        iter.seek(key);
    }
    assert(iterator::lists_table(items, table@));
    iter
}

fn build_memtable_iterator(
    memtable: &MemTable,
    immutables: &Vec<MemTable>,
    start: Option<&[u8]>,
) -> (merge: (MemoryMerge, Ghost<(Stream, Seq<Stream>)>))
    ensures
        ({
            let (mem, aside) = merge.1@;
            &&& merge.0.wf()
            &&& merge.0.stream() == iterator::merged_two(
                iterator::merged(seq![mem]),
                iterator::merged(aside),
            )
            &&& starts_in_memory(memtable@, view_of(start), mem)
            &&& aside.len() == immutables@.len()
            &&& forall|i: int|
                0 <= i < aside.len() ==> starts_in_memory(
                    immutables@[aside.len() - 1 - i]@,
                    view_of(start),
                    #[trigger] aside[i],
                )
        }),
{
    let first = begin_in_memory(memtable, start);
    let mut iters: Vec<MemTableIterator> = Vec::new();
    let mut n: usize = immutables.len();
    while n > 0
        invariant
            n <= immutables@.len(),
            iters@.len() == immutables@.len() - n,
            iterator::all_wf(iters@),
            forall|i: int|
                0 <= i < iters@.len() ==> starts_in_memory(
                    immutables@[immutables@.len() - 1 - i]@,
                    view_of(start),
                    (#[trigger] iters@[i]).stream(),
                ),
        decreases n,
    {
        n -= 1;
        iters.push(begin_in_memory(&immutables[n], start));
    }
    let ghost mem = first.stream();
    let ghost aside = iterator::streams_of(iters@);
    assert forall|i: int| 0 <= i < aside.len() implies starts_in_memory(
        immutables@[aside.len() - 1 - i]@,
        view_of(start),
        #[trigger] aside[i],
    ) by {
        assert(aside[i] == iters@[i].stream());
    }
    let newest: Vec<MemTableIterator> = vec![first];
    assert(iterator::streams_of(newest@) =~= seq![mem]);
    (
        TwoMergeIterator::new(MergeIterator::new(newest), MergeIterator::new(iters)),
        Ghost((mem, aside)),
    )
}

fn begin_in_table(table: &Arc<SSTable>, start: Option<&[u8]>) -> (result: Result<
    SSTableIterator,
    Error,
>)
    ensures
        match result {
            Ok(iter) => iter.wf() && starts_in_table(
                table@,
                view_of(start),
                Ok::<Stream, Fault>(iter.stream()),
            ),
            Err(e) => starts_in_table(table@, view_of(start), Err::<Stream, Fault>(e@)),
        },
{
    let mut iter = SSTableIterator::new(Arc::clone(table))?;
    if let Some(key) = start {
        iter.seek(key)?;
    }
    Ok(iter)
}

/// Begins walks through the tables of level 0, the newest first.
fn build_l0_iterator(
    levels: &HashMap<u32, Vec<Arc<SSTable>>>,
    start: Option<&[u8]>,
) -> (result: Result<Vec<SSTableIterator>, Error>)
    ensures
        ({
            let tables = newest_tables(lsm::level_views(levels@));
            match result {
                Ok(iters) => iterator::all_wf(iters@) && all_start(
                    tables,
                    view_of(start),
                    iterator::streams_of(iters@),
                ),
                Err(e) => some_fails(tables, view_of(start), e@),
            }
        }),
{
    let ghost views = lsm::level_views(levels@);
    let ghost tables = newest_tables(views);
    let mut iters: Vec<SSTableIterator> = Vec::new();
    if let Some(list) = levels.get(&0) {
        let mut n: usize = list.len();
        assert(views[0] == lsm::table_views(list@));
        while n > 0
            invariant
                n <= list@.len(),
                tables == lsm::table_views(list@).reverse(),
                tables == newest_tables(lsm::level_views(levels@)),
                iters@.len() == list@.len() - n,
                iterator::all_wf(iters@),
                forall|i: int|
                    0 <= i < iters@.len() ==> starts_in_table(
                        tables[i],
                        view_of(start),
                        Ok::<Stream, Fault>((#[trigger] iters@[i]).stream()),
                    ),
            decreases n,
        {
            n -= 1;
            assert(tables[list@.len() - 1 - n] == list@[n as int]@);
            iters.push(begin_in_table(&list[n], start)?);
        }
    }
    assert forall|i: int| 0 <= i < tables.len() implies starts_in_table(
        tables[i],
        view_of(start),
        Ok::<Stream, Fault>(#[trigger] iterator::streams_of(iters@)[i]),
    ) by {
        assert(iterator::streams_of(iters@)[i] == iters@[i].stream());
    }
    Ok(iters)
}

/// Begins walks through the tables of the levels below level 0.
fn build_level_iterator(
    levels: &HashMap<u32, Vec<Arc<SSTable>>>,
    start: Option<&[u8]>,
) -> (result: Result<Vec<SSTableIterator>, Error>)
    ensures
        ({
            let tables = deeper_tables(lsm::level_views(levels@), 1);
            match result {
                Ok(iters) => iterator::all_wf(iters@) && all_start(
                    tables,
                    view_of(start),
                    iterator::streams_of(iters@),
                ),
                Err(e) => some_fails(tables, view_of(start), e@),
            }
        }),
{
    let ghost views = lsm::level_views(levels@);
    let ghost tables = deeper_tables(views, 1);
    let mut iters: Vec<SSTableIterator> = Vec::new();
    let mut level: u32 = 1;
    let ghost mut done: Seq<TableView> = Seq::empty();
    assert(tables =~= done + deeper_tables(views, 1));
    while level < lsm::NUM_LEVELS
        invariant
            1 <= level <= lsm::NUM_LEVELS,
            views == lsm::level_views(levels@),
            tables == done + deeper_tables(views, level),
            tables == deeper_tables(views, 1),
            iters@.len() == done.len(),
            iterator::all_wf(iters@),
            forall|i: int|
                0 <= i < iters@.len() ==> starts_in_table(
                    tables[i],
                    view_of(start),
                    Ok::<Stream, Fault>((#[trigger] iters@[i]).stream()),
                ),
        decreases lsm::NUM_LEVELS - level,
    {
        let ghost rest = deeper_tables(views, (level + 1) as u32);
        if let Some(list) = levels.get(&level) {
            assert(views[level] == lsm::table_views(list@));
            let mut n: usize = 0;
            while n < list.len()
                invariant
                    n <= list@.len(),
                    tables == done + lsm::table_views(list@) + rest,
                    tables == deeper_tables(views, 1),
                    views == lsm::level_views(levels@),
                    iters@.len() == done.len() + n,
                    iterator::all_wf(iters@),
                    forall|i: int|
                        0 <= i < iters@.len() ==> starts_in_table(
                            tables[i],
                            view_of(start),
                            Ok::<Stream, Fault>((#[trigger] iters@[i]).stream()),
                        ),
                decreases list@.len() - n,
            {
                assert(tables[done.len() + n] == list@[n as int]@);
                iters.push(begin_in_table(&list[n], start)?);
                n += 1;
            }
            proof {
                done = done + lsm::table_views(list@);
            }
        }
        assert(tables =~= done + rest);
        level += 1;
    }
    assert(tables =~= done);
    assert forall|i: int| 0 <= i < tables.len() implies starts_in_table(
        tables[i],
        view_of(start),
        Ok::<Stream, Fault>(#[trigger] iterator::streams_of(iters@)[i]),
    ) by {
        assert(iterator::streams_of(iters@)[i] == iters@[i].stream());
    }
    Ok(iters)
}

/// Begins a scan from `start` to `end`.
pub(crate) fn build_scan_iterator(
    memtable: &MemTable,
    immutables: &Vec<MemTable>,
    levels: &HashMap<u32, Vec<Arc<SSTable>>>,
    start: &Bound,
    end: Bound,
) -> (result: Result<LsmIterator, Error>)
    ensures
        ({
            let parts = Parts {
                mem: memtable@,
                immutables: immutables@.map_values(|t: MemTable| t@),
                levels: lsm::level_views(levels@),
            };
            match result {
                Ok(iter) => iter.wf() && parts.scanned(
                    start@,
                    end@,
                    Ok::<Stream, Fault>(iter.stream()),
                ),
                Err(e) => parts.scanned(start@, end@, Err::<Stream, Fault>(e@)),
            }
        }),
{
    let ghost parts = Parts {
        mem: memtable@,
        immutables: immutables@.map_values(|t: MemTable| t@),
        levels: lsm::level_views(levels@),
    };
    let start_key: Option<&[u8]> = match start {
        Bound::Included(k) => Some(k.as_slice()),
        Bound::Excluded(k) => Some(k.as_slice()),
        Bound::Unbounded => None,
    };
    assert(view_of(start_key) == start@.key());
    let (mem_merge, Ghost(memory)) = build_memtable_iterator(memtable, immutables, start_key);
    let newest = build_l0_iterator(levels, start_key)?;
    let deeper = build_level_iterator(levels, start_key)?;
    let ghost w = Walks {
        mem: memory.0,
        immutables: memory.1,
        newest: iterator::streams_of(newest@),
        deeper: iterator::streams_of(deeper@),
    };
    let sst_merge = TwoMergeIterator::new(MergeIterator::new(newest), MergeIterator::new(deeper));
    let full = TwoMergeIterator::new(mem_merge, sst_merge);
    let ghost all = iterator::bounded(full.stream(), end@);
    let mut bounded = BoundedIterator::new(full, end);
    assert(parts.walked(start@.key(), w)) by {
        assert forall|i: int| 0 <= i < w.immutables.len() implies starts_in_memory(
            parts.immutables[w.immutables.len() - 1 - i],
            start@.key(),
            #[trigger] w.immutables[i],
        ) by {
            assert(parts.immutables[w.immutables.len() - 1 - i] == immutables@[w.immutables.len()
                - 1 - i]@);
        }
    }
    if let Bound::Excluded(excluded) = start {
        while bounded.is_valid() && bytes_equal(bounded.key().data(), excluded.as_slice())
            invariant
                bounded.wf(),
                parts.walked(start@.key(), w),
                all == iterator::bounded(w.merged(), end@),
                start@ == BoundView::Excluded(excluded@),
                behind_key(all, excluded@) == behind_key(bounded.stream(), excluded@),
                parts == (Parts {
                    mem: memtable@,
                    immutables: immutables@.map_values(|t: MemTable| t@),
                    levels: lsm::level_views(levels@),
                }),
            decreases bounded.stream().items.len(),
        {
            bounded.next()?;
        }
    }
    Ok(LsmIterator { inner: bounded })
}

} // verus!
