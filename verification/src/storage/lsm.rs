//! The LSM tree: recent writes in memory, older ones in tables on levels.
//!
//! The tree decides what has to be done to the files and says so in a list of effects,
//! which are to be carried out in order.

use crate::common::bound::{Bound, BoundView};
use crate::common::codec;
use crate::common::error::{Error, Fault};
use crate::common::key::{Key, KeyView};
use crate::storage::batch;
use crate::storage::batch::{BatchOperation, OperationView, WriteBatch};
use crate::storage::block;
use crate::storage::cache::BlockCache;
use crate::storage::iterator;
use crate::storage::iterator::{Item, Stream};
use crate::storage::manifest;
use crate::storage::manifest::{Manifest, ManifestEdit, ManifestView, MAX_ID};
use crate::storage::memtable;
use crate::storage::memtable::MemTable;
use crate::storage::scan;
use crate::storage::scan::{LsmIterator, Parts, SnapshotLsmIterator};
use crate::storage::size_laws;
use crate::storage::sstable;
use crate::storage::sstable::{CompressionType, SSTable, TableView};
use crate::storage::table_builder;
use crate::storage::table_builder::{BuilderView, SSTableBuilder, NUM_HASHES};
use crate::storage::wal;
use crate::storage::wal::{RecordType, RecordView, SyncAction, SyncMode, Wal, WalRecord};
use std::collections::HashMap;
use std::sync::Arc;
use vstd::prelude::*;

verus! {

broadcast use vstd::std_specs::hash::group_hash_axioms;

/// Tables are looked for on the levels below this one.
pub const NUM_LEVELS: u32 = 7;

#[derive(Debug, Clone)]
pub struct CacheStats {
    pub entry_count: u64,
    pub weighted_size: u64,
    pub capacity: u64,
}

#[derive(Debug, Clone)]
pub struct LsmOptions {
    pub memtable_size: usize,
    pub block_size: usize,
    pub block_cache_capacity: u64,
    pub compression: CompressionType,
}

impl Default for LsmOptions {
    fn default() -> (options: Self)
        ensures
            options == (LsmOptions {
                memtable_size: 4194304,
                block_size: 4096,
                block_cache_capacity: 67108864,
                compression: CompressionType::Lz4,
            }),
    {
        LsmOptions {
            memtable_size: 4194304,
            block_size: 4096,
            block_cache_capacity: 67108864,
            compression: CompressionType::Lz4,
        }
    }
}

/// Something that has to be done to the files.
pub enum Effect {
    /// Make an empty log with this number and write to it from now on.
    CreateLog { id: u64 },
    /// Write the bytes to the end of the log, and on to the disk as far as is said.
    AppendLog { bytes: Vec<u8>, sync: SyncAction },
    /// Bring everything in the log to the disk.
    SyncLog,
    /// Write the lines to the end of the manifest and on to the disk.
    AppendManifest { lines: Vec<u8> },
    /// Write the file of a table.
    WriteTable { id: u64, image: Vec<u8> },
    /// There may be something to compact.
    NotifyCompaction,
}

/// An effect as a mathematical value.
#[verifier::ext_equal]
pub enum EffectView {
    CreateLog { id: u64 },
    AppendLog { bytes: Seq<u8>, sync: SyncAction },
    SyncLog,
    AppendManifest { lines: Seq<u8> },
    WriteTable { id: u64, image: Seq<u8> },
    NotifyCompaction,
}

impl View for Effect {
    type V = EffectView;

    open spec fn view(&self) -> EffectView {
        match self {
            Effect::CreateLog { id } => EffectView::CreateLog { id: *id },
            Effect::AppendLog { bytes, sync } => EffectView::AppendLog {
                bytes: bytes@,
                sync: *sync,
            },
            Effect::SyncLog => EffectView::SyncLog,
            Effect::AppendManifest { lines } => EffectView::AppendManifest { lines: lines@ },
            Effect::WriteTable { id, image } => EffectView::WriteTable { id: *id, image: image@ },
            Effect::NotifyCompaction => EffectView::NotifyCompaction,
        }
    }
}

pub open spec fn effect_views(effects: Seq<Effect>) -> Seq<EffectView> {
    effects.map_values(|e: Effect| e@)
}

/// What an operation came to, and what has to be done to the files for it.
pub struct Outcome {
    pub effects: Vec<Effect>,
    pub result: Result<(), Error>,
}

impl Outcome {
    pub open spec fn effects(self) -> Seq<EffectView> {
        effect_views(self.effects@)
    }

    pub open spec fn fault(self) -> Option<Fault> {
        match self.result {
            Ok(_) => None,
            Err(e) => Some(e@),
        }
    }
}

/// A memory table: the versions of its keys and the bytes that were written to it.
#[verifier::ext_equal]
pub struct MemView {
    pub entries: Map<KeyView, Option<Seq<u8>>>,
    pub size: usize,
}

impl MemView {
    pub open spec fn fresh() -> MemView {
        MemView { entries: Map::empty(), size: 0 }
    }

    /// The table with a version of a key, deleted where there is no value.
    pub open spec fn with(self, key: KeyView, value: Option<Seq<u8>>) -> MemView {
        let added = match value {
            Some(v) => usize::wrapping_add(key.data.len() as usize, v.len() as usize),
            None => key.data.len() as usize,
        };
        MemView {
            entries: self.entries.insert(key, value),
            size: usize::wrapping_add(self.size, added),
        }
    }

    /// The table with what a log record says.
    pub open spec fn with_record(self, r: RecordView) -> MemView {
        let key = KeyView { data: r.key, timestamp: r.timestamp };
        match r.record_type {
            RecordType::Put => self.with(
                key,
                Some(
                    match r.value {
                        Some(v) => v,
                        None => Seq::empty(),
                    },
                ),
            ),
            RecordType::Delete => self.with(key, None),
        }
    }

    pub open spec fn with_records(self, records: Seq<RecordView>) -> MemView
        decreases records.len(),
    {
        if records.len() == 0 {
            self
        } else {
            self.with_records(records.drop_last()).with_record(records.last())
        }
    }
}

pub open spec fn mem_view(table: MemTable) -> MemView {
    MemView { entries: table@, size: table.spec_size() }
}

pub open spec fn table_views(tables: Seq<Arc<SSTable>>) -> Seq<TableView> {
    tables.map_values(|t: Arc<SSTable>| t@)
}

pub open spec fn level_views(levels: Map<u32, Vec<Arc<SSTable>>>) -> Map<u32, Seq<TableView>> {
    levels.map_values(|v: Vec<Arc<SSTable>>| table_views(v@))
}

/// The state of the tree.
#[verifier::ext_equal]
pub struct LsmView {
    pub mem: MemView,
    /// Memory tables that are not written to any more, the oldest first.
    pub immutables: Seq<Map<KeyView, Option<Seq<u8>>>>,
    /// The tables of each level, the oldest first.
    pub levels: Map<u32, Seq<TableView>>,
    pub manifest: ManifestView,
    pub next_ts: u64,
    pub options: LsmOptions,
    /// How many bytes of the log no sync has brought to the disk yet.
    pub unsynced: usize,
}

/// The record of a write.
pub open spec fn record_for(op: OperationView, ts: u64) -> RecordView {
    RecordView {
        record_type: match op.value {
            Some(_) => RecordType::Put,
            None => RecordType::Delete,
        },
        key: op.key,
        value: op.value,
        timestamp: ts,
    }
}

/// The frames of records, one behind the other.
pub open spec fn log_bytes(records: Seq<RecordView>) -> Seq<u8> {
    wal::log_of(records.map_values(|r: RecordView| r.plain_body()))
}

/// The effect of logging records: their frames at the end of the log, which stay in the
/// buffer.
pub open spec fn logging(records: Seq<RecordView>) -> EffectView {
    EffectView::AppendLog { bytes: log_bytes(records), sync: SyncAction::Buffer }
}

pub open spec fn entry_of(item: Item) -> block::EntryView {
    block::EntryView {
        key: item.key.data,
        timestamp: item.key.timestamp,
        value: item.value,
    }
}

/// `after` is what a table that is being written becomes by the addition of the items.
pub open spec fn builds(before: BuilderView, items: Seq<Item>, after: BuilderView) -> bool
    decreases items.len(),
{
    if items.len() == 0 {
        after == before
    } else {
        exists|mid: BuilderView|
            builds(before, items.drop_last(), mid) && #[trigger] mid.added(
                entry_of(items.last()),
                after,
            )
    }
}

/// The manifest with one more log, which gets a number of its own.
pub open spec fn with_log(m: ManifestView) -> ManifestView {
    let id = m.next_wal_id;
    (ManifestView { next_wal_id: u64::wrapping_add(id, 1), ..m }).edited(ManifestEdit::AddWal { id })
}

/// The effect of noting a log in the manifest.
pub open spec fn noting_log(id: u64) -> EffectView {
    EffectView::AppendManifest { lines: manifest::line_of(ManifestEdit::AddWal { id }) }
}

/// `next` is the least timestamp, from 1 on, beyond every version in memory and in the
/// tables, or the greatest of all where there is none beyond.
pub open spec fn is_next(
    entries: Map<KeyView, Option<Seq<u8>>>,
    levels: Map<u32, Seq<TableView>>,
    next: u64,
) -> bool {
    &&& next >= 1
    &&& forall|k: KeyView| #[trigger]
        entries.contains_key(k) ==> k.timestamp < next || next == u64::MAX
    &&& forall|t: TableView| #[trigger]
        on_a_level(levels, t) ==> t.newest < next || next == u64::MAX
    &&& next == 1 || (exists|k: KeyView| #[trigger]
        entries.contains_key(k) && next <= k.timestamp + 1) || (exists|t: TableView| #[trigger]
        on_a_level(levels, t) && next <= t.newest + 1)
}

/// A table that is being written and has nothing yet.
pub open spec fn blank(estimated_keys: nat, compression: CompressionType) -> BuilderView {
    BuilderView {
        blocks: Seq::empty(),
        current: Seq::empty(),
        bloom: crate::storage::bloom::FilterView {
            bits: table_builder::empty_bits(estimated_keys),
            num_hashes: NUM_HASHES,
        },
        compression,
    }
}

/// For how many keys the filter of a table is made.
pub open spec fn estimate(len: nat) -> nat {
    if len < usize::MAX / 10 {
        len
    } else {
        (usize::MAX / 10 - 1) as nat
    }
}

/// `done` is the table of the entries of a memory table, in the order of their keys.
pub open spec fn table_of(
    entries: Map<KeyView, Option<Seq<u8>>>,
    compression: CompressionType,
    items: Seq<Item>,
    done: BuilderView,
) -> bool {
    &&& iterator::lists_table(items, entries)
    &&& done.wf()
    &&& done.entries() == items.map_values(|item: Item| entry_of(item))
    &&& exists|filled: BuilderView| #[trigger]
        builds(blank(estimate(entries.len()), compression), items, filled) && filled.finished(done)
}

/// `image` is the file of such a table.
pub open spec fn is_table_file(
    entries: Map<KeyView, Option<Seq<u8>>>,
    compression: CompressionType,
    image: Seq<u8>,
) -> bool {
    exists|items: Seq<Item>, done: BuilderView| #[trigger]
        table_of(entries, compression, items, done) && image == done.image()
}

impl LsmView {
    pub open spec fn tables(self, level: u32) -> Seq<TableView> {
        if self.levels.contains_key(level) {
            self.levels[level]
        } else {
            Seq::empty()
        }
    }

    /// The tree with its memory table set aside and a new log begun.
    pub open spec fn set_aside(self) -> LsmView {
        LsmView {
            mem: MemView::fresh(),
            immutables: self.immutables.push(self.mem.entries),
            manifest: with_log(self.manifest),
            unsynced: 0,
            ..self
        }
    }

    pub open spec fn set_aside_effects(self) -> Seq<EffectView> {
        let id = self.manifest.next_wal_id;
        seq![EffectView::SyncLog, EffectView::CreateLog { id }, noting_log(id)]
    }

    /// The tree with the file of a table written and noted on level 0.
    pub open spec fn noted(self) -> LsmView {
        let id = self.manifest.next_sst_id;
        LsmView {
            manifest: (ManifestView {
                next_sst_id: u64::wrapping_add(id, 1),
                ..self.manifest
            }).edited(ManifestEdit::AddSst { level: 0, id }),
            ..self
        }
    }

    pub open spec fn noting_effects(self, image: Seq<u8>) -> Seq<EffectView> {
        let id = self.manifest.next_sst_id;
        seq![
            EffectView::WriteTable { id, image },
            EffectView::AppendManifest {
                lines: manifest::line_of(ManifestEdit::AddSst { level: 0, id }),
            },
        ]
    }

    /// What becomes of the tree when the memory table that was set aside last is written
    /// to the file `image`.
    pub open spec fn flushed(
        self,
        image: Seq<u8>,
        after: LsmView,
        effects: Seq<EffectView>,
        fault: Option<Fault>,
    ) -> bool {
        match sstable::opened(self.manifest.next_sst_id, image) {
            Ok(table) => {
                &&& after == (LsmView {
                    levels: self.levels.insert(0, self.tables(0).push(table)),
                    immutables: self.immutables.drop_last(),
                    ..self.noted()
                })
                &&& effects == self.noting_effects(image).push(EffectView::NotifyCompaction)
                &&& fault is None
            },
            Err(f) => {
                &&& after == self.noted()
                &&& effects == self.noting_effects(image)
                &&& fault == Some(f)
            },
        }
    }

    /// What becomes of the tree when its memory table is full: the table is set aside and
    /// written to a file.
    pub open spec fn rotated(
        self,
        after: LsmView,
        effects: Seq<EffectView>,
        fault: Option<Fault>,
    ) -> bool {
        let mid = self.set_aside();
        if mid.manifest.next_sst_id > MAX_ID {
            &&& after == mid
            &&& effects == self.set_aside_effects()
            &&& fault == Some(Fault::InvalidArgument("table numbers are exhausted"@))
        } else {
            exists|image: Seq<u8>, more: Seq<EffectView>| #[trigger]
                mid.flushed(image, after, more, fault) && is_table_file(
                    self.mem.entries,
                    self.options.compression,
                    image,
                ) && effects == self.set_aside_effects() + more
        }
    }

    /// What becomes of the tree behind a write: it rotates if its memory table is full.
    pub open spec fn settled(
        self,
        after: LsmView,
        effects: Seq<EffectView>,
        fault: Option<Fault>,
    ) -> bool {
        if self.mem.size >= self.options.memtable_size {
            self.rotated(after, effects, fault)
        } else {
            after == self && effects == Seq::<EffectView>::empty() && fault is None
        }
    }

    /// The tree with records at the end of its log, which wait for a sync.
    pub open spec fn logged(self, records: Seq<RecordView>) -> LsmView {
        LsmView {
            unsynced: usize::wrapping_add(self.unsynced, log_bytes(records).len() as usize),
            ..self
        }
    }

    /// The tree with one write in its log and its memory table.
    pub open spec fn written(self, op: OperationView) -> LsmView {
        let record = record_for(op, self.next_ts);
        LsmView {
            mem: self.mem.with_record(record),
            next_ts: u64::wrapping_add(self.next_ts, 1),
            ..self.logged(seq![record])
        }
    }

    /// The tree once its log has reached the disk.
    pub open spec fn synced(self) -> LsmView {
        LsmView { unsynced: 0, ..self }
    }
}

impl LsmView {
    /// A write may come to this: it is logged and goes to the memory table, and behind a
    /// value the memory table is written to a file if it is full.
    pub open spec fn stored(
        self,
        op: OperationView,
        after: LsmView,
        effects: Seq<EffectView>,
        fault: Option<Fault>,
    ) -> bool {
        let log = logging(seq![record_for(op, self.next_ts)]);
        match op.value {
            Some(_) => exists|more: Seq<EffectView>| #[trigger]
                self.written(op).settled(after, more, fault) && effects == seq![log] + more,
            None => after == self.written(op) && effects == seq![log] && fault is None,
        }
    }

    /// Writes one after the other, of which at most the last fails, may come to this.
    pub open spec fn stored_all(
        self,
        ops: Seq<OperationView>,
        after: LsmView,
        effects: Seq<EffectView>,
        fault: Option<Fault>,
    ) -> bool
        decreases ops.len(),
    {
        if ops.len() == 0 {
            after == self && effects == Seq::<EffectView>::empty() && fault is None
        } else {
            exists|middle: LsmView, first: Seq<EffectView>, last: Seq<EffectView>|
                #![trigger middle.stored(ops.last(), after, last, fault), first.add(last)]
                self.stored_all(ops.drop_last(), middle, first, None) && middle.stored(
                    ops.last(),
                    after,
                    last,
                    fault,
                ) && effects == first.add(last)
        }
    }
}

/// The tables in which a key is looked for, from level `level` on: level by level, the
/// newest table of each first.
pub open spec fn consulted(levels: Map<u32, Seq<TableView>>, level: u32) -> Seq<TableView>
    decreases NUM_LEVELS - level,
{
    if level >= NUM_LEVELS {
        Seq::empty()
    } else {
        let here = if levels.contains_key(level) {
            levels[level].reverse()
        } else {
            Seq::empty()
        };
        here + consulted(levels, (level + 1) as u32)
    }
}

/// A lookup in the tables, one after the other, may come to `answer`: the first of their
/// answers that is a version or a fault. A deletion ends the search as a value does.
pub open spec fn found_on_disk(
    tables: Seq<TableView>,
    key: Seq<u8>,
    ts: u64,
    answer: Result<Option<Seq<u8>>, Fault>,
) -> bool
    decreases tables.len(),
{
    if tables.len() == 0 {
        answer == Ok::<Option<Seq<u8>>, Fault>(None)
    } else {
        exists|first: Result<Option<Option<Seq<u8>>>, Fault>| #[trigger]
            tables[0].answers(key, ts, first) && (match first {
                Ok(None) => found_on_disk(tables.skip(1), key, ts, answer),
                Ok(Some(v)) => answer == Ok::<Option<Seq<u8>>, Fault>(v),
                Err(f) => answer == Err::<Option<Seq<u8>>, Fault>(f),
            })
    }
}

/// What the first `n` of the memory tables that were set aside show of a key, the newest
/// first.
pub open spec fn visible_aside(
    immutables: Seq<Map<KeyView, Option<Seq<u8>>>>,
    n: int,
    key: Seq<u8>,
    ts: u64,
) -> Option<Option<Seq<u8>>>
    decreases n,
{
    if n <= 0 || n > immutables.len() {
        None
    } else {
        match memtable::visible(immutables[n - 1], key, ts) {
            Some(v) => Some(v),
            None => visible_aside(immutables, n - 1, key, ts),
        }
    }
}

impl LsmView {
    /// What a scan goes through.
    pub open spec fn parts(self) -> Parts {
        Parts { mem: self.mem.entries, immutables: self.immutables, levels: self.levels }
    }

    /// What the memory tables show of a key to a reader at `ts`.
    pub open spec fn in_memory(self, key: Seq<u8>, ts: u64) -> Option<Option<Seq<u8>>> {
        match memtable::visible(self.mem.entries, key, ts) {
            Some(v) => Some(v),
            None => visible_aside(self.immutables, self.immutables.len() as int, key, ts),
        }
    }

    /// A read of a key at `ts` may come to `answer`.
    pub open spec fn reads(
        self,
        key: Seq<u8>,
        ts: u64,
        answer: Result<Option<Seq<u8>>, Fault>,
    ) -> bool {
        match self.in_memory(key, ts) {
            Some(v) => answer == Ok::<Option<Seq<u8>>, Fault>(v),
            None => found_on_disk(consulted(self.levels, 0), key, ts, answer),
        }
    }
}

impl LsmView {
    /// Of the keys of the entries, `pairs` are those that have a value for readers at `ts`,
    /// each with it.
    pub open spec fn shown(
        self,
        items: Seq<Item>,
        ts: u64,
        pairs: Seq<(Seq<u8>, Seq<u8>)>,
    ) -> bool
        decreases items.len(),
    {
        if items.len() == 0 {
            pairs.len() == 0
        } else {
            let key = items.last().key.data;
            exists|value: Option<Seq<u8>>| #[trigger]
                self.reads(key, ts, Ok(value)) && match value {
                    Some(v) => pairs.len() > 0 && pairs.last() == (key, v) && self.shown(
                        items.drop_last(),
                        ts,
                        pairs.drop_last(),
                    ),
                    None => self.shown(items.drop_last(), ts, pairs),
                }
        }
    }

    /// A scan of the range for readers at `ts` may come to this: the keys that a scan gives,
    /// as far as they have a value for these readers. A fault is one that the scan or one of
    /// the reads meets.
    pub open spec fn scanned_at(
        self,
        start: BoundView,
        end: BoundView,
        ts: u64,
        result: Result<Seq<(Seq<u8>, Seq<u8>)>, Fault>,
    ) -> bool {
        match result {
            Ok(pairs) => exists|stream: Stream| #[trigger]
                self.parts().scanned(start, end, Ok(stream)) && (stream.items.len() > 0
                    ==> stream.fault is None) && self.shown(stream.items, ts, pairs),
            Err(f) => self.parts().scanned(start, end, Err(f)) || exists|stream: Stream| #[trigger]
                self.parts().scanned(start, end, Ok(stream)) && stream.items.len() > 0 && (
                stream.fault == Some(f) || exists|i: int|
                    0 <= i < stream.items.len() && self.reads(
                        (#[trigger] stream.items[i]).key.data,
                        ts,
                        Err(f),
                    )),
        }
    }
}

/// The contents of files by their numbers.
pub open spec fn file_views(files: Map<u64, Vec<u8>>) -> Map<u64, Seq<u8>> {
    files.map_values(|v: Vec<u8>| v@)
}

/// The tables of a level whose files are there.
pub open spec fn present(ids: Seq<u64>, files: Map<u64, Seq<u8>>) -> Seq<u64> {
    ids.filter(|id: u64| files.contains_key(id))
}

/// `tables` are what the files of a level hold.
pub open spec fn opens(ids: Seq<u64>, files: Map<u64, Seq<u8>>, tables: Seq<TableView>) -> bool {
    &&& tables.len() == present(ids, files).len()
    &&& forall|i: int|
        0 <= i < tables.len() ==> sstable::opened(
            present(ids, files)[i],
            files[present(ids, files)[i]],
        ) == Ok::<TableView, Fault>(#[trigger] tables[i])
}

/// The file of a table on one of the levels is there and has this fault.
pub open spec fn has_table_fault(m: ManifestView, files: Map<u64, Seq<u8>>, f: Fault) -> bool {
    exists|level: u32, i: int|
        #![trigger m.levels[level][i]]
        m.levels.contains_key(level) && 0 <= i < m.levels[level].len() && files.contains_key(
            m.levels[level][i],
        ) && sstable::opened(m.levels[level][i], files[m.levels[level][i]]) == Err::<
            TableView,
            Fault,
        >(f)
}

/// The memory table with the records of the logs from number `from` up to `to`, as far as
/// they are there.
pub open spec fn with_logs(
    mem: MemView,
    logs: Map<u64, Seq<u8>>,
    from: u64,
    to: u64,
) -> Result<MemView, Fault>
    decreases to - from,
{
    if from >= to {
        Ok(mem)
    } else if logs.contains_key(from) {
        match wal::recovered(logs[from], 0, true) {
            Err(f) => Err(f),
            Ok(records) => with_logs(mem.with_records(records), logs, (from + 1) as u64, to),
        }
    } else {
        with_logs(mem, logs, (from + 1) as u64, to)
    }
}

/// To open a tree on its files may come to this. A fault in a table goes before one in a
/// log.
pub open spec fn opens_to(
    manifest: ManifestView,
    tables: Map<u64, Seq<u8>>,
    logs: Map<u64, Seq<u8>>,
    options: LsmOptions,
    result: Result<(LsmView, Seq<EffectView>), Fault>,
) -> bool {
    let mem = with_logs(MemView::fresh(), logs, 1, manifest.next_wal_id);
    match result {
        Ok((lsm, effects)) => {
            &&& mem == Ok::<MemView, Fault>(lsm.mem)
            &&& lsm.immutables.len() == 0
            &&& lsm.levels.dom() == manifest.levels.dom()
            &&& forall|level: u32| #[trigger]
                lsm.levels.contains_key(level) ==> opens(
                    manifest.levels[level],
                    tables,
                    lsm.levels[level],
                )
            &&& lsm.manifest == with_log(manifest)
            &&& is_next(lsm.mem.entries, lsm.levels, lsm.next_ts)
            &&& lsm.options == options
            &&& lsm.unsynced == 0
            &&& effects == seq![
                EffectView::CreateLog { id: manifest.next_wal_id },
                noting_log(manifest.next_wal_id),
            ]
        },
        Err(fault) => has_table_fault(manifest, tables, fault) || ((forall|f: Fault|
            !has_table_fault(manifest, tables, f)) && mem == Err::<MemView, Fault>(fault)),
    }
}

/// The answer in a result.
pub open spec fn answer_of(result: Result<Option<Vec<u8>>, Error>) -> Result<
    Option<Seq<u8>>,
    Fault,
> {
    match result {
        Ok(value) => Ok(memtable::value_view(value)),
        Err(e) => Err(e@),
    }
}

/// The records of the operations of a batch, with consecutive timestamps.
pub open spec fn batch_records(ops: Seq<OperationView>, base_ts: u64) -> Seq<RecordView> {
    Seq::new(ops.len(), |i: int| record_for(ops[i], u64::wrapping_add(base_ts, i as u64)))
}

impl LsmView {
    /// The tree with the operations of a batch in its log and its memory table.
    pub open spec fn with_batch(self, ops: Seq<OperationView>) -> LsmView {
        let records = batch_records(ops, self.next_ts);
        LsmView {
            mem: self.mem.with_records(records),
            next_ts: u64::wrapping_add(self.next_ts, ops.len() as u64),
            ..self.logged(records)
        }
    }
}

pub struct Lsm {
    memtable: MemTable,
    immutable_memtables: Vec<MemTable>,
    levels: HashMap<u32, Vec<Arc<SSTable>>>,
    wal: Wal,
    manifest: Manifest,
    options: LsmOptions,
    next_ts: u64,
    block_cache: BlockCache,
}

impl View for Lsm {
    type V = LsmView;

    closed spec fn view(&self) -> LsmView {
        LsmView {
            mem: mem_view(self.memtable),
            immutables: self.immutable_memtables@.map_values(|t: MemTable| t@),
            levels: level_views(self.levels@),
            manifest: self.manifest@,
            next_ts: self.next_ts,
            options: self.options,
            unsynced: self.wal.pending(),
        }
    }
}

/// The table stands on one of the levels.
pub open spec fn on_a_level(levels: Map<u32, Seq<TableView>>, t: TableView) -> bool {
    exists|level: u32, i: int|
        #![trigger levels[level][i]]
        levels.contains_key(level) && 0 <= i < levels[level].len() && levels[level][i] == t
}

/// The numbers of the tables are taken, and tables with the same number are the same.
pub open spec fn numbered(levels: Map<u32, Seq<TableView>>, next_sst_id: u64) -> bool {
    &&& forall|t: TableView| #[trigger] on_a_level(levels, t) ==> t.id < next_sst_id
    &&& forall|a: TableView, b: TableView| #[trigger]
        on_a_level(levels, a) && #[trigger] on_a_level(levels, b) && a.id == b.id ==> a == b
}

impl Lsm {
    /// The log is not compressed and not synced by itself, the tables have their own
    /// numbers, and what the cache holds of them is what they hold.
    pub closed spec fn wf(&self) -> bool {
        &&& self.wal.spec_options().sync_mode == SyncMode::NoSync
        &&& !self.wal.spec_options().enable_compression
        &&& self.manifest.labelled()
        &&& numbered(self@.levels, self.manifest@.next_sst_id)
        &&& forall|t: TableView| #[trigger]
            on_a_level(self@.levels, t) ==> t.agrees(self.block_cache@) && t.id <= MAX_ID
        &&& forall|key: (u64, usize)| #[trigger]
            self.block_cache@.contains_key(key) ==> key.0 < self.manifest@.next_sst_id
    }

    /// Opens a tree on the files that it left: the tables that the manifest names and the
    /// logs that it knows of, by their numbers and as far as they are there. A new log is
    /// begun and noted.
    pub fn open(
        manifest: Manifest,
        tables: HashMap<u64, Vec<u8>>,
        logs: HashMap<u64, Vec<u8>>,
        options: LsmOptions,
    ) -> (result: Result<(Lsm, Vec<Effect>), Error>)
        requires
            manifest@.numbered(),
            manifest.labelled(),
        ensures
            result matches Ok((lsm, _)) ==> lsm.wf(),
            opens_to(
                manifest@,
                file_views(tables@),
                file_views(logs@),
                options,
                match result {
                    Ok((lsm, effects)) => Ok((lsm@, effect_views(effects@))),
                    Err(e) => Err(e@),
                },
            ),
    {
        let ghost files = file_views(tables@);
        let ghost m = manifest@;
        let levels = Self::open_levels(&manifest, &tables)?;
        let ghost opened = level_views(levels@);
        let mut memtable = MemTable::new();
        let ghost log_files = file_views(logs@);
        assert(mem_view(memtable) =~= MemView::fresh());
        proof {
            assert forall|f: Fault| !has_table_fault(m, files, f) by {
                if has_table_fault(m, files, f) {
                    let (level, i) = choose|level: u32, i: int|
                        #![trigger m.levels[level][i]]
                        m.levels.contains_key(level) && 0 <= i < m.levels[level].len()
                            && files.contains_key(m.levels[level][i]) && sstable::opened(
                            m.levels[level][i],
                            files[m.levels[level][i]],
                        ) == Err::<TableView, Fault>(f);
                    let ids = m.levels[level];
                    let is_present = |id: u64| files.contains_key(id);
                    assert(opened.contains_key(level));
                    ids.lemma_filter_contains(is_present, i);
                    let k = choose|k: int|
                        0 <= k < present(ids, files).len() && present(ids, files)[k] == ids[i];
                    assert(sstable::opened(
                        present(ids, files)[k],
                        files[present(ids, files)[k]],
                    ) == Ok::<TableView, Fault>(opened[level][k]));
                }
            }
        }
        let last: u64 = manifest.next_wal_id;
        let mut next_ts: u64 = beyond_tables(&levels);
        assert(is_next(memtable@, opened, next_ts)) by {
            assert(memtable@ =~= Map::empty());
        }
        let mut wal_id: u64 = 1;
        while wal_id < last
            invariant
                1 <= wal_id,
                is_next(memtable@, opened, next_ts),
                last == m.next_wal_id,
                log_files == file_views(logs@),
                with_logs(MemView::fresh(), log_files, 1, last) == with_logs(
                    mem_view(memtable),
                    log_files,
                    wal_id,
                    last,
                ),
                files == file_views(tables@),
                m == manifest@,
                manifest.labelled(),
                forall|f: Fault| !has_table_fault(m, files, f),
            decreases last - wal_id,
        {
            if let Some(data) = logs.get(&wal_id) {
                assert(log_files[wal_id] == data@);
                let records = Wal::recover(data.as_slice())?;
                next_ts = replay(&mut memtable, records, next_ts, Ghost(opened));
            }
            wal_id += 1;
        }
        let mut manifest = manifest;
        let log_id: u64 = manifest.allocate_wal_id();
        let lines = manifest.add_wal(log_id);
        let lsm = Lsm {
            memtable,
            immutable_memtables: Vec::new(),
            levels,
            wal: Wal::create(),
            manifest,
            next_ts,
            block_cache: BlockCache::new(options.block_cache_capacity),
            options,
        };
        let mut effects: Vec<Effect> = Vec::new();
        effects.push(Effect::CreateLog { id: last });
        effects.push(Effect::AppendManifest { lines });
        proof {
            assert(lsm@.manifest == with_log(m));
            assert(lsm@.levels == opened);
            assert(lsm@.levels.dom() =~= m.levels.dom());
            assert(lsm@.immutables =~= Seq::empty());
            assert(effect_views(effects@) =~= seq![
                EffectView::CreateLog { id: last },
                noting_log(last),
            ]);
            assert forall|t: TableView| #[trigger] on_a_level(opened, t) implies t.id
                < m.next_sst_id && t.id <= MAX_ID && sstable::opened(t.id, files[t.id]) == Ok::<
                TableView,
                Fault,
            >(t) by {
                let (level, i) = choose|level: u32, i: int|
                    #![trigger opened[level][i]]
                    opened.contains_key(level) && 0 <= i < opened[level].len() && opened[level][i]
                        == t;
                let ids = m.levels[level];
                let is_present = |id: u64| files.contains_key(id);
                let id = present(ids, files)[i];
                assert(sstable::opened(id, files[id]) == Ok::<TableView, Fault>(t));
                assert(ids.filter(is_present).contains(id));
                ids.lemma_filter_contains_rev(is_present, id);
                let k = choose|k: int| 0 <= k < ids.len() && ids[k] == id;
                assert(m.levels[level][k] < m.next_sst_id);
            }
        }
        Ok((lsm, effects))
    }

    /// Opens the tables of all levels.
    fn open_levels(manifest: &Manifest, tables: &HashMap<u64, Vec<u8>>) -> (result: Result<
        HashMap<u32, Vec<Arc<SSTable>>>,
        Error,
    >)
        ensures
            ({
                let files = file_views(tables@);
                match result {
                    Ok(levels) => {
                        &&& levels@.dom() == manifest@.levels.dom()
                        &&& forall|level: u32| #[trigger]
                            levels@.contains_key(level) ==> opens(
                                manifest@.levels[level],
                                files,
                                table_views(levels@[level]@),
                            )
                    },
                    Err(e) => has_table_fault(manifest@, files, e@),
                }
            }),
    {
        let ghost files = file_views(tables@);
        let mut levels: HashMap<u32, Vec<Arc<SSTable>>> = HashMap::new();
        let list = level_numbers(&manifest.levels);
        let mut i: usize = 0;
        while i < list.len()
            invariant
                i <= list@.len(),
                files == file_views(tables@),
                forall|level: u32| list@.contains(level) <==> manifest.levels@.contains_key(level),
                forall|level: u32| #[trigger]
                    levels@.contains_key(level) <==> list@.take(i as int).contains(level),
                forall|level: u32| #[trigger]
                    levels@.contains_key(level) ==> opens(
                        manifest@.levels[level],
                        files,
                        table_views(levels@[level]@),
                    ),
            decreases list@.len() - i,
        {
            let level: u32 = list[i];
            assert(list@.contains(level));
            assert(list@.take(i + 1) =~= list@.take(i as int).push(level));
            if let Some(meta) = manifest.levels.get(&level) {
                assert(manifest@.levels[level] == meta.sst_ids@);
                let opened = Self::open_tables(&meta.sst_ids, tables);
                match opened {
                    Ok(open) => {
                        levels.insert(level, open);
                    },
                    Err(e) => {
                        proof {
                            let ids = meta.sst_ids@;
                            let k = choose|k: int|
                                0 <= k < ids.len() && files.contains_key(ids[k])
                                    && #[trigger] sstable::opened(ids[k], files[ids[k]]) == Err::<
                                    TableView,
                                    Fault,
                                >(e@);
                            assert(manifest@.levels[level][k] == ids[k]);
                        }
                        return Err(e);
                    },
                }
            }
            assert forall|l: u32| #[trigger]
                levels@.contains_key(l) <==> list@.take(i + 1).contains(l) by {
                assert(list@.take(i as int).push(level)[i as int] == level);
                if list@.take(i as int).contains(l) {
                    let k = choose|k: int|
                        0 <= k < list@.take(i as int).len() && list@.take(i as int)[k] == l;
                    assert(list@.take(i + 1)[k] == l);
                }
            }
            i += 1;
        }
        proof {
            assert(list@.take(list@.len() as int) =~= list@);
            assert(levels@.dom() =~= manifest@.levels.dom()) by {
                assert forall|l: u32| levels@.dom().contains(l) <==> manifest@.levels.dom().contains(
                    l,
                ) by {
                    assert(levels@.contains_key(l) <==> list@.contains(l));
                }
            }
        }
        Ok(levels)
    }

    /// Opens the tables whose files are there.
    fn open_tables(ids: &Vec<u64>, tables: &HashMap<u64, Vec<u8>>) -> (result: Result<
        Vec<Arc<SSTable>>,
        Error,
    >)
        ensures
            ({
                let files = file_views(tables@);
                match result {
                    Ok(open) => opens(ids@, files, table_views(open@)),
                    Err(e) => exists|k: int|
                        0 <= k < ids@.len() && files.contains_key(ids@[k])
                            && #[trigger] sstable::opened(ids@[k], files[ids@[k]]) == Err::<
                            TableView,
                            Fault,
                        >(e@),
                }
            }),
    {
        let ghost files = file_views(tables@);
        let ghost is_present = |id: u64| files.contains_key(id);
        let mut open: Vec<Arc<SSTable>> = Vec::new();
        let mut i: usize = 0;
        assert(ids@.take(0) =~= Seq::empty());
        assert(ids@.take(0).filter(is_present) =~= Seq::empty()) by {
            reveal(Seq::filter);
        }
        while i < ids.len()
            invariant
                i <= ids@.len(),
                files == file_views(tables@),
                is_present == |id: u64| files.contains_key(id),
                opens(ids@.take(i as int), files, table_views(open@)),
            decreases ids@.len() - i,
        {
            let id: u64 = ids[i];
            proof {
                assert(ids@.take(i + 1).drop_last() =~= ids@.take(i as int));
                reveal(Seq::filter);
            }
            let ghost before = table_views(open@);
            if let Some(data) = tables.get(&id) {
                assert(files[id] == data@);
                let table = SSTable::open(id, codec::copy_bytes(data.as_slice()))?;
                let ghost view = table@;
                open.push(Arc::new(table));
                assert(table_views(open@) =~= before.push(view));
                assert(present(ids@.take(i + 1), files) =~= present(
                    ids@.take(i as int),
                    files,
                ).push(id));
            }
            i += 1;
        }
        assert(ids@.take(ids@.len() as int) =~= ids@);
        Ok(open)
    }

    /// An iterator over all keys.
    pub fn scan(&self) -> (result: Result<LsmIterator, Error>)
        ensures
            match result {
                Ok(iter) => iter.wf() && self@.parts().scanned(
                    BoundView::Unbounded,
                    BoundView::Unbounded,
                    Ok::<Stream, Fault>(iter.stream()),
                ),
                Err(e) => self@.parts().scanned(
                    BoundView::Unbounded,
                    BoundView::Unbounded,
                    Err::<Stream, Fault>(e@),
                ),
            },
    {
        self.scan_range(Bound::Unbounded, Bound::Unbounded)
    }

    /// An iterator over the keys of a range.
    pub fn scan_range(&self, start: Bound, end: Bound) -> (result: Result<LsmIterator, Error>)
        ensures
            match result {
                Ok(iter) => iter.wf() && self@.parts().scanned(
                    start@,
                    end@,
                    Ok::<Stream, Fault>(iter.stream()),
                ),
                Err(e) => self@.parts().scanned(start@, end@, Err::<Stream, Fault>(e@)),
            },
    {
        scan::build_scan_iterator(
            &self.memtable,
            &self.immutable_memtables,
            &self.levels,
            &start,
            end,
        )
    }

    /// An iterator over the keys of a range that have a value for readers at `ts`.
    pub fn scan_at_ts(&mut self, start: Bound, end: Bound, ts: u64) -> (result: Result<
        SnapshotLsmIterator,
        Error,
    >)
        requires
            old(self).wf(),
        ensures
            final(self).wf(),
            final(self)@ == old(self)@,
            match result {
                Ok(iter) => iter.wf() && old(self)@.scanned_at(start@, end@, ts, Ok(iter.left())),
                Err(e) => old(self)@.scanned_at(start@, end@, ts, Err(e@)),
            },
    {
        let ghost s = self@;
        let ghost (first, last) = (start@, end@);
        let mut iter = self.scan_range(start, end)?;
        let ghost stream = iter.stream();
        let mut pairs: Vec<(Vec<u8>, Vec<u8>)> = Vec::new();
        let ghost mut n: int = 0;
        assert(stream.items.take(0) =~= Seq::empty());
        assert(stream.items.skip(0) =~= stream.items);
        assert(s.shown(stream.items.take(0), ts, scan::pair_views(pairs@)));
        while iter.is_valid()
            invariant
                iter.wf(),
                self.wf(),
                self@ == s,
                s == old(self)@,
                first == start@,
                last == end@,
                s.parts().scanned(first, last, Ok(stream)),
                0 <= n <= stream.items.len(),
                iter.stream().items == stream.items.skip(n),
                iter.stream().fault == stream.fault,
                n > 0 && n == stream.items.len() ==> stream.fault is None,
                s.shown(stream.items.take(n), ts, scan::pair_views(pairs@)),
            decreases stream.items.len() - n,
        {
            let key = match iter.key() {
                Some(k) => codec::copy_bytes(k),
                None => Vec::new(),
            };
            let ghost head = stream.items.take(n + 1);
            let ghost before = scan::pair_views(pairs@);
            assert(head.drop_last() =~= stream.items.take(n));
            assert(head.last() == stream.items[n] && key@ == stream.items[n].key.data);
            let found = self.get_at_ts(key.as_slice(), ts);
            match found {
                Ok(value) => {
                    let ghost seen = memtable::value_view(value);
                    let ghost now = match seen {
                        Some(v) => before.push((key@, v)),
                        None => before,
                    };
                    if let Some(v) = value {
                        pairs.push((key, v));
                    }
                    assert(scan::pair_views(pairs@) =~= now);
                    proof {
                        let data = head.last().key.data;
                        assert(seen is Some ==> now.drop_last() =~= before);
                        assert(s.reads(data, ts, Ok::<Option<Seq<u8>>, Fault>(seen)));
                        assert(s.shown(head, ts, now));
                    }
                },
                Err(e) => {
                    assert(s.reads(stream.items[n].key.data, ts, Err(e@)));
                    return Err(e);
                },
            }
            iter.advance()?;
            proof {
                n = n + 1;
                assert(stream.items.skip(n - 1).skip(1) =~= stream.items.skip(n));
            }
        }
        assert(stream.items.take(n) =~= stream.items);
        Ok(SnapshotLsmIterator::new(pairs))
    }

    /// Everything that was written is brought to the disk.
    pub fn sync(&mut self) -> (effect: Effect)
        requires
            old(self).wf(),
        ensures
            final(self).wf(),
            final(self)@ == old(self)@.synced(),
            effect@ == EffectView::SyncLog,
    {
        self.wal.sync();
        assert(self@ =~= old(self)@.synced());
        Effect::SyncLog
    }

    /// Roughly what the block cache holds, and how much it may hold.
    pub fn cache_stats(&self) -> (stats: CacheStats)
        ensures
            stats.capacity == self@.options.block_cache_capacity,
    {
        CacheStats {
            entry_count: self.block_cache.entry_count(),
            weighted_size: self.block_cache.weighted_size(),
            capacity: self.options.block_cache_capacity,
        }
    }

    /// The blocks that the cache may hold.
    pub closed spec fn cached(&self) -> Map<(u64, usize), Seq<u8>> {
        self.block_cache@
    }

    pub fn block_cache(&self) -> (cache: &BlockCache)
        ensures
            cache@ == self.cached(),
    {
        &self.block_cache
    }

    /// The timestamp of the next write.
    pub fn current_ts(&self) -> (ts: u64)
        ensures
            ts == self@.next_ts,
    {
        self.next_ts
    }

    pub fn manifest(&self) -> (manifest: &Manifest)
        ensures
            self.wf() ==> manifest.labelled(),
            manifest@ == self@.manifest,
    {
        &self.manifest
    }

    /// Writes a key.
    pub fn put(&mut self, key: Vec<u8>, value: Vec<u8>) -> (outcome: Outcome)
        requires
            old(self).wf(),
        ensures
            final(self).wf(),
            old(self)@.stored(
                OperationView { key: key@, value: Some(value@) },
                final(self)@,
                outcome.effects(),
                outcome.fault(),
            ),
            size_laws::moderate(
                old(self)@,
                seq![OperationView { key: key@, value: Some(value@) }],
            ) && old(self)@.manifest.next_sst_id <= MAX_ID ==> outcome.result is Ok,
    {
        let ghost op = OperationView { key: key@, value: Some(value@) };
        let ghost s = self@.written(op);
        let ts: u64 = self.take_ts(1);
        let record = WalRecord {
            record_type: RecordType::Put,
            key: codec::copy_bytes(key.as_slice()),
            value: Some(codec::copy_bytes(value.as_slice())),
            timestamp: ts,
        };
        let mut effects: Vec<Effect> = Vec::new();
        effects.push(self.log_record(&record));
        self.memtable.put(Key::new(key, ts), value);
        assert(self@ =~= s);
        let ghost first = effects@;
        let result = self.rotate_if_full(&mut effects);
        let outcome = Outcome { effects, result };
        proof {
            let more = effect_views(effects@.skip(1));
            assert(outcome.effects() =~= seq![first[0]@] + more);
            let before = old(self)@;
            if size_laws::moderate(before, seq![op]) && before.manifest.next_sst_id <= MAX_ID {
                size_laws::lemma_write_succeeds(
                    before,
                    op,
                    self@,
                    outcome.effects(),
                    outcome.fault(),
                );
            }
        }
        outcome
    }

    /// Deletes a key.
    pub fn delete(&mut self, key: Vec<u8>) -> (outcome: Outcome)
        requires
            old(self).wf(),
        ensures
            final(self).wf(),
            old(self)@.stored(
                OperationView { key: key@, value: None },
                final(self)@,
                outcome.effects(),
                outcome.fault(),
            ),
    {
        let ghost op = OperationView { key: key@, value: None };
        let ghost s = self@.written(op);
        let ts: u64 = self.take_ts(1);
        let record = WalRecord {
            record_type: RecordType::Delete,
            key: codec::copy_bytes(key.as_slice()),
            value: None,
            timestamp: ts,
        };
        let mut effects: Vec<Effect> = Vec::new();
        effects.push(self.log_record(&record));
        self.memtable.delete(Key::new(key, ts));
        assert(self@ =~= s);
        let outcome = Outcome { effects, result: Ok(()) };
        assert(outcome.effects() =~= seq![logging(seq![record_for(op, old(self)@.next_ts)])]);
        outcome
    }

    /// Writes the operations of a batch, all of them or, if it is empty, nothing.
    pub fn write_batch(&mut self, batch: WriteBatch) -> (outcome: Outcome)
        requires
            old(self).wf(),
        ensures
            final(self).wf(),
            batch@.len() == 0 ==> final(self)@ == old(self)@ && outcome.effects().len() == 0
                && outcome.fault() is None,
            batch@.len() > 0 ==> ({
                let records = batch_records(batch@, old(self)@.next_ts);
                let s = old(self)@.with_batch(batch@);
                exists|more: Seq<EffectView>| #[trigger]
                    s.settled(final(self)@, more, outcome.fault()) && outcome.effects() == seq![
                        logging(records),
                    ] + more
            }),
            size_laws::moderate(old(self)@, batch@) && old(self)@.manifest.next_sst_id <= MAX_ID
                ==> outcome.result is Ok,
    {
        if batch.is_empty() {
            let outcome = Outcome { effects: Vec::new(), result: Ok(()) };
            assert(outcome.effects() =~= Seq::empty());
            return outcome;
        }
        let ghost ops = batch@;
        let operations = batch.into_operations();
        let base_ts: u64 = self.take_ts(operations.len() as u64);
        let ghost records = batch_records(ops, base_ts);
        let wal_records = records_of(&operations, base_ts);
        let mut effects: Vec<Effect> = Vec::new();
        effects.push(self.log_records(wal_records.as_slice()));
        let ghost start = self@;
        let ghost all = operations@;
        let mut i: u64 = 0;
        assert(records.take(0) =~= Seq::empty());
        for op in iter: operations
            invariant
                iter.seq() == all,
                i == iter.index(),
                all.len() <= u64::MAX,
                self.wf(),
                batch::operation_views(all) == ops,
                records == batch_records(ops, base_ts),
                self@ == (LsmView {
                    mem: start.mem.with_records(records.take(i as int)),
                    ..start
                }),
        {
            let ts: u64 = base_ts.wrapping_add(i);
            proof {
                assert(ops[i as int] == all[i as int]@);
                assert(records.take(i + 1).drop_last() =~= records.take(i as int));
                assert(records.take(i + 1).last() == record_for(ops[i as int], ts));
            }
            match op {
                BatchOperation::Put { key, value } => {
                    self.memtable.put(Key::new(key, ts), value);
                },
                BatchOperation::Delete { key } => {
                    self.memtable.delete(Key::new(key, ts));
                },
            }
            assert(self@ =~= LsmView {
                mem: start.mem.with_records(records.take(i + 1)),
                ..start
            });
            i += 1;
        }
        assert(records.take(records.len() as int) =~= records);
        let ghost first = effects@;
        let result = self.rotate_if_full(&mut effects);
        let outcome = Outcome { effects, result };
        proof {
            let more = effect_views(effects@.skip(1));
            assert(outcome.effects() =~= seq![first[0]@] + more);
            let before = old(self)@;
            if size_laws::moderate(before, ops) && before.manifest.next_sst_id <= MAX_ID {
                assert(before.with_batch(ops).settled(self@, more, outcome.fault()));
                size_laws::lemma_batch_succeeds(before, ops, self@, more, outcome.fault());
            }
        }
        outcome
    }

    fn log_records(&mut self, records: &[WalRecord]) -> (effect: Effect)
        requires
            old(self).wf(),
        ensures
            final(self).wf(),
            final(self)@ == old(self)@.logged(wal::record_views(records@)),
            final(self).memtable == old(self).memtable,
            effect@ == logging(wal::record_views(records@)),
    {
        let write = self.wal.append_batch(records);
        proof {
            let views = wal::record_views(records@);
            let bodies = choose|bodies: Seq<Seq<u8>>| #[trigger]
                wal::log_of(bodies) == write.bytes@ && wal::all_written(false, views, bodies);
            assert(bodies =~= views.map_values(|r: RecordView| r.plain_body())) by {
                assert forall|k: int| 0 <= k < views.len() implies bodies[k]
                    == views[k].plain_body() by {
                    assert(wal::written(false, views[k], bodies[k]));
                }
            }
        }
        Effect::AppendLog { bytes: write.bytes, sync: write.sync }
    }

    /// The newest value of a key.
    pub fn get(&mut self, key: &[u8]) -> (result: Result<Option<Vec<u8>>, Error>)
        requires
            old(self).wf(),
        ensures
            final(self).wf(),
            final(self)@ == old(self)@,
            old(self)@.reads(key@, old(self)@.next_ts, answer_of(result)),
    {
        let ts: u64 = self.next_ts;
        self.get_at_ts(key, ts)
    }

    /// The value of a key that a reader at `ts` sees.
    pub fn get_at_ts(&mut self, key: &[u8], ts: u64) -> (result: Result<Option<Vec<u8>>, Error>)
        requires
            old(self).wf(),
        ensures
            final(self).wf(),
            final(self)@ == old(self)@,
            old(self)@.reads(key@, ts, answer_of(result)),
    {
        if let Some(value) = self.memtable.get_at_ts(key, ts) {
            return Ok(value);
        }
        let ghost s = self@;
        let mut n: usize = self.immutable_memtables.len();
        while n > 0
            invariant
                n <= self.immutable_memtables@.len(),
                *self == *old(self),
                s == self@,
                memtable::visible(s.mem.entries, key@, ts) is None,
                visible_aside(s.immutables, s.immutables.len() as int, key@, ts) == visible_aside(
                    s.immutables,
                    n as int,
                    key@,
                    ts,
                ),
                self.wf(),
            decreases n,
        {
            n -= 1;
            assert(s.immutables[n as int] == self.immutable_memtables@[n as int]@);
            if let Some(value) = self.immutable_memtables[n].get_at_ts(key, ts) {
                return Ok(value);
            }
        }
        self.get_from_tables(key, ts)
    }

    /// Looks for a key in the tables.
    fn get_from_tables(&mut self, key: &[u8], ts: u64) -> (result: Result<
        Option<Vec<u8>>,
        Error,
    >)
        requires
            old(self).wf(),
        ensures
            final(self).wf(),
            final(self)@ == old(self)@,
            found_on_disk(consulted(old(self)@.levels, 0), key@, ts, answer_of(result)),
    {
        let ghost s = self@;
        let ghost all = consulted(s.levels, 0);
        let mut level: u32 = 0;
        while level < NUM_LEVELS
            invariant
                self.wf(),
                self@ == s,
                s == old(self)@,
                all == consulted(s.levels, 0),
                level <= NUM_LEVELS,
                forall|answer: Result<Option<Seq<u8>>, Fault>|
                    found_on_disk(consulted(s.levels, level), key@, ts, answer)
                        ==> #[trigger] found_on_disk(all, key@, ts, answer),
            decreases NUM_LEVELS - level,
        {
            let ghost rest = consulted(s.levels, (level + 1) as u32);
            let mut n: usize = match self.levels.get(&level) {
                Some(tables) => tables.len(),
                None => 0,
            };
            proof {
                if s.levels.contains_key(level) {
                    assert(s.levels[level].take(n as int) =~= s.levels[level]);
                }
                assert(consulted(s.levels, level) =~= left(s.levels, level, n as int) + rest);
            }
            while n > 0
                invariant
                    self.wf(),
                    self@ == s,
                    s == old(self)@,
                    all == consulted(s.levels, 0),
                    rest == consulted(s.levels, (level + 1) as u32),
                    n > 0 ==> s.levels.contains_key(level),
                    s.levels.contains_key(level) ==> n <= s.levels[level].len(),
                    forall|answer: Result<Option<Seq<u8>>, Fault>|
                        found_on_disk(left(s.levels, level, n as int) + rest, key@, ts, answer)
                            ==> #[trigger] found_on_disk(all, key@, ts, answer),
                decreases n,
            {
                let ghost here = left(s.levels, level, n as int) + rest;
                n -= 1;
                let ghost t = s.levels[level][n as int];
                proof {
                    assert(on_a_level(s.levels, t));
                    assert(here[0] == t);
                    assert(here.skip(1) =~= left(s.levels, level, n as int) + rest);
                }
                let result = self.get_from_table(level, n, key, ts);
                let ghost first = choose|first: Result<Option<Option<Seq<u8>>>, Fault>| #[trigger]
                    here[0].answers(key@, ts, first) && block::found(result, first);
                match result {
                    Ok(None) => {
                        proof {
                            assert forall|answer: Result<Option<Seq<u8>>, Fault>|
                                found_on_disk(
                                    left(s.levels, level, n as int) + rest,
                                    key@,
                                    ts,
                                    answer,
                                ) implies #[trigger] found_on_disk(all, key@, ts, answer) by {
                                assert(found_on_disk(here, key@, ts, answer));
                            }
                        }
                    },
                    Ok(Some(value)) => {
                        let result: Result<Option<Vec<u8>>, Error> = Ok(value);
                        assert(found_on_disk(here, key@, ts, answer_of(result)));
                        return result;
                    },
                    Err(e) => {
                        let result: Result<Option<Vec<u8>>, Error> = Err(e);
                        assert(found_on_disk(here, key@, ts, answer_of(result)));
                        return result;
                    },
                }
            }
            proof {
                assert(left(s.levels, level, 0) + rest =~= rest);
            }
            level += 1;
        }
        assert(found_on_disk(
            consulted(s.levels, level),
            key@,
            ts,
            Ok::<Option<Seq<u8>>, Fault>(None),
        ));
        Ok(None)
    }

    fn get_from_table(&mut self, level: u32, n: usize, key: &[u8], ts: u64) -> (result: Result<
        Option<Option<Vec<u8>>>,
        Error,
    >)
        requires
            old(self).wf(),
            old(self)@.levels.contains_key(level),
            n < old(self)@.levels[level].len(),
        ensures
            final(self).wf(),
            final(self)@ == old(self)@,
            exists|first: Result<Option<Option<Seq<u8>>>, Fault>| #[trigger]
                old(self)@.levels[level][n as int].answers(key@, ts, first) && block::found(
                    result,
                    first,
                ),
    {
        let ghost s = self@;
        let ghost t = s.levels[level][n as int];
        assert(on_a_level(s.levels, t));
        match self.levels.get(&level) {
            Some(tables) => {
                let result = tables[n].get_with_cache(key, ts, &mut self.block_cache);
                proof {
                    assert(self@ =~= s);
                    assert forall|other: TableView| #[trigger]
                        on_a_level(s.levels, other) implies other.agrees(self.block_cache@) by {
                        if other.id == t.id {
                            assert(other == t);
                        }
                    }
                }
                result
            },
            None => Ok(None),
        }
    }

    /// Takes timestamps for `n` writes.
    fn take_ts(&mut self, n: u64) -> (ts: u64)
        requires
            old(self).wf(),
        ensures
            final(self).wf(),
            ts == old(self)@.next_ts,
            final(self)@ == (LsmView {
                next_ts: u64::wrapping_add(old(self)@.next_ts, n),
                ..old(self)@
            }),
            final(self).memtable == old(self).memtable,
    {
        let ts: u64 = self.next_ts;
        self.next_ts = ts.wrapping_add(n);
        ts
    }

    fn log_record(&mut self, record: &WalRecord) -> (effect: Effect)
        requires
            old(self).wf(),
        ensures
            final(self).wf(),
            final(self)@ == old(self)@.logged(seq![record@]),
            final(self).memtable == old(self).memtable,
            effect@ == logging(seq![record@]),
    {
        let write = self.wal.append(record);
        proof {
            let bodies = seq![record@].map_values(|r: RecordView| r.plain_body());
            let body = choose|body: Seq<u8>| #[trigger]
                wal::frame(body) == write.bytes@ && wal::written(false, record@, body);
            assert(bodies =~= seq![body]);
            assert(bodies.drop_last() =~= Seq::empty());
            assert(wal::log_of(bodies.drop_last()) =~= Seq::empty());
            assert(wal::log_of(bodies) =~= write.bytes@);
        }
        Effect::AppendLog { bytes: write.bytes, sync: write.sync }
    }

    fn rotate_if_full(&mut self, effects: &mut Vec<Effect>) -> (result: Result<(), Error>)
        requires
            old(self).wf(),
        ensures
            final(self).wf(),
            old(effects)@ == final(effects)@.take(old(effects)@.len() as int),
            old(effects)@.len() <= final(effects)@.len(),
            old(self)@.settled(
                final(self)@,
                effect_views(final(effects)@.skip(old(effects)@.len() as int)),
                match result {
                    Ok(_) => None,
                    Err(e) => Some(e@),
                },
            ),
    {
        if self.memtable.size() >= self.options.memtable_size {
            self.rotate_memtable(effects)
        } else {
            proof {
                assert(effects@.take(effects@.len() as int) =~= effects@);
                assert(effect_views(effects@.skip(effects@.len() as int)) =~= Seq::empty());
            }
            Ok(())
        }
    }

    /// Sets the memory table aside, begins a new log and writes the table to a file.
    fn rotate_memtable(&mut self, effects: &mut Vec<Effect>) -> (result: Result<(), Error>)
        requires
            old(self).wf(),
        ensures
            final(self).wf(),
            old(effects)@ == final(effects)@.take(old(effects)@.len() as int),
            old(effects)@.len() <= final(effects)@.len(),
            old(self)@.rotated(
                final(self)@,
                effect_views(final(effects)@.skip(old(effects)@.len() as int)),
                match result {
                    Ok(_) => None,
                    Err(e) => Some(e@),
                },
            ),
    {
        let ghost before = self@;
        let ghost already = effects@;
        let mut table = MemTable::new();
        std::mem::swap(&mut table, &mut self.memtable);
        let image = write_table(&table, self.options.compression);
        self.immutable_memtables.push(table);
        effects.push(Effect::SyncLog);
        let wal_id: u64 = self.manifest.allocate_wal_id();
        let lines = self.manifest.add_wal(wal_id);
        self.wal = Wal::create();
        effects.push(Effect::CreateLog { id: wal_id });
        effects.push(Effect::AppendManifest { lines });
        let ghost mid = before.set_aside();
        proof {
            assert(self@.immutables =~= mid.immutables);
            assert(self@ =~= mid);
            assert(effects@.take(already.len() as int) =~= already);
            assert(effect_views(effects@.skip(already.len() as int))
                =~= before.set_aside_effects());
        }
        if self.manifest.next_sst_id > MAX_ID {
            return Err(Error::InvalidArgument("table numbers are exhausted".to_owned()));
        }
        let ghost so_far = effects@;
        let result = self.flush_immutable(image, effects);
        proof {
            let n = already.len() as int;
            let more = effect_views(effects@.skip(so_far.len() as int));
            assert(effects@.take(n) =~= already) by {
                assert forall|i: int| 0 <= i < n implies effects@[i] == already[i] by {
                    assert(effects@.take(so_far.len() as int)[i] == so_far[i]);
                    assert(so_far.take(n)[i] == already[i]);
                }
            }
            assert(effect_views(effects@.skip(n)) =~= before.set_aside_effects() + more) by {
                assert forall|i: int| n <= i < so_far.len() implies effects@[i] == so_far[i] by {
                    assert(effects@.take(so_far.len() as int)[i] == so_far[i]);
                }
            }
        }
        result
    }

    /// Notes the file of the memory table that was set aside last and puts the table in
    /// that one's place.
    fn flush_immutable(&mut self, image: Vec<u8>, effects: &mut Vec<Effect>) -> (result: Result<
        (),
        Error,
    >)
        requires
            old(self).wf(),
            old(self)@.immutables.len() > 0,
            old(self)@.manifest.next_sst_id <= MAX_ID,
        ensures
            final(self).wf(),
            old(effects)@ == final(effects)@.take(old(effects)@.len() as int),
            old(effects)@.len() <= final(effects)@.len(),
            old(self)@.flushed(
                image@,
                final(self)@,
                effect_views(final(effects)@.skip(old(effects)@.len() as int)),
                match result {
                    Ok(_) => None,
                    Err(e) => Some(e@),
                },
            ),
    {
        let ghost before = self@;
        let ghost already = effects@;
        let sst_id: u64 = self.manifest.allocate_sst_id();
        let file = codec::copy_bytes(image.as_slice());
        effects.push(Effect::WriteTable { id: sst_id, image: file });
        let lines = self.manifest.add_sst(0, sst_id);
        effects.push(Effect::AppendManifest { lines });
        proof {
            assert(self@ =~= before.noted());
            assert(effects@.take(already.len() as int) =~= already);
            assert(effect_views(effects@.skip(already.len() as int)) =~= before.noting_effects(
                image@,
            ));
        }
        let table = SSTable::open(sst_id, image)?;
        let ghost view = table@;
        let mut tables = match self.levels.remove(&0) {
            Some(tables) => tables,
            None => Vec::new(),
        };
        assert(table_views(tables@) =~= before.tables(0));
        tables.push(Arc::new(table));
        assert(table_views(tables@) =~= before.tables(0).push(view));
        self.levels.insert(0, tables);
        self.immutable_memtables.pop();
        effects.push(Effect::NotifyCompaction);
        proof {
            let levels = before.levels.insert(0, before.tables(0).push(view));
            assert(self@.levels =~= levels);
            assert(self@.immutables =~= before.immutables.drop_last());
            assert(effects@.take(already.len() as int) =~= already);
            assert(effect_views(effects@.skip(already.len() as int)) =~= before.noting_effects(
                image@,
            ).push(EffectView::NotifyCompaction));
            assert forall|t: TableView| #[trigger] on_a_level(levels, t) implies t == view
                || on_a_level(before.levels, t) by {
                let (level, i) = choose|level: u32, i: int|
                    #![trigger levels[level][i]]
                    levels.contains_key(level) && 0 <= i < levels[level].len() && levels[level][i]
                        == t;
                if level == 0 {
                    if i < before.tables(0).len() {
                        assert(before.levels[0][i] == t);
                    }
                } else {
                    assert(before.levels[level][i] == t);
                }
            }
        }
        Ok(())
    }
}

/// The tables of a level that are still to be consulted when `n` are left.
spec fn left(levels: Map<u32, Seq<TableView>>, level: u32, n: int) -> Seq<TableView> {
    if levels.contains_key(level) && 0 <= n <= levels[level].len() {
        levels[level].take(n).reverse()
    } else {
        Seq::empty()
    }
}

/// Lists the numbers of the levels.
fn level_numbers<V>(levels: &HashMap<u32, V>) -> (list: Vec<u32>)
    ensures
        forall|v: u32| list@.contains(v) <==> levels@.contains_key(v),
{
    let mut list: Vec<u32> = Vec::new();
    for v in iter: levels.keys()
        invariant
            iter.seq().unref().to_set() == levels@.dom(),
            list@.len() == iter.index(),
            forall|i: int| 0 <= i < list@.len() ==> list@[i] == *iter.seq()[i],
            iter.index() == iter.seq().len() ==> list@ =~= iter.seq().unref(),
    {
        list.push(*v);
    }
    assert forall|v: u32| list@.contains(v) <==> levels@.contains_key(v) by {
        assert(list@.to_set().contains(v) <==> list@.contains(v));
    }
    list
}

/// The timestamp that follows `timestamp` if `next` is not beyond it.
fn raised(next: u64, timestamp: u64) -> (beyond: u64)
    ensures
        beyond == raised_by(next, timestamp),
{
    if timestamp < next {
        next
    } else if timestamp == u64::MAX {
        u64::MAX
    } else {
        timestamp + 1
    }
}

pub open spec fn raised_by(next: u64, timestamp: u64) -> u64 {
    if timestamp < next {
        next
    } else if timestamp == u64::MAX {
        u64::MAX
    } else {
        (timestamp + 1) as u64
    }
}

/// The timestamp beyond all versions in the tables.
fn beyond_tables(levels: &HashMap<u32, Vec<Arc<SSTable>>>) -> (next: u64)
    ensures
        is_next(Map::empty(), level_views(levels@), next),
{
    let ghost views = level_views(levels@);
    let list = level_numbers(levels);
    let mut next: u64 = 1;
    let mut i: usize = 0;
    while i < list.len()
        invariant
            i <= list@.len(),
            views == level_views(levels@),
            next >= 1,
            forall|l: u32, k: int|
                #![trigger views[l][k]]
                list@.take(i as int).contains(l) && views.contains_key(l) && 0 <= k
                    < views[l].len() ==> views[l][k].newest < next || next == u64::MAX,
            next == 1 || exists|t: TableView| #[trigger]
                on_a_level(views, t) && next <= t.newest + 1,
        decreases list@.len() - i,
    {
        let level: u32 = list[i];
        assert(list@.take(i + 1) =~= list@.take(i as int).push(level));
        if let Some(tables) = levels.get(&level) {
            let ghost before = list@.take(i as int);
            assert(views[level] == table_views(tables@));
            let mut j: usize = 0;
            while j < tables.len()
                invariant
                    j <= tables@.len(),
                    views == level_views(levels@),
                    views.contains_key(level),
                    views[level] == table_views(tables@),
                    next >= 1,
                    forall|l: u32, k: int|
                        #![trigger views[l][k]]
                        before.contains(l) && views.contains_key(l) && 0 <= k < views[l].len()
                            ==> views[l][k].newest < next || next == u64::MAX,
                    forall|k: int|
                        #![trigger views[level][k]]
                        0 <= k < j ==> views[level][k].newest < next || next == u64::MAX,
                    next == 1 || exists|t: TableView| #[trigger]
                        on_a_level(views, t) && next <= t.newest + 1,
                decreases tables@.len() - j,
            {
                let newest: u64 = tables[j].newest();
                proof {
                    let t = views[level][j as int];
                    assert(t.newest == newest);
                    assert(on_a_level(views, t));
                }
                next = raised(next, newest);
                j += 1;
            }
            assert forall|l: u32, k: int|
                #![trigger views[l][k]]
                before.push(level).contains(l) && views.contains_key(l) && 0 <= k
                    < views[l].len() implies views[l][k].newest < next || next == u64::MAX by {
                if l != level {
                    let n = choose|n: int|
                        0 <= n < before.push(level).len() && before.push(level)[n] == l;
                    assert(before[n] == l);
                }
            }
        }
        i += 1;
    }
    proof {
        assert(list@.take(list@.len() as int) =~= list@);
        assert forall|t: TableView| #[trigger] on_a_level(views, t) implies t.newest < next || next
            == u64::MAX by {
            let (l, k) = choose|l: u32, k: int|
                #![trigger views[l][k]]
                views.contains_key(l) && 0 <= k < views[l].len() && views[l][k] == t;
            assert(list@.contains(l));
        }
    }
    next
}

/// Puts what log records say into a memory table. Gives the timestamp beyond them and
/// beyond those before.
fn replay(
    table: &mut MemTable,
    records: Vec<WalRecord>,
    next: u64,
    Ghost(levels): Ghost<Map<u32, Seq<TableView>>>,
) -> (beyond: u64)
    requires
        is_next(old(table)@, levels, next),
    ensures
        is_next(final(table)@, levels, beyond),
        mem_view(*final(table)) == mem_view(*old(table)).with_records(wal::record_views(records@)),
{
    let ghost start = mem_view(*table);
    let ghost all = records@;
    let ghost views = wal::record_views(all);
    assert(views.take(0) =~= Seq::empty());
    let mut beyond: u64 = next;
    for record in iter: records
        invariant
            iter.seq() == all,
            is_next(table@, levels, beyond),
            views == wal::record_views(all),
            mem_view(*table) == start.with_records(views.take(iter.index() as int)),
            start == mem_view(*old(table)),
    {
        let ghost i = iter.index() as int;
        proof {
            assert(views[i] == record@);
            assert(views.take(i + 1).drop_last() =~= views.take(i));
        }
        let WalRecord { record_type, key, value, timestamp } = record;
        let ghost before = table@;
        let ghost version = KeyView { data: key@, timestamp };
        let key = Key::new(key, timestamp);
        match record_type {
            RecordType::Put => {
                let value = match value {
                    Some(v) => v,
                    None => Vec::new(),
                };
                assert(value@ =~= match views[i].value {
                    Some(v) => v,
                    None => Seq::empty(),
                });
                table.put(key, value);
            },
            RecordType::Delete => {
                table.delete(key);
            },
        }
        assert(mem_view(*table) =~= start.with_records(views.take(i + 1)));
        proof {
            lemma_next_grows(before, table@, levels, version, beyond);
        }
        beyond = raised(beyond, timestamp);
    }
    assert(views.take(views.len() as int) =~= views);
    beyond
}

/// The next timestamp behind one more version.
pub proof fn lemma_next_grows(
    before: Map<KeyView, Option<Seq<u8>>>,
    after: Map<KeyView, Option<Seq<u8>>>,
    levels: Map<u32, Seq<TableView>>,
    version: KeyView,
    reached: u64,
)
    requires
        is_next(before, levels, reached),
        after == before.insert(version, after[version]),
    ensures
        is_next(after, levels, raised_by(reached, version.timestamp)),
{
    assert(after.contains_key(version));
    if exists|k: KeyView| #[trigger] before.contains_key(k) && reached <= k.timestamp + 1 {
        let k = choose|k: KeyView| #[trigger]
            before.contains_key(k) && reached <= k.timestamp + 1;
        assert(after.contains_key(k));
    }
}

/// The log records of a batch's operations.
fn records_of(operations: &Vec<BatchOperation>, base_ts: u64) -> (records: Vec<WalRecord>)
    requires
        operations@.len() <= u64::MAX,
    ensures
        wal::record_views(records@) == batch_records(
            batch::operation_views(operations@),
            base_ts,
        ),
{
    let ghost ops = batch::operation_views(operations@);
    let mut records: Vec<WalRecord> = Vec::new();
    let mut i: usize = 0;
    while i < operations.len()
        invariant
            i <= operations@.len(),
            operations@.len() <= u64::MAX,
            ops == batch::operation_views(operations@),
            records@.len() == i,
            forall|k: int|
                0 <= k < i ==> (#[trigger] records@[k])@ == record_for(
                    ops[k],
                    u64::wrapping_add(base_ts, k as u64),
                ),
        decreases operations@.len() - i,
    {
        let ts: u64 = base_ts.wrapping_add(i as u64);
        assert(ops[i as int] == operations@[i as int]@);
        let record = match &operations[i] {
            BatchOperation::Put { key, value } => WalRecord {
                record_type: RecordType::Put,
                key: codec::copy_bytes(key.as_slice()),
                value: Some(codec::copy_bytes(value.as_slice())),
                timestamp: ts,
            },
            BatchOperation::Delete { key } => WalRecord {
                record_type: RecordType::Delete,
                key: codec::copy_bytes(key.as_slice()),
                value: None,
                timestamp: ts,
            },
        };
        assert(record@ =~= record_for(ops[i as int], ts));
        records.push(record);
        i += 1;
    }
    assert(wal::record_views(records@) =~= batch_records(ops, base_ts));
    records
}

/// The file of a memory table's entries.
fn write_table(table: &MemTable, compression: CompressionType) -> (image: Vec<u8>)
    ensures
        is_table_file(table@, compression, image@),
{
    let len: usize = table.len();
    let estimated: usize = if len < usize::MAX / 10 {
        len
    } else {
        usize::MAX / 10 - 1
    };
    let list = table.iter();
    let ghost items = Seq::new(
        list@.len(),
        |i: int| Item { key: list@[i].0@, value: memtable::value_view(list@[i].1) },
    );
    let mut builder = SSTableBuilder::new_with_compression(estimated, compression);
    let ghost start = blank(estimate(table@.len()), compression);
    proof {
        assert(builder@ =~= start);
        assert(items.take(0) =~= Seq::empty());
        assert(builder@.entries() =~= Seq::empty());
    }
    let mut i: usize = 0;
    while i < list.len()
        invariant
            i <= list@.len(),
            items == Seq::new(
                list@.len(),
                |i: int| Item { key: list@[i].0@, value: memtable::value_view(list@[i].1) },
            ),
            builder.wf(),
            builds(start, items.take(i as int), builder@),
            builder@.entries() == items.take(i as int).map_values(|item: Item| entry_of(item)),
        decreases list@.len() - i,
    {
        let ghost prev = builder@;
        let value: Option<&[u8]> = match &list[i].1 {
            Some(v) => Some(v.as_slice()),
            None => None,
        };
        builder.add(&list[i].0, value);
        proof {
            let item = items[i as int];
            assert(items.take(i + 1).drop_last() =~= items.take(i as int));
            assert(items.take(i + 1).last() == item);
            assert(entry_of(item) == table_builder::entry_of(list@[i as int].0@, value));
            assert(builds(start, items.take(i + 1).drop_last(), prev));
            assert(prev.added(entry_of(items.take(i + 1).last()), builder@));
            assert(builder@.entries() =~= items.take(i + 1).map_values(
                |item: Item| entry_of(item),
            ));
        }
        i += 1;
    }
    assert(items.take(items.len() as int) =~= items);
    let ghost filled = builder@;
    let image = builder.finish();
    proof {
        let done = choose|done: BuilderView| #[trigger]
            filled.finished(done) && done.wf() && done.entries() == filled.entries() && image@
                == done.image();
        assert(iterator::lists_table(items, table@)) by {
            assert forall|key: KeyView| #[trigger] table@.contains_key(key) implies exists|k: int|
                0 <= k < items.len() && (#[trigger] items[k]).key == key by {
                let k = choose|k: int| 0 <= k < list@.len() && (#[trigger] list@[k]).0@ == key;
                assert(items[k].key == key);
            }
            assert forall|k: int| 0 <= k < items.len() implies table@.contains_key(
                (#[trigger] items[k]).key,
            ) && table@[items[k].key] == items[k].value by {
                assert(table@.contains_key(list@[k].0@));
            }
            assert forall|a: int, b: int| 0 <= a < b < items.len() implies (
            #[trigger] items[a]).key.before((#[trigger] items[b]).key) by {
                assert(list@[a].0@.before(list@[b].0@));
            }
        }
        assert(builds(start, items, filled));
        assert(table_of(table@, compression, items, done));
    }
    image
}

} // verus!
