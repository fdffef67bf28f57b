//! Which tables are to be compacted, and what becomes of them.

use crate::common::error::{Error, Fault};
use crate::storage::iterator;
use crate::storage::iterator::{Item, MergeIterator, StorageIterator, Stream};
use crate::storage::lsm;
use crate::storage::manifest;
use crate::storage::manifest::{Manifest, ManifestEdit, ManifestView};
use crate::storage::sstable;
use crate::storage::sstable::{CompressionType, SSTable, TableView};
use crate::storage::table_builder::{BuilderView, SSTableBuilder};
use crate::storage::table_iterator;
use crate::storage::table_iterator::SSTableIterator;
use std::sync::Arc;
use vstd::prelude::*;

verus! {

broadcast use vstd::std_specs::hash::group_hash_axioms;

/// Level 0 is compacted once it has this many tables.
pub const LEVEL0_COMPACTION_TRIGGER: usize = 4;

/// Each level may be this many times as large as the one before it.
pub const LEVEL_SIZE_MULTIPLIER: u64 = 10;

/// The size that a table is taken to have.
pub const BASE_LEVEL_SIZE: u64 = 10485760;

/// Levels are numbered below this.
pub const MAX_LEVELS: u32 = 7;

/// How many keys a compacted table is taken to have for each table that goes into it.
pub const KEYS_PER_TABLE: usize = 1000;

#[derive(Debug, Clone)]
pub struct CompactionTask {
    pub level: u32,
    pub input_ssts: Vec<u64>,
    pub output_level: u32,
}

/// A task as a mathematical value.
#[verifier::ext_equal]
pub struct TaskView {
    pub level: u32,
    pub input_ssts: Seq<u64>,
    pub output_level: u32,
}

impl View for CompactionTask {
    type V = TaskView;

    open spec fn view(&self) -> TaskView {
        TaskView {
            level: self.level,
            input_ssts: self.input_ssts@,
            output_level: self.output_level,
        }
    }
}

/// How long, in milliseconds, one waits for something to compact before looking again.
pub const COMPACTION_WAIT_MS: u64 = 1000;

/// What a wait for something to compact leads to.
#[derive(Debug, Clone, Copy, PartialEq, Eq, Structural)]
pub enum CompactionStep {
    /// Nobody needs compaction any more.
    Stop,
    /// There was no word of new work.
    WaitAgain,
    /// The manifest is to be read and what it calls for compacted.
    Compact,
}

/// What those who write tables tell the one who compacts.
#[derive(Debug, Clone, Copy, PartialEq, Eq, Structural)]
pub struct CompactionSignal {
    pub work_available: bool,
    pub shutdown: bool,
}

impl CompactionSignal {
    pub fn new() -> (signal: Self)
        ensures
            signal == (CompactionSignal { work_available: false, shutdown: false }),
    {
        CompactionSignal { work_available: false, shutdown: false }
    }

    /// There may be something to compact.
    pub fn notify(&mut self)
        ensures
            *final(self) == (CompactionSignal { work_available: true, ..*old(self) }),
    {
        self.work_available = true;
    }

    /// Nothing is to be compacted any more.
    pub fn stop(&mut self)
        ensures
            *final(self) == (CompactionSignal { shutdown: true, ..*old(self) }),
    {
        self.shutdown = true;
    }

    /// A wait has ended, by a call or because its time was up. Whoever was called looks for
    /// work even if somebody else took it up.
    pub fn woken(&mut self, timed_out: bool) -> (step: CompactionStep)
        ensures
            step == if old(self).shutdown {
                CompactionStep::Stop
            } else if timed_out && !old(self).work_available {
                CompactionStep::WaitAgain
            } else {
                CompactionStep::Compact
            },
            final(self).shutdown == old(self).shutdown,
            final(self).work_available == (old(self).work_available && step
                != CompactionStep::Compact),
    {
        if self.shutdown {
            return CompactionStep::Stop;
        }
        if timed_out && !self.work_available {
            return CompactionStep::WaitAgain;
        }
        self.work_available = false;
        CompactionStep::Compact
    }
}

pub open spec fn power(base: nat, exp: nat) -> nat
    decreases exp,
{
    if exp == 0 {
        1
    } else {
        base * power(base, (exp - 1) as nat)
    }
}

/// The level's tables exceed the size that it may have.
pub open spec fn overfull(m: ManifestView, level: u32) -> bool {
    m.levels.contains_key(level) && m.levels[level].len() * BASE_LEVEL_SIZE as nat
        > BASE_LEVEL_SIZE as nat * power(LEVEL_SIZE_MULTIPLIER as nat, level as nat)
}

/// The first table of the first level, from `level` on, that is overfull.
pub open spec fn picked_from(m: ManifestView, level: u32) -> Option<TaskView>
    decreases MAX_LEVELS - level,
{
    if level >= MAX_LEVELS {
        None
    } else if overfull(m, level) {
        Some(
            TaskView {
                level,
                input_ssts: seq![m.levels[level][0]],
                output_level: (level + 1) as u32,
            },
        )
    } else {
        picked_from(m, (level + 1) as u32)
    }
}

/// What is to be compacted: all of level 0 if it has enough tables, or else the first
/// table of the first level that is overfull.
pub open spec fn picked(m: ManifestView) -> Option<TaskView> {
    if m.levels.contains_key(0) && m.levels[0].len() >= LEVEL0_COMPACTION_TRIGGER {
        Some(TaskView { level: 0, input_ssts: m.levels[0], output_level: 1 })
    } else {
        picked_from(m, 1)
    }
}

/// The manifest without the tables that went into a compaction.
pub open spec fn removed_from(m: ManifestView, level: u32, ids: Seq<u64>) -> ManifestView
    decreases ids.len(),
{
    if ids.len() == 0 {
        m
    } else {
        removed_from(m, level, ids.drop_last()).edited(
            ManifestEdit::RemoveSst { level, id: ids.last() },
        )
    }
}

/// The lines that go with it.
pub open spec fn removal_lines(level: u32, ids: Seq<u64>) -> Seq<u8>
    decreases ids.len(),
{
    if ids.len() == 0 {
        Seq::empty()
    } else {
        removal_lines(level, ids.drop_last()) + manifest::line_of(
            ManifestEdit::RemoveSst { level, id: ids.last() },
        )
    }
}

/// The manifest after a compaction into the table `id`.
pub open spec fn compacted(m: ManifestView, task: TaskView) -> ManifestView {
    removed_from(
        ManifestView { next_sst_id: u64::wrapping_add(m.next_sst_id, 1), ..m },
        task.level,
        task.input_ssts,
    ).edited(ManifestEdit::AddSst { level: task.output_level, id: m.next_sst_id })
}

/// The fault of the first table that cannot be opened.
pub open spec fn unopenable(ids: Seq<u64>, images: Seq<Seq<u8>>, k: int) -> Option<Fault>
    decreases ids.len() - k,
{
    if k < 0 || k >= ids.len() {
        None
    } else {
        match sstable::opened(ids[k], images[k]) {
            Err(f) => Some(f),
            Ok(_) => unopenable(ids, images, k + 1),
        }
    }
}

/// The tables in the files.
pub open spec fn tables_in(ids: Seq<u64>, files: Seq<Seq<u8>>) -> Seq<TableView> {
    Seq::new(ids.len(), |i: int| sstable::opened(ids[i], files[i])->Ok_0)
}

/// What the tables hold, the newest table first.
pub open spec fn inputs(tables: Seq<TableView>) -> Seq<Stream> {
    tables.reverse().map_values(|t: TableView| table_iterator::walk_from(t, 0))
}

/// One of the streams begins with this fault.
pub open spec fn begins_with(streams: Seq<Stream>, f: Fault) -> bool {
    exists|i: int|
        0 <= i < streams.len() && table_iterator::settled(#[trigger] streams[i]) == Err::<
            Stream,
            Fault,
        >(f)
}

/// What becomes of the tables in a compaction: of every key that one of them has the newest
/// version, deletions among them, or the fault that one of them has.
pub open spec fn newest_of(
    ids: Seq<u64>,
    files: Seq<Seq<u8>>,
    result: Result<Seq<Item>, Fault>,
) -> bool {
    let streams = inputs(tables_in(ids, files));
    match unopenable(ids, files, 0) {
        Some(f) => result == Err::<Seq<Item>, Fault>(f),
        None => match result {
            Ok(items) => {
                &&& forall|f: Fault| !begins_with(streams, f)
                &&& iterator::merged(streams) == (Stream { items, fault: None })
            },
            Err(f) => {
                ||| begins_with(streams, f)
                ||| (forall|g: Fault| !begins_with(streams, g)) && iterator::merged(streams).fault
                    == Some(f)
            },
        },
    }
}

/// `done` is the table of the items, which is made for so many keys.
pub open spec fn is_compaction(items: Seq<Item>, estimated_keys: nat, done: BuilderView) -> bool {
    &&& done.wf()
    &&& done.entries() == items.map_values(|item: Item| lsm::entry_of(item))
    &&& exists|filled: BuilderView| #[trigger]
        lsm::builds(lsm::blank(estimated_keys, CompressionType::Plain), items, filled)
            && filled.finished(done)
}

/// `image` is the file of such a table.
pub open spec fn is_compacted_file(
    items: Seq<Item>,
    estimated_keys: nat,
    image: Seq<u8>,
) -> bool {
    exists|done: BuilderView| #[trigger]
        is_compaction(items, estimated_keys, done) && image == done.image()
}

/// What a compaction has to write.
pub struct Compaction {
    pub new_sst_id: u64,
    pub image: Vec<u8>,
    pub manifest_lines: Vec<u8>,
}

pub struct Compactor {
    dir: String,
}

impl Compactor {
    pub closed spec fn spec_dir(&self) -> Seq<char> {
        self.dir@
    }

    pub fn new(dir: &str) -> (compactor: Self)
        ensures
            compactor.spec_dir() == dir@,
    {
        Compactor { dir: dir.to_owned() }
    }

    /// The directory of the tables.
    pub fn dir(&self) -> (dir: &str)
        ensures
            dir@ == self.spec_dir(),
    {
        self.dir.as_str()
    }

    pub fn pick_compaction(&self, manifest: &Manifest) -> (task: Option<CompactionTask>)
        ensures
            match task {
                Some(t) => picked(manifest@) == Some(t@),
                None => picked(manifest@) is None,
            },
    {
        if let Some(level0) = manifest.levels.get(&0) {
            assert(manifest@.levels[0] == level0.sst_ids@);
            if level0.sst_ids.len() >= LEVEL0_COMPACTION_TRIGGER {
                return Some(
                    CompactionTask {
                        level: 0,
                        input_ssts: copy_ids(&level0.sst_ids),
                        output_level: 1,
                    },
                );
            }
        }
        let mut level: u32 = 1;
        let mut multiple: u128 = 10;
        assert(power(10, 1) == 10 * power(10, 0));
        while level < MAX_LEVELS
            invariant
                1 <= level <= MAX_LEVELS,
                multiple == power(10, level as nat),
                multiple <= 10_000_000,
                level <= 6 ==> multiple <= 1_000_000,
                level <= 5 ==> multiple <= 100_000,
                level <= 4 ==> multiple <= 10_000,
                level <= 3 ==> multiple <= 1_000,
                level <= 2 ==> multiple <= 100,
                level <= 1 ==> multiple <= 10,
                picked(manifest@) == picked_from(manifest@, level),
            decreases MAX_LEVELS - level,
        {
            if let Some(meta) = manifest.levels.get(&level) {
                assert(manifest@.levels[level] == meta.sst_ids@);
                let level_size: u128 = meta.sst_ids.len() as u128 * BASE_LEVEL_SIZE as u128;
                let max_size: u128 = BASE_LEVEL_SIZE as u128 * multiple;
                if level_size > max_size {
                    let input_ssts: Vec<u64> = vec![meta.sst_ids[0]];
                    assert(input_ssts@ =~= seq![meta.sst_ids@[0]]);
                    return Some(CompactionTask { level, input_ssts, output_level: level + 1 });
                }
            }
            assert(power(10, (level + 1) as nat) == 10 * power(10, level as nat));
            multiple = multiple * 10;
            level += 1;
        }
        None
    }

    /// Compacts the tables of a task, whose files are `images`. The table that is written
    /// takes their place in the manifest and holds the newest version of every key that they
    /// have.
    pub fn compact(
        &self,
        task: &CompactionTask,
        manifest: &mut Manifest,
        images: Vec<Vec<u8>>,
    ) -> (result: Result<Compaction, Error>)
        requires
            images@.len() == task.input_ssts@.len(),
            task.input_ssts@.len() < usize::MAX / 10_000,
        ensures
            old(manifest).labelled() ==> final(manifest).labelled(),
            ({
                let files = Seq::new(images@.len(), |i: int| images@[i]@);
                match result {
                    Ok(c) => {
                        &&& exists|items: Seq<Item>| #[trigger]
                            newest_of(task.input_ssts@, files, Ok(items)) && is_compacted_file(
                                items,
                                task.input_ssts@.len() * KEYS_PER_TABLE as nat,
                                c.image@,
                            )
                        &&& c.new_sst_id == old(manifest)@.next_sst_id
                        &&& final(manifest)@ == compacted(old(manifest)@, task@)
                        &&& c.manifest_lines@ == removal_lines(task.level, task.input_ssts@)
                            + manifest::line_of(
                            ManifestEdit::AddSst { level: task.output_level, id: c.new_sst_id },
                        )
                    },
                    Err(e) => {
                        &&& newest_of(task.input_ssts@, files, Err(e@))
                        &&& final(manifest)@ == old(manifest)@
                    },
                }
            }),
    {
        let ghost files = Seq::new(images@.len(), |i: int| images@[i]@);
        let ghost ids = task.input_ssts@;
        let opened = open_all(&task.input_ssts, images);
        let tables = match opened {
            Ok(tables) => tables,
            Err(e) => {
                return Err(e);
            },
        };
        let ghost streams = inputs(tables_in(ids, files));
        assert(lsm::table_views(tables@) =~= tables_in(ids, files));
        let begun = begin_all(&tables);
        let iters = match begun {
            Ok(iters) => iters,
            Err(e) => {
                return Err(e);
            },
        };
        let ghost all = iterator::merged(streams);
        assert forall|f: Fault| !begins_with(streams, f) by {
            if begins_with(streams, f) {
                let i = choose|i: int|
                    0 <= i < streams.len() && table_iterator::settled(#[trigger] streams[i])
                        == Err::<Stream, Fault>(f);
                assert(iterator::streams_of(iters@)[i] == streams[i]);
                assert(table_iterator::settled(streams[i]) == Ok::<Stream, Fault>(streams[i]));
            }
        }
        let written = write_all(iters, task.input_ssts.len() * KEYS_PER_TABLE);
        let image = match written {
            Ok(image) => image,
            Err(e) => {
                return Err(e);
            },
        };
        assert(newest_of(ids, files, Ok(all.items)));
        let new_sst_id: u64 = manifest.allocate_sst_id();
        let mut lines: Vec<u8> = Vec::new();
        let mut i: usize = 0;
        let ghost start = manifest@;
        assert(ids.take(0) =~= Seq::empty());
        while i < task.input_ssts.len()
            invariant
                i <= task.input_ssts@.len(),
                ids == task.input_ssts@,
                old(manifest).labelled() ==> manifest.labelled(),
                manifest@ == removed_from(start, task.level, ids.take(i as int)),
                lines@ == removal_lines(task.level, ids.take(i as int)),
            decreases task.input_ssts@.len() - i,
        {
            let mut line = manifest.remove_sst(task.level, task.input_ssts[i]);
            lines.append(&mut line);
            assert(ids.take(i + 1).drop_last() =~= ids.take(i as int));
            i += 1;
        }
        assert(ids.take(ids.len() as int) =~= ids);
        let mut line = manifest.add_sst(task.output_level, new_sst_id);
        lines.append(&mut line);
        Ok(Compaction { new_sst_id, image, manifest_lines: lines })
    }
}

/// Opens the tables in the files.
fn open_all(ids: &Vec<u64>, images: Vec<Vec<u8>>) -> (result: Result<Vec<Arc<SSTable>>, Error>)
    requires
        images@.len() == ids@.len(),
    ensures
        ({
            let files = Seq::new(images@.len(), |i: int| images@[i]@);
            match result {
                Ok(tables) => unopenable(ids@, files, 0) is None && lsm::table_views(tables@)
                    == tables_in(ids@, files),
                Err(e) => unopenable(ids@, files, 0) == Some(e@),
            }
        }),
{
    let ghost files = Seq::new(images@.len(), |i: int| images@[i]@);
    let mut tables: Vec<Arc<SSTable>> = Vec::new();
    let count: usize = ids.len();
    let mut opened: usize = 0;
    for image in iter: images
        invariant
            iter.seq() == images@,
            opened == iter.index(),
            count == ids@.len(),
            ids@.len() == images@.len(),
            files == Seq::new(images@.len(), |i: int| images@[i]@),
            unopenable(ids@, files, 0) == unopenable(ids@, files, opened as int),
            tables@.len() == opened,
            forall|i: int|
                0 <= i < opened ==> sstable::opened(ids@[i], files[i]) == Ok::<TableView, Fault>(
                    (#[trigger] tables@[i])@,
                ),
    {
        assert(files[opened as int] == image@);
        match SSTable::open(ids[opened], image) {
            Ok(table) => {
                tables.push(Arc::new(table));
            },
            Err(e) => {
                return Err(e);
            },
        }
        opened += 1;
    }
    assert(lsm::table_views(tables@) =~= tables_in(ids@, files));
    Ok(tables)
}

/// Begins a walk through each of the tables, the newest first.
fn begin_all(tables: &Vec<Arc<SSTable>>) -> (result: Result<Vec<SSTableIterator>, Error>)
    ensures
        ({
            let streams = inputs(lsm::table_views(tables@));
            match result {
                Ok(iters) => {
                    &&& iterator::all_wf(iters@)
                    &&& iterator::streams_of(iters@) == streams
                    &&& forall|i: int|
                        0 <= i < streams.len() ==> table_iterator::settled(#[trigger] streams[i])
                            == Ok::<Stream, Fault>(streams[i])
                },
                Err(e) => begins_with(streams, e@),
            }
        }),
{
    let ghost views = lsm::table_views(tables@);
    let ghost streams = inputs(views);
    let mut iters: Vec<SSTableIterator> = Vec::new();
    let mut n: usize = tables.len();
    while n > 0
        invariant
            n <= tables@.len(),
            views == lsm::table_views(tables@),
            streams == inputs(views),
            iters@.len() == tables@.len() - n,
            iterator::all_wf(iters@),
            forall|i: int|
                0 <= i < iters@.len() ==> (#[trigger] iters@[i]).stream() == streams[i]
                    && table_iterator::settled(streams[i]) == Ok::<Stream, Fault>(streams[i]),
        decreases n,
    {
        n -= 1;
        let ghost k = tables@.len() - 1 - n;
        assert(streams[k] == table_iterator::walk_from(views[n as int], 0));
        assert(views[n as int] == tables@[n as int]@);
        match SSTableIterator::new(Arc::clone(&tables[n])) {
            Ok(iter) => {
                iters.push(iter);
            },
            Err(e) => {
                assert(table_iterator::settled(streams[k]) == Err::<Stream, Fault>(e@));
                return Err(e);
            },
        }
    }
    assert(iterator::streams_of(iters@) =~= streams);
    assert forall|i: int| 0 <= i < streams.len() implies table_iterator::settled(
        #[trigger] streams[i],
    ) == Ok::<Stream, Fault>(streams[i]) by {
        assert(iters@[i].stream() == streams[i]);
    }
    Ok(iters)
}

/// Merges the walks into the file of one table.
fn write_all(iters: Vec<SSTableIterator>, estimated_keys: usize) -> (result: Result<
    Vec<u8>,
    Error,
>)
    requires
        iterator::all_wf(iters@),
        estimated_keys < usize::MAX / 10,
    ensures
        ({
            let all = iterator::merged(iterator::streams_of(iters@));
            match result {
                Ok(image) => all.fault is None && is_compacted_file(
                    all.items,
                    estimated_keys as nat,
                    image@,
                ),
                Err(e) => all.fault == Some(e@),
            }
        }),
{
    let ghost all = iterator::merged(iterator::streams_of(iters@));
    let mut merge = MergeIterator::new(iters);
    let mut builder = SSTableBuilder::new(estimated_keys);
    let ghost start = lsm::blank(estimated_keys as nat, CompressionType::Plain);
    let ghost mut n: int = 0;
    proof {
        assert(builder@ =~= start);
        assert(all.items.take(0) =~= Seq::empty());
        assert(all.items.skip(0) =~= all.items);
        assert(builder@.entries() =~= Seq::empty());
        iterator::lemma_merged_end(iterator::streams_of(iters@));
    }
    while merge.is_valid()
        invariant
            all == iterator::merged(iterator::streams_of(iters@)),
            merge.wf(),
            builder.wf(),
            0 <= n <= all.items.len(),
            merge.stream() == (Stream { items: all.items.skip(n), fault: all.fault }),
            n == all.items.len() ==> all.fault is None,
            lsm::builds(start, all.items.take(n), builder@),
            builder@.entries() == all.items.take(n).map_values(|item: Item| lsm::entry_of(item)),
        decreases all.items.len() - n,
    {
        let ghost item = all.items[n];
        let ghost prev = builder@;
        let ghost now = all.items.take(n + 1);
        let value: Option<&[u8]> = match merge.value() {
            Some(v) => Some(v.as_slice()),
            None => None,
        };
        builder.add(merge.key(), value);
        proof {
            assert(merge.stream().head() == item);
            assert(now.drop_last() =~= all.items.take(n));
            assert(now.last() == item);
            assert(prev.added(lsm::entry_of(now.last()), builder@));
            assert(builder@.entries() =~= now.map_values(|item: Item| lsm::entry_of(item)));
            assert(all.items.skip(n).skip(1) =~= all.items.skip(n + 1));
        }
        match merge.next() {
            Ok(()) => {},
            Err(e) => {
                return Err(e);
            },
        }
        proof {
            n = n + 1;
        }
    }
    assert(all.items.take(n) =~= all.items);
    let ghost filled = builder@;
    let image = builder.finish();
    proof {
        let done = choose|done: BuilderView| #[trigger]
            filled.finished(done) && done.wf() && done.entries() == filled.entries() && image@
                == done.image();
        assert(lsm::builds(start, all.items, filled));
        assert(is_compaction(all.items, estimated_keys as nat, done));
    }
    Ok(image)
}

fn copy_ids(ids: &Vec<u64>) -> (copy: Vec<u64>)
    ensures
        copy@ == ids@,
{
    let mut copy: Vec<u64> = Vec::new();
    let mut i: usize = 0;
    while i < ids.len()
        invariant
            i <= ids@.len(),
            copy@ == ids@.take(i as int),
        decreases ids@.len() - i,
    {
        copy.push(ids[i]);
        assert(copy@ =~= ids@.take(i + 1));
        i += 1;
    }
    assert(ids@.take(ids@.len() as int) =~= ids@);
    copy
}

} // verus!
