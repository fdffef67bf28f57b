//! What a write changes in the tree and in its files, and where a read looks.

use crate::common::error::Fault;
use crate::common::key::KeyView;
use crate::common::listing;
use crate::storage::batch::OperationView;
use crate::storage::lsm;
use crate::storage::lsm::{EffectView, LsmView, MemView};
use crate::storage::manifest;
use crate::storage::manifest::{ManifestEdit, ManifestView, MAX_ID};
use crate::storage::memtable;
use crate::storage::sstable::TableView;
use crate::storage::wal::SyncAction;
use vstd::prelude::*;

verus! {

/// How many bytes a write adds to a memory table.
pub open spec fn weight(op: OperationView) -> nat {
    op.key.len() + match op.value {
        Some(v) => v.len(),
        None => 0,
    }
}

/// What the memory table holds behind a write: one more version of the key, at the time of
/// the write, with the value or as deleted, and the versions that it had.
pub proof fn lemma_memory_takes_write(s: LsmView, op: OperationView)
    requires
        s.next_ts < u64::MAX,
        s.mem.size + weight(op) <= usize::MAX,
    ensures
        ({
            let after = s.written(op);
            let version = KeyView { data: op.key, timestamp: s.next_ts };
            &&& after.mem.entries.contains_key(version) && after.mem.entries[version] == op.value
            &&& forall|k: KeyView|
                k != version ==> (#[trigger] after.mem.entries.contains_key(k)
                    <==> s.mem.entries.contains_key(k)) && after.mem.entries[k] == s.mem.entries[k]
            &&& after.mem.size == s.mem.size + weight(op)
            &&& after.next_ts == s.next_ts + 1
            &&& after.levels == s.levels
            &&& after.immutables == s.immutables
            &&& after.manifest == s.manifest
            &&& after.options == s.options
        }),
{
}

/// When a memory table goes to a file: behind a value, exactly where the bytes that were
/// written to it have reached the limit. Until then a write only adds to the log and to the
/// memory table. Then the table leaves memory and is the newest on level 0, the log is synced
/// and another begun, and the file is written before the manifest says so.
pub proof fn lemma_full_table_is_written(
    s: LsmView,
    op: OperationView,
    after: LsmView,
    effects: Seq<EffectView>,
    fault: Option<Fault>,
)
    requires
        s.stored(op, after, effects, fault),
        s.next_ts < u64::MAX,
        s.mem.size + weight(op) <= usize::MAX,
    ensures
        effects.len() > 0,
        effects[0] is AppendLog && effects[0]->sync == SyncAction::Buffer,
        after.next_ts == s.next_ts + 1,
        after.options == s.options,
        op.value is None || s.mem.size + weight(op) < s.options.memtable_size ==> {
            &&& after == s.written(op)
            &&& effects.len() == 1
            &&& fault is None
        },
        op.value is Some && s.mem.size + weight(op) >= s.options.memtable_size && fault is None
            ==> {
            &&& after.mem.entries == Map::<KeyView, Option<Seq<u8>>>::empty()
            &&& after.mem.size == 0
            &&& after.unsynced == 0
            &&& after.immutables == s.immutables
            &&& after.tables(0).len() == s.tables(0).len() + 1
            &&& after.tables(0).drop_last() == s.tables(0)
            &&& after.tables(0).last().id == s.manifest.next_sst_id
            &&& forall|level: u32| level != 0 ==> #[trigger] after.tables(level) == s.tables(level)
            &&& after.manifest.tables(0) == s.manifest.tables(0).push(s.manifest.next_sst_id)
            &&& effects.len() == 7
            &&& effects[1] is SyncLog
            &&& effects[2] == (EffectView::CreateLog { id: s.manifest.next_wal_id })
            &&& effects[3] is AppendManifest
            &&& effects[4] is WriteTable && effects[4]->WriteTable_id == s.manifest.next_sst_id
            &&& effects[5] is AppendManifest
            &&& effects[6] is NotifyCompaction
        },
        op.value is Some && s.mem.size + weight(op) >= s.options.memtable_size
            && s.manifest.next_sst_id > MAX_ID ==> fault is Some,
{
    if op.value is Some && s.mem.size + weight(op) >= s.options.memtable_size && fault is None {
        let w = s.written(op);
        let mid = w.set_aside();
        let more = choose|more: Seq<EffectView>| #[trigger]
            w.settled(after, more, fault) && effects == seq![
                lsm::logging(seq![lsm::record_for(op, s.next_ts)]),
            ] + more;
        let (image, last) = choose|image: Seq<u8>, last: Seq<EffectView>| #[trigger]
            mid.flushed(image, after, last, fault) && lsm::is_table_file(
                w.mem.entries,
                w.options.compression,
                image,
            ) && more == w.set_aside_effects() + last;
        assert(after.immutables =~= s.immutables);
        assert(after.tables(0).drop_last() =~= s.tables(0));
    }
}

/// The tables of a level, the newest first.
pub open spec fn newest_first(levels: Map<u32, Seq<TableView>>, level: u32) -> Seq<TableView> {
    if levels.contains_key(level) {
        levels[level].reverse()
    } else {
        Seq::empty()
    }
}

/// Where a read looks behind memory: in all tables of the seven levels, level by level from
/// the lowest, and on each level in the newest table first.
pub proof fn lemma_all_levels_are_consulted(levels: Map<u32, Seq<TableView>>)
    ensures
        lsm::consulted(levels, 0) == newest_first(levels, 0) + (newest_first(levels, 1) + (
        newest_first(levels, 2) + (newest_first(levels, 3) + (newest_first(levels, 4) + (
        newest_first(levels, 5) + newest_first(levels, 6)))))),
{
    lemma_consulted_from(levels, 0);
    lemma_consulted_from(levels, 1);
    lemma_consulted_from(levels, 2);
    lemma_consulted_from(levels, 3);
    lemma_consulted_from(levels, 4);
    lemma_consulted_from(levels, 5);
    lemma_consulted_from(levels, 6);
    assert(newest_first(levels, 6) + lsm::consulted(levels, 7) =~= newest_first(levels, 6)) by {
        assert(lsm::consulted(levels, 7) == Seq::<TableView>::empty());
    }
}

proof fn lemma_consulted_from(levels: Map<u32, Seq<TableView>>, level: u32)
    requires
        level < 7,
    ensures
        lsm::consulted(levels, level) == newest_first(levels, level) + lsm::consulted(
            levels,
            (level + 1) as u32,
        ),
{
}

/// A memory table that has nothing has no bytes.
pub proof fn lemma_fresh_memory(k: KeyView)
    ensures
        !MemView::fresh().entries.contains_key(k),
        MemView::fresh().size == 0,
{
}

/// What an edit changes in a manifest. A table that is added is the last of its level, and
/// numbers go on beyond it. One that is removed is gone from its level, where the others stay
/// in their order. A log only moves the numbers of logs on. All else stays.
pub proof fn lemma_manifest_edits(m: ManifestView, level: u32, id: u64, other: u32)
    requires
        id <= MAX_ID,
    ensures
        ({
            let after = m.edited(ManifestEdit::AddSst { level, id });
            &&& after.tables(level) == m.tables(level).push(id)
            &&& other != level ==> after.tables(other) == m.tables(other)
            &&& after.next_sst_id > id && after.next_sst_id >= m.next_sst_id
            &&& after.next_sst_id == id + 1 || after.next_sst_id == m.next_sst_id
            &&& after.next_wal_id == m.next_wal_id
        }),
        ({
            let after = m.edited(ManifestEdit::RemoveSst { level, id });
            &&& forall|x: u64| #[trigger]
                after.tables(level).contains(x) <==> m.tables(level).contains(x) && x != id
            &&& !m.tables(level).contains(id) ==> after.tables(level) == m.tables(level)
            &&& after.tables(level) == m.tables(level).filter(|x: u64| x != id)
            &&& other != level ==> after.tables(other) == m.tables(other)
            &&& after.next_sst_id == m.next_sst_id
            &&& after.next_wal_id == m.next_wal_id
        }),
        ({
            let after = m.edited(ManifestEdit::AddWal { id });
            &&& after.levels == m.levels
            &&& after.next_wal_id > id && after.next_wal_id >= m.next_wal_id
            &&& after.next_wal_id == id + 1 || after.next_wal_id == m.next_wal_id
            &&& after.next_sst_id == m.next_sst_id
        }),
{
    let list = m.tables(level);
    let keep = |x: u64| x != id;
    assert(list.len() == 0 ==> list.filter(keep) =~= list) by {
        reveal(Seq::filter);
    }
    let after = m.edited(ManifestEdit::RemoveSst { level, id });
    assert(after.tables(level) == list.filter(keep));
    assert forall|x: u64| #[trigger] after.tables(level).contains(x) <==> list.contains(x) && x
        != id by {
        listing::lemma_kept(list, keep, x);
    }
    if !list.contains(id) {
        listing::lemma_all_kept(list, keep);
    }
}

/// A manifest that has nothing gives out numbers from 1 on.
pub proof fn lemma_fresh_manifest(level: u32)
    ensures
        ManifestView::fresh().tables(level).len() == 0,
        ManifestView::fresh().next_sst_id == 1,
        ManifestView::fresh().next_wal_id == 1,
        manifest::text_of(Seq::empty()).len() == 0,
{
}

/// What the oldest of the tables that were set aside show does not depend on those behind
/// them.
proof fn lemma_older_aside(
    immutables: Seq<Map<KeyView, Option<Seq<u8>>>>,
    last: Map<KeyView, Option<Seq<u8>>>,
    n: int,
    key: Seq<u8>,
    ts: u64,
)
    requires
        n <= immutables.len(),
    ensures
        lsm::visible_aside(immutables.push(last), n, key, ts) == lsm::visible_aside(
            immutables,
            n,
            key,
            ts,
        ),
    decreases n,
{
    if n > 0 {
        lemma_older_aside(immutables, last, n - 1, key, ts);
    }
}

/// Setting the memory table aside changes nothing for any reader at any time, whatever else
/// is set aside: what it shows still goes before what older tables show.
pub proof fn lemma_setting_aside_changes_no_read(
    s: LsmView,
    key: Seq<u8>,
    ts: u64,
    answer: Result<Option<Seq<u8>>, Fault>,
)
    ensures
        s.set_aside().reads(key, ts, answer) <==> s.reads(key, ts, answer),
        s.set_aside().mem.entries == Map::<KeyView, Option<Seq<u8>>>::empty(),
        s.set_aside().levels == s.levels,
        s.set_aside().next_ts == s.next_ts,
{
    let aside = s.set_aside();
    let n = s.immutables.len() as int;
    lemma_older_aside(s.immutables, s.mem.entries, n, key, ts);
    assert(memtable::visible(aside.mem.entries, key, ts) is None);
    assert(aside.immutables[n] == s.mem.entries);
}

/// A version in memory that a reader sees is what it reads, whatever is set aside or in
/// tables; only where memory shows nothing do those count.
pub proof fn lemma_memory_goes_first(
    s: LsmView,
    key: Seq<u8>,
    ts: u64,
    newest: KeyView,
    answer: Result<Option<Seq<u8>>, Fault>,
)
    requires
        memtable::is_newest(s.mem.entries, key, ts, newest),
    ensures
        s.reads(key, ts, answer) <==> answer == Ok::<Option<Seq<u8>>, Fault>(
            s.mem.entries[newest],
        ),
{
    memtable::lemma_newest_is_visible(s.mem.entries, key, ts, newest);
}

} // verus!
