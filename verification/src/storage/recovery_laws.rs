//! What of a run is found again when the tree is opened anew.

use crate::common::error::Fault;
use crate::common::key::KeyView;
use crate::storage::batch::OperationView;
use crate::storage::iterator::Item;
use crate::storage::lsm;
use crate::storage::lsm::{EffectView, LsmOptions, LsmView, MemView};
use crate::storage::lsm_laws;
use crate::storage::manifest;
use crate::storage::manifest::{ManifestEdit, ManifestView, MAX_ID};
use crate::storage::memtable;
use crate::storage::size_laws;
use crate::storage::sstable;
use crate::storage::sstable::TableView;
use crate::storage::table_builder;
use crate::storage::table_builder::BuilderView;
use crate::storage::table_laws;
use crate::storage::wal;
use crate::storage::wal::RecordView;
use vstd::prelude::*;

verus! {

/// The files of a tree.
#[verifier::ext_equal]
pub struct DiskView {
    pub manifest: Seq<u8>,
    pub tables: Map<u64, Seq<u8>>,
    pub logs: Map<u64, Seq<u8>>,
    /// The log that is being written.
    pub log: u64,
}

impl DiskView {
    /// The files once an effect was carried out. A log that is written to is taken to have
    /// reached the disk, as it has behind a sync.
    pub open spec fn performed(self, effect: EffectView) -> DiskView {
        match effect {
            EffectView::CreateLog { id } => DiskView {
                logs: self.logs.insert(id, Seq::empty()),
                log: id,
                ..self
            },
            EffectView::AppendLog { bytes, .. } => DiskView {
                logs: self.logs.insert(self.log, self.logs[self.log] + bytes),
                ..self
            },
            EffectView::SyncLog => self,
            EffectView::AppendManifest { lines } => DiskView {
                manifest: self.manifest + lines,
                ..self
            },
            EffectView::WriteTable { id, image } => DiskView {
                tables: self.tables.insert(id, image),
                ..self
            },
            EffectView::NotifyCompaction => self,
        }
    }

    /// The files once several effects were carried out, in their order.
    pub open spec fn performed_all(self, effects: Seq<EffectView>) -> DiskView
        decreases effects.len(),
    {
        if effects.len() == 0 {
            self
        } else {
            self.performed_all(effects.drop_last()).performed(effects.last())
        }
    }
}

proof fn lemma_performed_in_turn(d: DiskView, a: Seq<EffectView>, b: Seq<EffectView>)
    ensures
        d.performed_all(a + b) == d.performed_all(a).performed_all(b),
    decreases b.len(),
{
    if b.len() == 0 {
        assert(a + b =~= a);
    } else {
        assert((a + b).drop_last() =~= a + b.drop_last());
        lemma_performed_in_turn(d, a, b.drop_last());
    }
}

/// One more edit comes behind those before it, in the text as in what it makes of a manifest.
pub proof fn lemma_edits_grow(m: ManifestView, edits: Seq<ManifestEdit>, e: ManifestEdit)
    ensures
        manifest::text_of(edits.push(e)) == manifest::text_of(edits) + manifest::line_of(e),
        m.edited_by(edits.push(e)) == m.edited_by(edits).edited(e),
    decreases edits.len(),
{
    let more = edits.push(e);
    if edits.len() == 0 {
        let none = Seq::<ManifestEdit>::empty();
        assert(more.skip(1) =~= none);
        assert(manifest::text_of(none) =~= Seq::<u8>::empty());
        assert(m.edited(e).edited_by(none) == m.edited(e));
        assert(edits =~= none);
        assert(manifest::text_of(more) =~= manifest::text_of(edits) + manifest::line_of(e));
    } else {
        assert(more.skip(1) =~= edits.skip(1).push(e));
        lemma_edits_grow(m.edited(edits[0]), edits.skip(1), e);
        assert(manifest::text_of(more) =~= manifest::text_of(edits) + manifest::line_of(e));
    }
}

/// The manifest file holds these edits, which make the manifest what it is.
pub open spec fn notes(d: DiskView, edits: Seq<ManifestEdit>, m: ManifestView) -> bool {
    &&& d.manifest == manifest::text_of(edits)
    &&& forall|i: int| 0 <= i < edits.len() ==> manifest::numbered(#[trigger] edits[i])
    &&& ManifestView::fresh().edited_by(edits) == m
    &&& m.numbered()
    &&& 1 <= m.next_wal_id
}

/// The memory table with all that the logs say.
pub open spec fn remembered(
    d: DiskView,
    written: Map<u64, Seq<RecordView>>,
    m: ManifestView,
) -> MemView {
    MemView::fresh().with_records(lsm_laws::history(d.logs, written, 1, m.next_wal_id))
}

impl LsmView {
    /// The tree with another memory table.
    pub open spec fn with_mem(self, mem: MemView) -> LsmView {
        LsmView { mem, ..self }
    }
}

pub open spec fn submap(
    part: Map<KeyView, Option<Seq<u8>>>,
    whole: Map<KeyView, Option<Seq<u8>>>,
) -> bool {
    forall|k: KeyView| #[trigger]
        part.contains_key(k) ==> whole.contains_key(k) && whole[k] == part[k]
}

/// The tables that stand on the levels are those in the files that the manifest names.
pub open spec fn tables_on_disk(s: LsmView, tables: Map<u64, Seq<u8>>) -> bool {
    &&& s.levels.dom() == s.manifest.levels.dom()
    &&& forall|level: u32| #[trigger]
        s.levels.contains_key(level) ==> lsm::opens(
            s.manifest.levels[level],
            tables,
            s.levels[level],
        )
}

/// A tree with the memory table `all` in place of its own reads the same at all times.
pub open spec fn reads_alike(s: LsmView, all: MemView) -> bool {
    forall|key: Seq<u8>, ts: u64, answer: Result<Option<Seq<u8>>, Fault>| #[trigger]
        s.reads(key, ts, answer) <==> s.with_mem(all).reads(key, ts, answer)
}

/// Nothing that the tree holds would be lost if it were opened anew on its files.
pub open spec fn durable(
    s: LsmView,
    d: DiskView,
    edits: Seq<ManifestEdit>,
    written: Map<u64, Seq<RecordView>>,
) -> bool {
    let all = remembered(d, written, s.manifest);
    &&& notes(d, edits, s.manifest)
    &&& tables_on_disk(s, d.tables)
    &&& 1 <= d.log
    &&& d.log + 1 == s.manifest.next_wal_id
    &&& lsm_laws::logs_hold(d.logs, written, 1, s.manifest.next_wal_id)
    &&& d.logs.contains_key(d.log)
    &&& d.logs[d.log] == lsm::log_bytes(written[d.log])
    &&& s.immutables.len() == 0
    &&& lsm::is_next(all.entries, s.levels, s.next_ts)
    &&& submap(s.mem.entries, all.entries)
    &&& reads_alike(s, all)
}

/// A log at the end of the others adds its records at the end of the history.
proof fn lemma_history_extends(
    logs: Map<u64, Seq<u8>>,
    written: Map<u64, Seq<RecordView>>,
    from: u64,
    id: u64,
    log: Seq<u8>,
    records: Seq<RecordView>,
)
    requires
        from <= id < u64::MAX,
    ensures
        lsm_laws::history(logs.insert(id, log), written.insert(id, records), from, (id + 1) as u64)
            == lsm_laws::history(logs, written, from, id) + records,
    decreases id - from,
{
    let more = logs.insert(id, log);
    let now = written.insert(id, records);
    let end = (id + 1) as u64;
    let none = Seq::<RecordView>::empty();
    if from == id {
        assert(lsm_laws::history(more, now, end, end) =~= none);
        assert(lsm_laws::history(more, now, from, end) =~= records);
        assert(lsm_laws::history(logs, written, from, id) + records =~= records);
    } else {
        let next = (from + 1) as u64;
        lemma_history_extends(logs, written, next, id, log, records);
        if logs.contains_key(from) {
            assert(written[from] + (lsm_laws::history(logs, written, next, id) + records)
                =~= (written[from] + lsm_laws::history(logs, written, next, id)) + records);
        }
    }
}

proof fn lemma_empty_log()
    ensures
        lsm::log_bytes(Seq::empty()) == Seq::<u8>::empty(),
        lsm_laws::holds_records(Seq::empty(), Seq::empty()),
{
    let body = |r: RecordView| r.plain_body();
    assert(Seq::<RecordView>::empty().map_values(body) =~= Seq::<Seq<u8>>::empty());
    assert(wal::log_of(Seq::<Seq<u8>>::empty()) =~= Seq::<u8>::empty());
    assert(Seq::<u8>::empty().take(0) =~= Seq::<u8>::empty());
}

/// A tree that was opened loses nothing of what the logs say.
pub proof fn lemma_open_endures(
    d: DiskView,
    m: ManifestView,
    edits: Seq<ManifestEdit>,
    written: Map<u64, Seq<RecordView>>,
    options: LsmOptions,
    s: LsmView,
    effects: Seq<EffectView>,
) -> (kept: (Seq<ManifestEdit>, Map<u64, Seq<RecordView>>))
    requires
        notes(d, edits, m),
        m.next_wal_id <= MAX_ID,
        lsm_laws::logs_hold(d.logs, written, 1, m.next_wal_id),
        lsm::opens_to(m, d.tables, d.logs, options, Ok((s, effects))),
    ensures
        durable(s, d.performed_all(effects), kept.0, kept.1),
{
    let id = m.next_wal_id;
    let edit = ManifestEdit::AddWal { id };
    let more = edits.push(edit);
    let now = written.insert(id, Seq::empty());
    let after = d.performed_all(effects);
    assert(effects.drop_last() =~= seq![EffectView::CreateLog { id }]);
    assert(effects.drop_last().drop_last() =~= Seq::empty());
    assert(d.performed_all(effects.drop_last().drop_last()) == d);
    assert(d.performed_all(effects.drop_last()) == d.performed(EffectView::CreateLog { id }));
    assert(after == (DiskView {
        logs: d.logs.insert(id, Seq::empty()),
        log: id,
        manifest: d.manifest + manifest::line_of(edit),
        ..d
    }));
    lemma_edits_grow(ManifestView::fresh(), edits, edit);
    assert(s.manifest =~= m.edited(edit));
    manifest::lemma_edited_numbered(m, edit);
    assert(notes(after, more, s.manifest)) by {
        assert forall|i: int| 0 <= i < more.len() implies manifest::numbered(
            #[trigger] more[i],
        ) by {
            if i < edits.len() {
                assert(manifest::numbered(edits[i]));
            }
        }
    }
    lemma_empty_log();
    lsm_laws::lemma_history_is_replayed(MemView::fresh(), d.logs, written, 1, id);
    lemma_history_extends(d.logs, written, 1, id, Seq::empty(), Seq::empty());
    let h = lsm_laws::history(d.logs, written, 1, id);
    assert(h + Seq::<RecordView>::empty() =~= h);
    assert(s.mem == remembered(after, now, s.manifest));
    assert(s.with_mem(s.mem) == s);
    assert(lsm_laws::logs_hold(after.logs, now, 1, s.manifest.next_wal_id)) by {
        assert forall|other: u64|
            1 <= other < s.manifest.next_wal_id && #[trigger] after.logs.contains_key(
                other,
            ) implies lsm_laws::holds_records(after.logs[other], now[other]) by {
            if other != id {
                assert(d.logs.contains_key(other));
            }
        }
    }
    (more, now)
}

/// There is a newest version where there is one at all.
pub proof fn lemma_newest_exists(
    entries: Map<KeyView, Option<Seq<u8>>>,
    ts: u64,
    k: KeyView,
) -> (newest: KeyView)
    requires
        entries.contains_key(k),
        k.timestamp <= ts,
    ensures
        memtable::is_newest(entries, k.data, ts, newest),
    decreases ts - k.timestamp,
{
    if exists|other: KeyView| #[trigger]
        entries.contains_key(other) && other.data == k.data && other.timestamp <= ts
            && other.timestamp > k.timestamp {
        let other = choose|other: KeyView| #[trigger]
            entries.contains_key(other) && other.data == k.data && other.timestamp <= ts
                && other.timestamp > k.timestamp;
        lemma_newest_exists(entries, ts, other)
    } else {
        k
    }
}

proof fn lemma_submap_visible(
    part: Map<KeyView, Option<Seq<u8>>>,
    whole: Map<KeyView, Option<Seq<u8>>>,
    key: Seq<u8>,
    ts: u64,
)
    requires
        submap(part, whole),
        memtable::visible(whole, key, ts) is None,
    ensures
        memtable::visible(part, key, ts) is None,
{
    if exists|k: KeyView| #[trigger] memtable::is_newest(part, key, ts, k) {
        let k = choose|k: KeyView| #[trigger] memtable::is_newest(part, key, ts, k);
        let newest = lemma_newest_exists(whole, ts, k);
        memtable::lemma_newest_is_visible(whole, key, ts, newest);
    }
}

/// A write that is logged and in memory is not lost.
proof fn lemma_logged_endures(
    s: LsmView,
    d: DiskView,
    edits: Seq<ManifestEdit>,
    written: Map<u64, Seq<RecordView>>,
    op: OperationView,
) -> (now: Map<u64, Seq<RecordView>>)
    requires
        durable(s, d, edits, written),
        s.next_ts < u64::MAX,
        s.manifest.next_wal_id < u64::MAX,
        wal::recordable(lsm::record_for(op, s.next_ts)),
    ensures
        durable(
            s.written(op),
            d.performed(lsm::logging(seq![lsm::record_for(op, s.next_ts)])),
            edits,
            now,
        ),
{
    let rec = lsm::record_for(op, s.next_ts);
    let w = s.written(op);
    let d1 = d.performed(lsm::logging(seq![rec]));
    let records = written[d.log].push(rec);
    let now = written.insert(d.log, records);
    let next = s.manifest.next_wal_id;
    let all = remembered(d, written, s.manifest);
    let more = remembered(d1, now, w.manifest);
    lsm_laws::lemma_log_grows(d.logs[d.log], written[d.log], op, s.next_ts);
    assert(d1.logs[d.log] == lsm::log_bytes(records)) by {
        let log = d1.logs[d.log];
        assert(lsm_laws::holds_records(log, records));
        lemma_log_bytes_push(written[d.log], rec);
    }
    lemma_history_extends(d.logs, written, 1, d.log, d1.logs[d.log], records);
    lemma_history_value(d.logs, written, 1, next, d.log);
    let h = lsm_laws::history(d.logs, written, 1, next);
    let h1 = lsm_laws::history(d1.logs, now, 1, next);
    let front = lsm_laws::history(d.logs, written, 1, d.log);
    assert(front + records =~= (front + written[d.log]).push(rec));
    assert(h1 == h.push(rec));
    assert(h1.drop_last() =~= h);
    assert(more == all.with_record(rec));
    assert(lsm_laws::logs_hold(d1.logs, now, 1, next)) by {
        assert forall|other: u64| 1 <= other < next && #[trigger] d1.logs.contains_key(
            other,
        ) implies lsm_laws::holds_records(d1.logs[other], now[other]) by {
            if other != d.log {
                assert(d.logs.contains_key(other));
            }
        }
    }
    let version = KeyView { data: op.key, timestamp: s.next_ts };
    assert(more.entries == all.entries.insert(version, op.value));
    lsm::lemma_next_grows(all.entries, more.entries, s.levels, version, s.next_ts);
    assert(w.mem.entries == s.mem.entries.insert(version, op.value));
    let full = s.with_mem(all);
    assert(lsm_laws::stamped(full));
    assert(lsm_laws::stamped(s)) by {
        assert forall|k: KeyView| #[trigger] s.mem.entries.contains_key(k) implies k.timestamp
            < s.next_ts by {
            assert(all.entries.contains_key(k));
        }
    }
    assert forall|key: Seq<u8>, ts: u64, answer: Result<Option<Seq<u8>>, Fault>| #[trigger]
        w.reads(key, ts, answer) <==> w.with_mem(more).reads(key, ts, answer) by {
        lsm_laws::lemma_written_reads(s, op, key, ts, answer);
        lsm_laws::lemma_written_reads(full, op, key, ts, answer);
        assert(s.reads(key, ts, answer) <==> full.reads(key, ts, answer));
        assert(full.written(op).mem == more);
    }
    now
}

/// The history up to the last log ends with the records of that log.
proof fn lemma_history_value(
    logs: Map<u64, Seq<u8>>,
    written: Map<u64, Seq<RecordView>>,
    from: u64,
    to: u64,
    id: u64,
)
    requires
        from <= id,
        id + 1 == to,
        logs.contains_key(id),
    ensures
        lsm_laws::history(logs, written, from, to) == lsm_laws::history(logs, written, from, id)
            + written[id],
    decreases to - from,
{
    let none = Seq::<RecordView>::empty();
    if from == id {
        assert(lsm_laws::history(logs, written, to, to) =~= none);
        assert(written[id] + none =~= none + written[id]);
    } else {
        let next = (from + 1) as u64;
        lemma_history_value(logs, written, next, to, id);
        if logs.contains_key(from) {
            assert(written[from] + (lsm_laws::history(logs, written, next, id) + written[id])
                =~= (written[from] + lsm_laws::history(logs, written, next, id)) + written[id]);
        }
    }
}

proof fn lemma_log_bytes_push(records: Seq<RecordView>, rec: RecordView)
    ensures
        lsm::log_bytes(records.push(rec)) == lsm::log_bytes(records) + lsm::log_bytes(seq![rec]),
{
    let body = |r: RecordView| r.plain_body();
    assert(records.push(rec).map_values(body).drop_last() =~= records.map_values(body));
    assert(records.push(rec).map_values(body).last() == rec.plain_body());
    assert(seq![rec].map_values(body) =~= seq![rec.plain_body()]);
    assert(seq![rec.plain_body()].drop_last() =~= Seq::empty());
    assert(wal::log_of(Seq::<Seq<u8>>::empty()) =~= Seq::<u8>::empty());
    assert(wal::log_of(seq![rec.plain_body()]) =~= wal::frame(rec.plain_body()));
}

/// The files that are there stay so when another one comes.
proof fn lemma_present(ids: Seq<u64>, files: Map<u64, Seq<u8>>, id: u64, image: Seq<u8>)
    requires
        forall|i: int| 0 <= i < ids.len() ==> (#[trigger] ids[i]) != id,
    ensures
        lsm::present(ids, files.insert(id, image)) == lsm::present(ids, files),
        forall|i: int|
            0 <= i < lsm::present(ids, files).len() ==> (#[trigger] lsm::present(ids, files)[i])
                != id,
    decreases ids.len(),
{
    reveal(Seq::filter);
    if ids.len() > 0 {
        let shorter = ids.drop_last();
        assert forall|i: int| 0 <= i < shorter.len() implies (#[trigger] shorter[i]) != id by {
            assert(ids[i] != id);
        }
        lemma_present(shorter, files, id, image);
        assert(ids.last() == ids[ids.len() - 1]);
    }
}

/// A table that is written to a file and noted is found again.
proof fn lemma_table_endures(w: LsmView, tables: Map<u64, Seq<u8>>, image: Seq<u8>, t: TableView)
    requires
        tables_on_disk(w, tables),
        w.manifest.numbered(),
        sstable::opened(w.manifest.next_sst_id, image) == Ok::<TableView, Fault>(t),
    ensures
        ({
            let id = w.manifest.next_sst_id;
            let after = LsmView {
                levels: w.levels.insert(0, w.tables(0).push(t)),
                manifest: w.manifest.edited(ManifestEdit::AddSst { level: 0, id }),
                ..w
            };
            tables_on_disk(after, tables.insert(id, image))
        }),
{
    let id = w.manifest.next_sst_id;
    let after = LsmView {
        levels: w.levels.insert(0, w.tables(0).push(t)),
        manifest: w.manifest.edited(ManifestEdit::AddSst { level: 0, id }),
        ..w
    };
    let files = tables.insert(id, image);
    assert(after.levels.dom() =~= after.manifest.levels.dom());
    assert forall|level: u32| #[trigger] after.levels.contains_key(level) implies lsm::opens(
        after.manifest.levels[level],
        files,
        after.levels[level],
    ) by {
        let ids = w.manifest.tables(level);
        if w.levels.contains_key(level) {
            assert(w.manifest.levels.dom().contains(level));
            assert forall|i: int| 0 <= i < ids.len() implies (#[trigger] ids[i]) != id by {
                assert(w.manifest.levels[level][i] < id);
            }
        } else {
            assert(!w.manifest.levels.dom().contains(level));
        }
        lemma_present(ids, tables, id, image);
        let old = lsm::present(ids, tables);
        if level == 0 {
            assert(lsm::present(ids.push(id), files) =~= old.push(id)) by {
                reveal(Seq::filter);
                assert(ids.push(id).drop_last() =~= ids);
            }
            if !w.levels.contains_key(0) {
                assert(old =~= Seq::empty()) by {
                    reveal(Seq::filter);
                }
            }
        }
    }
}

/// A write does not lose anything, and is not lost itself, whether or not the memory table
/// is written to a file on the way.
pub proof fn lemma_write_endures(
    s: LsmView,
    d: DiskView,
    edits: Seq<ManifestEdit>,
    written: Map<u64, Seq<RecordView>>,
    op: OperationView,
    after: LsmView,
    effects: Seq<EffectView>,
) -> (kept: (Seq<ManifestEdit>, Map<u64, Seq<RecordView>>))
    requires
        durable(s, d, edits, written),
        s.stored(op, after, effects, None),
        size_laws::moderate(s, seq![op]),
        s.next_ts < u64::MAX,
        s.manifest.next_wal_id <= MAX_ID,
    ensures
        durable(after, d.performed_all(effects), kept.0, kept.1),
        after.next_ts == s.next_ts + 1,
        after.manifest.next_wal_id <= s.manifest.next_wal_id + 1,
{
    let log = lsm::logging(seq![lsm::record_for(op, s.next_ts)]);
    let more = lsm_laws::lemma_stored_shape(s, op, after, effects);
    let w = s.written(op);
    let d1 = d.performed(log);
    assert(seq![op][0] == op);
    size_laws::lemma_short_is_recordable(s.options.compression, op, s.next_ts);
    assert(seq![op] + Seq::<OperationView>::empty() =~= seq![op]);
    size_laws::lemma_written_moderate(s, op, Seq::empty());
    let now = lemma_logged_endures(s, d, edits, written, op);
    assert(seq![log].drop_last() =~= Seq::empty());
    assert(d.performed_all(seq![log].drop_last()) == d);
    assert(d.performed_all(seq![log]) == d1);
    lemma_performed_in_turn(d, seq![log], more);
    if op.value is Some && lsm_laws::is_full(w) {
        lemma_flush_endures(w, d1, edits, now, after, more)
    } else {
        assert(more =~= Seq::empty());
        (edits, now)
    }
}

proof fn lemma_flush_endures(
    w: LsmView,
    d: DiskView,
    edits: Seq<ManifestEdit>,
    written: Map<u64, Seq<RecordView>>,
    after: LsmView,
    more: Seq<EffectView>,
) -> (kept: (Seq<ManifestEdit>, Map<u64, Seq<RecordView>>))
    requires
        durable(w, d, edits, written),
        w.settled(after, more, None),
        lsm_laws::is_full(w),
        size_laws::moderate(w, Seq::empty()),
        w.manifest.next_wal_id <= MAX_ID,
    ensures
        durable(after, d.performed_all(more), kept.0, kept.1),
        after.next_ts == w.next_ts,
        after.manifest.next_wal_id == w.manifest.next_wal_id + 1,
{
    let (items, done) = lsm_laws::lemma_overflow(w, after, more);
    let image = done.image();
    let wal_id = w.manifest.next_wal_id;
    let sst_id = w.manifest.next_sst_id;
    let table = table_laws::table_of(sst_id, done);
    let log_edit = ManifestEdit::AddWal { id: wal_id };
    let table_edit = ManifestEdit::AddSst { level: 0, id: sst_id };
    let edits1 = edits.push(log_edit);
    let edits2 = edits1.push(table_edit);
    let now = written.insert(wal_id, Seq::empty());
    let d2 = d.performed_all(more);
    assert(d2 == (DiskView {
        logs: d.logs.insert(wal_id, Seq::empty()),
        log: wal_id,
        manifest: d.manifest + manifest::line_of(log_edit) + manifest::line_of(table_edit),
        tables: d.tables.insert(sst_id, image),
    })) by {
        let aside = w.set_aside_effects();
        let noting = w.noting_effects(image);
        lemma_performed_in_turn(d, aside, noting.push(EffectView::NotifyCompaction));
        let a = d.performed_all(aside);
        assert(aside.drop_last().drop_last().drop_last() =~= Seq::empty());
        assert(aside.drop_last().drop_last().last() == EffectView::SyncLog);
        assert(aside.drop_last().last() == EffectView::CreateLog { id: wal_id });
        assert(d.performed_all(aside.drop_last().drop_last().drop_last()) == d);
        assert(d.performed_all(aside.drop_last().drop_last()) == d);
        assert(d.performed_all(aside.drop_last()) == d.performed(
            EffectView::CreateLog { id: wal_id },
        ));
        let b = noting.push(EffectView::NotifyCompaction);
        assert(b.drop_last() =~= noting);
        assert(noting.drop_last().drop_last() =~= Seq::empty());
        assert(a.performed_all(noting.drop_last().drop_last()) == a);
        assert(a.performed_all(noting.drop_last()) == a.performed(noting[0]));
        assert(noting.last() == noting[1]);
        assert(a.performed_all(noting) == a.performed(noting[0]).performed(noting[1]));
        assert(a.performed_all(b) == a.performed_all(noting));
    }
    lemma_edits_grow(ManifestView::fresh(), edits, log_edit);
    lemma_edits_grow(ManifestView::fresh(), edits1, table_edit);
    let m1 = w.manifest.edited(log_edit);
    assert(w.set_aside().manifest =~= m1);
    assert(sst_id <= MAX_ID);
    assert(after.manifest =~= m1.edited(table_edit));
    manifest::lemma_edited_numbered(w.manifest, log_edit);
    manifest::lemma_edited_numbered(m1, table_edit);
    assert(notes(d2, edits2, after.manifest)) by {
        assert forall|i: int| 0 <= i < edits2.len() implies manifest::numbered(
            #[trigger] edits2[i],
        ) by {
            if i < edits.len() {
                assert(manifest::numbered(edits[i]));
            }
        }
    }
    lemma_table_endures(
        LsmView { manifest: m1, ..w },
        d.tables,
        image,
        table,
    );
    assert(tables_on_disk(after, d2.tables));
    lemma_empty_log();
    lemma_history_extends(d.logs, written, 1, wal_id, Seq::empty(), Seq::empty());
    let h = lsm_laws::history(d.logs, written, 1, wal_id);
    assert(h + Seq::<RecordView>::empty() =~= h);
    let all = remembered(d, written, w.manifest);
    assert(remembered(d2, now, after.manifest) == all);
    lemma_next_kept(w, all.entries, items, done, after.levels);
    assert(lsm_laws::logs_hold(d2.logs, now, 1, after.manifest.next_wal_id)) by {
        assert forall|other: u64|
            1 <= other < after.manifest.next_wal_id && #[trigger] d2.logs.contains_key(
                other,
            ) implies lsm_laws::holds_records(d2.logs[other], now[other]) by {
            if other != wal_id {
                assert(d.logs.contains_key(other));
            }
        }
    }
    assert forall|key: Seq<u8>, ts: u64, answer: Result<Option<Seq<u8>>, Fault>| #[trigger]
        after.reads(key, ts, answer) <==> after.with_mem(all).reads(key, ts, answer) by {
        lsm_laws::lemma_flush_changes_no_read(w, after, more, key, ts, answer);
        assert(w.reads(key, ts, answer) <==> w.with_mem(all).reads(key, ts, answer));
        if memtable::visible(all.entries, key, ts) is None {
            lemma_submap_visible(w.mem.entries, all.entries, key, ts);
            assert(memtable::visible(after.mem.entries, key, ts) is None);
        }
    }
    (edits2, now)
}

/// Several writes do not lose anything, and none of them is lost.
pub proof fn lemma_writes_endure(
    s: LsmView,
    d: DiskView,
    edits: Seq<ManifestEdit>,
    written: Map<u64, Seq<RecordView>>,
    ops: Seq<OperationView>,
    after: LsmView,
    effects: Seq<EffectView>,
) -> (kept: (Seq<ManifestEdit>, Map<u64, Seq<RecordView>>))
    requires
        durable(s, d, edits, written),
        s.stored_all(ops, after, effects, None),
        size_laws::moderate(s, ops),
        s.next_ts + ops.len() <= u64::MAX,
        s.manifest.next_wal_id + ops.len() <= MAX_ID,
    ensures
        durable(after, d.performed_all(effects), kept.0, kept.1),
        after.next_ts == s.next_ts + ops.len(),
        after.manifest.next_wal_id <= s.manifest.next_wal_id + ops.len(),
    decreases ops.len(),
{
    if ops.len() == 0 {
        (edits, written)
    } else {
        let shorter = ops.drop_last();
        let (middle, first, last) = choose|
            middle: LsmView,
            first: Seq<EffectView>,
            last: Seq<EffectView>,
        |
            #![trigger middle.stored(ops.last(), after, last, None), first.add(last)]
            s.stored_all(shorter, middle, first, None) && middle.stored(
                ops.last(),
                after,
                last,
                None,
            ) && effects == first.add(last);
        let one = seq![ops.last()];
        assert(ops =~= shorter + one);
        size_laws::lemma_fewer_moderate(s, shorter, one);
        size_laws::lemma_stored_all_moderate(s, shorter, middle, first, None, one);
        let (edits1, written1) = lemma_writes_endure(s, d, edits, written, shorter, middle, first);
        lemma_performed_in_turn(d, first, last);
        lemma_write_endures(
            middle,
            d.performed_all(first),
            edits1,
            written1,
            ops.last(),
            after,
            last,
        )
    }
}

proof fn lemma_next_unique(
    entries: Map<KeyView, Option<Seq<u8>>>,
    levels: Map<u32, Seq<TableView>>,
    a: u64,
    b: u64,
)
    requires
        lsm::is_next(entries, levels, a),
        lsm::is_next(entries, levels, b),
    ensures
        a == b,
{
}

/// A table that is made of what is in memory changes nothing for the next timestamp.
proof fn lemma_next_kept(
    w: LsmView,
    all: Map<KeyView, Option<Seq<u8>>>,
    items: Seq<Item>,
    done: BuilderView,
    levels: Map<u32, Seq<TableView>>,
)
    requires
        lsm::is_next(all, w.levels, w.next_ts),
        submap(w.mem.entries, all),
        lsm::table_of(w.mem.entries, w.options.compression, items, done),
        done.current.len() == 0,
        levels == w.levels.insert(
            0,
            w.tables(0).push(table_laws::table_of(w.manifest.next_sst_id, done)),
        ),
    ensures
        lsm::is_next(all, levels, w.next_ts),
{
    let table = table_laws::table_of(w.manifest.next_sst_id, done);
    let own = done.entries();
    assert(own =~= table_builder::entries_of(done.blocks));
    table_builder::lemma_newest(own);
    assert(table.newest < w.next_ts || w.next_ts == u64::MAX) by {
        if table.newest > 0 {
            let i = choose|i: int|
                0 <= i < own.len() && (#[trigger] own[i]).timestamp == table_builder::newest_of(own);
            assert(own[i] == lsm::entry_of(items[i]));
            assert(w.mem.entries.contains_key(items[i].key));
            assert(all.contains_key(items[i].key));
        }
    }
    assert forall|t: TableView| #[trigger] lsm::on_a_level(levels, t) implies t.newest < w.next_ts
        || w.next_ts == u64::MAX by {
        let (level, i) = choose|level: u32, i: int|
            #![trigger levels[level][i]]
            levels.contains_key(level) && 0 <= i < levels[level].len() && levels[level][i] == t;
        if level != 0 || i < w.tables(0).len() {
            assert(w.levels[level][i] == t);
            assert(lsm::on_a_level(w.levels, t));
        }
    }
    if exists|t: TableView| #[trigger]
        lsm::on_a_level(w.levels, t) && w.next_ts <= t.newest + 1 {
        let t = choose|t: TableView| #[trigger]
            lsm::on_a_level(w.levels, t) && w.next_ts <= t.newest + 1;
        let (level, i) = choose|level: u32, i: int|
            #![trigger w.levels[level][i]]
            w.levels.contains_key(level) && 0 <= i < w.levels[level].len() && w.levels[level][i]
                == t;
        assert(levels[level][i] == t);
        assert(lsm::on_a_level(levels, t));
    }
}

/// A tree that is opened anew on the files that a run has left behind reads every key as
/// the run did, at all times: no write of it is lost, deletions among them. Opening does
/// not fail.
pub proof fn lemma_reopened_reads_as_before(
    s: LsmView,
    d: DiskView,
    edits: Seq<ManifestEdit>,
    written: Map<u64, Seq<RecordView>>,
    m: ManifestView,
    options: LsmOptions,
)
    requires
        durable(s, d, edits, written),
        manifest::replayed(ManifestView::fresh(), d.manifest) == Ok::<ManifestView, Fault>(m),
    ensures
        forall|f: Fault| !lsm::opens_to(m, d.tables, d.logs, options, Err(f)),
        forall|anew: LsmView, effects: Seq<EffectView>| #[trigger]
            lsm::opens_to(m, d.tables, d.logs, options, Ok((anew, effects))) ==> anew.next_ts
                == s.next_ts && forall|
                key: Seq<u8>,
                ts: u64,
                answer: Result<Option<Seq<u8>>, Fault>,
            | #[trigger]
                anew.reads(key, ts, answer) <==> s.reads(key, ts, answer),
{
    manifest::lemma_edits_are_replayed(ManifestView::fresh(), edits);
    assert(m == s.manifest);
    let all = remembered(d, written, m);
    lsm_laws::lemma_history_is_replayed(MemView::fresh(), d.logs, written, 1, m.next_wal_id);
    assert forall|f: Fault| !lsm::has_table_fault(m, d.tables, f) by {
        if lsm::has_table_fault(m, d.tables, f) {
            let (level, i) = choose|level: u32, i: int|
                #![trigger m.levels[level][i]]
                m.levels.contains_key(level) && 0 <= i < m.levels[level].len()
                    && d.tables.contains_key(m.levels[level][i]) && sstable::opened(
                    m.levels[level][i],
                    d.tables[m.levels[level][i]],
                ) == Err::<TableView, Fault>(f);
            let ids = m.levels[level];
            let is_present = |id: u64| d.tables.contains_key(id);
            assert(s.levels.dom().contains(level));
            assert(s.levels.contains_key(level));
            ids.lemma_filter_contains(is_present, i);
            let there = lsm::present(ids, d.tables);
            let k = choose|k: int| 0 <= k < there.len() && there[k] == ids[i];
            assert(sstable::opened(there[k], d.tables[there[k]]) == Ok::<TableView, Fault>(
                s.levels[level][k],
            ));
        }
    }
    assert forall|anew: LsmView, effects: Seq<EffectView>| #[trigger]
        lsm::opens_to(m, d.tables, d.logs, options, Ok((anew, effects))) implies anew.next_ts
        == s.next_ts && forall|key: Seq<u8>, ts: u64, answer: Result<Option<Seq<u8>>, Fault>|
        #[trigger]
        anew.reads(key, ts, answer) <==> s.reads(key, ts, answer) by {
        assert(anew.mem == all);
        assert(anew.levels =~= s.levels) by {
            assert(anew.levels.dom() =~= s.levels.dom());
            assert forall|level: u32| anew.levels.dom().contains(level) implies anew.levels[level]
                == s.levels[level] by {
                assert(anew.levels.contains_key(level));
                assert(s.levels.contains_key(level));
                let a = anew.levels[level];
                let b = s.levels[level];
                let ids = lsm::present(m.levels[level], d.tables);
                assert forall|i: int| 0 <= i < a.len() implies a[i] == b[i] by {
                    assert(sstable::opened(ids[i], d.tables[ids[i]]) == Ok::<TableView, Fault>(
                        a[i],
                    ));
                    assert(sstable::opened(ids[i], d.tables[ids[i]]) == Ok::<TableView, Fault>(
                        b[i],
                    ));
                }
                assert(a =~= b);
            }
        }
        lemma_next_unique(all.entries, s.levels, anew.next_ts, s.next_ts);
        assert(anew.immutables =~= s.immutables);
        assert forall|key: Seq<u8>, ts: u64, answer: Result<Option<Seq<u8>>, Fault>| #[trigger]
            anew.reads(key, ts, answer) <==> s.reads(key, ts, answer) by {
            assert(s.reads(key, ts, answer) <==> s.with_mem(all).reads(key, ts, answer));
        }
    }
}

/// Durability. A tree is opened on files, writes are made, and all that they ask of the
/// files is carried out and synced. A tree that is then opened on these files reads every
/// key as the first one did at last.
pub proof fn lemma_run_survives(
    d: DiskView,
    m: ManifestView,
    edits: Seq<ManifestEdit>,
    written: Map<u64, Seq<RecordView>>,
    options: LsmOptions,
    s: LsmView,
    begun: Seq<EffectView>,
    ops: Seq<OperationView>,
    after: LsmView,
    effects: Seq<EffectView>,
    m_left: ManifestView,
    anew: LsmView,
    begun_anew: Seq<EffectView>,
)
    requires
        notes(d, edits, m),
        lsm_laws::logs_hold(d.logs, written, 1, m.next_wal_id),
        lsm::opens_to(m, d.tables, d.logs, options, Ok((s, begun))),
        s.stored_all(ops, after, effects, None),
        size_laws::moderate(s, ops),
        s.next_ts + ops.len() <= u64::MAX,
        m.next_wal_id + 1 + ops.len() <= MAX_ID,
        ({
            let left = d.performed_all(begun).performed_all(effects.push(EffectView::SyncLog));
            &&& manifest::replayed(ManifestView::fresh(), left.manifest) == Ok::<
                ManifestView,
                Fault,
            >(m_left)
            &&& lsm::opens_to(m_left, left.tables, left.logs, options, Ok((anew, begun_anew)))
        }),
    ensures
        forall|key: Seq<u8>, answer: Result<Option<Seq<u8>>, Fault>| #[trigger]
            anew.reads(key, anew.next_ts, answer) <==> after.reads(key, after.next_ts, answer),
{
    let d1 = d.performed_all(begun);
    let (edits1, written1) = lemma_open_endures(d, m, edits, written, options, s, begun);
    let (edits2, written2) = lemma_writes_endure(s, d1, edits1, written1, ops, after, effects);
    assert(effects.push(EffectView::SyncLog).drop_last() =~= effects);
    let left = d1.performed_all(effects.push(EffectView::SyncLog));
    assert(left == d1.performed_all(effects));
    lemma_reopened_reads_as_before(after, left, edits2, written2, m_left, options);
    assert(lsm::opens_to(m_left, left.tables, left.logs, options, Ok((anew, begun_anew))));
}

} // verus!
