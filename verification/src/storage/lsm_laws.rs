//! What holds of the tree from one operation to the next.

use crate::common::error::Fault;
use crate::common::key::KeyView;
use crate::common::order;
use crate::storage::batch::OperationView;
use crate::storage::block;
use crate::storage::iterator::Item;
use crate::storage::lsm;
use crate::storage::lsm::{EffectView, LsmOptions, LsmView, MemView};
use crate::storage::manifest::ManifestView;
use crate::storage::memtable;
use crate::storage::size_laws;
use crate::storage::sstable;
use crate::storage::sstable::{CompressionType, TableView};
use crate::storage::table_builder::BuilderView;
use crate::storage::table_laws;
use crate::storage::wal;
use crate::storage::wal::{RecordType, RecordView};
use vstd::prelude::*;

verus! {

proof fn lemma_visible_unchanged(
    entries: Map<KeyView, Option<Seq<u8>>>,
    written: KeyView,
    value: Option<Seq<u8>>,
    key: Seq<u8>,
    ts: u64,
)
    requires
        key != written.data || ts < written.timestamp,
    ensures
        memtable::visible(entries.insert(written, value), key, ts) == memtable::visible(
            entries,
            key,
            ts,
        ),
{
    let after = entries.insert(written, value);
    assert forall|k: KeyView| #[trigger]
        memtable::is_newest(after, key, ts, k) implies memtable::is_newest(
        entries,
        key,
        ts,
        k,
    ) by {
        assert forall|other: KeyView| #[trigger]
            entries.contains_key(other) && other.data == key && other.timestamp
                <= ts implies other.timestamp <= k.timestamp by {
            assert(after.contains_key(other));
        }
    }
    assert forall|k: KeyView| #[trigger]
        memtable::is_newest(entries, key, ts, k) implies memtable::is_newest(
        after,
        key,
        ts,
        k,
    ) by {
        assert forall|other: KeyView| #[trigger]
            after.contains_key(other) && other.data == key && other.timestamp
                <= ts implies other.timestamp <= k.timestamp by {
            assert(entries.contains_key(other));
        }
    }
    if exists|k: KeyView| #[trigger] memtable::is_newest(entries, key, ts, k) {
        let k = choose|k: KeyView| #[trigger] memtable::is_newest(entries, key, ts, k);
        memtable::lemma_newest_is_visible(entries, key, ts, k);
        memtable::lemma_newest_is_visible(after, key, ts, k);
    }
}

/// A write is read back from its log: a tree that is opened on a log has in memory what
/// the records that were written to it say. Fewer bytes than a frame's header at the end
/// of the log are passed over.
pub proof fn lemma_log_is_replayed(
    mem: MemView,
    logs: Map<u64, Seq<u8>>,
    from: u64,
    to: u64,
    records: Seq<RecordView>,
    tail: Seq<u8>,
)
    requires
        from < to,
        logs.contains_key(from),
        logs[from] == wal::log_of(records.map_values(|r: RecordView| r.plain_body())) + tail,
        tail.len() < 8,
        forall|i: int| 0 <= i < records.len() ==> wal::recordable(#[trigger] records[i]),
    ensures
        lsm::with_logs(mem, logs, from, to) == lsm::with_logs(
            mem.with_records(records),
            logs,
            (from + 1) as u64,
            to,
        ),
{
    let bodies = records.map_values(|r: RecordView| r.plain_body());
    assert(wal::all_written(false, records, bodies));
    wal::lemma_recovers_what_was_written(false, records, bodies, tail);
    lemma_logged_is_same(mem, records);
}

/// What a log gives back of records says the same of the memory table as they do.
proof fn lemma_logged_is_same(mem: MemView, records: Seq<RecordView>)
    ensures
        mem.with_records(records.map_values(|r: RecordView| r.logged())) == mem.with_records(
            records,
        ),
    decreases records.len(),
{
    let logged = records.map_values(|r: RecordView| r.logged());
    if records.len() > 0 {
        lemma_logged_is_same(mem, records.drop_last());
        assert(logged.drop_last() =~= records.drop_last().map_values(
            |r: RecordView| r.logged(),
        ));
    }
}

/// Each log that is there holds the records that were written to it, and behind them at
/// most the beginning of a frame's header.
pub open spec fn logs_hold(
    logs: Map<u64, Seq<u8>>,
    written: Map<u64, Seq<RecordView>>,
    from: u64,
    to: u64,
) -> bool {
    forall|id: u64|
        from <= id < to && #[trigger] logs.contains_key(id) ==> holds_records(
            logs[id],
            written[id],
        )
}

/// A log holds the frames of the records and at most the beginning of a frame's header.
pub open spec fn holds_records(log: Seq<u8>, records: Seq<RecordView>) -> bool {
    let frames = wal::log_of(records.map_values(|r: RecordView| r.plain_body()));
    &&& frames.len() <= log.len() < frames.len() + 8
    &&& log.take(frames.len() as int) == frames
    &&& forall|i: int| 0 <= i < records.len() ==> wal::recordable(#[trigger] records[i])
}

/// A log to which a write is logged holds its record behind those that it held.
pub proof fn lemma_log_grows(log: Seq<u8>, records: Seq<RecordView>, op: OperationView, ts: u64)
    requires
        holds_records(log, records),
        log.len() == wal::log_of(records.map_values(|r: RecordView| r.plain_body())).len(),
        wal::recordable(lsm::record_for(op, ts)),
    ensures
        ({
            let r = lsm::record_for(op, ts);
            lsm::logging(seq![r]) matches EffectView::AppendLog { bytes, .. } && holds_records(
                log + bytes,
                records.push(r),
            )
        }),
{
    let r = lsm::record_for(op, ts);
    let body = |x: RecordView| x.plain_body();
    let frames = wal::log_of(records.map_values(body));
    let bytes = wal::log_of(seq![r].map_values(body));
    assert(seq![r].map_values(body) =~= seq![r.plain_body()]);
    assert(seq![r.plain_body()].drop_last() =~= Seq::empty());
    assert(wal::log_of(Seq::<Seq<u8>>::empty()) =~= Seq::<u8>::empty());
    assert(seq![r.plain_body()].last() == r.plain_body());
    assert(bytes =~= wal::frame(r.plain_body()));
    let more = records.push(r).map_values(body);
    assert(more.drop_last() =~= records.map_values(body));
    assert(wal::log_of(more) =~= frames + bytes);
    assert(log.take(frames.len() as int) =~= log);
    assert((log + bytes).take((frames.len() + bytes.len()) as int) =~= frames + bytes);
}

/// All records in the logs that are there, in the order in which they are replayed.
pub open spec fn history(
    logs: Map<u64, Seq<u8>>,
    written: Map<u64, Seq<RecordView>>,
    from: u64,
    to: u64,
) -> Seq<RecordView>
    decreases to - from,
{
    if from >= to {
        Seq::empty()
    } else if logs.contains_key(from) {
        written[from] + history(logs, written, (from + 1) as u64, to)
    } else {
        history(logs, written, (from + 1) as u64, to)
    }
}

/// The logs are replayed one after the other.
pub proof fn lemma_history_is_replayed(
    mem: MemView,
    logs: Map<u64, Seq<u8>>,
    written: Map<u64, Seq<RecordView>>,
    from: u64,
    to: u64,
)
    requires
        logs_hold(logs, written, from, to),
    ensures
        lsm::with_logs(mem, logs, from, to) == Ok::<MemView, Fault>(
            mem.with_records(history(logs, written, from, to)),
        ),
    decreases to - from,
{
    if from < to {
        let next = (from + 1) as u64;
        if logs.contains_key(from) {
            let records = written[from];
            let frames = wal::log_of(records.map_values(|r: RecordView| r.plain_body()));
            let tail = logs[from].skip(frames.len() as int);
            assert(logs[from] =~= frames + tail);
            lemma_log_is_replayed(mem, logs, from, to, records, tail);
            lemma_history_is_replayed(mem.with_records(records), logs, written, next, to);
            lemma_records_in_turn(mem, records, history(logs, written, next, to));
        } else {
            lemma_history_is_replayed(mem, logs, written, next, to);
        }
    }
}

proof fn lemma_records_in_turn(mem: MemView, first: Seq<RecordView>, second: Seq<RecordView>)
    ensures
        mem.with_records(first).with_records(second) == mem.with_records(first + second),
    decreases second.len(),
{
    if second.len() == 0 {
        assert(first + second =~= first);
    } else {
        lemma_records_in_turn(mem, first, second.drop_last());
        assert((first + second).drop_last() =~= first + second.drop_last());
    }
}

/// The version of a key that a record stands for.
pub open spec fn recorded_key(r: RecordView) -> KeyView {
    KeyView { data: r.key, timestamp: r.timestamp }
}

/// The value that a record stands for, none for a deletion.
pub open spec fn recorded_value(r: RecordView) -> Option<Seq<u8>> {
    match r.record_type {
        RecordType::Put => Some(
            match r.value {
                Some(v) => v,
                None => Seq::empty(),
            },
        ),
        RecordType::Delete => None,
    }
}

/// What the memory table holds behind records: the versions in them, each as the last
/// record of it says.
proof fn lemma_records_in_memory(mem: MemView, records: Seq<RecordView>, i: int)
    requires
        0 <= i < records.len(),
        forall|j: int|
            i < j < records.len() ==> recorded_key(#[trigger] records[j]) != recorded_key(
                records[i],
            ),
    ensures
        mem.with_records(records).entries.contains_key(recorded_key(records[i])),
        mem.with_records(records).entries[recorded_key(records[i])] == recorded_value(records[i]),
    decreases records.len(),
{
    let shorter = records.drop_last();
    if i < records.len() - 1 {
        assert(shorter[i] == records[i]);
        assert forall|j: int| i < j < shorter.len() implies recorded_key(#[trigger] shorter[j])
            != recorded_key(shorter[i]) by {
            assert(shorter[j] == records[j]);
        }
        lemma_records_in_memory(mem, shorter, i);
        assert(recorded_key(records[records.len() - 1]) != recorded_key(records[i]));
    }
}

proof fn lemma_memory_is_from_records(mem: MemView, records: Seq<RecordView>, k: KeyView) -> (i: int)
    requires
        mem.with_records(records).entries.contains_key(k),
        !mem.entries.contains_key(k),
    ensures
        0 <= i < records.len(),
        recorded_key(records[i]) == k,
    decreases records.len(),
{
    if records.len() == 0 {
        0
    } else if recorded_key(records.last()) == k {
        records.len() - 1
    } else {
        lemma_memory_is_from_records(mem, records.drop_last(), k)
    }
}

/// What was written to the logs is read once the tree is opened again: a read at `ts` gives
/// what the newest record of the key says that is not newer than `ts`, the last one where
/// several have the same timestamp.
pub proof fn lemma_logged_is_recovered(
    manifest: ManifestView,
    tables: Map<u64, Seq<u8>>,
    logs: Map<u64, Seq<u8>>,
    options: LsmOptions,
    s: LsmView,
    effects: Seq<EffectView>,
    written: Map<u64, Seq<RecordView>>,
    i: int,
    ts: u64,
    answer: Result<Option<Seq<u8>>, Fault>,
)
    requires
        lsm::opens_to(manifest, tables, logs, options, Ok((s, effects))),
        logs_hold(logs, written, 1, manifest.next_wal_id),
        ({
            let h = history(logs, written, 1, manifest.next_wal_id);
            &&& 0 <= i < h.len()
            &&& h[i].timestamp <= ts
            &&& forall|j: int|
                0 <= j < h.len() && (#[trigger] h[j]).key == h[i].key && h[j].timestamp <= ts
                    ==> h[j].timestamp < h[i].timestamp || (h[j].timestamp == h[i].timestamp && j
                    <= i)
            &&& s.reads(h[i].key, ts, answer)
        }),
    ensures
        answer == Ok::<Option<Seq<u8>>, Fault>(
            recorded_value(history(logs, written, 1, manifest.next_wal_id)[i]),
        ),
{
    let h = history(logs, written, 1, manifest.next_wal_id);
    lemma_history_is_replayed(MemView::fresh(), logs, written, 1, manifest.next_wal_id);
    let entries = s.mem.entries;
    let k = recorded_key(h[i]);
    assert(s.mem == MemView::fresh().with_records(h));
    assert forall|j: int| i < j < h.len() implies recorded_key(#[trigger] h[j]) != k by {}
    lemma_records_in_memory(MemView::fresh(), h, i);
    assert(memtable::is_newest(entries, k.data, ts, k)) by {
        assert forall|other: KeyView| #[trigger]
            entries.contains_key(other) && other.data == k.data && other.timestamp
                <= ts implies other.timestamp <= k.timestamp by {
            let j = lemma_memory_is_from_records(MemView::fresh(), h, other);
            assert(h[j].key == h[i].key);
        }
    }
    memtable::lemma_newest_is_visible(entries, k.data, ts, k);
}

/// Where a table has a version of a key for readers at `ts`, it has a first one.
proof fn lemma_first_index(items: Seq<Item>, data: Seq<u8>, ts: u64, n: int) -> (first: int)
    requires
        0 <= n < items.len(),
        items[n].key.data == data,
        items[n].key.timestamp <= ts,
    ensures
        0 <= first <= n,
        items[first].key.data == data,
        items[first].key.timestamp <= ts,
        forall|i: int|
            0 <= i < first ==> !((#[trigger] items[i]).key.data == data && items[i].key.timestamp
                <= ts),
    decreases n,
{
    if exists|i: int|
        0 <= i < n && (#[trigger] items[i]).key.data == data && items[i].key.timestamp <= ts {
        let i = choose|i: int|
            0 <= i < n && (#[trigger] items[i]).key.data == data && items[i].key.timestamp <= ts;
        lemma_first_index(items, data, ts, i)
    } else {
        n
    }
}

/// A table that was written from a memory table answers every lookup as that did: with the
/// value of the newest version that is not newer than `ts`, that the key was deleted, or
/// nothing.
pub proof fn lemma_flushed_table_answers(
    entries: Map<KeyView, Option<Seq<u8>>>,
    compression: CompressionType,
    items: Seq<Item>,
    done: BuilderView,
    id: u64,
    key: Seq<u8>,
    ts: u64,
    answer: Result<Option<Option<Seq<u8>>>, Fault>,
)
    requires
        lsm::table_of(entries, compression, items, done),
        table_laws::whole(done),
        table_laws::table_of(id, done).answers(key, ts, answer),
    ensures
        answer == Ok::<Option<Option<Seq<u8>>>, Fault>(memtable::visible(entries, key, ts)),
{
    let all = done.entries();
    assert forall|i: int| 0 <= i < all.len() implies #[trigger] all[i] == lsm::entry_of(
        items[i],
    ) by {}
    assert(table_laws::in_order(all)) by {
        assert forall|i: int, j: int|
            #![trigger all[i], all[j]]
            0 <= i < j < all.len() implies table_laws::key_of(all[i]).before(
            table_laws::key_of(all[j]),
        ) by {
            assert(items[i].key.before(items[j].key));
        }
    }
    table_laws::lemma_lookup_gives_what_was_added(id, done, key, ts, answer);
    if exists|i: int|
        0 <= i < items.len() && (#[trigger] items[i]).key.data == key && items[i].key.timestamp
            <= ts {
        let some = choose|i: int|
            0 <= i < items.len() && (#[trigger] items[i]).key.data == key && items[i].key.timestamp
                <= ts;
        let n = lemma_first_index(items, key, ts, some);
        let k = items[n].key;
        assert(memtable::is_newest(entries, key, ts, k)) by {
            assert forall|other: KeyView| #[trigger]
                entries.contains_key(other) && other.data == key && other.timestamp
                    <= ts implies other.timestamp <= k.timestamp by {
                let j = choose|j: int| 0 <= j < items.len() && (#[trigger] items[j]).key == other;
                if j > n {
                    assert(items[n].key.before(items[j].key));
                    order::lemma_irreflexive(key);
                }
            }
        }
        memtable::lemma_newest_is_visible(entries, key, ts, k);
        assert forall|i: int| 0 <= i < n implies !((#[trigger] all[i]).key == all[n].key
            && all[i].timestamp <= ts) by {
            assert(all[i] == lsm::entry_of(items[i]));
        }
        block::lemma_first_version(all, 0, n, ts);
    } else {
        assert forall|i: int| 0 <= i < all.len() implies !((#[trigger] all[i]).key == key
            && all[i].timestamp <= ts) by {
            assert(all[i] == lsm::entry_of(items[i]));
        }
        block::lemma_no_version(all, 0, key, ts);
        assert forall|k: KeyView| !memtable::is_newest(entries, key, ts, k) by {
            if memtable::is_newest(entries, key, ts, k) {
                let j = choose|j: int| 0 <= j < items.len() && (#[trigger] items[j]).key == k;
            }
        }
    }
}

/// There is always a block with which a search begins.
proof fn lemma_located_exists(t: TableView, key: Seq<u8>, n: int) -> (idx: int)
    requires
        t.sorted(),
        1 <= n <= t.metas.len(),
    ensures
        0 <= idx < n,
        forall|i: int| 0 < i <= idx ==> order::less((#[trigger] t.metas[i]).first_key, key),
        forall|i: int| idx < i < n ==> !order::less((#[trigger] t.metas[i]).first_key, key),
    decreases n,
{
    if n == 1 {
        0
    } else {
        let before = lemma_located_exists(t, key, n - 1);
        if order::less(t.metas[n - 1].first_key, key) {
            assert forall|i: int| 0 < i <= n - 1 implies order::less(
                (#[trigger] t.metas[i]).first_key,
                key,
            ) by {
                order::lemma_order(t.metas[i].first_key, t.metas[n - 1].first_key, key);
            }
            n - 1
        } else {
            before
        }
    }
}

/// A table has an answer to every lookup.
pub proof fn lemma_answers_exist(t: TableView, key: Seq<u8>, ts: u64) -> (answer: Result<
    Option<Option<Seq<u8>>>,
    Fault,
>)
    ensures
        t.answers(key, ts, answer),
{
    if t.excludes(key) {
        Ok(None)
    } else if t.sorted() && t.metas.len() > 0 {
        let idx = lemma_located_exists(t, key, t.metas.len() as int);
        assert(t.located(key, idx));
        t.lookup(idx, key, ts)
    } else {
        assert(t.located(key, 0));
        t.lookup(0, key, ts)
    }
}

/// The memory table is full and is to be written to a file.
pub open spec fn is_full(s: LsmView) -> bool {
    s.mem.size >= s.options.memtable_size
}

/// A write fills the memory table, which is then written to a file.
pub open spec fn overflows(s: LsmView, op: OperationView) -> bool {
    op.value is Some && is_full(s.written(op))
}

/// Every version in memory is older than the next write.
pub open spec fn stamped(s: LsmView) -> bool {
    forall|k: KeyView| #[trigger] s.mem.entries.contains_key(k) ==> k.timestamp < s.next_ts
}

/// The tree is in the state that every write that does not fail leaves it in: no memory
/// table waits to be written to a file, and every version in memory is older than the next
/// write.
pub open spec fn settled(s: LsmView) -> bool {
    s.immutables.len() == 0 && stamped(s)
}

/// A tree that was opened is in that state, as long as there is a timestamp beyond all that
/// it has.
pub proof fn lemma_opened_is_settled(
    manifest: ManifestView,
    tables: Map<u64, Seq<u8>>,
    logs: Map<u64, Seq<u8>>,
    options: LsmOptions,
    s: LsmView,
    effects: Seq<EffectView>,
)
    requires
        lsm::opens_to(manifest, tables, logs, options, Ok((s, effects))),
        s.next_ts < u64::MAX,
    ensures
        settled(s),
{
}

/// What becomes of the tree when its memory table is full: it is empty, and the table that
/// was made of it is the first in which keys are looked for.
pub proof fn lemma_overflow(w: LsmView, after: LsmView, more: Seq<EffectView>) -> (made: (
    Seq<Item>,
    BuilderView,
))
    requires
        w.settled(after, more, None),
        is_full(w),
        size_laws::moderate(w, Seq::empty()),
    ensures
        ({
            let (items, done) = made;
            let here = lsm::consulted(after.levels, 0);
            let table = table_laws::table_of(w.manifest.next_sst_id, done);
            &&& lsm::table_of(w.mem.entries, w.options.compression, items, done)
            &&& table_laws::whole(done)
            &&& sstable::opened(w.manifest.next_sst_id, done.image()) == Ok::<TableView, Fault>(
                table,
            )
            &&& after == (LsmView {
                levels: w.levels.insert(0, w.tables(0).push(table)),
                immutables: w.immutables,
                ..w.set_aside().noted()
            })
            &&& more == w.set_aside_effects() + w.noting_effects(done.image()).push(
                EffectView::NotifyCompaction,
            )
            &&& here.len() > 0
            &&& here[0] == table
            &&& here.skip(1) == lsm::consulted(w.levels, 0)
        }),
{
    let entries = w.mem.entries;
    let aside = w.set_aside();
    let (image, rest) = choose|image: Seq<u8>, rest: Seq<EffectView>| #[trigger]
        aside.flushed(image, after, rest, None) && lsm::is_table_file(
            entries,
            w.options.compression,
            image,
        ) && more == w.set_aside_effects() + rest;
    let (items, done) = choose|items: Seq<Item>, done: BuilderView| #[trigger]
        lsm::table_of(entries, w.options.compression, items, done) && image == done.image();
    let id = aside.manifest.next_sst_id;
    size_laws::lemma_moderate_table_is_whole(w.options.compression, entries, items, done);
    table_laws::lemma_built_table_opens(id, done);
    let table = table_laws::table_of(id, done);
    assert(after.levels == w.levels.insert(0, w.tables(0).push(table)));
    assert(after.immutables =~= w.immutables);
    lemma_consulted_first(w, table);
    (items, done)
}

/// A table that is put on level 0 is the first in which keys are looked for.
proof fn lemma_consulted_first(s: LsmView, table: TableView)
    ensures
        ({
            let here = lsm::consulted(s.levels.insert(0, s.tables(0).push(table)), 0);
            &&& here.len() > 0
            &&& here[0] == table
            &&& here.skip(1) == lsm::consulted(s.levels, 0)
        }),
{
    let levels = s.levels.insert(0, s.tables(0).push(table));
    lemma_deeper_unchanged(s.levels, s.tables(0).push(table), 1);
    let deeper = lsm::consulted(s.levels, 1);
    let old_here = if s.levels.contains_key(0) {
        s.levels[0].reverse()
    } else {
        Seq::empty()
    };
    assert(lsm::consulted(s.levels, 0) =~= old_here + deeper);
    assert(s.tables(0).reverse() =~= old_here);
    assert(s.tables(0).push(table).reverse() =~= seq![table] + old_here);
    assert(lsm::consulted(levels, 0) =~= seq![table] + old_here + deeper);
    assert(lsm::consulted(levels, 0).skip(1) =~= lsm::consulted(s.levels, 0));
}

proof fn lemma_deeper_unchanged(
    levels: Map<u32, Seq<TableView>>,
    newest: Seq<TableView>,
    level: u32,
)
    requires
        level > 0,
    ensures
        lsm::consulted(levels.insert(0, newest), level) == lsm::consulted(levels, level),
    decreases lsm::NUM_LEVELS - level,
{
    if level < lsm::NUM_LEVELS {
        lemma_deeper_unchanged(levels, newest, (level + 1) as u32);
    }
}

/// To write a full memory table to a file changes nothing for any reader, at any time.
pub proof fn lemma_flush_changes_no_read(
    w: LsmView,
    after: LsmView,
    more: Seq<EffectView>,
    key: Seq<u8>,
    ts: u64,
    answer: Result<Option<Seq<u8>>, Fault>,
)
    requires
        w.settled(after, more, None),
        size_laws::moderate(w, Seq::empty()),
        w.immutables.len() == 0,
    ensures
        after.immutables.len() == 0,
        after.reads(key, ts, answer) <==> w.reads(key, ts, answer),
{
    if is_full(w) {
        let (items, done) = lemma_overflow(w, after, more);
        let here = lsm::consulted(after.levels, 0);
        let table = here[0];
        let shown = memtable::visible(w.mem.entries, key, ts);
        assert forall|first: Result<Option<Option<Seq<u8>>>, Fault>| #[trigger]
            table.answers(key, ts, first) implies first == Ok::<Option<Option<Seq<u8>>>, Fault>(
            shown,
        ) by {
            lemma_flushed_table_answers(
                w.mem.entries,
                w.options.compression,
                items,
                done,
                w.manifest.next_sst_id,
                key,
                ts,
                first,
            );
        }
        let some = lemma_answers_exist(table, key, ts);
        assert(table.answers(key, ts, Ok::<Option<Option<Seq<u8>>>, Fault>(shown)));
        assert(memtable::visible(after.mem.entries, key, ts) is None);
    }
}

/// A write that is in memory changes nothing for the readers of other keys, nor for readers
/// at an earlier time; to all later readers of its key it gives its value.
pub proof fn lemma_written_reads(
    s: LsmView,
    op: OperationView,
    key: Seq<u8>,
    ts: u64,
    answer: Result<Option<Seq<u8>>, Fault>,
)
    ensures
        key != op.key || ts < s.next_ts ==> (s.written(op).reads(key, ts, answer) <==> s.reads(
            key,
            ts,
            answer,
        )),
        stamped(s) && key == op.key && ts >= s.next_ts ==> (s.written(op).reads(key, ts, answer)
            <==> answer == Ok::<Option<Seq<u8>>, Fault>(op.value)),
{
    let after = s.written(op);
    let written = KeyView { data: op.key, timestamp: s.next_ts };
    assert(after.mem.entries == s.mem.entries.insert(written, op.value));
    if key != op.key || ts < s.next_ts {
        lemma_visible_unchanged(s.mem.entries, written, op.value, key, ts);
    } else if stamped(s) {
        assert(memtable::is_newest(after.mem.entries, key, ts, written));
        memtable::lemma_newest_is_visible(after.mem.entries, key, ts, written);
    }
}

proof fn lemma_written_moderate(s: LsmView, op: OperationView)
    requires
        size_laws::moderate(s, seq![op]),
    ensures
        size_laws::moderate(s.written(op), Seq::empty()),
{
    assert(seq![op] + Seq::<OperationView>::empty() =~= seq![op]);
    size_laws::lemma_written_moderate(s, op, Seq::empty());
}

/// What becomes of the tree behind a write that does not fail.
pub proof fn lemma_stored_shape(
    s: LsmView,
    op: OperationView,
    after: LsmView,
    effects: Seq<EffectView>,
) -> (more: Seq<EffectView>)
    requires
        s.stored(op, after, effects, None),
    ensures
        effects == seq![lsm::logging(seq![lsm::record_for(op, s.next_ts)])] + more,
        op.value is Some ==> s.written(op).settled(after, more, None),
        op.value is None ==> after == s.written(op) && more.len() == 0,
{
    let log = lsm::logging(seq![lsm::record_for(op, s.next_ts)]);
    if op.value is Some {
        choose|more: Seq<EffectView>| #[trigger]
            s.written(op).settled(after, more, None) && effects == seq![log] + more
    } else {
        assert(seq![log] + Seq::<EffectView>::empty() =~= seq![log]);
        Seq::empty()
    }
}

/// A write changes nothing for the readers of other keys, nor for readers at an earlier
/// time. All later readers of its key read its value, or that the key was deleted. It makes
/// no difference whether the memory table is written to a file on the way.
pub proof fn lemma_stored_is_read(
    s: LsmView,
    op: OperationView,
    after: LsmView,
    effects: Seq<EffectView>,
    key: Seq<u8>,
    ts: u64,
    answer: Result<Option<Seq<u8>>, Fault>,
)
    requires
        s.stored(op, after, effects, None),
        settled(s),
        size_laws::moderate(s, seq![op]),
    ensures
        key != op.key || ts < s.next_ts ==> (after.reads(key, ts, answer) <==> s.reads(
            key,
            ts,
            answer,
        )),
        key == op.key && ts >= s.next_ts ==> (after.reads(key, ts, answer) <==> answer == Ok::<
            Option<Seq<u8>>,
            Fault,
        >(op.value)),
{
    let more = lemma_stored_shape(s, op, after, effects);
    lemma_written_reads(s, op, key, ts, answer);
    lemma_written_moderate(s, op);
    if op.value is Some {
        lemma_flush_changes_no_read(s.written(op), after, more, key, ts, answer);
    }
}

/// A write that does not fail leaves the tree settled.
pub proof fn lemma_stored_settles(
    s: LsmView,
    op: OperationView,
    after: LsmView,
    effects: Seq<EffectView>,
)
    requires
        s.stored(op, after, effects, None),
        settled(s),
        s.next_ts < u64::MAX,
        size_laws::moderate(s, seq![op]),
    ensures
        settled(after),
        after.next_ts == s.next_ts + 1,
        after.options == s.options,
{
    let more = lemma_stored_shape(s, op, after, effects);
    let w = s.written(op);
    assert(w.mem.entries == s.mem.entries.insert(
        KeyView { data: op.key, timestamp: s.next_ts },
        op.value,
    ));
    lemma_written_moderate(s, op);
    if op.value is Some && is_full(w) {
        let made = lemma_overflow(w, after, more);
    }
}

/// The last of the operations on a key.
pub open spec fn last_on(ops: Seq<OperationView>, key: Seq<u8>) -> Option<OperationView>
    decreases ops.len(),
{
    if ops.len() == 0 {
        None
    } else if ops.last().key == key {
        Some(ops.last())
    } else {
        last_on(ops.drop_last(), key)
    }
}

/// Several writes, one after the other, change nothing for readers at an earlier time, nor
/// for readers of other keys. All later readers read the last write of a key.
pub proof fn lemma_stored_all_is_read(
    s: LsmView,
    ops: Seq<OperationView>,
    after: LsmView,
    effects: Seq<EffectView>,
    key: Seq<u8>,
    ts: u64,
    answer: Result<Option<Seq<u8>>, Fault>,
)
    requires
        s.stored_all(ops, after, effects, None),
        settled(s),
        s.next_ts + ops.len() <= u64::MAX,
        size_laws::moderate(s, ops),
    ensures
        settled(after),
        after.next_ts == s.next_ts + ops.len(),
        ts < s.next_ts || last_on(ops, key) is None ==> (after.reads(key, ts, answer)
            <==> s.reads(key, ts, answer)),
        ts >= after.next_ts - 1 ==> (last_on(ops, key) matches Some(op) ==> (after.reads(
            key,
            ts,
            answer,
        ) <==> answer == Ok::<Option<Seq<u8>>, Fault>(op.value))),
    decreases ops.len(),
{
    if ops.len() > 0 {
        let (middle, first, last) = choose|
            middle: LsmView,
            first: Seq<EffectView>,
            last: Seq<EffectView>,
        |
            #![trigger middle.stored(ops.last(), after, last, None), first.add(last)]
            s.stored_all(ops.drop_last(), middle, first, None) && middle.stored(
                ops.last(),
                after,
                last,
                None,
            ) && effects == first.add(last);
        assert(ops =~= ops.drop_last() + seq![ops.last()]);
        size_laws::lemma_fewer_moderate(s, ops.drop_last(), seq![ops.last()]);
        size_laws::lemma_stored_all_moderate(
            s,
            ops.drop_last(),
            middle,
            first,
            None,
            seq![ops.last()],
        );
        lemma_stored_all_is_read(s, ops.drop_last(), middle, first, key, ts, answer);
        lemma_stored_is_read(middle, ops.last(), after, last, key, ts, answer);
        lemma_stored_settles(middle, ops.last(), after, last);
    }
}

/// A read behind a batch sees the last of its operations on a key.
pub proof fn lemma_batch_is_read(
    s: LsmView,
    ops: Seq<OperationView>,
    after: LsmView,
    more: Seq<EffectView>,
    i: int,
    ts: u64,
    answer: Result<Option<Seq<u8>>, Fault>,
)
    requires
        s.with_batch(ops).settled(after, more, None),
        settled(s),
        0 <= i < ops.len(),
        forall|j: int| i < j < ops.len() ==> (#[trigger] ops[j]).key != ops[i].key,
        s.next_ts + ops.len() <= u64::MAX,
        s.next_ts + i <= ts,
        size_laws::moderate(s, ops),
        after.reads(ops[i].key, ts, answer),
    ensures
        answer == Ok::<Option<Seq<u8>>, Fault>(ops[i].value),
{
    let w = s.with_batch(ops);
    let records = lsm::batch_records(ops, s.next_ts);
    let key = ops[i].key;
    let k = KeyView { data: key, timestamp: (s.next_ts + i) as u64 };
    assert(recorded_key(records[i]) == k);
    assert(recorded_value(records[i]) == ops[i].value);
    assert forall|j: int| i < j < records.len() implies recorded_key(#[trigger] records[j])
        != recorded_key(records[i]) by {
        assert(records[j].key == ops[j].key);
    }
    lemma_records_in_memory(s.mem, records, i);
    let entries = w.mem.entries;
    assert(memtable::is_newest(entries, key, ts, k)) by {
        assert forall|other: KeyView| #[trigger]
            entries.contains_key(other) && other.data == key && other.timestamp
                <= ts implies other.timestamp <= k.timestamp by {
            if !s.mem.entries.contains_key(other) {
                let j = lemma_memory_is_from_records(s.mem, records, other);
                assert(records[j].key == ops[j].key);
                assert(records[j].timestamp == s.next_ts + j);
                assert(j <= i);
            }
        }
    }
    memtable::lemma_newest_is_visible(entries, key, ts, k);
    size_laws::lemma_batch_moderate(s, ops);
    lemma_flush_changes_no_read(w, after, more, key, ts, answer);
}

} // verus!
