//! That damage is found where it is met, and that no fault is passed over on the way to the
//! reader.

use crate::common::bound::BoundView;
use crate::common::checksum;
use crate::common::codec;
use crate::common::error::Fault;
use crate::common::listing;
use crate::storage::block;
use crate::storage::iterator;
use crate::storage::iterator::Stream;
use crate::storage::lsm;
use crate::storage::lsm::{EffectView, LsmOptions, LsmView, MemView};
use crate::storage::manifest::ManifestView;
use crate::storage::merge_laws;
use crate::storage::sstable;
use crate::storage::sstable::{CompressionType, TableView};
use crate::storage::table_iterator;
use crate::storage::wal;
use vstd::prelude::*;

verus! {

/// The file of a table ends with the bytes that mark it as one, else it is refused, and one
/// that is too short to say where its index is as well.
pub proof fn lemma_other_files_are_refused(id: u64, image: Seq<u8>)
    ensures
        image.len() < 20 ==> sstable::opened(id, image) is Err,
        image.len() >= 4 && codec::int32_at(image, image.len() - 4) != 0x53535456
            ==> sstable::opened(id, image) == Err::<TableView, Fault>(
            Fault::Corruption("Invalid SSTable magic"@),
        ),
        sstable::opened(id, image) matches Ok(t) ==> t.id == id && t.image == image,
{
}

/// A block that does not fit its checksum is not read, whatever it holds, and neither is one
/// that reaches beyond the file. A lookup that comes to such a block fails.
pub proof fn lemma_damaged_block_is_found(t: TableView, idx: int, key: Seq<u8>, ts: u64)
    requires
        0 <= idx < t.metas.len(),
        ({
            let from = t.metas[idx].offset as int;
            let to = from + t.metas[idx].length;
            ||| to > t.image.len()
            ||| to - from < 4
            ||| codec::int32_at(t.image.subrange(from, to), to - from - 4) != checksum::crc32(
                t.image.subrange(from, to - 4),
            )
        }),
    ensures
        t.block(idx) is Err,
        t.lookup(idx, key, ts) is Err,
        table_iterator::walk_from(t, idx).fault is Some,
        table_iterator::settled(table_iterator::walk_from(t, idx)) is Err,
{
    let from = t.metas[idx].offset as int;
    let to = from + t.metas[idx].length;
    if to <= t.image.len() && to - from >= 4 {
        let raw = t.image.subrange(from, to);
        assert(raw.take(raw.len() - 4) =~= t.image.subrange(from, to - 4));
    }
}

/// A walk through a table meets the fault of a block that it comes to behind others.
pub proof fn lemma_walk_meets_damage(t: TableView, idx: int, data: Seq<u8>, pos: int, bad: int)
    requires
        idx < bad < t.metas.len(),
        t.block(bad) is Err,
        forall|i: int|
            idx < i < bad ==> (#[trigger] t.block(i) matches Ok(b) ==> b.len() > 0),
    ensures
        table_iterator::walk(t, idx, data, pos).fault is Some,
    decreases t.metas.len() - idx, data.len() - pos,
{
    if pos >= data.len() {
        if let Ok(next) = t.block(idx + 1) {
            assert(next.len() > 0);
            lemma_walk_meets_damage(t, idx + 1, next, 0, bad);
        }
    } else {
        if let Some((e, next)) = block::entry_at(data, pos) {
            lemma_walk_meets_damage(t, idx, data, next, bad);
        }
    }
}

/// A stream that meets a fault meets it behind an entry.
pub open spec fn honest(s: Stream) -> bool {
    s.fault is Some ==> s.items.len() > 0
}

/// The streams meet the same faults.
spec fn same_faults(a: Seq<Stream>, b: Seq<Stream>) -> bool {
    &&& a.len() == b.len()
    &&& forall|i: int|
        0 <= i < a.len() ==> honest(#[trigger] b[i]) && b[i].fault == a[i].fault
}

proof fn lemma_drained_faults(streams: Seq<Stream>, data: Seq<u8>)
    requires
        same_faults(streams, streams),
    ensures
        iterator::drained(streams, data) matches Ok(rest) ==> same_faults(streams, rest),
    decreases iterator::total(streams),
{
    if let Some(i) = iterator::first_of(streams) {
        assert(iterator::is_first(streams, i));
        if streams[i].head().key.data == data {
            if let Ok(s) = streams[i].advanced() {
                iterator::lemma_total_update(streams, i, s);
                let next = streams.update(i, s);
                assert(honest(streams[i]));
                assert(same_faults(streams, next));
                assert(same_faults(next, next));
                lemma_drained_faults(next, data);
                if let Ok(rest) = iterator::drained(streams, data) {
                    assert forall|k: int| 0 <= k < streams.len() implies honest(
                        #[trigger] rest[k],
                    ) && rest[k].fault == streams[k].fault by {
                        assert(next[k].fault == streams[k].fault);
                    }
                }
            }
        }
    }
}

/// A merge passes over no fault: it meets none exactly where none of its streams does.
pub proof fn lemma_merge_reports_faults(streams: Seq<Stream>)
    requires
        forall|i: int| 0 <= i < streams.len() ==> honest(#[trigger] streams[i]),
    ensures
        iterator::merged(streams).fault is None <==> forall|i: int|
            0 <= i < streams.len() ==> (#[trigger] streams[i]).fault is None,
        honest(iterator::merged(streams)),
    decreases iterator::total(streams),
{
    match iterator::first_of(streams) {
        None => {
            let best = merge_laws::lemma_first_exists(streams, streams.len() as int);
            assert forall|i: int| 0 <= i < streams.len() implies (
            #[trigger] streams[i]).fault is None by {
                assert(honest(streams[i]));
                if best is Some {
                    assert(iterator::is_first(streams, best->Some_0));
                }
            }
        },
        Some(i) => {
            assert(iterator::is_first(streams, i));
            assert(honest(streams[i]));
            if let Ok(s) = streams[i].advanced() {
                let next = streams.update(i, s);
                let data = streams[i].head().key.data;
                assert(same_faults(streams, next));
                assert(same_faults(next, next));
                iterator::lemma_total_update(streams, i, s);
                lemma_drained_faults(next, data);
                iterator::lemma_drained_total(next, data);
                match iterator::drained(next, data) {
                    Err(f) => {
                        lemma_drained_err(next, data);
                    },
                    Ok(rest) => {
                        lemma_merge_reports_faults(rest);
                        assert forall|k: int| 0 <= k < streams.len() implies (
                        #[trigger] streams[k]).fault == rest[k].fault by {
                            assert(next[k].fault == streams[k].fault);
                            assert(honest(rest[k]));
                        }
                        if iterator::merged(streams).fault is None {
                            assert forall|k: int| 0 <= k < streams.len() implies (
                            #[trigger] streams[k]).fault is None by {
                                assert(rest[k].fault is None);
                            }
                        }
                        if forall|k: int|
                            0 <= k < streams.len() ==> (#[trigger] streams[k]).fault is None {
                            assert forall|k: int| 0 <= k < rest.len() implies (
                            #[trigger] rest[k]).fault is None by {
                                assert(streams[k].fault is None);
                            }
                        }
                    },
                }
            }
        },
    }
}

/// Where passing over a key fails, one of the streams meets a fault.
proof fn lemma_drained_err(streams: Seq<Stream>, data: Seq<u8>)
    requires
        iterator::drained(streams, data) is Err,
    ensures
        exists|i: int| 0 <= i < streams.len() && (#[trigger] streams[i]).fault is Some,
    decreases iterator::total(streams),
{
    if let Some(i) = iterator::first_of(streams) {
        assert(iterator::is_first(streams, i));
        match streams[i].advanced() {
            Err(f) => {
                assert(streams[i].fault is Some);
            },
            Ok(s) => {
                let next = streams.update(i, s);
                iterator::lemma_total_update(streams, i, s);
                lemma_drained_err(next, data);
                let k = choose|k: int| 0 <= k < next.len() && (#[trigger] next[k]).fault is Some;
                assert(streams[k].fault is Some);
            },
        }
    }
}

/// The same for two streams.
pub proof fn lemma_merge_two_reports_faults(a: Stream, b: Stream)
    requires
        honest(a),
        honest(b),
    ensures
        iterator::merged_two(a, b).fault is None <==> a.fault is None && b.fault is None,
        honest(iterator::merged_two(a, b)),
    decreases a.items.len() + b.items.len(),
{
    if a.items.len() > 0 || b.items.len() > 0 {
        if let Ok((a2, b2)) = iterator::passed_two(a, b) {
            lemma_merge_two_reports_faults(a2, b2);
        }
    }
}

/// A range without an end passes over no fault, and over no entry.
pub proof fn lemma_unbounded_gives_all(s: Stream)
    requires
        honest(s),
    ensures
        iterator::bounded(s, BoundView::Unbounded) == s,
    decreases s.items.len(),
{
    if s.items.len() > 0 {
        if let Ok(rest) = s.advanced() {
            lemma_unbounded_gives_all(rest);
            assert(iterator::bounded(s, BoundView::Unbounded).items =~= s.items);
        } else {
            assert(seq![s.head()] =~= s.items);
        }
    } else {
        assert(s.items =~= Seq::empty());
    }
}

/// A read does not look further than the first table that fails it: where the tables in
/// front say nothing of the key and the next one can only fail, the read fails with that.
pub proof fn lemma_failing_table_fails_read(
    tables: Seq<TableView>,
    n: int,
    key: Seq<u8>,
    ts: u64,
    f: Fault,
    answer: Result<Option<Seq<u8>>, Fault>,
)
    requires
        0 <= n < tables.len(),
        forall|i: int, a: Result<Option<Option<Seq<u8>>>, Fault>|
            0 <= i < n && #[trigger] tables[i].answers(key, ts, a) ==> a == Ok::<
                Option<Option<Seq<u8>>>,
                Fault,
            >(None),
        forall|a: Result<Option<Option<Seq<u8>>>, Fault>| #[trigger]
            tables[n].answers(key, ts, a) ==> a == Err::<Option<Option<Seq<u8>>>, Fault>(f),
        lsm::found_on_disk(tables, key, ts, answer),
    ensures
        answer == Err::<Option<Seq<u8>>, Fault>(f),
    decreases n,
{
    let first = choose|first: Result<Option<Option<Seq<u8>>>, Fault>| #[trigger]
        tables[0].answers(key, ts, first) && (match first {
            Ok(None) => lsm::found_on_disk(tables.skip(1), key, ts, answer),
            Ok(Some(v)) => answer == Ok::<Option<Seq<u8>>, Fault>(v),
            Err(f) => answer == Err::<Option<Seq<u8>>, Fault>(f),
        });
    if n > 0 {
        let rest = tables.skip(1);
        assert forall|i: int, a: Result<Option<Option<Seq<u8>>>, Fault>|
            0 <= i < n - 1 && #[trigger] rest[i].answers(key, ts, a) implies a == Ok::<
            Option<Option<Seq<u8>>>,
            Fault,
        >(None) by {
            assert(tables[i + 1].answers(key, ts, a));
        }
        assert(rest[n - 1] == tables[n]);
        lemma_failing_table_fails_read(rest, n - 1, key, ts, f, answer);
    }
}

/// How compression is told apart in a file: 1 stands for it, and every other number for none.
pub proof fn lemma_compression_codes(v: u8)
    ensures
        CompressionType::Plain.code() == 0,
        CompressionType::Lz4.code() == 1,
        CompressionType::of(v) == CompressionType::Lz4 <==> v == 1,
{
}

/// No log is passed over when a tree is opened: where it opens, each log that is there could
/// be read to its end.
proof fn lemma_logs_are_whole(mem: MemView, logs: Map<u64, Seq<u8>>, from: u64, to: u64, id: u64)
    requires
        lsm::with_logs(mem, logs, from, to) is Ok,
        from <= id < to,
        logs.contains_key(id),
    ensures
        wal::recovered(logs[id], 0, true) is Ok,
    decreases to - from,
{
    if from < id {
        if logs.contains_key(from) {
            let records = wal::recovered(logs[from], 0, true)->Ok_0;
            lemma_logs_are_whole(mem.with_records(records), logs, (from + 1) as u64, to, id);
        } else {
            lemma_logs_are_whole(mem, logs, (from + 1) as u64, to, id);
        }
    }
}

/// A tree with a damaged file is not opened: where it opens, every table of the manifest
/// whose file is there is a table, and every log that the manifest knows and that is there
/// could be read to its end. It has the tables that the manifest says, in the order of the
/// manifest, and nothing set aside.
pub proof fn lemma_damaged_tree_is_not_opened(
    manifest: ManifestView,
    tables: Map<u64, Seq<u8>>,
    logs: Map<u64, Seq<u8>>,
    options: LsmOptions,
    tree: LsmView,
    effects: Seq<EffectView>,
    level: u32,
    id: u64,
)
    requires
        lsm::opens_to(manifest, tables, logs, options, Ok((tree, effects))),
    ensures
        manifest.tables(level).contains(id) && tables.contains_key(id) ==> sstable::opened(
            id,
            tables[id],
        ) is Ok,
        1 <= id < manifest.next_wal_id && logs.contains_key(id) ==> wal::recovered(
            logs[id],
            0,
            true,
        ) is Ok,
        (forall|i: int|
            0 <= i < manifest.tables(level).len() ==> tables.contains_key(
                #[trigger] manifest.tables(level)[i],
            )) ==> tree.tables(level).len() == manifest.tables(level).len() && forall|i: int|
            0 <= i < tree.tables(level).len() ==> (#[trigger] tree.tables(level)[i]).id
                == manifest.tables(level)[i],
        tree.immutables.len() == 0,
        tree.options == options,
{
    let ids = manifest.tables(level);
    let there = |id: u64| tables.contains_key(id);
    if manifest.levels.contains_key(level) {
        assert(tree.levels.contains_key(level));
        assert(lsm::present(ids, tables) == ids.filter(there));
        if ids.contains(id) && tables.contains_key(id) {
            listing::lemma_kept(ids, there, id);
            let i = choose|i: int| 0 <= i < ids.filter(there).len() && ids.filter(there)[i] == id;
            assert(sstable::opened(id, tables[id]) == Ok::<TableView, Fault>(
                tree.levels[level][i],
            ));
        }
        if forall|i: int| 0 <= i < ids.len() ==> tables.contains_key(#[trigger] ids[i]) {
            listing::lemma_all_kept(ids, there);
        }
    } else {
        assert(!tree.levels.contains_key(level));
    }
    if 1 <= id < manifest.next_wal_id && logs.contains_key(id) {
        lemma_logs_are_whole(MemView::fresh(), logs, 1, manifest.next_wal_id, id);
    }
}

} // verus!
