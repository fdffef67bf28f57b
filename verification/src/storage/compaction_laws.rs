//! What a compaction leaves as it was.

use crate::common::error::Fault;
use crate::common::order;
use crate::storage::block;
use crate::storage::block::EntryView;
use crate::storage::compaction;
use crate::storage::compaction::TaskView;
use crate::storage::fault_laws;
use crate::storage::iterator;
use crate::storage::iterator::{Item, Stream};
use crate::storage::lsm;
use crate::storage::lsm_laws;
use crate::storage::manifest;
use crate::storage::manifest::{ManifestEdit, ManifestView, MAX_ID};
use crate::storage::merge_laws;
use crate::storage::recovery_laws;
use crate::storage::size_laws;
use crate::storage::size_laws::MOST_ENTRIES;
use crate::storage::sstable;
use crate::storage::sstable::{CompressionType, TableView};
use crate::storage::table_builder;
use crate::storage::table_builder::BuilderView;
use crate::storage::table_iterator;
use crate::storage::table_laws;
use vstd::prelude::*;

verus! {

/// The table stands in its file as it was built, its versions in order.
#[verifier::opaque]
pub open spec fn is_written(t: TableView, built: BuilderView) -> bool {
    &&& table_laws::whole(built)
    &&& table_laws::in_order(built.entries())
    &&& t == table_laws::table_of(t.id, built)
}

/// The tables stand in their files as they were built.
pub open spec fn are_written(tables: Seq<TableView>, built: Seq<BuilderView>) -> bool {
    &&& built.len() == tables.len()
    &&& forall|i: int|
        #![trigger tables[i]]
        #![trigger built[i]]
        0 <= i < tables.len() ==> is_written(tables[i], built[i])
}

/// Some entry is of the key.
pub open spec fn has_key(entries: Seq<EntryView>, key: Seq<u8>) -> bool {
    exists|i: int| 0 <= i < entries.len() && (#[trigger] entries[i]).key == key
}

/// One of the entries is the same version as `old` or a newer one.
pub open spec fn supersede(entries: Seq<EntryView>, old: EntryView) -> bool {
    exists|i: int|
        0 <= i < entries.len() && (#[trigger] entries[i]).key == old.key && (entries[i].timestamp
            > old.timestamp || entries[i] == old)
}

/// The tables were written in turn: where a later one has a key, no earlier one has a newer
/// version of it.
#[verifier::opaque]
pub open spec fn in_turn(built: Seq<BuilderView>) -> bool {
    forall|i: int, j: int, a: int|
        #![trigger built[i].entries()[a], built[j]]
        0 <= i < j < built.len() && 0 <= a < built[i].entries().len() && has_key(
            built[j].entries(),
            built[i].entries()[a].key,
        ) ==> supersede(built[j].entries(), built[i].entries()[a])
}

/// Every version in the tables shows to a reader at `ts`.
pub open spec fn all_show(built: Seq<BuilderView>, ts: u64) -> bool {
    forall|i: int, a: int|
        #![trigger built[i].entries()[a]]
        0 <= i < built.len() && 0 <= a < built[i].entries().len()
            ==> built[i].entries()[a].timestamp <= ts
}

/// What a lookup in the tables finds, the last one first.
pub open spec fn found_in(built: Seq<BuilderView>, key: Seq<u8>, ts: u64) -> Option<Option<Seq<u8>>>
    decreases built.len(),
{
    if built.len() == 0 {
        None
    } else {
        match block::first_version(built.last().entries(), 0, key, ts) {
            Some(v) => Some(v),
            None => found_in(built.drop_last(), key, ts),
        }
    }
}

/// The first version of a key is its newest, if the entries are in order.
proof fn lemma_first_is_newest(entries: Seq<EntryView>, k: int, key: Seq<u8>, ts: u64) -> (n: int)
    requires
        table_laws::in_order(entries),
        0 <= k <= entries.len(),
        forall|i: int| 0 <= i < entries.len() ==> (#[trigger] entries[i]).timestamp <= ts,
        forall|i: int| 0 <= i < k ==> (#[trigger] entries[i]).key != key,
    ensures
        match block::first_version(entries, k, key, ts) {
            Some(v) => {
                &&& 0 <= n < entries.len()
                &&& entries[n].key == key
                &&& entries[n].value == v
                &&& forall|i: int|
                    0 <= i < entries.len() && (#[trigger] entries[i]).key == key ==> i == n
                        || entries[i].timestamp < entries[n].timestamp
            },
            None => !has_key(entries, key),
        },
    decreases entries.len() - k,
{
    if k == entries.len() {
        0
    } else if entries[k].key == key {
        assert forall|i: int| 0 <= i < entries.len() && (#[trigger] entries[i]).key == key implies i
            == k || entries[i].timestamp < entries[k].timestamp by {
            if i > k {
                assert(table_laws::key_of(entries[k]).before(table_laws::key_of(entries[i])));
                order::lemma_irreflexive(key);
            }
        }
        k
    } else {
        lemma_first_is_newest(entries, k + 1, key, ts)
    }
}

/// Where the tables have a key, the last one with it has the newest version of all.
pub proof fn lemma_found_is_newest(built: Seq<BuilderView>, key: Seq<u8>, ts: u64) -> (at: (int, int))
    requires
        forall|i: int|
            0 <= i < built.len() ==> table_laws::in_order((#[trigger] built[i]).entries()),
        in_turn(built),
        all_show(built, ts),
    ensures
        match found_in(built, key, ts) {
            Some(v) => {
                let (j, n) = at;
                &&& 0 <= j < built.len()
                &&& 0 <= n < built[j].entries().len()
                &&& built[j].entries()[n].key == key
                &&& built[j].entries()[n].value == v
                &&& forall|i: int, a: int|
                    #![trigger built[i].entries()[a]]
                    0 <= i < built.len() && 0 <= a < built[i].entries().len()
                        && built[i].entries()[a].key == key ==> built[i].entries()[a].timestamp
                        < built[j].entries()[n].timestamp || built[i].entries()[a]
                        == built[j].entries()[n]
            },
            None => forall|i: int|
                0 <= i < built.len() ==> !has_key((#[trigger] built[i]).entries(), key),
        },
    decreases built.len(),
{
    reveal(in_turn);
    if built.len() == 0 {
        (0, 0)
    } else {
        let last = built.len() - 1;
        let shorter = built.drop_last();
        let entries = built.last().entries();
        assert(built[last] == built.last());
        assert forall|i: int| 0 <= i < entries.len() implies (#[trigger] entries[i]).timestamp
            <= ts by {
            assert(built[last].entries()[i].timestamp <= ts);
        }
        let n = lemma_first_is_newest(entries, 0, key, ts);
        match block::first_version(entries, 0, key, ts) {
            Some(v) => {
                let newest = built[last].entries()[n];
                assert(has_key(entries, key));
                assert forall|i: int, a: int|
                    #![trigger built[i].entries()[a]]
                    0 <= i < built.len() && 0 <= a < built[i].entries().len()
                        && built[i].entries()[a].key == key implies built[i].entries()[a].timestamp
                    < newest.timestamp || built[i].entries()[a] == newest by {
                    if i < last {
                        let old = built[i].entries()[a];
                        assert(supersede(built[last].entries(), old));
                        let b = choose|b: int|
                            0 <= b < entries.len() && (#[trigger] entries[b]).key == old.key && (
                            entries[b].timestamp > old.timestamp || entries[b] == old);
                        assert(b == n || entries[b].timestamp < entries[n].timestamp);
                    }
                }
                (last, n)
            },
            None => {
                assert forall|i: int, j: int, a: int|
                    #![trigger shorter[i].entries()[a], shorter[j]]
                    0 <= i < j < shorter.len() && 0 <= a < shorter[i].entries().len() && has_key(
                        shorter[j].entries(),
                        shorter[i].entries()[a].key,
                    ) implies supersede(shorter[j].entries(), shorter[i].entries()[a]) by {
                    assert(built[i].entries()[a] == shorter[i].entries()[a]);
                    assert(built[j] == shorter[j]);
                }
                assert forall|i: int, a: int|
                    #![trigger shorter[i].entries()[a]]
                    0 <= i < shorter.len() && 0 <= a < shorter[i].entries().len() implies
                    shorter[i].entries()[a].timestamp <= ts by {
                    assert(built[i].entries()[a].timestamp <= ts);
                }
                let at = lemma_found_is_newest(shorter, key, ts);
                if found_in(shorter, key, ts) is Some {
                    assert forall|i: int, a: int|
                        #![trigger built[i].entries()[a]]
                        0 <= i < built.len() && 0 <= a < built[i].entries().len()
                            && built[i].entries()[a].key == key implies
                        built[i].entries()[a].timestamp < built[at.0].entries()[at.1].timestamp
                        || built[i].entries()[a] == built[at.0].entries()[at.1] by {
                        if i == last {
                            assert(entries[a].key == key);
                        } else {
                            assert(shorter[i].entries()[a].key == key);
                        }
                    }
                } else {
                    assert forall|i: int| 0 <= i < built.len() implies !has_key(
                        (#[trigger] built[i]).entries(),
                        key,
                    ) by {
                        if i < last {
                            assert(!has_key(shorter[i].entries(), key));
                        }
                    }
                }
                at
            },
        }
    }
}

/// A table that was written gives its entries in order, and meets no fault.
pub proof fn lemma_written_walk(t: TableView, built: BuilderView)
    requires
        is_written(t, built),
    ensures
        ({
            let s = table_iterator::walk_from(t, 0);
            &&& merge_laws::orderly(s)
            &&& s.items == table_iterator::items_of(built.entries())
        }),
{
    reveal(is_written);
    let all = table_builder::entries_of(built.blocks);
    assert(built.entries() =~= all);
    assert forall|i: int| 0 <= i < built.blocks.len() implies table_laws::readable(
        built.compression,
        #[trigger] built.blocks[i],
    ) && block::all_storable(built.blocks[i].entries) by {
        table_laws::lemma_block_storable(built, i);
    }
    table_iterator::lemma_walk_gives_what_was_added(t.id, built, 0);
    assert(built.blocks.skip(0) =~= built.blocks);
    let items = table_iterator::items_of(built.entries());
    assert forall|i: int, j: int| 0 <= i < j < items.len() implies !(
    #[trigger] items[j]).key.before((#[trigger] items[i]).key) by {
        let a = built.entries()[i];
        let b = built.entries()[j];
        assert(table_laws::key_of(a).before(table_laws::key_of(b)));
        crate::common::key::lemma_key_order(
            table_laws::key_of(a),
            table_laws::key_of(b),
            table_laws::key_of(a),
        );
    }
}

/// One of the tables has the entry.
pub open spec fn comes_from(built: Seq<BuilderView>, x: Item) -> bool {
    exists|m: int, a: int|
        #![trigger built[m].entries()[a]]
        0 <= m < built.len() && 0 <= a < built[m].entries().len() && x == table_iterator::item_of(
            built[m].entries()[a],
        )
}

/// A merge of tables that were written gives every key once; every entry that it gives is one
/// of theirs; and of each of their entries it gives one with the same key that is no older.
pub proof fn lemma_merged_tables(
    tables: Seq<TableView>,
    built: Seq<BuilderView>,
    items: Seq<Item>,
)
    requires
        are_written(tables, built),
        iterator::merged(compaction::inputs(tables)) == (Stream { items, fault: None }),
    ensures
        merge_laws::distinct_keys(items),
        forall|i: int| 0 <= i < items.len() ==> comes_from(built, #[trigger] items[i]),
        forall|m: int, a: int|
            #![trigger built[m].entries()[a]]
            0 <= m < built.len() && 0 <= a < built[m].entries().len() ==> merge_laws::represented(
                items,
                table_iterator::item_of(built[m].entries()[a]),
            ),
{
    let streams = compaction::inputs(tables);
    let len = tables.len() as int;
    assert forall|k: int| 0 <= k < streams.len() implies merge_laws::orderly(
        #[trigger] streams[k],
    ) && streams[k].items == table_iterator::items_of(built[len - 1 - k].entries()) by {
        assert(tables.reverse()[k] == tables[len - 1 - k]);
        lemma_written_walk(tables[len - 1 - k], built[len - 1 - k]);
    }
    merge_laws::lemma_merge(streams);
    assert forall|i: int| 0 <= i < items.len() implies comes_from(built, #[trigger] items[i]) by {
        assert(items.contains(items[i]));
        let k = choose|k: int|
            0 <= k < streams.len() && (#[trigger] streams[k]).items.contains(items[i]);
        let a = choose|a: int| 0 <= a < streams[k].items.len() && streams[k].items[a] == items[i];
        assert(items[i] == table_iterator::item_of(built[len - 1 - k].entries()[a]));
    }
    assert forall|m: int, a: int|
        #![trigger built[m].entries()[a]]
        0 <= m < built.len() && 0 <= a < built[m].entries().len() implies merge_laws::represented(
        items,
        table_iterator::item_of(built[m].entries()[a]),
    ) by {
        let x = table_iterator::item_of(built[m].entries()[a]);
        let k = len - 1 - m;
        assert(streams[k].items[a] == x);
        assert(streams[k].items.contains(x));
        assert(merge_laws::holds(streams, x));
    }
}

/// The table that a compaction writes has of every key what the last of its inputs that has
/// the key gives for it.
proof fn lemma_compacted_version(
    tables: Seq<TableView>,
    built: Seq<BuilderView>,
    items: Seq<Item>,
    estimated_keys: nat,
    done: BuilderView,
    key: Seq<u8>,
    ts: u64,
)
    requires
        are_written(tables, built),
        in_turn(built),
        all_show(built, ts),
        iterator::merged(compaction::inputs(tables)) == (Stream { items, fault: None }),
        compaction::is_compaction(items, estimated_keys, done),
    ensures
        table_laws::in_order(done.entries()),
        block::first_version(done.entries(), 0, key, ts) == found_in(built, key, ts),
{
    lemma_merged_tables(tables, built, items);
    let out = done.entries();
    assert forall|i: int| 0 <= i < out.len() implies #[trigger] out[i] == lsm::entry_of(
        items[i],
    ) by {}
    assert forall|i: int, j: int|
        #![trigger out[i], out[j]]
        0 <= i < j < out.len() implies table_laws::key_of(out[i]).before(
        table_laws::key_of(out[j]),
    ) by {
        assert(order::less(items[i].key.data, items[j].key.data));
    }
    assert forall|i: int| 0 <= i < built.len() implies table_laws::in_order(
        (#[trigger] built[i]).entries(),
    ) by {
        assert(is_written(tables[i], built[i]));
        reveal(is_written);
    }
    let (j, n) = lemma_found_is_newest(built, key, ts);
    match found_in(built, key, ts) {
        None => {
            assert forall|i: int| 0 <= i < out.len() implies (#[trigger] out[i]).key != key by {
                assert(comes_from(built, items[i]));
                let (m, a) = choose|m: int, a: int|
                    #![trigger built[m].entries()[a]]
                    0 <= m < built.len() && 0 <= a < built[m].entries().len() && items[i]
                        == table_iterator::item_of(built[m].entries()[a]);
                if out[i].key == key {
                    assert(built[m].entries()[a].key == key);
                    assert(has_key(built[m].entries(), key));
                }
            }
            block::lemma_no_version(out, 0, key, ts);
        },
        Some(v) => {
            let e = built[j].entries()[n];
            let x = table_iterator::item_of(e);
            assert(merge_laws::represented(items, x));
            let i = choose|i: int|
                0 <= i < items.len() && (#[trigger] items[i]).key.data == x.key.data
                    && !x.key.before(items[i].key);
            assert(comes_from(built, items[i]));
            let (m, a) = choose|m: int, a: int|
                #![trigger built[m].entries()[a]]
                0 <= m < built.len() && 0 <= a < built[m].entries().len() && items[i]
                    == table_iterator::item_of(built[m].entries()[a]);
            assert(built[m].entries()[a].key == key);
            assert(out[i] == e);
            assert forall|p: int| 0 <= p < i implies !((#[trigger] out[p]).key == out[i].key
                && out[p].timestamp <= ts) by {
                assert(order::less(items[p].key.data, items[i].key.data));
                order::lemma_irreflexive(key);
            }
            block::lemma_first_version(out, 0, i, ts);
        },
    }
}

/// How a table that was written takes part in a lookup.
proof fn lemma_lookup_in_front(
    t: TableView,
    built: BuilderView,
    rest: Seq<TableView>,
    key: Seq<u8>,
    ts: u64,
    answer: Result<Option<Seq<u8>>, Fault>,
)
    requires
        is_written(t, built),
    ensures
        lsm::found_on_disk(seq![t] + rest, key, ts, answer) <==> match block::first_version(
            built.entries(),
            0,
            key,
            ts,
        ) {
            Some(v) => answer == Ok::<Option<Seq<u8>>, Fault>(v),
            None => lsm::found_on_disk(rest, key, ts, answer),
        },
{
    reveal(is_written);
    let all = seq![t] + rest;
    let shown = block::first_version(built.entries(), 0, key, ts);
    assert(all.skip(1) =~= rest);
    assert(all[0] == t);
    assert forall|first: Result<Option<Option<Seq<u8>>>, Fault>| #[trigger]
        t.answers(key, ts, first) implies first == Ok::<Option<Option<Seq<u8>>>, Fault>(shown) by {
        table_laws::lemma_lookup_gives_what_was_added(t.id, built, key, ts, first);
    }
    let some = lsm_laws::lemma_answers_exist(t, key, ts);
    assert(all[0].answers(key, ts, Ok::<Option<Option<Seq<u8>>>, Fault>(shown)));
}

/// A lookup in tables that were written, the last one first, and then in others.
pub proof fn lemma_lookup_in_written(
    tables: Seq<TableView>,
    built: Seq<BuilderView>,
    rest: Seq<TableView>,
    key: Seq<u8>,
    ts: u64,
    answer: Result<Option<Seq<u8>>, Fault>,
)
    requires
        are_written(tables, built),
    ensures
        lsm::found_on_disk(tables.reverse() + rest, key, ts, answer) <==> match found_in(
            built,
            key,
            ts,
        ) {
            Some(v) => answer == Ok::<Option<Seq<u8>>, Fault>(v),
            None => lsm::found_on_disk(rest, key, ts, answer),
        },
    decreases tables.len(),
{
    if tables.len() == 0 {
        assert(tables.reverse() + rest =~= rest);
    } else {
        let fewer = tables.drop_last();
        let last = tables.len() - 1;
        assert(is_written(tables[last], built[last]));
        assert(tables.reverse() + rest =~= seq![tables[last]] + (fewer.reverse() + rest));
        lemma_lookup_in_front(
            tables[last],
            built[last],
            fewer.reverse() + rest,
            key,
            ts,
            answer,
        );
        let shorter = built.drop_last();
        assert forall|i: int|
            #![trigger fewer[i]]
            #![trigger shorter[i]]
            0 <= i < fewer.len() implies is_written(fewer[i], shorter[i]) by {
            assert(is_written(tables[i], built[i]));
        }
        lemma_lookup_in_written(fewer, shorter, rest, key, ts, answer);
    }
}

/// What comes to the same behind some tables comes to the same in all.
proof fn lemma_same_behind(
    front: Seq<TableView>,
    a: Seq<TableView>,
    b: Seq<TableView>,
    key: Seq<u8>,
    ts: u64,
    answer: Result<Option<Seq<u8>>, Fault>,
)
    requires
        lsm::found_on_disk(a, key, ts, answer) <==> lsm::found_on_disk(b, key, ts, answer),
    ensures
        lsm::found_on_disk(front + a, key, ts, answer) <==> lsm::found_on_disk(
            front + b,
            key,
            ts,
            answer,
        ),
    decreases front.len(),
{
    if front.len() == 0 {
        assert(front + a =~= a);
        assert(front + b =~= b);
    } else {
        lemma_same_behind(front.skip(1), a, b, key, ts, answer);
        assert((front + a).skip(1) =~= front.skip(1) + a);
        assert((front + b).skip(1) =~= front.skip(1) + b);
        assert((front + a)[0] == front[0]);
        assert((front + b)[0] == front[0]);
    }
}

/// The tables of a level, none where the level has no entry.
pub open spec fn tables_on(levels: Map<u32, Seq<TableView>>, level: u32) -> Seq<TableView> {
    if levels.contains_key(level) {
        levels[level]
    } else {
        Seq::empty()
    }
}

/// The levels after a compaction: the oldest `n` tables of a level are gone, and the next
/// level has one more.
pub open spec fn compacted_levels(
    levels: Map<u32, Seq<TableView>>,
    level: u32,
    n: int,
    table: TableView,
) -> Map<u32, Seq<TableView>> {
    levels.insert(level, levels[level].skip(n)).insert(
        (level + 1) as u32,
        tables_on(levels, (level + 1) as u32).push(table),
    )
}

proof fn lemma_beyond_unchanged(
    levels: Map<u32, Seq<TableView>>,
    level: u32,
    n: int,
    table: TableView,
    from: u32,
)
    requires
        level + 1 < lsm::NUM_LEVELS,
        from > level + 1,
    ensures
        lsm::consulted(compacted_levels(levels, level, n, table), from) == lsm::consulted(
            levels,
            from,
        ),
    decreases lsm::NUM_LEVELS - from,
{
    if from < lsm::NUM_LEVELS {
        lemma_beyond_unchanged(levels, level, n, table, (from + 1) as u32);
    }
}

/// In the order in which tables are consulted, the one that a compaction writes stands where
/// its inputs stood.
pub proof fn lemma_takes_their_place(
    levels: Map<u32, Seq<TableView>>,
    level: u32,
    n: int,
    table: TableView,
    from: u32,
) -> (around: (Seq<TableView>, Seq<TableView>))
    requires
        levels.contains_key(level),
        level + 1 < lsm::NUM_LEVELS,
        0 <= n <= levels[level].len(),
        from <= level,
    ensures
        lsm::consulted(levels, from) == around.0 + (levels[level].take(n).reverse() + around.1),
        lsm::consulted(compacted_levels(levels, level, n, table), from) == around.0 + (seq![table]
            + around.1),
    decreases level - from,
{
    let after = compacted_levels(levels, level, n, table);
    if from < level {
        let (front, rest) = lemma_takes_their_place(levels, level, n, table, (from + 1) as u32);
        let here = tables_on(levels, from).reverse();
        assert(lsm::consulted(levels, from) =~= here + lsm::consulted(levels, (from + 1) as u32));
        assert(lsm::consulted(after, from) =~= here + lsm::consulted(after, (from + 1) as u32));
        let inputs = levels[level].take(n).reverse();
        assert(here + (front + (inputs + rest)) =~= (here + front) + (inputs + rest));
        assert(here + (front + (seq![table] + rest)) =~= (here + front) + (seq![table] + rest));
        (here + front, rest)
    } else {
        let below = (level + 1) as u32;
        lemma_beyond_unchanged(levels, level, n, table, (level + 2) as u32);
        let deeper = lsm::consulted(levels, (level + 2) as u32);
        let front = levels[level].skip(n).reverse();
        let inputs = levels[level].take(n).reverse();
        let next = tables_on(levels, below);
        let rest = next.reverse() + deeper;
        assert(lsm::consulted(levels, below) =~= rest);
        assert(next.push(table).reverse() =~= seq![table] + next.reverse());
        assert(lsm::consulted(after, below) =~= seq![table] + rest);
        assert(levels[level].reverse() =~= front + inputs);
        assert(lsm::consulted(levels, level) =~= front + (inputs + rest));
        assert(lsm::consulted(after, level) =~= front + (seq![table] + rest));
        (front, rest)
    }
}

/// What is merged is not too much and not too long for a table.
pub open spec fn compactable(items: Seq<Item>, estimated_keys: nat) -> bool {
    &&& estimated_keys < MOST_ENTRIES
    &&& items.len() < MOST_ENTRIES
    &&& size_laws::items_short(CompressionType::Plain, items)
}

/// The table of a compaction is read as it was written.
pub proof fn lemma_compacted_is_whole(items: Seq<Item>, estimated_keys: nat, done: BuilderView)
    requires
        compaction::is_compaction(items, estimated_keys, done),
        compactable(items, estimated_keys),
    ensures
        table_laws::whole(done),
{
    let blank = lsm::blank(estimated_keys, CompressionType::Plain);
    let filled = choose|filled: BuilderView| #[trigger]
        lsm::builds(blank, items, filled) && filled.finished(done);
    size_laws::lemma_short_table_is_whole(
        estimated_keys,
        CompressionType::Plain,
        items,
        filled,
        done,
    );
}

/// A compaction changes nothing for a reader to whom all versions show: where the oldest
/// tables of a level are merged into one on the next, every lookup before and after it finds
/// the same. The next level has to be one of those in which keys are looked for.
pub proof fn lemma_compaction_changes_no_read(
    levels: Map<u32, Seq<TableView>>,
    level: u32,
    built: Seq<BuilderView>,
    items: Seq<Item>,
    estimated_keys: nat,
    done: BuilderView,
    id: u64,
    key: Seq<u8>,
    ts: u64,
    answer: Result<Option<Seq<u8>>, Fault>,
)
    requires
        levels.contains_key(level),
        level + 1 < lsm::NUM_LEVELS,
        built.len() <= levels[level].len(),
        are_written(levels[level].take(built.len() as int), built),
        in_turn(built),
        all_show(built, ts),
        iterator::merged(compaction::inputs(levels[level].take(built.len() as int))) == (Stream {
            items,
            fault: None,
        }),
        compaction::is_compaction(items, estimated_keys, done),
        compactable(items, estimated_keys),
    ensures
        lsm::found_on_disk(
            lsm::consulted(
                compacted_levels(
                    levels,
                    level,
                    built.len() as int,
                    table_laws::table_of(id, done),
                ),
                0,
            ),
            key,
            ts,
            answer,
        ) <==> lsm::found_on_disk(lsm::consulted(levels, 0), key, ts, answer),
{
    let n = built.len() as int;
    let tables = levels[level].take(n);
    let table = table_laws::table_of(id, done);
    lemma_compacted_version(tables, built, items, estimated_keys, done, key, ts);
    lemma_compacted_is_whole(items, estimated_keys, done);
    assert(is_written(table, done)) by {
        reveal(is_written);
    }
    let (front, rest) = lemma_takes_their_place(levels, level, n, table, 0);
    lemma_lookup_in_written(tables, built, rest, key, ts, answer);
    lemma_lookup_in_front(table, done, rest, key, ts, answer);
    lemma_same_behind(
        front,
        tables.reverse() + rest,
        seq![table] + rest,
        key,
        ts,
        answer,
    );
}

/// To keep some entries and then some of these is to keep those that both keep.
proof fn lemma_kept_twice(s: Seq<u64>, removed: Seq<u64>)
    requires
        removed.len() > 0,
    ensures
        s.filter(|x: u64| !removed.drop_last().contains(x)).filter(|x: u64| x != removed.last())
            == s.filter(|x: u64| !removed.contains(x)),
    decreases s.len(),
{
    reveal(Seq::filter);
    let first = |x: u64| !removed.drop_last().contains(x);
    let then = |x: u64| x != removed.last();
    let both = |x: u64| !removed.contains(x);
    if s.len() > 0 {
        lemma_kept_twice(s.drop_last(), removed);
        let x = s.last();
        let shorter = s.drop_last().filter(first);
        assert(both(x) == (first(x) && then(x))) by {
            if removed.contains(x) {
                let i = choose|i: int| 0 <= i < removed.len() && removed[i] == x;
                if i < removed.len() - 1 {
                    assert(removed.drop_last()[i] == x);
                }
            }
            if removed.drop_last().contains(x) {
                let i = choose|i: int|
                    0 <= i < removed.drop_last().len() && removed.drop_last()[i] == x;
                assert(removed[i] == x);
            }
            assert(removed[removed.len() - 1] == removed.last());
        }
        if first(x) {
            assert(s.filter(first) == shorter.push(x));
            assert(shorter.push(x).drop_last() =~= shorter);
        }
    }
}

/// What a removal of tables leaves.
proof fn lemma_removed(m: ManifestView, level: u32, ids: Seq<u64>)
    requires
        m.levels.contains_key(level),
    ensures
        compaction::removed_from(m, level, ids) == (ManifestView {
            levels: m.levels.insert(level, m.levels[level].filter(|x: u64| !ids.contains(x))),
            ..m
        }),
    decreases ids.len(),
{
    let here = m.levels[level];
    let keep = |x: u64| !ids.contains(x);
    if ids.len() == 0 {
        lemma_all_kept(here, ids);
        assert(m.levels.insert(level, here) =~= m.levels);
    } else {
        lemma_removed(m, level, ids.drop_last());
        lemma_kept_twice(here, ids);
        let before = compaction::removed_from(m, level, ids.drop_last());
        let after = before.edited(ManifestEdit::RemoveSst { level, id: ids.last() });
        let id = ids.last();
        let first = |x: u64| !ids.drop_last().contains(x);
        let then = |x: u64| x != id;
        assert(before.levels[level] == here.filter(first));
        assert(then =~= |x: u64| x != ids.last());
        assert(here.filter(first).filter(then) == here.filter(keep));
        assert(after.levels[level] == before.levels[level].filter(then));
        assert(after.levels =~= m.levels.insert(level, here.filter(keep)));
    }
}

proof fn lemma_all_kept(s: Seq<u64>, removed: Seq<u64>)
    requires
        removed.len() == 0,
    ensures
        s.filter(|x: u64| !removed.contains(x)) == s,
    decreases s.len(),
{
    reveal(Seq::filter);
    if s.len() > 0 {
        lemma_all_kept(s.drop_last(), removed);
        assert(s.drop_last().push(s.last()) =~= s);
    }
}

/// Without its first entries, a list of distinct numbers is the rest of it.
proof fn lemma_prefix_gone(s: Seq<u64>, removed: Seq<u64>, n: int)
    requires
        s.no_duplicates(),
        0 <= n,
        forall|i: int| 0 <= i < s.len() ==> (removed.contains(#[trigger] s[i]) <==> i < n),
    ensures
        s.filter(|x: u64| !removed.contains(x)) == if n < s.len() {
            s.skip(n)
        } else {
            Seq::empty()
        },
    decreases s.len(),
{
    reveal(Seq::filter);
    if s.len() > 0 {
        let shorter = s.drop_last();
        assert forall|i: int| 0 <= i < shorter.len() implies (removed.contains(
            #[trigger] shorter[i],
        ) <==> i < n) by {
            assert(shorter[i] == s[i]);
        }
        lemma_prefix_gone(shorter, removed, n);
        assert(s.last() == s[s.len() - 1]);
        if n < s.len() {
            assert(s.skip(n) =~= (if n < shorter.len() {
                shorter.skip(n)
            } else {
                Seq::empty()
            }).push(s.last()));
        }
    } else {
        assert(s.filter(|x: u64| !removed.contains(x)) =~= Seq::empty());
    }
}

/// A compaction that is called for takes the oldest tables of one level away, and exactly
/// these, and puts one with a new number on the next.
pub proof fn lemma_compacted_manifest(m: ManifestView, task: TaskView)
    requires
        compaction::picked(m) == Some(task),
        m.levels[task.level].no_duplicates(),
    ensures
        m.levels.contains_key(task.level),
        task.input_ssts == m.levels[task.level].take(task.input_ssts.len() as int),
        task.output_level == task.level + 1,
        task.level < compaction::MAX_LEVELS,
        compaction::compacted(m, task).levels == m.levels.insert(
            task.level,
            m.levels[task.level].skip(task.input_ssts.len() as int),
        ).insert(task.output_level, m.tables(task.output_level).push(m.next_sst_id)),
        compaction::compacted(m, task).next_wal_id == m.next_wal_id,
{
    let here = m.levels[task.level];
    let n = task.input_ssts.len() as int;
    lemma_picked(m, 1);
    if !(m.levels.contains_key(0) && m.levels[0].len() >= compaction::LEVEL0_COMPACTION_TRIGGER) {
        assert(here.len() > 0);
    }
    assert(task.input_ssts =~= here.take(n));
    let renumbered = ManifestView { next_sst_id: u64::wrapping_add(m.next_sst_id, 1), ..m };
    lemma_removed(renumbered, task.level, task.input_ssts);
    assert forall|i: int| 0 <= i < here.len() implies (here.take(n).contains(#[trigger] here[i])
        <==> i < n) by {
        if i < n {
            assert(here.take(n)[i] == here[i]);
        }
    }
    lemma_prefix_gone(here, here.take(n), n);
    if n == here.len() {
        assert(here.skip(n) =~= Seq::empty());
    }
}

proof fn lemma_picked(m: ManifestView, level: u32)
    requires
        level >= 1,
    ensures
        compaction::picked_from(m, level) matches Some(task) ==> {
            &&& task.level >= level
            &&& task.output_level == task.level + 1
            &&& task.level < compaction::MAX_LEVELS
            &&& m.levels.contains_key(task.level)
            &&& m.levels[task.level].len() > 0
            &&& task.input_ssts == seq![m.levels[task.level][0]]
        },
    decreases compaction::MAX_LEVELS - level,
{
    if level < compaction::MAX_LEVELS {
        lemma_picked(m, (level + 1) as u32);
        if compaction::overfull(m, level) {
            lemma_power_positive(compaction::LEVEL_SIZE_MULTIPLIER as nat, level as nat);
            let allowed = compaction::power(
                compaction::LEVEL_SIZE_MULTIPLIER as nat,
                level as nat,
            );
            assert(m.levels[level].len() > 0);
        }
    }
}

proof fn lemma_power_positive(base: nat, exp: nat)
    requires
        base > 0,
    ensures
        compaction::power(base, exp) > 0,
    decreases exp,
{
    if exp > 0 {
        lemma_power_positive(base, (exp - 1) as nat);
        assert(base * compaction::power(base, (exp - 1) as nat) > 0) by (nonlinear_arith)
            requires
                base > 0,
                compaction::power(base, (exp - 1) as nat) > 0,
        ;
    }
}

/// How many tables a level has.
pub open spec fn table_count(m: ManifestView, level: u32) -> nat {
    if m.levels.contains_key(level) {
        m.levels[level].len()
    } else {
        0
    }
}

/// How many tables a level below the first may have: ten on level 1, and on each level ten
/// times as many as on the one before it.
pub open spec fn share(level: u32) -> nat {
    if level == 1 {
        10
    } else if level == 2 {
        100
    } else if level == 3 {
        1_000
    } else if level == 4 {
        10_000
    } else if level == 5 {
        100_000
    } else {
        1_000_000
    }
}

/// When something is due. Level 0 is with four tables, and then all of it goes to level 1.
/// Else the first of the levels from 1 to 6 is that has more than its share, and its oldest
/// table goes to the next level. Where no level has too much, nothing is due.
pub proof fn lemma_due(m: ManifestView)
    ensures
        compaction::picked(m) is None <==> table_count(m, 0) < 4 && forall|level: u32|
            1 <= level <= 6 ==> #[trigger] table_count(m, level) <= share(level),
        table_count(m, 0) >= 4 ==> compaction::picked(m) == Some(
            TaskView { level: 0, input_ssts: m.levels[0], output_level: 1 },
        ),
        table_count(m, 0) < 4 ==> (compaction::picked(m) matches Some(task) ==> {
            &&& 1 <= task.level <= 6
            &&& table_count(m, task.level) > share(task.level)
            &&& forall|level: u32|
                1 <= level < task.level ==> #[trigger] table_count(m, level) <= share(level)
            &&& task.input_ssts == seq![m.levels[task.level][0]]
            &&& task.output_level == task.level + 1
        }),
{
    lemma_due_from(m, 1);
    if table_count(m, 0) < 4 && !(compaction::picked(m) is None) {
        let task = compaction::picked(m)->0;
        assert(table_count(m, task.level) > share(task.level));
    }
}

proof fn lemma_due_from(m: ManifestView, from: u32)
    requires
        1 <= from <= 7,
    ensures
        match compaction::picked_from(m, from) {
            None => forall|level: u32|
                from <= level <= 6 ==> #[trigger] table_count(m, level) <= share(level),
            Some(task) => {
                &&& from <= task.level <= 6
                &&& table_count(m, task.level) > share(task.level)
                &&& forall|level: u32|
                    from <= level < task.level ==> #[trigger] table_count(m, level) <= share(level)
                &&& task.input_ssts == seq![m.levels[task.level][0]]
                &&& task.output_level == task.level + 1
            },
        },
    decreases 7 - from,
{
    if from <= 6 {
        lemma_due_from(m, (from + 1) as u32);
        assert(compaction::power(10, from as nat) == share(from)) by {
            reveal_with_fuel(compaction::power, 8);
        }
        assert(compaction::overfull(m, from) <==> table_count(m, from) > share(from));
    }
}

/// A damaged table is not compacted away: a compaction that succeeds could open each table
/// that went into it and walk through all of it.
pub proof fn lemma_damaged_input_stops_compaction(
    ids: Seq<u64>,
    files: Seq<Seq<u8>>,
    items: Seq<Item>,
    i: int,
)
    requires
        compaction::newest_of(ids, files, Ok(items)),
        0 <= i < ids.len(),
    ensures
        sstable::opened(ids[i], files[i]) is Ok,
        sstable::opened(ids[i], files[i]) matches Ok(t) ==> table_iterator::walk_from(
            t,
            0,
        ).fault is None,
{
    lemma_all_open(ids, files, 0, i);
    let tables = compaction::tables_in(ids, files);
    let streams = compaction::inputs(tables);
    assert forall|k: int| 0 <= k < streams.len() implies fault_laws::honest(
        #[trigger] streams[k],
    ) by {
        if streams[k].fault is Some && streams[k].items.len() == 0 {
            assert(compaction::begins_with(streams, streams[k].fault->Some_0));
        }
    }
    fault_laws::lemma_merge_reports_faults(streams);
    let k = ids.len() - 1 - i;
    assert(tables.reverse()[k] == tables[i]);
    assert(streams[k] == table_iterator::walk_from(tables[i], 0));
}

proof fn lemma_all_open(ids: Seq<u64>, files: Seq<Seq<u8>>, k: int, i: int)
    requires
        0 <= k <= i < ids.len(),
        compaction::unopenable(ids, files, k) is None,
    ensures
        sstable::opened(ids[i], files[i]) is Ok,
    decreases i - k,
{
    if k < i {
        lemma_all_open(ids, files, k + 1, i);
    }
}

/// The edits of a compaction: the tables that went into it leave their level, and the new one
/// comes to the next.
pub open spec fn compaction_edits(task: TaskView, id: u64) -> Seq<ManifestEdit> {
    task.input_ssts.map_values(
        |x: u64| ManifestEdit::RemoveSst { level: task.level, id: x },
    ).push(ManifestEdit::AddSst { level: task.output_level, id })
}

/// What a compaction writes to the file of the manifest says what it does to the manifest:
/// read back, the lines make of the old manifest the new one.
pub proof fn lemma_compaction_is_replayed(m: ManifestView, task: TaskView)
    requires
        m.next_sst_id <= MAX_ID,
    ensures
        ({
            let lines = compaction::removal_lines(task.level, task.input_ssts) + manifest::line_of(
                ManifestEdit::AddSst { level: task.output_level, id: m.next_sst_id },
            );
            &&& manifest::replayed(m, lines) == Ok::<ManifestView, Fault>(
                compaction::compacted(m, task),
            )
            &&& compaction::compacted(m, task) == m.edited_by(
                compaction_edits(task, m.next_sst_id),
            )
        }),
{
    let id = m.next_sst_id;
    let add = ManifestEdit::AddSst { level: task.output_level, id };
    let removals = task.input_ssts.map_values(
        |x: u64| ManifestEdit::RemoveSst { level: task.level, id: x },
    );
    let edits = compaction_edits(task, id);
    assert(edits == removals.push(add));
    lemma_removal_edits(m, task.level, task.input_ssts);
    recovery_laws::lemma_edits_grow(m, removals, add);
    lemma_renumbered(m, (id + 1) as u64, task.level, task.input_ssts);
    assert forall|i: int| 0 <= i < edits.len() implies manifest::numbered(
        #[trigger] edits[i],
    ) by {}
    manifest::lemma_edits_are_replayed(m, edits);
}

/// The lines and the edits that take tables away go together.
proof fn lemma_removal_edits(m: ManifestView, level: u32, ids: Seq<u64>)
    ensures
        ({
            let edits = ids.map_values(|x: u64| ManifestEdit::RemoveSst { level, id: x });
            &&& manifest::text_of(edits) == compaction::removal_lines(level, ids)
            &&& m.edited_by(edits) == compaction::removed_from(m, level, ids)
        }),
    decreases ids.len(),
{
    let edits = ids.map_values(|x: u64| ManifestEdit::RemoveSst { level, id: x });
    if ids.len() > 0 {
        let shorter = ids.drop_last();
        let fewer = shorter.map_values(|x: u64| ManifestEdit::RemoveSst { level, id: x });
        let last = ManifestEdit::RemoveSst { level, id: ids.last() };
        lemma_removal_edits(m, level, shorter);
        assert(edits =~= fewer.push(last));
        recovery_laws::lemma_edits_grow(m, fewer, last);
    } else {
        assert(edits =~= Seq::empty());
    }
}

/// Which number comes next does not matter for what is taken away.
proof fn lemma_renumbered(m: ManifestView, next: u64, level: u32, ids: Seq<u64>)
    ensures
        compaction::removed_from(ManifestView { next_sst_id: next, ..m }, level, ids) == (
        ManifestView { next_sst_id: next, ..compaction::removed_from(m, level, ids) }),
        compaction::removed_from(m, level, ids).next_sst_id == m.next_sst_id,
    decreases ids.len(),
{
    if ids.len() > 0 {
        lemma_renumbered(m, next, level, ids.drop_last());
    }
}

} // verus!
