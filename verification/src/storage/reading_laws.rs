//! What reads and scans of a layered tree give.

use crate::common::bound;
use crate::common::bound::BoundView;
use crate::common::error::Fault;
use crate::common::key::KeyView;
use crate::common::order;
use crate::storage::block;
use crate::storage::compaction_laws;
use crate::storage::iterator;
use crate::storage::iterator::{Item, Stream};
use crate::storage::layer_laws;
use crate::storage::lsm;
use crate::storage::lsm::LsmView;
use crate::storage::memtable;
use crate::storage::merge_laws;
use crate::storage::recovery_laws;
use crate::storage::scan;
use crate::storage::scan::Walks;
use crate::storage::scan_laws;
use crate::storage::sstable::TableView;
use crate::storage::table_builder;
use crate::storage::table_builder::BuilderView;
use crate::storage::table_iterator;
use crate::storage::table_laws;
use vstd::prelude::*;

verus! {

/// One of the tables has the version.
pub open spec fn in_tables(built: Seq<BuilderView>, k: KeyView) -> bool {
    exists|m: int, a: int|
        #![trigger built[m].entries()[a]]
        0 <= m < built.len() && 0 <= a < built[m].entries().len() && table_laws::key_of(
            built[m].entries()[a],
        ) == k
}

/// Memory or one of the tables has the version.
pub open spec fn present(
    mem: Map<KeyView, Option<Seq<u8>>>,
    built: Seq<BuilderView>,
    k: KeyView,
) -> bool {
    mem.contains_key(k) || in_tables(built, k)
}

/// The version is there, and no newer one of its key is.
pub open spec fn newest(
    mem: Map<KeyView, Option<Seq<u8>>>,
    built: Seq<BuilderView>,
    k: KeyView,
) -> bool {
    &&& present(mem, built, k)
    &&& forall|other: KeyView| #[trigger]
        present(mem, built, other) && other.data == k.data ==> other.timestamp <= k.timestamp
}

/// A version in a table is one of those that were written, and memory outdates it where it
/// has the key.
proof fn lemma_in_tables(
    s: LsmView,
    all: Map<KeyView, Option<Seq<u8>>>,
    built: Seq<BuilderView>,
    k: KeyView,
)
    requires
        layer_laws::layered(s, all, built),
        in_tables(built, k),
    ensures
        all.contains_key(k),
        layer_laws::knows(s.mem.entries, k.data) ==> exists|other: KeyView| #[trigger]
            s.mem.entries.contains_key(other) && other.data == k.data && other.timestamp
                >= k.timestamp,
{
    let (m, a) = choose|m: int, a: int|
        #![trigger built[m].entries()[a]]
        0 <= m < built.len() && 0 <= a < built[m].entries().len() && table_laws::key_of(
            built[m].entries()[a],
        ) == k;
    layer_laws::lemma_overlaid(s.mem.entries, all, built, m, a);
}

/// Those who read from now on read the newest version of a key that is there, or nothing
/// where there is none.
pub proof fn lemma_reads_newest(
    s: LsmView,
    all: Map<KeyView, Option<Seq<u8>>>,
    built: Seq<BuilderView>,
    key: Seq<u8>,
    ts: u64,
    answer: Result<Option<Seq<u8>>, Fault>,
)
    requires
        layer_laws::layered(s, all, built),
        s.immutables.len() == 0,
        ts + 1 >= s.next_ts,
    ensures
        forall|k: KeyView| #[trigger]
            newest(s.mem.entries, built, k) && k.data == key ==> (s.reads(key, ts, answer)
                <==> answer == Ok::<Option<Seq<u8>>, Fault>(all[k])),
        (forall|k: KeyView| #[trigger] present(s.mem.entries, built, k) ==> k.data != key) ==> (
        s.reads(key, ts, answer) <==> answer == Ok::<Option<Seq<u8>>, Fault>(None)),
{
    let mem = s.mem.entries;
    if layer_laws::knows(mem, key) {
        let some = choose|k: KeyView| #[trigger] mem.contains_key(k) && k.data == key;
        assert(present(mem, built, some));
        assert(all.contains_key(some));
        let top = recovery_laws::lemma_newest_exists(mem, ts, some);
        memtable::lemma_newest_is_visible(mem, key, ts, top);
        assert(present(mem, built, top));
        assert forall|k: KeyView| #[trigger] newest(mem, built, k) && k.data == key implies k
            == top by {
            if !mem.contains_key(k) {
                lemma_in_tables(s, all, built, k);
                let other = choose|other: KeyView| #[trigger]
                    mem.contains_key(other) && other.data == k.data && other.timestamp
                        >= k.timestamp;
                assert(all.contains_key(other));
            } else {
                assert(all.contains_key(k));
            }
        }
    } else {
        assert(memtable::visible(mem, key, ts) is None) by {
            assert forall|k: KeyView| !memtable::is_newest(mem, key, ts, k) by {}
        }
        let tables = layer_laws::stack(s.levels);
        let none = Seq::<TableView>::empty();
        assert(tables.reverse() + none =~= lsm::consulted(s.levels, 0));
        compaction_laws::lemma_lookup_in_written(tables, built, none, key, ts, answer);
        layer_laws::lemma_all_show(s, all, built, ts);
        assert forall|i: int| 0 <= i < built.len() implies table_laws::in_order(
            (#[trigger] built[i]).entries(),
        ) by {
            assert(compaction_laws::is_written(tables[i], built[i]));
            reveal(compaction_laws::is_written);
        }
        let (j, n) = compaction_laws::lemma_found_is_newest(built, key, ts);
        if let Some(v) = compaction_laws::found_in(built, key, ts) {
            let e = built[j].entries()[n];
            let top = table_laws::key_of(e);
            assert(present(mem, built, top));
            layer_laws::lemma_overlaid(mem, all, built, j, n);
            assert forall|k: KeyView| #[trigger] newest(mem, built, k) && k.data == key implies k
                == top by {
                let (m, a) = choose|m: int, a: int|
                    #![trigger built[m].entries()[a]]
                    0 <= m < built.len() && 0 <= a < built[m].entries().len()
                        && table_laws::key_of(built[m].entries()[a]) == k;
                assert(built[m].entries()[a].key == key);
            }
        } else {
            assert forall|k: KeyView| #[trigger] present(mem, built, k) implies k.data != key by {
                if k.data == key {
                    let (m, a) = choose|m: int, a: int|
                        #![trigger built[m].entries()[a]]
                        0 <= m < built.len() && 0 <= a < built[m].entries().len()
                            && table_laws::key_of(built[m].entries()[a]) == k;
                    assert(compaction_laws::has_key(built[m].entries(), key));
                }
            }
        }
    }
}

/// To seek in a stream in order is to leave out what is before the key.
proof fn lemma_sought(s: Stream, k: Seq<u8>)
    requires
        merge_laws::orderly(s),
    ensures
        table_iterator::sought(s, k) matches Ok(r) && merge_laws::orderly(r) && forall|x: Item|
            #[trigger]
            r.items.contains(x) <==> s.items.contains(x) && !order::less(x.key.data, k),
    decreases s.items.len(),
{
    if s.items.len() > 0 && order::less(s.head().key.data, k) {
        merge_laws::lemma_skip_orderly(s);
        lemma_sought(Stream { items: s.items.skip(1), ..s }, k);
    } else {
        scan_laws::lemma_head_is_least(s, k);
    }
}

/// The entry is one of a table's and not before the start.
spec fn within(b: BuilderView, start: Option<Seq<u8>>, x: Item) -> bool {
    &&& start matches Some(k) ==> !order::less(x.key.data, k)
    &&& exists|a: int|
        0 <= a < b.entries().len() && x == table_iterator::item_of(#[trigger] b.entries()[a])
}

/// A walk through a table that was written meets no fault and gives its entries from the
/// start on.
proof fn lemma_table_start(
    t: TableView,
    b: BuilderView,
    start: Option<Seq<u8>>,
    begun: Result<Stream, Fault>,
)
    requires
        compaction_laws::is_written(t, b),
        scan::starts_in_table(t, start, begun),
    ensures
        begun matches Ok(s) && merge_laws::orderly(s) && forall|x: Item| #[trigger]
            s.items.contains(x) <==> within(b, start, x),
{
    compaction_laws::lemma_written_walk(t, b);
    let whole = table_iterator::walk_from(t, 0);
    let items = table_iterator::items_of(b.entries());
    assert forall|x: Item| #[trigger] whole.items.contains(x) <==> within(b, None, x) by {
        if whole.items.contains(x) {
            let a = choose|a: int| 0 <= a < items.len() && items[a] == x;
            assert(x == table_iterator::item_of(b.entries()[a]));
        }
        if within(b, None, x) {
            let a = choose|a: int|
                0 <= a < b.entries().len() && x == table_iterator::item_of(
                    #[trigger] b.entries()[a],
                );
            assert(items[a] == x);
        }
    }
    if let Some(k) = start {
        let idx = choose|idx: int| #[trigger]
            t.located(k, idx) && begun == table_iterator::sought(
                table_iterator::walk_from(t, idx),
                k,
            );
        let part = table_iterator::walk_from(t, idx);
        lemma_part_walk(t, b, k, idx);
        lemma_sought(part, k);
        assert forall|x: Item| part.items.contains(x) && !order::less(x.key.data, k)
            <==> #[trigger] within(b, start, x) by {
            assert(within(b, start, x) ==> within(b, None, x));
            assert(whole.items.contains(x) <==> within(b, None, x));
        }
    }
}

/// A walk from the block where a search begins gives all entries but lesser ones.
proof fn lemma_part_walk(t: TableView, b: BuilderView, k: Seq<u8>, idx: int)
    requires
        compaction_laws::is_written(t, b),
        t.located(k, idx),
    ensures
        ({
            let whole = table_iterator::walk_from(t, 0);
            let part = table_iterator::walk_from(t, idx);
            &&& merge_laws::orderly(part)
            &&& forall|x: Item| #[trigger] part.items.contains(x) ==> whole.items.contains(x)
            &&& forall|x: Item| #[trigger]
                whole.items.contains(x) && !order::less(x.key.data, k) ==> part.items.contains(x)
        }),
{
    compaction_laws::lemma_written_walk(t, b);
    let whole = table_iterator::walk_from(t, 0);
    let part = table_iterator::walk_from(t, idx);
    reveal(compaction_laws::is_written);
    let blocks = b.blocks;
    assert(b.entries() =~= table_builder::entries_of(blocks));
    if idx < blocks.len() {
        assert forall|i: int| 0 <= i < blocks.len() implies table_laws::readable(
            b.compression,
            #[trigger] blocks[i],
        ) && crate::storage::block::all_storable(blocks[i].entries) by {
            table_laws::lemma_block_storable(b, i);
        }
        table_iterator::lemma_walk_gives_what_was_added(t.id, b, idx);
        table_laws::lemma_front_is_less(t.id, b, k, idx);
        table_laws::lemma_entries_from(blocks, idx);
        let front = table_builder::entries_of(blocks.take(idx));
        let rest = table_laws::entries_from(blocks, idx);
        let n = front.len() as int;
        assert forall|i: int| 0 <= i < part.items.len() implies #[trigger] part.items[i]
            == whole.items[n + i] by {
            assert(b.entries()[n + i] == rest[i]);
        }
        assert forall|i: int, j: int| 0 <= i < j < part.items.len() implies !(
        #[trigger] part.items[j]).key.before((#[trigger] part.items[i]).key) by {
            assert(!whole.items[n + j].key.before(whole.items[n + i].key));
        }
        assert forall|x: Item| #[trigger] part.items.contains(x) implies whole.items.contains(x) by {
            let i = choose|i: int| 0 <= i < part.items.len() && part.items[i] == x;
            assert(whole.items[n + i] == x);
        }
        assert forall|x: Item| #[trigger]
            whole.items.contains(x) && !order::less(x.key.data, k) implies part.items.contains(
            x,
        ) by {
            let i = choose|i: int| 0 <= i < whole.items.len() && whole.items[i] == x;
            if i < n {
                assert(b.entries()[i] == front[i]);
            }
            assert(part.items[i - n] == x);
        }
    }
}

/// The tables that are consulted are those that are scanned.
proof fn lemma_same_tables(levels: Map<u32, Seq<TableView>>, level: u32, t: TableView)
    ensures
        lsm::consulted(levels, level).contains(t) <==> scan::deeper_tables(levels, level).contains(
            t,
        ),
    decreases lsm::NUM_LEVELS - level,
{
    if level < lsm::NUM_LEVELS {
        lemma_same_tables(levels, (level + 1) as u32, t);
        let here = compaction_laws::tables_on(levels, level);
        let deeper = lsm::consulted(levels, (level + 1) as u32);
        let below = scan::deeper_tables(levels, (level + 1) as u32);
        assert(lsm::consulted(levels, level) =~= here.reverse() + deeper);
        assert(scan::deeper_tables(levels, level) =~= here + below);
        lemma_reversed(here, t);
        lemma_joined(here.reverse(), deeper, t);
        lemma_joined(here, below, t);
    } else {
        assert(!lsm::consulted(levels, level).contains(t));
        assert(!scan::deeper_tables(levels, level).contains(t));
    }
}

proof fn lemma_reversed(s: Seq<TableView>, t: TableView)
    ensures
        s.reverse().contains(t) <==> s.contains(t),
{
    if s.contains(t) {
        let i = choose|i: int| 0 <= i < s.len() && s[i] == t;
        assert(s.reverse()[s.len() - 1 - i] == t);
    }
    if s.reverse().contains(t) {
        let i = choose|i: int| 0 <= i < s.reverse().len() && s.reverse()[i] == t;
        assert(s[s.len() - 1 - i] == t);
    }
}

proof fn lemma_joined(a: Seq<TableView>, b: Seq<TableView>, t: TableView)
    ensures
        (a + b).contains(t) <==> a.contains(t) || b.contains(t),
{
    let both = a + b;
    if a.contains(t) {
        let i = choose|i: int| 0 <= i < a.len() && a[i] == t;
        assert(both[i] == t);
    }
    if b.contains(t) {
        let i = choose|i: int| 0 <= i < b.len() && b[i] == t;
        assert(both[a.len() + i] == t);
    }
    if both.contains(t) {
        let i = choose|i: int| 0 <= i < both.len() && both[i] == t;
        if i < a.len() {
            assert(a[i] == t);
        } else {
            assert(b[i - a.len()] == t);
        }
    }
}

/// A table is one of those that are scanned, on level 0 or deeper, if it is in the stack.
proof fn lemma_scanned_tables(levels: Map<u32, Seq<TableView>>, t: TableView)
    ensures
        layer_laws::stack(levels).contains(t) <==> scan::newest_tables(levels).contains(t)
            || scan::deeper_tables(levels, 1).contains(t),
{
    lemma_same_tables(levels, 1, t);
    let here = scan::newest_tables(levels);
    let deeper = lsm::consulted(levels, 1);
    assert(lsm::consulted(levels, 0) =~= here + deeper);
    lemma_reversed(lsm::consulted(levels, 0), t);
    lemma_joined(here, deeper, t);
}

/// What was built for a table of the stack.
proof fn lemma_built_for(
    levels: Map<u32, Seq<TableView>>,
    built: Seq<BuilderView>,
    t: TableView,
) -> (m: int)
    requires
        compaction_laws::are_written(layer_laws::stack(levels), built),
        scan::newest_tables(levels).contains(t) || scan::deeper_tables(levels, 1).contains(t),
    ensures
        0 <= m < built.len(),
        layer_laws::stack(levels)[m] == t,
        compaction_laws::is_written(t, built[m]),
{
    lemma_scanned_tables(levels, t);
    let tables = layer_laws::stack(levels);
    choose|m: int| 0 <= m < tables.len() && tables[m] == t
}

/// The walks through tables of a layered tree are in order, meet no fault, and give nothing
/// but what stands in the tables.
proof fn lemma_walks(
    levels: Map<u32, Seq<TableView>>,
    built: Seq<BuilderView>,
    tables: Seq<TableView>,
    start: Option<Seq<u8>>,
    streams: Seq<Stream>,
)
    requires
        compaction_laws::are_written(layer_laws::stack(levels), built),
        tables == scan::newest_tables(levels) || tables == scan::deeper_tables(levels, 1),
        scan::all_start(tables, start, streams),
    ensures
        merge_laws::all_orderly(streams),
        forall|x: Item| #[trigger]
            merge_laws::holds(streams, x) ==> compaction_laws::comes_from(built, x),
{
    assert forall|i: int| 0 <= i < streams.len() implies merge_laws::orderly(
        #[trigger] streams[i],
    ) by {
        assert(tables.contains(tables[i]));
        let m = lemma_built_for(levels, built, tables[i]);
        lemma_table_start(tables[i], built[m], start, Ok(streams[i]));
    }
    assert forall|x: Item| #[trigger]
        merge_laws::holds(streams, x) implies compaction_laws::comes_from(built, x) by {
        let i = choose|i: int| 0 <= i < streams.len() && (#[trigger] streams[i]).items.contains(x);
        assert(tables.contains(tables[i]));
        let m = lemma_built_for(levels, built, tables[i]);
        lemma_table_start(tables[i], built[m], start, Ok(streams[i]));
        assert(within(built[m], start, x));
        let b = built[m];
        let a = choose|a: int|
            0 <= a < b.entries().len() && x == table_iterator::item_of(#[trigger] b.entries()[a]);
        assert(x == table_iterator::item_of(built[m].entries()[a]));
    }
}

/// What stands in one of the tables and is not before the start is given by a walk.
proof fn lemma_given(
    levels: Map<u32, Seq<TableView>>,
    built: Seq<BuilderView>,
    start: Option<Seq<u8>>,
    newer: Seq<Stream>,
    deeper: Seq<Stream>,
    m: int,
    a: int,
)
    requires
        compaction_laws::are_written(layer_laws::stack(levels), built),
        scan::all_start(scan::newest_tables(levels), start, newer),
        scan::all_start(scan::deeper_tables(levels, 1), start, deeper),
        0 <= m < built.len(),
        0 <= a < built[m].entries().len(),
        start matches Some(k) ==> !order::less(built[m].entries()[a].key, k),
    ensures
        merge_laws::holds(newer, table_iterator::item_of(built[m].entries()[a]))
            || merge_laws::holds(deeper, table_iterator::item_of(built[m].entries()[a])),
{
    let x = table_iterator::item_of(built[m].entries()[a]);
    let t = layer_laws::stack(levels)[m];
    assert(layer_laws::stack(levels).contains(t));
    lemma_scanned_tables(levels, t);
    let first = scan::newest_tables(levels);
    let others = scan::deeper_tables(levels, 1);
    let b = built[m];
    assert(compaction_laws::is_written(t, b));
    assert(x == table_iterator::item_of(b.entries()[a]));
    if first.contains(t) {
        let i = choose|i: int| 0 <= i < first.len() && first[i] == t;
        assert(scan::starts_in_table(first[i], start, Ok::<Stream, Fault>(newer[i])));
        lemma_table_start(t, b, start, Ok(newer[i]));
        assert(within(b, start, x));
        assert(newer[i].items.contains(x));
    } else {
        let i = choose|i: int| 0 <= i < others.len() && others[i] == t;
        assert(scan::starts_in_table(others[i], start, Ok::<Stream, Fault>(deeper[i])));
        lemma_table_start(t, b, start, Ok(deeper[i]));
        assert(within(b, start, x));
        assert(deeper[i].items.contains(x));
    }
}

/// No walk through the tables of a layered tree begins with a fault.
proof fn lemma_no_fault(
    levels: Map<u32, Seq<TableView>>,
    built: Seq<BuilderView>,
    tables: Seq<TableView>,
    start: Option<Seq<u8>>,
    f: Fault,
)
    requires
        compaction_laws::are_written(layer_laws::stack(levels), built),
        tables == scan::newest_tables(levels) || tables == scan::deeper_tables(levels, 1),
    ensures
        !scan::some_fails(tables, start, f),
{
    if scan::some_fails(tables, start, f) {
        let i = choose|i: int|
            0 <= i < tables.len() && scan::starts_in_table(
                #[trigger] tables[i],
                start,
                Err::<Stream, Fault>(f),
            );
        assert(tables.contains(tables[i]));
        let m = lemma_built_for(levels, built, tables[i]);
        lemma_table_start(tables[i], built[m], start, Err(f));
    }
}

proof fn lemma_behind_is_ok(s: Stream, k: Seq<u8>)
    requires
        s.fault is None,
    ensures
        scan::behind_key(s, k) is Ok,
    decreases s.items.len(),
{
    if s.items.len() > 0 && s.head().key.data == k {
        lemma_behind_is_ok(Stream { items: s.items.skip(1), ..s }, k);
    }
}

/// A walk through a memory table gives nothing but what is in it.
proof fn lemma_memory_gives(
    entries: Map<KeyView, Option<Seq<u8>>>,
    start: Option<Seq<u8>>,
    s: Stream,
    x: Item,
)
    requires
        scan::starts_in_memory(entries, start, s),
        s.items.contains(x),
    ensures
        entries.contains_key(x.key),
        entries[x.key] == x.value,
{
    let items = choose|items: Seq<Item>| #[trigger]
        iterator::lists_table(items, entries) && s == (Stream {
            items: match start {
                None => items,
                Some(k) => items.skip(iterator::below(items, k) as int),
            },
            fault: None,
        });
    let i = choose|i: int| 0 <= i < s.items.len() && s.items[i] == x;
    if let Some(k) = start {
        scan_laws::lemma_below(items, k);
        assert(items[iterator::below(items, k) + i] == x);
    } else {
        assert(items[i] == x);
    }
}

/// A key of a range is not before its start.
proof fn lemma_not_before(key: Seq<u8>, start: BoundView, end: BoundView)
    requires
        bound::in_range(key, start, end),
    ensures
        start.key() matches Some(k) ==> !order::less(key, k),
{
    if let Some(k) = start.key() {
        order::lemma_order(k, key, k);
        order::lemma_irreflexive(k);
    }
}

/// What a scan gives for a version that is there: something of its key that is no older.
proof fn lemma_present_is_given(
    s: LsmView,
    all: Map<KeyView, Option<Seq<u8>>>,
    built: Seq<BuilderView>,
    start: BoundView,
    end: BoundView,
    w: Walks,
    items: Seq<Item>,
    k: KeyView,
) -> (i: int)
    requires
        layer_laws::layered(s, all, built),
        s.parts().walked(start.key(), w),
        bound::in_range(k.data, start, end),
        present(s.mem.entries, built, k),
        forall|x: Item| #[trigger]
            scan_laws::walks_hold(w, x) && bound::in_range(x.key.data, start, end)
                ==> merge_laws::represented(items, x),
        forall|v: KeyView| #[trigger]
            s.mem.entries.contains_key(v) && bound::in_range(v.data, start, end)
                ==> merge_laws::represented(items, Item { key: v, value: s.mem.entries[v] }),
    ensures
        0 <= i < items.len(),
        items[i].key.data == k.data,
        items[i].key.timestamp >= k.timestamp,
{
    let mem = s.mem.entries;
    let x = if mem.contains_key(k) {
        Item { key: k, value: mem[k] }
    } else {
        Item { key: k, value: all[k] }
    };
    if !mem.contains_key(k) {
        let (m, a) = choose|m: int, a: int|
            #![trigger built[m].entries()[a]]
            0 <= m < built.len() && 0 <= a < built[m].entries().len() && table_laws::key_of(
                built[m].entries()[a],
            ) == k;
        layer_laws::lemma_overlaid(mem, all, built, m, a);
        lemma_not_before(k.data, start, end);
        lemma_given(s.levels, built, start.key(), w.newest, w.deeper, m, a);
        assert(x == table_iterator::item_of(built[m].entries()[a]));
        assert(scan_laws::walks_hold(w, x));
    }
    assert(merge_laws::represented(items, x));
    choose|i: int|
        0 <= i < items.len() && (#[trigger] items[i]).key.data == x.key.data && !x.key.before(
            items[i].key,
        )
}

/// The stream gives keys of the range in order, each once, with what those read who read the
/// key at `ts`; and where it gives nothing for a key of the range, they find nothing.
pub open spec fn agrees(
    s: LsmView,
    start: BoundView,
    end: BoundView,
    stream: Stream,
    ts: u64,
) -> bool {
    &&& stream.fault is None
    &&& merge_laws::distinct_keys(stream.items)
    &&& forall|i: int|
        0 <= i < stream.items.len() ==> bound::in_range(
            (#[trigger] stream.items[i]).key.data,
            start,
            end,
        )
    &&& forall|i: int, answer: Result<Option<Seq<u8>>, Fault>|
        #![trigger s.reads(stream.items[i].key.data, ts, answer)]
        0 <= i < stream.items.len() ==> (s.reads(stream.items[i].key.data, ts, answer)
            <==> answer == Ok::<Option<Seq<u8>>, Fault>(stream.items[i].value))
    &&& forall|key: Seq<u8>, answer: Result<Option<Seq<u8>>, Fault>| #[trigger]
        s.reads(key, ts, answer) && bound::in_range(key, start, end) && !gives_key(stream, key)
            ==> answer == Ok::<Option<Seq<u8>>, Fault>(None)
}

/// The stream has an entry for the key.
pub open spec fn gives_key(s: Stream, key: Seq<u8>) -> bool {
    exists|i: int| 0 <= i < s.items.len() && (#[trigger] s.items[i]).key.data == key
}

/// Scans and reads of a layered tree agree. A scan does not fail and gives keys of its range
/// in order, each once. What it gives for a key is what those read who read the key from then
/// on, and where it gives nothing for a key of the range, they find nothing.
pub proof fn lemma_scan_agrees_with_reads(
    s: LsmView,
    all: Map<KeyView, Option<Seq<u8>>>,
    built: Seq<BuilderView>,
    start: BoundView,
    end: BoundView,
    result: Result<Stream, Fault>,
    ts: u64,
)
    requires
        layer_laws::layered(s, all, built),
        s.immutables.len() == 0,
        ts + 1 >= s.next_ts,
        s.parts().scanned(start, end, result),
    ensures
        result matches Ok(stream) && agrees(s, start, end, stream, ts) && forall|k: KeyView|
            #[trigger]
            present(s.mem.entries, built, k) && bound::in_range(k.data, start, end) ==> gives_key(
                stream,
                k.data,
            ),
{
    let p = s.parts();
    let mem = s.mem.entries;
    let newer = scan::newest_tables(p.levels);
    let below = scan::deeper_tables(p.levels, 1);
    if let Err(f) = result {
        lemma_no_fault(s.levels, built, newer, start.key(), f);
        lemma_no_fault(s.levels, built, below, start.key(), f);
    }
    let w = choose|w: Walks| #[trigger]
        p.walked(start.key(), w) && result == (match start {
            BoundView::Excluded(k) => scan::behind_key(iterator::bounded(w.merged(), end), k),
            _ => Ok(iterator::bounded(w.merged(), end)),
        });
    lemma_walks(s.levels, built, newer, start.key(), w.newest);
    lemma_walks(s.levels, built, below, start.key(), w.deeper);
    scan_laws::lemma_memory_walk(p.mem, start.key(), w.mem);
    assert(merge_laws::all_orderly(w.immutables));
    scan_laws::lemma_scan_is_in_order(w, end);
    if let BoundView::Excluded(k) = start {
        lemma_behind_is_ok(iterator::bounded(w.merged(), end), k);
    }
    assert(result is Ok);
    let stream = result->Ok_0;
    let items = stream.items;
    scan_laws::lemma_scan_gives_the_range(p, start, end, w, stream);
    assert forall|i: int| 0 <= i < items.len() implies bound::in_range(
        (#[trigger] items[i]).key.data,
        start,
        end,
    ) by {
        assert(items.contains(items[i]));
    }
    assert forall|i: int, answer: Result<Option<Seq<u8>>, Fault>|
        #![trigger s.reads(stream.items[i].key.data, ts, answer)]
        0 <= i < stream.items.len() implies (s.reads(stream.items[i].key.data, ts, answer)
        <==> answer == Ok::<Option<Seq<u8>>, Fault>(stream.items[i].value)) by {
        let x = items[i];
        assert(items.contains(x));
        lemma_given_is_written(s, all, built, start, w, x);
        assert(newest(mem, built, x.key)) by {
            assert forall|other: KeyView| #[trigger]
                present(mem, built, other) && other.data == x.key.data implies other.timestamp
                <= x.key.timestamp by {
                let j = lemma_present_is_given(s, all, built, start, end, w, items, other);
                order::lemma_irreflexive(x.key.data);
                if j < i {
                    assert(order::less(items[j].key.data, items[i].key.data));
                } else if i < j {
                    assert(order::less(items[i].key.data, items[j].key.data));
                }
            }
        }
        lemma_reads_newest(s, all, built, x.key.data, ts, answer);
    }
    assert forall|k: KeyView| #[trigger]
        present(mem, built, k) && bound::in_range(k.data, start, end) implies gives_key(
        stream,
        k.data,
    ) by {
        let i = lemma_present_is_given(s, all, built, start, end, w, items, k);
        assert(stream.items[i].key.data == k.data);
    }
    assert forall|key: Seq<u8>, answer: Result<Option<Seq<u8>>, Fault>| #[trigger]
        s.reads(key, ts, answer) && bound::in_range(key, start, end) && !gives_key(
            stream,
            key,
        ) implies answer == Ok::<Option<Seq<u8>>, Fault>(None) by {
        assert forall|k: KeyView| #[trigger] present(mem, built, k) implies k.data != key by {}
        lemma_reads_newest(s, all, built, key, ts, answer);
    }
}

/// A lookup finds nothing in tables that do not have the key.
proof fn lemma_found_is_there(built: Seq<BuilderView>, key: Seq<u8>, ts: u64)
    requires
        forall|m: int, a: int|
            #![trigger built[m].entries()[a]]
            0 <= m < built.len() && 0 <= a < built[m].entries().len()
                ==> built[m].entries()[a].key != key,
    ensures
        compaction_laws::found_in(built, key, ts) is None,
    decreases built.len(),
{
    if built.len() > 0 {
        let last = built.len() - 1;
        let own = built[last].entries();
        assert forall|a: int| 0 <= a < own.len() implies (#[trigger] own[a]).key != key by {
            assert(built[last].entries()[a].key != key);
        }
        block::lemma_no_version(own, 0, key, ts);
        let shorter = built.drop_last();
        assert forall|m: int, a: int|
            #![trigger shorter[m].entries()[a]]
            0 <= m < shorter.len() && 0 <= a < shorter[m].entries().len() implies
            shorter[m].entries()[a].key != key by {
            assert(built[m].entries()[a].key != key);
        }
        lemma_found_is_there(shorter, key, ts);
    }
}

/// A read of a layered tree, at any time, does not fail and comes to one value, to none
/// where no version of the key is there.
proof fn lemma_read_at(
    s: LsmView,
    all: Map<KeyView, Option<Seq<u8>>>,
    built: Seq<BuilderView>,
    key: Seq<u8>,
    ts: u64,
) -> (value: Option<Seq<u8>>)
    requires
        layer_laws::layered(s, all, built),
        s.immutables.len() == 0,
    ensures
        forall|answer: Result<Option<Seq<u8>>, Fault>| #[trigger]
            s.reads(key, ts, answer) <==> answer == Ok::<Option<Seq<u8>>, Fault>(value),
        (forall|k: KeyView| #[trigger] present(s.mem.entries, built, k) ==> k.data != key)
            ==> value is None,
{
    let mem = s.mem.entries;
    match memtable::visible(mem, key, ts) {
        Some(v) => {
            if forall|k: KeyView| #[trigger] present(mem, built, k) ==> k.data != key {
                assert forall|k: KeyView| !memtable::is_newest(mem, key, ts, k) by {
                    if memtable::is_newest(mem, key, ts, k) {
                        assert(present(mem, built, k));
                    }
                }
            }
            v
        },
        None => {
            let tables = layer_laws::stack(s.levels);
            let none = Seq::<TableView>::empty();
            assert(tables.reverse() + none =~= lsm::consulted(s.levels, 0));
            let found = compaction_laws::found_in(built, key, ts);
            assert forall|answer: Result<Option<Seq<u8>>, Fault>| #[trigger]
                s.reads(key, ts, answer) <==> answer == Ok::<Option<Seq<u8>>, Fault>(
                match found {
                    Some(v) => v,
                    None => None,
                },
            ) by {
                compaction_laws::lemma_lookup_in_written(tables, built, none, key, ts, answer);
            }
            if forall|k: KeyView| #[trigger] present(mem, built, k) ==> k.data != key {
                assert forall|m: int, a: int|
                    #![trigger built[m].entries()[a]]
                    0 <= m < built.len() && 0 <= a < built[m].entries().len() implies
                    built[m].entries()[a].key != key by {
                    assert(present(mem, built, table_laws::key_of(built[m].entries()[a])));
                }
                lemma_found_is_there(built, key, ts);
            }
            match found {
                Some(v) => v,
                None => None,
            }
        },
    }
}

/// The pairs are keys of the range in order, each once, with the value that those read who
/// read the key at `ts`; and where there is none for a key of the range, they find nothing.
pub open spec fn pairs_agree(
    s: LsmView,
    start: BoundView,
    end: BoundView,
    pairs: Seq<(Seq<u8>, Seq<u8>)>,
    ts: u64,
) -> bool {
    &&& forall|i: int, j: int|
        0 <= i < j < pairs.len() ==> order::less((#[trigger] pairs[i]).0, (#[trigger] pairs[j]).0)
    &&& forall|i: int| 0 <= i < pairs.len() ==> bound::in_range((#[trigger] pairs[i]).0, start, end)
    &&& forall|i: int, answer: Result<Option<Seq<u8>>, Fault>|
        #![trigger s.reads(pairs[i].0, ts, answer)]
        0 <= i < pairs.len() ==> (s.reads(pairs[i].0, ts, answer) <==> answer == Ok::<
            Option<Seq<u8>>,
            Fault,
        >(Some(pairs[i].1)))
    &&& forall|key: Seq<u8>, answer: Result<Option<Seq<u8>>, Fault>| #[trigger]
        s.reads(key, ts, answer) && bound::in_range(key, start, end) && !pairs_have(pairs, key)
            ==> answer == Ok::<Option<Seq<u8>>, Fault>(None)
}

/// One of the pairs has the key.
pub open spec fn pairs_have(pairs: Seq<(Seq<u8>, Seq<u8>)>, key: Seq<u8>) -> bool {
    exists|i: int| 0 <= i < pairs.len() && (#[trigger] pairs[i]).0 == key
}

/// What is shown of entries with distinct keys.
proof fn lemma_shown(
    s: LsmView,
    items: Seq<Item>,
    ts: u64,
    pairs: Seq<(Seq<u8>, Seq<u8>)>,
)
    requires
        merge_laws::distinct_keys(items),
        s.shown(items, ts, pairs),
    ensures
        forall|i: int, j: int|
            0 <= i < j < pairs.len() ==> order::less(
                (#[trigger] pairs[i]).0,
                (#[trigger] pairs[j]).0,
            ),
        forall|i: int|
            0 <= i < pairs.len() ==> exists|n: int|
                0 <= n < items.len() && (#[trigger] items[n]).key.data == (#[trigger] pairs[i]).0,
        forall|i: int|
            0 <= i < pairs.len() ==> s.reads(
                (#[trigger] pairs[i]).0,
                ts,
                Ok::<Option<Seq<u8>>, Fault>(Some(pairs[i].1)),
            ),
        forall|n: int|
            0 <= n < items.len() && !pairs_have(pairs, (#[trigger] items[n]).key.data)
                ==> s.reads(items[n].key.data, ts, Ok::<Option<Seq<u8>>, Fault>(None)),
    decreases items.len(),
{
    if items.len() > 0 {
        let shorter = items.drop_last();
        let last = items.len() - 1;
        let key = items.last().key.data;
        assert forall|i: int, j: int| 0 <= i < j < shorter.len() implies order::less(
            (#[trigger] shorter[i]).key.data,
            (#[trigger] shorter[j]).key.data,
        ) by {
            assert(shorter[i] == items[i] && shorter[j] == items[j]);
        }
        let value = choose|value: Option<Seq<u8>>| #[trigger]
            s.reads(key, ts, Ok::<Option<Seq<u8>>, Fault>(value)) && match value {
                Some(v) => pairs.len() > 0 && pairs.last() == (key, v) && s.shown(
                    shorter,
                    ts,
                    pairs.drop_last(),
                ),
                None => s.shown(shorter, ts, pairs),
            };
        let before = match value {
            Some(v) => pairs.drop_last(),
            None => pairs,
        };
        lemma_shown(s, shorter, ts, before);
        assert forall|i: int| 0 <= i < pairs.len() implies exists|n: int|
            0 <= n < items.len() && (#[trigger] items[n]).key.data == (#[trigger] pairs[i]).0 by {
            if i < before.len() {
                assert(before[i] == pairs[i]);
                let n = choose|n: int|
                    0 <= n < shorter.len() && (#[trigger] shorter[n]).key.data == before[i].0;
                assert(items[n] == shorter[n]);
            } else {
                assert(items[last].key.data == pairs[i].0);
            }
        }
        assert forall|i: int, j: int| 0 <= i < j < pairs.len() implies order::less(
            (#[trigger] pairs[i]).0,
            (#[trigger] pairs[j]).0,
        ) by {
            assert(before[i] == pairs[i]);
            if j < before.len() {
                assert(before[j] == pairs[j]);
            } else {
                let n = choose|n: int|
                    0 <= n < shorter.len() && (#[trigger] shorter[n]).key.data == before[i].0;
                assert(items[n] == shorter[n]);
                assert(order::less(items[n].key.data, items[last].key.data));
            }
        }
        assert forall|i: int| 0 <= i < pairs.len() implies s.reads(
            (#[trigger] pairs[i]).0,
            ts,
            Ok::<Option<Seq<u8>>, Fault>(Some(pairs[i].1)),
        ) by {
            if i < before.len() {
                assert(before[i] == pairs[i]);
            }
        }
        assert forall|n: int|
            0 <= n < items.len() && !pairs_have(
                pairs,
                (#[trigger] items[n]).key.data,
            ) implies s.reads(items[n].key.data, ts, Ok::<Option<Seq<u8>>, Fault>(None)) by {
            let data = items[n].key.data;
            if n < last {
                assert(shorter[n] == items[n]);
                if pairs_have(before, data) {
                    let i = choose|i: int| 0 <= i < before.len() && (#[trigger] before[i]).0 == data;
                    assert(pairs[i].0 == data);
                }
            } else if value is Some {
                assert(pairs[pairs.len() - 1].0 == data);
            }
        }
    }
}

/// Scans and reads at a time agree, whatever was written since. A scan of a layered tree at
/// `ts` does not fail and gives the keys of its range that have a value for those who read at
/// `ts`, in order, each once and with that value.
pub proof fn lemma_scan_at_agrees_with_reads(
    s: LsmView,
    all: Map<KeyView, Option<Seq<u8>>>,
    built: Seq<BuilderView>,
    start: BoundView,
    end: BoundView,
    ts: u64,
    result: Result<Seq<(Seq<u8>, Seq<u8>)>, Fault>,
)
    requires
        layer_laws::layered(s, all, built),
        s.immutables.len() == 0,
        s.scanned_at(start, end, ts, result),
    ensures
        result matches Ok(pairs) && pairs_agree(s, start, end, pairs, ts),
{
    if let Err(f) = result {
        if s.parts().scanned(start, end, Err::<Stream, Fault>(f)) {
            lemma_scan_agrees_with_reads(s, all, built, start, end, Err(f), s.next_ts);
        } else {
            let stream = choose|stream: Stream| #[trigger]
                s.parts().scanned(start, end, Ok::<Stream, Fault>(stream)) && stream.items.len() > 0
                    && (stream.fault == Some(f) || exists|i: int|
                    0 <= i < stream.items.len() && s.reads(
                        (#[trigger] stream.items[i]).key.data,
                        ts,
                        Err::<Option<Seq<u8>>, Fault>(f),
                    ));
            lemma_scan_agrees_with_reads(s, all, built, start, end, Ok(stream), s.next_ts);
            let i = choose|i: int|
                0 <= i < stream.items.len() && s.reads(
                    (#[trigger] stream.items[i]).key.data,
                    ts,
                    Err::<Option<Seq<u8>>, Fault>(f),
                );
            let value = lemma_read_at(s, all, built, stream.items[i].key.data, ts);
        }
    }
    let pairs = result->Ok_0;
    let stream = choose|stream: Stream| #[trigger]
        s.parts().scanned(start, end, Ok::<Stream, Fault>(stream)) && (stream.items.len() > 0
            ==> stream.fault is None) && s.shown(stream.items, ts, pairs);
    lemma_scan_agrees_with_reads(s, all, built, start, end, Ok(stream), s.next_ts);
    lemma_shown(s, stream.items, ts, pairs);
    assert forall|i: int| 0 <= i < pairs.len() implies bound::in_range(
        (#[trigger] pairs[i]).0,
        start,
        end,
    ) by {
        let n = choose|n: int|
            0 <= n < stream.items.len() && (#[trigger] stream.items[n]).key.data == pairs[i].0;
        assert(bound::in_range(stream.items[n].key.data, start, end));
    }
    assert forall|i: int, answer: Result<Option<Seq<u8>>, Fault>|
        #![trigger s.reads(pairs[i].0, ts, answer)]
        0 <= i < pairs.len() implies (s.reads(pairs[i].0, ts, answer) <==> answer == Ok::<
        Option<Seq<u8>>,
        Fault,
    >(Some(pairs[i].1))) by {
        let value = lemma_read_at(s, all, built, pairs[i].0, ts);
        assert(s.reads(pairs[i].0, ts, Ok::<Option<Seq<u8>>, Fault>(Some(pairs[i].1))));
    }
    assert forall|key: Seq<u8>, answer: Result<Option<Seq<u8>>, Fault>| #[trigger]
        s.reads(key, ts, answer) && bound::in_range(key, start, end) && !pairs_have(
            pairs,
            key,
        ) implies answer == Ok::<Option<Seq<u8>>, Fault>(None) by {
        let value = lemma_read_at(s, all, built, key, ts);
        if gives_key(stream, key) {
            let n = choose|n: int|
                0 <= n < stream.items.len() && (#[trigger] stream.items[n]).key.data == key;
            assert(s.reads(stream.items[n].key.data, ts, Ok::<Option<Seq<u8>>, Fault>(None)));
        } else {
            assert forall|k: KeyView| #[trigger] present(s.mem.entries, built, k) implies k.data
                != key by {}
        }
    }
}

/// What a walk of a scan gives is there, and with the value that was written.
proof fn lemma_given_is_written(
    s: LsmView,
    all: Map<KeyView, Option<Seq<u8>>>,
    built: Seq<BuilderView>,
    start: BoundView,
    w: Walks,
    x: Item,
)
    requires
        layer_laws::layered(s, all, built),
        s.immutables.len() == 0,
        s.parts().walked(start.key(), w),
        scan_laws::walks_hold(w, x),
        merge_laws::holds(w.newest, x) ==> compaction_laws::comes_from(built, x),
        merge_laws::holds(w.deeper, x) ==> compaction_laws::comes_from(built, x),
    ensures
        present(s.mem.entries, built, x.key),
        all[x.key] == x.value,
{
    let mem = s.mem.entries;
    if w.mem.items.contains(x) {
        lemma_memory_gives(mem, start.key(), w.mem, x);
    } else if merge_laws::holds(w.immutables, x) {
        let i = choose|i: int|
            0 <= i < w.immutables.len() && (#[trigger] w.immutables[i]).items.contains(x);
    } else {
        let (m, a) = choose|m: int, a: int|
            #![trigger built[m].entries()[a]]
            0 <= m < built.len() && 0 <= a < built[m].entries().len() && x
                == table_iterator::item_of(built[m].entries()[a]);
        layer_laws::lemma_overlaid(mem, all, built, m, a);
        assert(table_laws::key_of(built[m].entries()[a]) == x.key);
    }
}

} // verus!
