//! In which order the tables of a tree stand, and what follows from it.

use crate::common::error::Fault;
use crate::common::key::KeyView;
use crate::common::order;
use crate::storage::batch::OperationView;
use crate::storage::block::EntryView;
use crate::storage::compaction;
use crate::storage::compaction_laws;
use crate::storage::iterator;
use crate::storage::iterator::{Item, Stream};
use crate::storage::lsm;
use crate::storage::lsm::{EffectView, LsmOptions, LsmView};
use crate::storage::lsm_laws;
use crate::storage::manifest::ManifestView;
use crate::storage::merge_laws;
use crate::storage::size_laws;
use crate::storage::sstable::TableView;
use crate::storage::table_builder;
use crate::storage::table_builder::BuilderView;
use crate::storage::table_iterator;
use crate::storage::table_laws;
use vstd::prelude::*;

verus! {

/// Memory has some version of the key.
pub open spec fn knows(mem: Map<KeyView, Option<Seq<u8>>>, key: Seq<u8>) -> bool {
    exists|k: KeyView| #[trigger] mem.contains_key(k) && k.data == key
}

/// Memory has the same version as the entry or a newer one.
pub open spec fn outdates(mem: Map<KeyView, Option<Seq<u8>>>, e: EntryView) -> bool {
    exists|k: KeyView| #[trigger]
        mem.contains_key(k) && k.data == e.key && (k.timestamp > e.timestamp || (k.timestamp
            == e.timestamp && mem[k] == e.value))
}

/// An entry is one of all the versions that were ever written, and memory has no older
/// version of its key without having it or a newer one.
pub open spec fn overlaid(
    mem: Map<KeyView, Option<Seq<u8>>>,
    all: Map<KeyView, Option<Seq<u8>>>,
    e: EntryView,
) -> bool {
    &&& all.contains_key(table_laws::key_of(e))
    &&& all[table_laws::key_of(e)] == e.value
    &&& knows(mem, e.key) ==> outdates(mem, e)
}

/// This holds of all entries of the tables.
#[verifier::opaque]
pub open spec fn all_overlaid(
    mem: Map<KeyView, Option<Seq<u8>>>,
    all: Map<KeyView, Option<Seq<u8>>>,
    built: Seq<BuilderView>,
) -> bool {
    forall|i: int, a: int|
        #![trigger built[i].entries()[a]]
        0 <= i < built.len() && 0 <= a < built[i].entries().len() ==> overlaid(
            mem,
            all,
            built[i].entries()[a],
        )
}

/// One entry of which it holds.
pub proof fn lemma_overlaid(
    mem: Map<KeyView, Option<Seq<u8>>>,
    all: Map<KeyView, Option<Seq<u8>>>,
    built: Seq<BuilderView>,
    i: int,
    a: int,
)
    requires
        all_overlaid(mem, all, built),
        0 <= i < built.len(),
        0 <= a < built[i].entries().len(),
    ensures
        overlaid(mem, all, built[i].entries()[a]),
{
    reveal(all_overlaid);
}

/// Two tables that are in turn.
proof fn lemma_turn(built: Seq<BuilderView>, i: int, j: int, a: int)
    requires
        compaction_laws::in_turn(built),
        0 <= i < j < built.len(),
        0 <= a < built[i].entries().len(),
        compaction_laws::has_key(built[j].entries(), built[i].entries()[a].key),
    ensures
        compaction_laws::supersede(built[j].entries(), built[i].entries()[a]),
{
    reveal(compaction_laws::in_turn);
}

/// The tables of a tree, those first that are consulted last.
pub open spec fn stack(levels: Map<u32, Seq<TableView>>) -> Seq<TableView> {
    lsm::consulted(levels, 0).reverse()
}

/// The tables stand in their files as they were built, each above those before it, and
/// memory stands above all of them. All of them hold nothing but what was written, and what
/// is written next is newer.
pub open spec fn layered(
    s: LsmView,
    all: Map<KeyView, Option<Seq<u8>>>,
    built: Seq<BuilderView>,
) -> bool {
    &&& compaction_laws::are_written(stack(s.levels), built)
    &&& compaction_laws::in_turn(built)
    &&& all_overlaid(s.mem.entries, all, built)
    &&& forall|k: KeyView| #[trigger]
        s.mem.entries.contains_key(k) ==> all.contains_key(k) && all[k] == s.mem.entries[k]
    &&& forall|k: KeyView| #[trigger] all.contains_key(k) ==> k.timestamp < s.next_ts
}

/// A tree without tables is layered.
pub proof fn lemma_first_layer(s: LsmView)
    requires
        lsm::consulted(s.levels, 0).len() == 0,
        lsm_laws::stamped(s),
    ensures
        layered(s, s.mem.entries, Seq::empty()),
{
    reveal(compaction_laws::in_turn);
    reveal(all_overlaid);
}

/// A tree that is opened on its logs has in memory all that was written, and stands above
/// the tables that it had.
pub proof fn lemma_reopened_is_layered(
    s: LsmView,
    all: Map<KeyView, Option<Seq<u8>>>,
    built: Seq<BuilderView>,
    anew: LsmView,
)
    requires
        layered(s, all, built),
        anew.mem.entries == all,
        anew.levels == s.levels,
        anew.next_ts == s.next_ts,
    ensures
        layered(anew, all, built),
{
    reveal(all_overlaid);
    assert forall|i: int, a: int|
        #![trigger built[i].entries()[a]]
        0 <= i < built.len() && 0 <= a < built[i].entries().len() implies overlaid(
        anew.mem.entries,
        all,
        built[i].entries()[a],
    ) by {
        let e = built[i].entries()[a];
        assert(overlaid(s.mem.entries, all, e));
        assert(all.contains_key(table_laws::key_of(e)));
    }
}

/// A tree that was opened shows everything that its tables hold, also where the logs of it
/// are gone, and its next write is newer, as long as there is a timestamp beyond.
pub proof fn lemma_opened_shows_all(
    manifest: ManifestView,
    tables: Map<u64, Seq<u8>>,
    logs: Map<u64, Seq<u8>>,
    options: LsmOptions,
    s: LsmView,
    effects: Seq<EffectView>,
    t: TableView,
    built: BuilderView,
    i: int,
)
    requires
        lsm::opens_to(manifest, tables, logs, options, Ok((s, effects))),
        s.next_ts < u64::MAX,
        lsm::on_a_level(s.levels, t),
        compaction_laws::is_written(t, built),
        0 <= i < built.entries().len(),
    ensures
        built.entries()[i].timestamp < s.next_ts,
{
    reveal(compaction_laws::is_written);
    assert(built.entries() =~= table_builder::entries_of(built.blocks));
    table_builder::lemma_newest(built.entries());
}

/// A write goes to memory above all tables.
proof fn lemma_written_is_layered(
    s: LsmView,
    all: Map<KeyView, Option<Seq<u8>>>,
    built: Seq<BuilderView>,
    op: OperationView,
)
    requires
        layered(s, all, built),
        s.next_ts < u64::MAX,
    ensures
        layered(
            s.written(op),
            all.insert(KeyView { data: op.key, timestamp: s.next_ts }, op.value),
            built,
        ),
{
    reveal(all_overlaid);
    let w = s.written(op);
    let new = KeyView { data: op.key, timestamp: s.next_ts };
    let more = all.insert(new, op.value);
    let mem = s.mem.entries;
    assert(w.mem.entries == mem.insert(new, op.value));
    assert forall|i: int, a: int|
        #![trigger built[i].entries()[a]]
        0 <= i < built.len() && 0 <= a < built[i].entries().len() implies overlaid(
        w.mem.entries,
        more,
        built[i].entries()[a],
    ) by {
        let e = built[i].entries()[a];
        assert(overlaid(mem, all, e));
        assert(all.contains_key(table_laws::key_of(e)));
        if e.key == op.key {
            assert(w.mem.entries.contains_key(new));
        } else if knows(w.mem.entries, e.key) {
            let known = choose|k: KeyView| #[trigger]
                w.mem.entries.contains_key(k) && k.data == e.key;
            assert(mem.contains_key(known));
            let k = choose|k: KeyView| #[trigger]
                mem.contains_key(k) && k.data == e.key && (k.timestamp > e.timestamp || (
                k.timestamp == e.timestamp && mem[k] == e.value));
            assert(w.mem.entries.contains_key(k));
        }
    }
}

/// Every write that does not fail leaves the tree layered: where memory or a table has a
/// key, no table below has a newer version of it.
pub proof fn lemma_writes_keep_layers(
    s: LsmView,
    all: Map<KeyView, Option<Seq<u8>>>,
    built: Seq<BuilderView>,
    op: OperationView,
    after: LsmView,
    effects: Seq<EffectView>,
) -> (now: Seq<BuilderView>)
    requires
        layered(s, all, built),
        s.stored(op, after, effects, None),
        size_laws::moderate(s, seq![op]),
        s.immutables.len() == 0,
        s.next_ts < u64::MAX,
    ensures
        layered(
            after,
            all.insert(KeyView { data: op.key, timestamp: s.next_ts }, op.value),
            now,
        ),
        after.immutables.len() == 0,
{
    let w = s.written(op);
    let new = KeyView { data: op.key, timestamp: s.next_ts };
    let more = all.insert(new, op.value);
    lemma_written_is_layered(s, all, built, op);
    let rest = lsm_laws::lemma_stored_shape(s, op, after, effects);
    assert(seq![op] + Seq::<OperationView>::empty() =~= seq![op]);
    size_laws::lemma_written_moderate(s, op, Seq::empty());
    if op.value is Some && lsm_laws::is_full(w) {
        let (items, done) = lsm_laws::lemma_overflow(w, after, rest);
        lemma_layer_added(w, more, built, items, done);
        reveal(all_overlaid);
        let now = built.push(done);
        let table = table_laws::table_of(w.manifest.next_sst_id, done);
        let tables = stack(after.levels);
        let before = stack(w.levels);
        assert(lsm::consulted(after.levels, 0) =~= seq![table] + lsm::consulted(w.levels, 0));
        assert(tables =~= before.push(table));
        assert(compaction_laws::is_written(table, done)) by {
            reveal(compaction_laws::is_written);
        }
        assert forall|i: int|
            #![trigger tables[i]]
            #![trigger now[i]]
            0 <= i < now.len() implies compaction_laws::is_written(tables[i], now[i]) by {
            if i < built.len() {
                assert(compaction_laws::is_written(before[i], built[i]));
            }
        }
        assert forall|i: int, a: int|
            #![trigger now[i].entries()[a]]
            0 <= i < now.len() && 0 <= a < now[i].entries().len() implies overlaid(
            after.mem.entries,
            more,
            now[i].entries()[a],
        ) by {
            if i < built.len() {
                assert(overlaid(w.mem.entries, more, built[i].entries()[a]));
            } else {
                assert(done.entries()[a] == lsm::entry_of(items[a]));
                assert(w.mem.entries.contains_key(items[a].key));
            }
        }
        now
    } else {
        built
    }
}

/// The table of a memory table that stands above others stands above them.
proof fn lemma_layer_added(
    w: LsmView,
    all: Map<KeyView, Option<Seq<u8>>>,
    built: Seq<BuilderView>,
    items: Seq<Item>,
    done: BuilderView,
)
    requires
        layered(w, all, built),
        lsm::table_of(w.mem.entries, w.options.compression, items, done),
    ensures
        table_laws::in_order(done.entries()),
        compaction_laws::in_turn(built.push(done)),
{
    reveal(compaction_laws::in_turn);
    let own = done.entries();
    let now = built.push(done);
    assert forall|i: int| 0 <= i < own.len() implies #[trigger] own[i] == lsm::entry_of(
        items[i],
    ) by {}
    assert forall|i: int, j: int|
        #![trigger own[i], own[j]]
        0 <= i < j < own.len() implies table_laws::key_of(own[i]).before(
        table_laws::key_of(own[j]),
    ) by {
        assert(items[i].key.before(items[j].key));
    }
    assert forall|i: int, j: int, a: int|
        #![trigger now[i].entries()[a], now[j]]
        0 <= i < j < now.len() && 0 <= a < now[i].entries().len() && compaction_laws::has_key(
            now[j].entries(),
            now[i].entries()[a].key,
        ) implies compaction_laws::supersede(now[j].entries(), now[i].entries()[a]) by {
        let e = built[i].entries()[a];
        if j < built.len() {
            assert(built[j] == now[j]);
        } else {
            lemma_overlaid(w.mem.entries, all, built, i, a);
            let b = choose|b: int| 0 <= b < own.len() && (#[trigger] own[b]).key == e.key;
            assert(w.mem.entries.contains_key(items[b].key));
            let k = choose|k: KeyView| #[trigger]
                w.mem.entries.contains_key(k) && k.data == e.key && (k.timestamp > e.timestamp || (
                k.timestamp == e.timestamp && w.mem.entries[k] == e.value));
            let c = choose|c: int| 0 <= c < items.len() && (#[trigger] items[c]).key == k;
            assert(own[c] == lsm::entry_of(items[c]));
        }
    }
}

/// The tree with its oldest `n` tables of a level compacted into one.
pub open spec fn compacted(s: LsmView, level: u32, n: int, table: TableView) -> LsmView {
    LsmView {
        levels: compaction_laws::compacted_levels(s.levels, level, n, table),
        ..s
    }
}

/// The tables in the middle of a stack are in turn and show to those to whom all show.
proof fn lemma_middle(built: Seq<BuilderView>, from: int, to: int, ts: u64)
    requires
        compaction_laws::in_turn(built),
        compaction_laws::all_show(built, ts),
        0 <= from <= to <= built.len(),
    ensures
        compaction_laws::in_turn(built.subrange(from, to)),
        compaction_laws::all_show(built.subrange(from, to), ts),
{
    reveal(compaction_laws::in_turn);
    let part = built.subrange(from, to);
    assert forall|i: int, j: int, a: int|
        #![trigger part[i].entries()[a], part[j]]
        0 <= i < j < part.len() && 0 <= a < part[i].entries().len() && compaction_laws::has_key(
            part[j].entries(),
            part[i].entries()[a].key,
        ) implies compaction_laws::supersede(part[j].entries(), part[i].entries()[a]) by {
        assert(built[from + i].entries()[a] == part[i].entries()[a]);
        assert(built[from + j] == part[j]);
    }
    assert forall|i: int, a: int|
        #![trigger part[i].entries()[a]]
        0 <= i < part.len() && 0 <= a < part[i].entries().len() implies
        part[i].entries()[a].timestamp <= ts by {
        assert(built[from + i].entries()[a] == part[i].entries()[a]);
    }
}

/// The inputs of a compaction stand together in the stack.
proof fn lemma_inputs_written(
    tables: Seq<TableView>,
    built: Seq<BuilderView>,
    front: Seq<TableView>,
    rest: Seq<TableView>,
    inputs: Seq<TableView>,
)
    requires
        compaction_laws::are_written(tables, built),
        tables == (front + (inputs.reverse() + rest)).reverse(),
    ensures
        rest.len() + inputs.len() + front.len() == built.len(),
        compaction_laws::are_written(
            inputs,
            built.subrange(rest.len() as int, (rest.len() + inputs.len()) as int),
        ),
{
    let a = rest.len() as int;
    let middle = built.subrange(a, a + inputs.len());
    assert forall|i: int|
        #![trigger inputs[i]]
        #![trigger middle[i]]
        0 <= i < inputs.len() implies compaction_laws::is_written(inputs[i], middle[i]) by {
        assert(tables[a + i] == inputs[i]);
        assert(built[a + i] == middle[i]);
    }
}

/// The compacted table stands in the stack where its inputs stood.
proof fn lemma_output_written(
    tables: Seq<TableView>,
    built: Seq<BuilderView>,
    front: Seq<TableView>,
    rest: Seq<TableView>,
    inputs: Seq<TableView>,
    table: TableView,
    done: BuilderView,
    now: Seq<BuilderView>,
)
    requires
        compaction_laws::are_written(tables, built),
        tables == (front + (inputs.reverse() + rest)).reverse(),
        compaction_laws::is_written(table, done),
        replaced(built, rest.len() as int, inputs.len() as int, done, now),
    ensures
        compaction_laws::are_written((front + (seq![table] + rest)).reverse(), now),
{
    let a = rest.len() as int;
    let n = inputs.len() as int;
    let tops = (front + (seq![table] + rest)).reverse();
    assert forall|i: int|
        #![trigger tops[i]]
        #![trigger now[i]]
        0 <= i < tops.len() implies compaction_laws::is_written(tops[i], now[i]) by {
        if i < a {
            assert(tops[i] == tables[i] && now[i] == built[i]);
        } else if i > a {
            assert(tops[i] == tables[i - 1 + n] && now[i] == built[i - 1 + n]);
        }
    }
}

/// Every version in the tables of a layered tree shows to those who read from now on.
pub proof fn lemma_all_show(
    s: LsmView,
    all: Map<KeyView, Option<Seq<u8>>>,
    built: Seq<BuilderView>,
    ts: u64,
)
    requires
        layered(s, all, built),
        ts + 1 >= s.next_ts,
    ensures
        compaction_laws::all_show(built, ts),
{
    assert forall|i: int, b: int|
        #![trigger built[i].entries()[b]]
        0 <= i < built.len() && 0 <= b < built[i].entries().len() implies
        built[i].entries()[b].timestamp <= ts by {
        lemma_overlaid(s.mem.entries, all, built, i, b);
        assert(all.contains_key(table_laws::key_of(built[i].entries()[b])));
    }
}

/// A compaction of a layered tree leaves it layered, and changes nothing for those who read
/// from then on: every read before and after it comes to the same. The level to which the
/// tables go has to be one of those in which keys are looked for.
pub proof fn lemma_compaction_keeps_layers(
    s: LsmView,
    all: Map<KeyView, Option<Seq<u8>>>,
    built: Seq<BuilderView>,
    level: u32,
    n: int,
    items: Seq<Item>,
    estimated_keys: nat,
    done: BuilderView,
    id: u64,
) -> (now: Seq<BuilderView>)
    requires
        layered(s, all, built),
        s.levels.contains_key(level),
        level + 1 < lsm::NUM_LEVELS,
        0 <= n <= s.levels[level].len(),
        iterator::merged(compaction::inputs(s.levels[level].take(n))) == (Stream {
            items,
            fault: None,
        }),
        compaction::is_compaction(items, estimated_keys, done),
        compaction_laws::compactable(items, estimated_keys),
    ensures
        layered(compacted(s, level, n, table_laws::table_of(id, done)), all, now),
        forall|key: Seq<u8>, ts: u64, answer: Result<Option<Seq<u8>>, Fault>|
            ts + 1 >= s.next_ts ==> (#[trigger] compacted(
                s,
                level,
                n,
                table_laws::table_of(id, done),
            ).reads(key, ts, answer) <==> s.reads(key, ts, answer)),
{
    compaction_laws::lemma_compacted_is_whole(items, estimated_keys, done);
    let table = table_laws::table_of(id, done);
    let after = compacted(s, level, n, table);
    let tables = s.levels[level].take(n);
    let (front, rest) = compaction_laws::lemma_takes_their_place(s.levels, level, n, table, 0);
    let a = rest.len() as int;
    let middle = built.subrange(a, a + n);
    lemma_inputs_written(stack(s.levels), built, front, rest, tables);
    assert forall|key: Seq<u8>, ts: u64, answer: Result<Option<Seq<u8>>, Fault>|
        ts + 1 >= s.next_ts implies (#[trigger] after.reads(key, ts, answer) <==> s.reads(
        key,
        ts,
        answer,
    )) by {
        lemma_all_show(s, all, built, ts);
        lemma_middle(built, a, a + n, ts);
        compaction_laws::lemma_compaction_changes_no_read(
            s.levels,
            level,
            middle,
            items,
            estimated_keys,
            done,
            id,
            key,
            ts,
            answer,
        );
    }
    compaction_laws::lemma_merged_tables(tables, middle, items);
    assert(gives(middle, items)) by {
        reveal(gives);
    }
    let now = built.take(a).push(done) + built.skip(a + n);
    assert(compaction_laws::is_written(table, done)) by {
        lemma_compacted_in_order(items, done);
        reveal(compaction_laws::is_written);
    }
    lemma_output_written(stack(s.levels), built, front, rest, tables, table, done, now);
    lemma_overlay_kept(s.mem.entries, all, built, a, n, items, done, now);
    lemma_turn_kept(s.mem.entries, all, built, a, n, items, done, now);
    now
}

/// The entries of a compacted table are in order.
proof fn lemma_compacted_in_order(items: Seq<Item>, done: BuilderView)
    requires
        merge_laws::distinct_keys(items),
        done.entries() == items.map_values(|item: Item| lsm::entry_of(item)),
    ensures
        table_laws::in_order(done.entries()),
{
    let own = done.entries();
    assert forall|i: int, j: int|
        #![trigger own[i], own[j]]
        0 <= i < j < own.len() implies table_laws::key_of(own[i]).before(
        table_laws::key_of(own[j]),
    ) by {
        assert(order::less(items[i].key.data, items[j].key.data));
    }
}

/// The entry stands in one of the `n` tables from the `a`th on.
spec fn is_input(built: Seq<BuilderView>, a: int, n: int, e: EntryView) -> bool {
    exists|m: int, b: int|
        #![trigger built[m].entries()[b]]
        a <= m < a + n && 0 <= b < built[m].entries().len() && e == built[m].entries()[b]
}

/// `now` is `built` with one table in place of the `n` from the `a`th on.
spec fn replaced(
    built: Seq<BuilderView>,
    a: int,
    n: int,
    done: BuilderView,
    now: Seq<BuilderView>,
) -> bool {
    &&& 0 <= a
    &&& 0 <= n
    &&& a + n <= built.len()
    &&& now == built.take(a).push(done) + built.skip(a + n)
}

proof fn lemma_overlay_kept(
    mem: Map<KeyView, Option<Seq<u8>>>,
    all: Map<KeyView, Option<Seq<u8>>>,
    built: Seq<BuilderView>,
    a: int,
    n: int,
    items: Seq<Item>,
    done: BuilderView,
    now: Seq<BuilderView>,
)
    requires
        all_overlaid(mem, all, built),
        replaced(built, a, n, done, now),
        done.entries() == items.map_values(|item: Item| lsm::entry_of(item)),
        gives(built.subrange(a, a + n), items),
    ensures
        all_overlaid(mem, all, now),
{
    assert forall|i: int, b: int|
        #![trigger now[i].entries()[b]]
        0 <= i < now.len() && 0 <= b < now[i].entries().len() implies overlaid(
        mem,
        all,
        now[i].entries()[b],
    ) by {
        if i < a {
            assert(now[i] == built[i]);
            lemma_overlaid(mem, all, built, i, b);
        } else if i > a {
            assert(now[i] == built[i - 1 + n]);
            lemma_overlaid(mem, all, built, i - 1 + n, b);
        } else {
            assert(now[i] == done);
            assert(done.entries()[b] == lsm::entry_of(items[b]));
            lemma_own(built, a, n, items, b);
            let (m, c) = choose|m: int, c: int|
                #![trigger built[m].entries()[c]]
                a <= m < a + n && 0 <= c < built[m].entries().len() && done.entries()[b]
                    == built[m].entries()[c];
            lemma_overlaid(mem, all, built, m, c);
        }
    }
    reveal(all_overlaid);
}

proof fn lemma_turn_kept(
    mem: Map<KeyView, Option<Seq<u8>>>,
    all: Map<KeyView, Option<Seq<u8>>>,
    built: Seq<BuilderView>,
    a: int,
    n: int,
    items: Seq<Item>,
    done: BuilderView,
    now: Seq<BuilderView>,
)
    requires
        all_overlaid(mem, all, built),
        compaction_laws::in_turn(built),
        replaced(built, a, n, done, now),
        done.entries() == items.map_values(|item: Item| lsm::entry_of(item)),
        gives(built.subrange(a, a + n), items),
    ensures
        compaction_laws::in_turn(now),
{
    let own = done.entries();
    assert forall|i: int, j: int, b: int|
        #![trigger now[i].entries()[b], now[j]]
        0 <= i < j < now.len() && 0 <= b < now[i].entries().len() && compaction_laws::has_key(
            now[j].entries(),
            now[i].entries()[b].key,
        ) implies compaction_laws::supersede(now[j].entries(), now[i].entries()[b]) by {
        let j0 = if j < a {
            j
        } else {
            j - 1 + n
        };
        if i < a && j == a {
            assert(now[i] == built[i] && now[j] == done);
            lemma_compacted_supersedes(mem, all, built, a, n, items, own, i, b);
        } else if i == a {
            assert(now[i] == done && now[j] == built[j0]);
            assert(own[b] == lsm::entry_of(items[b]));
            lemma_own(built, a, n, items, b);
            let (m, c) = choose|m: int, c: int|
                #![trigger built[m].entries()[c]]
                a <= m < a + n && 0 <= c < built[m].entries().len() && own[b]
                    == built[m].entries()[c];
            lemma_turn(built, m, j0, c);
        } else {
            let i0 = if i < a {
                i
            } else {
                i - 1 + n
            };
            assert(now[i] == built[i0] && now[j] == built[j0]);
            lemma_turn(built, i0, j0, b);
        }
    }
    reveal(compaction_laws::in_turn);
}

/// A merge of the tables gives these items.
#[verifier::opaque]
spec fn gives(tables: Seq<BuilderView>, items: Seq<Item>) -> bool {
    &&& forall|k: int|
        0 <= k < items.len() ==> compaction_laws::comes_from(tables, #[trigger] items[k])
    &&& forall|m: int, c: int|
        #![trigger tables[m].entries()[c]]
        0 <= m < tables.len() && 0 <= c < tables[m].entries().len() ==> merge_laws::represented(
            items,
            table_iterator::item_of(tables[m].entries()[c]),
        )
}

/// An entry of the compacted table is one of its inputs.
proof fn lemma_own(built: Seq<BuilderView>, a: int, n: int, items: Seq<Item>, i: int)
    requires
        0 <= a,
        0 <= n,
        a + n <= built.len(),
        0 <= i < items.len(),
        gives(built.subrange(a, a + n), items),
    ensures
        is_input(built, a, n, lsm::entry_of(items[i])),
{
    reveal(gives);
    let middle = built.subrange(a, a + n);
    assert(compaction_laws::comes_from(middle, items[i]));
    let (m, b) = choose|m: int, b: int|
        #![trigger middle[m].entries()[b]]
        0 <= m < middle.len() && 0 <= b < middle[m].entries().len() && items[i]
            == table_iterator::item_of(middle[m].entries()[b]);
    assert(built[a + m] == middle[m]);
    assert(lsm::entry_of(items[i]) == built[a + m].entries()[b]);
}

/// An input has something that stands for it in the compacted table.
proof fn lemma_stood_for(
    built: Seq<BuilderView>,
    a: int,
    n: int,
    items: Seq<Item>,
    m: int,
    c: int,
) -> (k: int)
    requires
        0 <= a <= m < a + n,
        a + n <= built.len(),
        0 <= c < built[m].entries().len(),
        gives(built.subrange(a, a + n), items),
    ensures
        0 <= k < items.len(),
        items[k].key.data == built[m].entries()[c].key,
        items[k].key.timestamp >= built[m].entries()[c].timestamp,
{
    reveal(gives);
    let middle = built.subrange(a, a + n);
    assert(middle[m - a] == built[m]);
    let x = table_iterator::item_of(middle[m - a].entries()[c]);
    assert(merge_laws::represented(items, x));
    choose|k: int|
        0 <= k < items.len() && (#[trigger] items[k]).key.data == x.key.data && !x.key.before(
            items[k].key,
        )
}

/// Where the compacted table has a key, it has the same version as a table below its inputs
/// or a newer one.
proof fn lemma_compacted_supersedes(
    mem: Map<KeyView, Option<Seq<u8>>>,
    all: Map<KeyView, Option<Seq<u8>>>,
    built: Seq<BuilderView>,
    a: int,
    n: int,
    items: Seq<Item>,
    own: Seq<EntryView>,
    i: int,
    b: int,
)
    requires
        0 <= i < a,
        0 <= n,
        a + n <= built.len(),
        0 <= b < built[i].entries().len(),
        compaction_laws::in_turn(built),
        all_overlaid(mem, all, built),
        own == items.map_values(|item: Item| lsm::entry_of(item)),
        gives(built.subrange(a, a + n), items),
        compaction_laws::has_key(own, built[i].entries()[b].key),
    ensures
        compaction_laws::supersede(own, built[i].entries()[b]),
{
    let e = built[i].entries()[b];
    let d = choose|d: int| 0 <= d < own.len() && (#[trigger] own[d]).key == e.key;
    assert(own[d] == lsm::entry_of(items[d]));
    lemma_own(built, a, n, items, d);
    let (m, c) = choose|m: int, c: int|
        #![trigger built[m].entries()[c]]
        a <= m < a + n && 0 <= c < built[m].entries().len() && lsm::entry_of(items[d])
            == built[m].entries()[c];
    let newer = built[m].entries();
    assert(newer[c].key == e.key);
    lemma_turn(built, i, m, b);
    let f = choose|f: int|
        0 <= f < newer.len() && (#[trigger] newer[f]).key == e.key && (newer[f].timestamp
            > e.timestamp || newer[f] == e);
    let k = lemma_stood_for(built, a, n, items, m, f);
    assert(own[k] == lsm::entry_of(items[k]));
    lemma_own(built, a, n, items, k);
    let (p, q) = choose|p: int, q: int|
        #![trigger built[p].entries()[q]]
        a <= p < a + n && 0 <= q < built[p].entries().len() && lsm::entry_of(items[k])
            == built[p].entries()[q];
    lemma_overlaid(mem, all, built, p, q);
    lemma_overlaid(mem, all, built, i, b);
    if own[k].timestamp == e.timestamp {
        assert(table_laws::key_of(own[k]) == table_laws::key_of(e));
        assert(own[k] == e);
    }
}

} // verus!
