//! What a scan gives.

use crate::common::bound;
use crate::common::bound::BoundView;
use crate::common::error::Fault;
use crate::common::key::KeyView;
use crate::common::order;
use crate::storage::iterator;
use crate::storage::iterator::{Item, Stream};
use crate::storage::merge_laws;
use crate::storage::scan;
use crate::storage::scan::{Parts, Walks};
use crate::storage::table_iterator;
use vstd::prelude::*;

verus! {

/// One of the walks of a scan gives the entry.
pub open spec fn walks_hold(w: Walks, x: Item) -> bool {
    ||| w.mem.items.contains(x)
    ||| merge_laws::holds(w.immutables, x)
    ||| merge_laws::holds(w.newest, x)
    ||| merge_laws::holds(w.deeper, x)
}

/// A scan whose walks are in order and meet no fault gives every key once, in order; every
/// entry that it gives comes from one of the walks and is not beyond the end; and of each
/// key that is not beyond the end it gives the newest version that any walk has.
pub proof fn lemma_scan_is_in_order(w: Walks, end: BoundView)
    requires
        merge_laws::orderly(w.mem),
        merge_laws::all_orderly(w.immutables),
        merge_laws::all_orderly(w.newest),
        merge_laws::all_orderly(w.deeper),
    ensures
        merge_laws::orderly(iterator::bounded(w.merged(), end)),
        merge_laws::distinct_keys(iterator::bounded(w.merged(), end).items),
        forall|x: Item| #[trigger]
            iterator::bounded(w.merged(), end).items.contains(x) ==> end.ends_after(x.key.data)
                && walks_hold(w, x),
        forall|x: Item| #[trigger]
            walks_hold(w, x) && end.ends_after(x.key.data) ==> merge_laws::represented(
                iterator::bounded(w.merged(), end).items,
                x,
            ),
{
    let one = seq![w.mem];
    assert(merge_laws::all_orderly(one));
    merge_laws::lemma_merge(one);
    merge_laws::lemma_merge(w.immutables);
    merge_laws::lemma_merge(w.newest);
    merge_laws::lemma_merge(w.deeper);
    let mem = iterator::merged(one);
    let aside = iterator::merged(w.immutables);
    let newest = iterator::merged(w.newest);
    let deeper = iterator::merged(w.deeper);
    merge_laws::lemma_merge_two(mem, aside);
    merge_laws::lemma_merge_two(newest, deeper);
    let memory = iterator::merged_two(mem, aside);
    let disk = iterator::merged_two(newest, deeper);
    merge_laws::lemma_merge_two(memory, disk);
    let all = w.merged();
    merge_laws::lemma_distinct_is_sorted(all.items);
    merge_laws::lemma_bounded(all, end);
    let out = iterator::bounded(all, end).items;
    assert forall|x: Item| #[trigger] out.contains(x) implies walks_hold(w, x) by {
        assert(all.items.contains(x));
        if mem.items.contains(x) {
            assert(merge_laws::holds(one, x));
            let k = choose|k: int| 0 <= k < one.len() && (#[trigger] one[k]).items.contains(x);
        }
    }
    assert forall|x: Item| #[trigger] walks_hold(w, x) && end.ends_after(
        x.key.data,
    ) implies merge_laws::represented(out, x) by {
        if w.mem.items.contains(x) {
            assert(one[0].items.contains(x));
            assert(merge_laws::holds(one, x));
            lemma_passed_on(mem.items, memory.items, x);
            lemma_passed_on(memory.items, all.items, x);
        } else if merge_laws::holds(w.immutables, x) {
            lemma_passed_on(aside.items, memory.items, x);
            lemma_passed_on(memory.items, all.items, x);
        } else if merge_laws::holds(w.newest, x) {
            lemma_passed_on(newest.items, disk.items, x);
            lemma_passed_on(disk.items, all.items, x);
        } else {
            lemma_passed_on(deeper.items, disk.items, x);
            lemma_passed_on(disk.items, all.items, x);
        }
        let i = choose|i: int|
            0 <= i < all.items.len() && (#[trigger] all.items[i]).key.data == x.key.data
                && !x.key.before(all.items[i].key);
        let y = all.items[i];
        assert(all.items.contains(y));
        assert(out.contains(y));
        let j = choose|j: int| 0 <= j < out.len() && out[j] == y;
        assert(out[j].key.data == x.key.data);
    }
    merge_laws::lemma_bounded_distinct(all, end);
}

/// What stands for an entry is itself stood for, and so the entry.
proof fn lemma_passed_on(from: Seq<Item>, to: Seq<Item>, x: Item)
    requires
        merge_laws::represented(from, x),
        forall|y: Item| #[trigger] from.contains(y) ==> merge_laws::represented(to, y),
    ensures
        merge_laws::represented(to, x),
{
    let i = choose|i: int|
        0 <= i < from.len() && (#[trigger] from[i]).key.data == x.key.data && !x.key.before(
            from[i].key,
        );
    let y = from[i];
    assert(from.contains(y));
    let j = choose|j: int|
        0 <= j < to.len() && (#[trigger] to[j]).key.data == y.key.data && !y.key.before(to[j].key);
    crate::common::key::lemma_key_order(x.key, to[j].key, y.key);
    crate::common::key::lemma_key_order(y.key, x.key, to[j].key);
    crate::common::key::lemma_key_order(x.key, y.key, to[j].key);
    assert(to[j].key.data == x.key.data);
}

/// No entry of the stream is before the key.
pub open spec fn from(s: Stream, start: Option<Seq<u8>>) -> bool {
    start matches Some(k) ==> forall|x: Item| #[trigger]
        s.items.contains(x) ==> !order::less(x.key.data, k)
}

/// A stream in order begins with its least key.
pub proof fn lemma_head_is_least(s: Stream, k: Seq<u8>)
    requires
        merge_laws::orderly(s),
        s.items.len() > 0 ==> !order::less(s.head().key.data, k),
    ensures
        from(s, Some(k)),
{
    assert forall|x: Item| #[trigger] s.items.contains(x) implies !order::less(x.key.data, k) by {
        let i = choose|i: int| 0 <= i < s.items.len() && s.items[i] == x;
        if i > 0 {
            assert(!s.items[i].key.before(s.items[0].key));
            order::lemma_order(x.key.data, s.head().key.data, k);
        }
    }
}

/// Where the entries below a key end.
pub proof fn lemma_below(items: Seq<Item>, k: Seq<u8>)
    ensures
        iterator::below(items, k) <= items.len(),
        iterator::below(items, k) < items.len() ==> !order::less(
            items[iterator::below(items, k) as int].key.data,
            k,
        ),
        forall|i: int|
            0 <= i < iterator::below(items, k) ==> order::less((#[trigger] items[i]).key.data, k),
    decreases items.len(),
{
    if items.len() > 0 && order::less(items[0].key.data, k) {
        lemma_below(items.skip(1), k);
        let n = iterator::below(items.skip(1), k);
        assert forall|i: int| 0 <= i < n + 1 implies order::less(
            (#[trigger] items[i]).key.data,
            k,
        ) by {
            if i > 0 {
                assert(items.skip(1)[i - 1] == items[i]);
            }
        }
    }
}

/// A walk through a memory table is in order, begins at the start, and gives every version
/// from there on.
pub proof fn lemma_memory_walk(
    entries: Map<KeyView, Option<Seq<u8>>>,
    start: Option<Seq<u8>>,
    s: Stream,
)
    requires
        scan::starts_in_memory(entries, start, s),
    ensures
        merge_laws::orderly(s),
        from(s, start),
        forall|k: KeyView| #[trigger]
            entries.contains_key(k) && (start matches Some(a) ==> !order::less(k.data, a))
                ==> s.items.contains(Item { key: k, value: entries[k] }),
{
    let items = choose|items: Seq<Item>| #[trigger]
        iterator::lists_table(items, entries) && s == (Stream {
            items: match start {
                None => items,
                Some(k) => items.skip(iterator::below(items, k) as int),
            },
            fault: None,
        });
    let n = match start {
        None => 0,
        Some(k) => iterator::below(items, k) as int,
    };
    if let Some(k) = start {
        lemma_below(items, k);
    }
    assert(s.items =~= items.skip(n));
    assert forall|i: int, j: int| 0 <= i < j < s.items.len() implies !(
    #[trigger] s.items[j]).key.before((#[trigger] s.items[i]).key) by {
        assert(items[n + i].key.before(items[n + j].key));
        crate::common::key::lemma_key_order(
            items[n + i].key,
            items[n + j].key,
            items[n + i].key,
        );
    }
    if let Some(k) = start {
        lemma_head_is_least(s, k);
    }
    assert forall|k: KeyView| #[trigger]
        entries.contains_key(k) && (start matches Some(a) ==> !order::less(
            k.data,
            a,
        )) implies s.items.contains(Item { key: k, value: entries[k] }) by {
        let i = choose|i: int| 0 <= i < items.len() && (#[trigger] items[i]).key == k;
        assert(items[i] == Item { key: k, value: entries[k] });
        assert(i >= n);
        assert(s.items[i - n] == items[i]);
    }
}

proof fn lemma_sought_head(s: Stream, k: Seq<u8>)
    ensures
        table_iterator::sought(s, k) matches Ok(r) ==> r.items.len() > 0 ==> !order::less(
            r.head().key.data,
            k,
        ),
    decreases s.items.len(),
{
    if s.items.len() > 0 && order::less(s.head().key.data, k) {
        lemma_sought_head(Stream { items: s.items.skip(1), ..s }, k);
    }
}

proof fn lemma_table_walks(
    tables: Seq<crate::storage::sstable::TableView>,
    start: Option<Seq<u8>>,
    streams: Seq<Stream>,
)
    requires
        scan::all_start(tables, start, streams),
        merge_laws::all_orderly(streams),
    ensures
        forall|i: int| 0 <= i < streams.len() ==> from(#[trigger] streams[i], start),
{
    if let Some(k) = start {
        assert forall|i: int| 0 <= i < streams.len() implies from(#[trigger] streams[i], start) by {
            let t = tables[i];
            assert(scan::starts_in_table(t, start, Ok::<Stream, Fault>(streams[i])));
            let idx = choose|idx: int| #[trigger]
                t.located(k, idx) && Ok::<Stream, Fault>(streams[i]) == table_iterator::sought(
                    table_iterator::walk_from(t, idx),
                    k,
                );
            lemma_sought_head(table_iterator::walk_from(t, idx), k);
            lemma_head_is_least(streams[i], k);
        }
    }
}

/// Behind a key, a stream in order from that key on gives what is greater.
proof fn lemma_behind_key(s: Stream, k: Seq<u8>, rest: Stream)
    requires
        merge_laws::orderly(s),
        from(s, Some(k)),
        scan::behind_key(s, k) == Ok::<Stream, Fault>(rest),
    ensures
        merge_laws::orderly(rest),
        merge_laws::distinct_keys(s.items) ==> merge_laws::distinct_keys(rest.items),
        forall|x: Item| #[trigger]
            rest.items.contains(x) <==> s.items.contains(x) && x.key.data != k,
    decreases s.items.len(),
{
    if s.items.len() > 0 {
        if s.head().key.data == k {
            merge_laws::lemma_skip_orderly(s);
            let next = Stream { items: s.items.skip(1), fault: None };
            assert(from(next, Some(k)));
            if merge_laws::distinct_keys(s.items) {
                assert forall|i: int, j: int| 0 <= i < j < next.items.len() implies order::less(
                    (#[trigger] next.items[i]).key.data,
                    (#[trigger] next.items[j]).key.data,
                ) by {
                    assert(next.items[i] == s.items[i + 1] && next.items[j] == s.items[j + 1]);
                }
            }
            lemma_behind_key(next, k, rest);
        } else {
            assert forall|x: Item| #[trigger] s.items.contains(x) implies x.key.data != k by {
                let i = choose|i: int| 0 <= i < s.items.len() && s.items[i] == x;
                assert(s.items.contains(s.items[0]));
                if i > 0 {
                    assert(!s.items[i].key.before(s.items[0].key));
                    order::lemma_order(k, s.items[0].key.data, k);
                }
            }
        }
    }
}

/// A scan gives every key of its range once, in order, and of each the newest version that
/// there is: nothing outside the range, nothing that none of its walks has, and for every
/// version in memory and every entry of the tables one that is no older. Its walks through
/// tables have to be in order and meet no fault.
pub proof fn lemma_scan_gives_the_range(
    p: Parts,
    start: BoundView,
    end: BoundView,
    w: Walks,
    s: Stream,
)
    requires
        p.walked(start.key(), w),
        merge_laws::all_orderly(w.newest),
        merge_laws::all_orderly(w.deeper),
        Ok::<Stream, Fault>(s) == (match start {
            BoundView::Excluded(k) => scan::behind_key(iterator::bounded(w.merged(), end), k),
            _ => Ok(iterator::bounded(w.merged(), end)),
        }),
    ensures
        merge_laws::orderly(s),
        merge_laws::distinct_keys(s.items),
        forall|x: Item| #[trigger]
            s.items.contains(x) ==> bound::in_range(x.key.data, start, end) && walks_hold(w, x),
        forall|x: Item| #[trigger]
            walks_hold(w, x) && bound::in_range(x.key.data, start, end) ==> merge_laws::represented(
                s.items,
                x,
            ),
        forall|k: KeyView| #[trigger]
            p.mem.contains_key(k) && bound::in_range(k.data, start, end) ==> merge_laws::represented(
                s.items,
                Item { key: k, value: p.mem[k] },
            ),
{
    let from_key = start.key();
    lemma_memory_walk(p.mem, from_key, w.mem);
    assert forall|i: int| 0 <= i < w.immutables.len() implies merge_laws::orderly(
        #[trigger] w.immutables[i],
    ) && from(w.immutables[i], from_key) by {
        lemma_memory_walk(
            p.immutables[w.immutables.len() - 1 - i],
            from_key,
            w.immutables[i],
        );
    }
    lemma_table_walks(scan::newest_tables(p.levels), from_key, w.newest);
    lemma_table_walks(scan::deeper_tables(p.levels, 1), from_key, w.deeper);
    lemma_scan_is_in_order(w, end);
    let all = iterator::bounded(w.merged(), end);
    if let Some(k) = from_key {
        assert forall|x: Item| #[trigger] all.items.contains(x) implies !order::less(
            x.key.data,
            k,
        ) by {
            assert(walks_hold(w, x));
            if merge_laws::holds(w.immutables, x) {
                let i = choose|i: int|
                    0 <= i < w.immutables.len() && (#[trigger] w.immutables[i]).items.contains(x);
            }
            if merge_laws::holds(w.newest, x) {
                let i = choose|i: int|
                    0 <= i < w.newest.len() && (#[trigger] w.newest[i]).items.contains(x);
                assert(from(w.newest[i], from_key));
            }
            if merge_laws::holds(w.deeper, x) {
                let i = choose|i: int|
                    0 <= i < w.deeper.len() && (#[trigger] w.deeper[i]).items.contains(x);
                assert(from(w.deeper[i], from_key));
            }
        }
        assert forall|d: Seq<u8>| !(#[trigger] order::less(d, k)) <==> order::at_most(k, d) by {
            order::lemma_order(d, k, d);
            order::lemma_irreflexive(k);
        }
    }
    if let BoundView::Excluded(k) = start {
        lemma_behind_key(all, k, s);
    }
    assert forall|x: Item| #[trigger] s.items.contains(x) implies bound::in_range(
        x.key.data,
        start,
        end,
    ) && walks_hold(w, x) by {
        assert(all.items.contains(x));
        if let Some(k) = from_key {
            assert(!order::less(x.key.data, k));
        }
    }
    assert forall|x: Item| #[trigger] walks_hold(w, x) && bound::in_range(
        x.key.data,
        start,
        end,
    ) implies merge_laws::represented(s.items, x) by {
        assert(merge_laws::represented(all.items, x));
        if let BoundView::Excluded(k) = start {
            let i = choose|i: int|
                0 <= i < all.items.len() && (#[trigger] all.items[i]).key.data == x.key.data
                    && !x.key.before(all.items[i].key);
            let y = all.items[i];
            order::lemma_irreflexive(k);
            assert(all.items.contains(y));
            assert(s.items.contains(y));
            let j = choose|j: int| 0 <= j < s.items.len() && s.items[j] == y;
            assert(s.items[j].key.data == x.key.data);
        }
    }
    assert forall|v: KeyView| #[trigger] p.mem.contains_key(v) && bound::in_range(
        v.data,
        start,
        end,
    ) implies merge_laws::represented(s.items, Item { key: v, value: p.mem[v] }) by {
        let x = Item { key: v, value: p.mem[v] };
        if let Some(k) = from_key {
            order::lemma_order(v.data, k, v.data);
            order::lemma_irreflexive(k);
        }
        assert(w.mem.items.contains(x));
        assert(walks_hold(w, x));
    }
}

} // verus!
