//! What holds of merged streams.

use crate::common::bound::BoundView;
use crate::common::error::Fault;
use crate::common::key;
use crate::common::order;
use crate::storage::iterator;
use crate::storage::iterator::{Item, Stream};
use vstd::prelude::*;

verus! {

/// The keys are in order; one may occur more than once.
pub open spec fn sorted(items: Seq<Item>) -> bool {
    forall|i: int, j: int|
        0 <= i < j < items.len() ==> !(#[trigger] items[j]).key.before((#[trigger] items[i]).key)
}

/// The keys are in order, and no two entries have the same bytes for a key.
pub open spec fn distinct_keys(items: Seq<Item>) -> bool {
    forall|i: int, j: int|
        0 <= i < j < items.len() ==> order::less(
            (#[trigger] items[i]).key.data,
            (#[trigger] items[j]).key.data,
        )
}

/// A stream in order that meets no fault.
pub open spec fn orderly(s: Stream) -> bool {
    sorted(s.items) && s.fault is None
}

pub open spec fn all_orderly(streams: Seq<Stream>) -> bool {
    forall|k: int| 0 <= k < streams.len() ==> orderly(#[trigger] streams[k])
}

/// One of the streams holds the entry.
pub open spec fn holds(streams: Seq<Stream>, x: Item) -> bool {
    exists|k: int| 0 <= k < streams.len() && (#[trigger] streams[k]).items.contains(x)
}

/// The entry stands for `x` among `items`: it has the same key, and `x` is not newer.
pub open spec fn represented(items: Seq<Item>, x: Item) -> bool {
    exists|i: int|
        0 <= i < items.len() && (#[trigger] items[i]).key.data == x.key.data && !x.key.before(
            items[i].key,
        )
}

spec fn from_key(streams: Seq<Stream>, data: Seq<u8>) -> bool {
    forall|x: Item| #[trigger] holds(streams, x) ==> order::at_most(data, x.key.data)
}

/// A stream in order stays so behind its first entry, which is the least.
pub proof fn lemma_skip_orderly(s: Stream)
    requires
        orderly(s),
        s.items.len() > 0,
    ensures
        s.advanced() == Ok::<Stream, Fault>(Stream { items: s.items.skip(1), fault: None }),
        orderly(Stream { items: s.items.skip(1), fault: None }),
        forall|x: Item| #[trigger]
            s.items.contains(x) <==> x == s.head() || s.items.skip(1).contains(x),
        forall|x: Item| #[trigger] s.items.contains(x) ==> !x.key.before(s.head().key),
{
    let rest = s.items.skip(1);
    assert forall|i: int, j: int| 0 <= i < j < rest.len() implies !(
    #[trigger] rest[j]).key.before((#[trigger] rest[i]).key) by {
        assert(rest[j] == s.items[j + 1] && rest[i] == s.items[i + 1]);
    }
    assert forall|x: Item| #[trigger] s.items.contains(x) <==> x == s.head() || rest.contains(
        x,
    ) by {
        if s.items.contains(x) {
            let i = choose|i: int| 0 <= i < s.items.len() && s.items[i] == x;
            if i > 0 {
                assert(rest[i - 1] == x);
            }
        }
        if rest.contains(x) {
            let i = choose|i: int| 0 <= i < rest.len() && rest[i] == x;
            assert(s.items[i + 1] == x);
        }
        assert(s.items[0] == s.head());
    }
    assert forall|x: Item| #[trigger] s.items.contains(x) implies !x.key.before(s.head().key) by {
        let i = choose|i: int| 0 <= i < s.items.len() && s.items[i] == x;
        key::lemma_key_order(x.key, x.key, x.key);
        assert(s.items[0] == s.head());
    }
}

/// Moving one of the streams on takes its current entry away and nothing else.
proof fn lemma_update_holds(streams: Seq<Stream>, i: int)
    requires
        all_orderly(streams),
        0 <= i < streams.len(),
        streams[i].items.len() > 0,
    ensures
        ({
            let s = Stream { items: streams[i].items.skip(1), fault: None };
            let next = streams.update(i, s);
            &&& streams[i].advanced() == Ok::<Stream, Fault>(s)
            &&& all_orderly(next)
            &&& iterator::total(next) + 1 == iterator::total(streams)
            &&& forall|x: Item| #[trigger]
                holds(next, x) ==> holds(streams, x)
            &&& forall|x: Item| #[trigger]
                holds(streams, x) ==> holds(next, x) || x == streams[i].head()
        }),
{
    let s = Stream { items: streams[i].items.skip(1), fault: None };
    let next = streams.update(i, s);
    lemma_skip_orderly(streams[i]);
    iterator::lemma_total_update(streams, i, s);
    assert forall|k: int| 0 <= k < next.len() implies orderly(#[trigger] next[k]) by {
        if k != i {
            assert(orderly(streams[k]));
        }
    }
    assert forall|x: Item| #[trigger] holds(next, x) implies holds(streams, x) by {
        let k = choose|k: int| 0 <= k < next.len() && (#[trigger] next[k]).items.contains(x);
        assert(streams[k].items.contains(x));
    }
    assert forall|x: Item| #[trigger] holds(streams, x) implies holds(next, x) || x
        == streams[i].head() by {
        let k = choose|k: int| 0 <= k < streams.len() && (#[trigger] streams[k]).items.contains(x);
        if k != i {
            assert(next[k].items.contains(x));
        } else if x != streams[i].head() {
            assert(next[i].items.contains(x));
        }
    }
}

/// The first entry of all stands before all.
proof fn lemma_first_is_least(streams: Seq<Stream>, i: int, x: Item)
    requires
        all_orderly(streams),
        iterator::is_first(streams, i),
        holds(streams, x),
    ensures
        !x.key.before(streams[i].head().key),
        order::at_most(streams[i].head().key.data, x.key.data),
{
    let k = choose|k: int| 0 <= k < streams.len() && (#[trigger] streams[k]).items.contains(x);
    lemma_skip_orderly(streams[k]);
    let a = streams[i].head().key;
    let b = streams[k].head().key;
    if k != i {
        assert(iterator::leads(streams, i, k));
    }
    key::lemma_key_order(x.key, a, b);
    key::lemma_key_order(a, b, x.key);
    key::lemma_key_order(x.key, b, a);
    order::lemma_order(a.data, x.key.data, a.data);
}

/// Where there is an entry, there is a first one.
pub proof fn lemma_first_exists(streams: Seq<Stream>, n: int) -> (best: Option<int>)
    requires
        0 <= n <= streams.len(),
    ensures
        match best {
            Some(i) => {
                &&& 0 <= i < n
                &&& streams[i].items.len() > 0
                &&& forall|j: int|
                    0 <= j < n && j != i && (#[trigger] streams[j]).items.len() > 0
                        ==> iterator::leads(streams, i, j)
            },
            None => forall|j: int| 0 <= j < n ==> (#[trigger] streams[j]).items.len() == 0,
        },
    decreases n,
{
    if n == 0 {
        None
    } else {
        let last = n - 1;
        let best = lemma_first_exists(streams, last);
        if streams[last].items.len() == 0 {
            best
        } else {
            match best {
                None => Some(last),
                Some(i) => {
                    let a = streams[i].head().key;
                    let b = streams[last].head().key;
                    key::lemma_key_order(a, b, a);
                    if !b.before(a) {
                        Some(i)
                    } else {
                        assert forall|j: int|
                            0 <= j < n && j != last && (#[trigger] streams[j]).items.len()
                                > 0 implies iterator::leads(streams, last, j) by {
                            if j != i {
                                assert(iterator::leads(streams, i, j));
                                key::lemma_key_order(b, a, streams[j].head().key);
                            }
                        }
                        Some(last)
                    }
                },
            }
        }
    }
}

proof fn lemma_first_none(streams: Seq<Stream>)
    ensures
        iterator::first_of(streams) is None ==> forall|x: Item| !holds(streams, x),
        iterator::first_of(streams) matches Some(i) ==> iterator::is_first(streams, i),
{
    let best = lemma_first_exists(streams, streams.len() as int);
    if let Some(i) = best {
        assert(iterator::is_first(streams, i));
    } else {
        assert forall|x: Item| !holds(streams, x) by {
            if holds(streams, x) {
                let k = choose|k: int|
                    0 <= k < streams.len() && (#[trigger] streams[k]).items.contains(x);
                assert(streams[k].items.len() == 0);
            }
        }
    }
}

/// Draining takes away the entries of the key and no others.
proof fn lemma_drained(streams: Seq<Stream>, data: Seq<u8>)
    requires
        all_orderly(streams),
        from_key(streams, data),
    ensures
        iterator::drained(streams, data) matches Ok(rest) && {
            &&& all_orderly(rest)
            &&& iterator::total(rest) <= iterator::total(streams)
            &&& forall|x: Item| #[trigger]
                holds(rest, x) ==> holds(streams, x) && order::less(data, x.key.data)
            &&& forall|x: Item| #[trigger]
                holds(streams, x) ==> holds(rest, x) || x.key.data == data
        },
    decreases iterator::total(streams),
{
    lemma_first_none(streams);
    if let Some(i) = iterator::first_of(streams) {
        let head = streams[i].head();
        assert(holds(streams, head)) by {
            assert(streams[i].items[0] == head);
            assert(streams[i].items.contains(head));
        }
        if head.key.data == data {
            lemma_update_holds(streams, i);
            let next = streams.update(i, Stream { items: streams[i].items.skip(1), fault: None });
            assert(from_key(next, data));
            lemma_drained(next, data);
        } else {
            assert forall|x: Item| #[trigger] holds(streams, x) implies order::less(
                data,
                x.key.data,
            ) by {
                lemma_first_is_least(streams, i, x);
                order::lemma_order(data, head.key.data, x.key.data);
            }
        }
    }
}

/// A merge of streams in order gives the keys in order, each once; every entry that it
/// gives is one of theirs; and of each of their entries it gives one with the same key
/// that is no older.
pub proof fn lemma_merge(streams: Seq<Stream>)
    requires
        all_orderly(streams),
    ensures
        iterator::merged(streams).fault is None,
        distinct_keys(iterator::merged(streams).items),
        forall|x: Item| #[trigger]
            iterator::merged(streams).items.contains(x) ==> holds(streams, x),
        forall|x: Item| #[trigger]
            holds(streams, x) ==> represented(iterator::merged(streams).items, x),
    decreases iterator::total(streams),
{
    lemma_first_none(streams);
    if let Some(i) = iterator::first_of(streams) {
        let head = streams[i].head();
        let data = head.key.data;
        assert(holds(streams, head)) by {
            assert(streams[i].items[0] == head);
            assert(streams[i].items.contains(head));
        }
        lemma_update_holds(streams, i);
        let next = streams.update(i, Stream { items: streams[i].items.skip(1), fault: None });
        assert(from_key(next, data)) by {
            assert forall|x: Item| #[trigger] holds(next, x) implies order::at_most(
                data,
                x.key.data,
            ) by {
                lemma_first_is_least(streams, i, x);
            }
        }
        lemma_drained(next, data);
        let rest = iterator::drained(next, data)->Ok_0;
        lemma_merge(rest);
        let tail = iterator::merged(rest).items;
        let out = iterator::merged(streams).items;
        assert(out == seq![head] + tail);
        assert forall|a: int, b: int| 0 <= a < b < out.len() implies order::less(
            (#[trigger] out[a]).key.data,
            (#[trigger] out[b]).key.data,
        ) by {
            assert(out[b] == tail[b - 1]);
            assert(tail.contains(tail[b - 1]));
            if a > 0 {
                assert(out[a] == tail[a - 1]);
            }
        }
        assert forall|x: Item| #[trigger] out.contains(x) implies holds(streams, x) by {
            let a = choose|a: int| 0 <= a < out.len() && out[a] == x;
            if a > 0 {
                assert(tail[a - 1] == x);
                assert(tail.contains(x));
                assert(holds(rest, x));
                assert(holds(next, x));
            }
        }
        assert forall|x: Item| #[trigger] holds(streams, x) implies represented(out, x) by {
            lemma_first_is_least(streams, i, x);
            if x.key.data == data {
                assert(out[0].key.data == x.key.data);
            } else {
                assert(holds(next, x));
                assert(holds(rest, x));
                let a = choose|a: int|
                    0 <= a < tail.len() && (#[trigger] tail[a]).key.data == x.key.data
                        && !x.key.before(tail[a].key);
                assert(out[a + 1] == tail[a]);
            }
        }
    }
}

/// A merge of two streams that have every key once is in order and has every key once; every
/// entry that it gives is one of theirs; and of each of their entries it gives one with the
/// same key that is no older.
pub proof fn lemma_merge_two(a: Stream, b: Stream)
    requires
        a.fault is None,
        b.fault is None,
        distinct_keys(a.items),
        distinct_keys(b.items),
    ensures
        iterator::merged_two(a, b).fault is None,
        distinct_keys(iterator::merged_two(a, b).items),
        forall|x: Item| #[trigger]
            iterator::merged_two(a, b).items.contains(x) ==> a.items.contains(x)
                || b.items.contains(x),
        forall|x: Item| #[trigger]
            a.items.contains(x) ==> represented(iterator::merged_two(a, b).items, x),
        forall|x: Item| #[trigger]
            b.items.contains(x) ==> represented(iterator::merged_two(a, b).items, x),
    decreases a.items.len() + b.items.len(),
{
    let out = iterator::merged_two(a, b).items;
    if a.items.len() > 0 {
        lemma_skip_distinct(a);
    }
    if b.items.len() > 0 {
        lemma_skip_distinct(b);
    }
    if a.items.len() > 0 || b.items.len() > 0 {
        let first = iterator::chooses_first(a, b);
        let same = iterator::same_key(a, b);
        let head = if first {
            a.head()
        } else {
            b.head()
        };
        let a2 = if first || same {
            Stream { items: a.items.skip(1), fault: None }
        } else {
            a
        };
        let b2 = if same || !first {
            Stream { items: b.items.skip(1), fault: None }
        } else {
            b
        };
        lemma_merge_two(a2, b2);
        let tail = iterator::merged_two(a2, b2).items;
        assert(iterator::passed_two(a, b) == Ok::<(Stream, Stream), Fault>((a2, b2)));
        assert(out == seq![head] + tail);
        if a.items.len() > 0 && b.items.len() > 0 {
            key::lemma_key_order(a.head().key, b.head().key, a.head().key);
            order::lemma_order(a.head().key.data, b.head().key.data, a.head().key.data);
        }
        assert forall|x: Item| a2.items.contains(x) || b2.items.contains(x) implies order::less(
            head.key.data,
            x.key.data,
        ) by {
            if a.items.len() > 0 && b.items.len() > 0 {
                order::lemma_order(head.key.data, a.head().key.data, x.key.data);
                order::lemma_order(head.key.data, b.head().key.data, x.key.data);
            }
        }
        assert forall|i: int, j: int| 0 <= i < j < out.len() implies order::less(
            (#[trigger] out[i]).key.data,
            (#[trigger] out[j]).key.data,
        ) by {
            assert(out[j] == tail[j - 1]);
            assert(tail.contains(tail[j - 1]));
            if i > 0 {
                assert(out[i] == tail[i - 1]);
            }
        }
        assert forall|x: Item| #[trigger] out.contains(x) implies a.items.contains(x)
            || b.items.contains(x) by {
            let i = choose|i: int| 0 <= i < out.len() && out[i] == x;
            if i > 0 {
                assert(tail[i - 1] == x);
                assert(tail.contains(x));
            }
        }
        assert(out[0] == head);
        assert forall|x: Item| represented(tail, x) implies represented(out, x) by {
            let i = choose|i: int|
                0 <= i < tail.len() && (#[trigger] tail[i]).key.data == x.key.data
                    && !x.key.before(tail[i].key);
            assert(out[i + 1] == tail[i]);
        }
        assert forall|x: Item| #[trigger] a.items.contains(x) implies represented(out, x) by {
            if !a2.items.contains(x) {
                assert(x == a.head());
                key::lemma_key_order(x.key, x.key, x.key);
                assert(out[0].key.data == x.key.data && !x.key.before(out[0].key));
            }
        }
        assert forall|x: Item| #[trigger] b.items.contains(x) implies represented(out, x) by {
            if !b2.items.contains(x) {
                assert(x == b.head());
                key::lemma_key_order(x.key, x.key, x.key);
                assert(out[0].key.data == x.key.data && !x.key.before(out[0].key));
            }
        }
    }
}

/// A stream that has every key once stays so behind its first entry, whose key is the
/// least.
proof fn lemma_skip_distinct(s: Stream)
    requires
        s.fault is None,
        distinct_keys(s.items),
        s.items.len() > 0,
    ensures
        s.advanced() == Ok::<Stream, Fault>(Stream { items: s.items.skip(1), fault: None }),
        distinct_keys(s.items.skip(1)),
        forall|x: Item| #[trigger]
            s.items.contains(x) <==> x == s.head() || s.items.skip(1).contains(x),
        forall|x: Item| #[trigger]
            s.items.skip(1).contains(x) ==> order::less(s.head().key.data, x.key.data),
{
    let rest = s.items.skip(1);
    assert forall|i: int, j: int| 0 <= i < j < rest.len() implies order::less(
        (#[trigger] rest[i]).key.data,
        (#[trigger] rest[j]).key.data,
    ) by {
        assert(rest[j] == s.items[j + 1] && rest[i] == s.items[i + 1]);
    }
    assert forall|x: Item| #[trigger] s.items.contains(x) <==> x == s.head() || rest.contains(
        x,
    ) by {
        if s.items.contains(x) {
            let i = choose|i: int| 0 <= i < s.items.len() && s.items[i] == x;
            if i > 0 {
                assert(rest[i - 1] == x);
            }
        }
        if rest.contains(x) {
            let i = choose|i: int| 0 <= i < rest.len() && rest[i] == x;
            assert(s.items[i + 1] == x);
        }
        assert(s.items[0] == s.head());
    }
    assert forall|x: Item| #[trigger] rest.contains(x) implies order::less(
        s.head().key.data,
        x.key.data,
    ) by {
        let i = choose|i: int| 0 <= i < rest.len() && rest[i] == x;
        assert(s.items[i + 1] == x);
        assert(s.items[0] == s.head());
    }
}

/// Entries that have every key once are in order.
pub proof fn lemma_distinct_is_sorted(items: Seq<Item>)
    requires
        distinct_keys(items),
    ensures
        sorted(items),
{
    assert forall|i: int, j: int| 0 <= i < j < items.len() implies !(
    #[trigger] items[j]).key.before((#[trigger] items[i]).key) by {
        order::lemma_order(items[i].key.data, items[j].key.data, items[i].key.data);
    }
}

/// A bounded stream gives the entries of a stream in order whose keys are not beyond the
/// end, and no others.
pub proof fn lemma_bounded(s: Stream, end: BoundView)
    requires
        orderly(s),
    ensures
        orderly(iterator::bounded(s, end)),
        forall|x: Item| #[trigger]
            iterator::bounded(s, end).items.contains(x) <==> s.items.contains(x) && end.ends_after(
                x.key.data,
            ),
    decreases s.items.len(),
{
    let out = iterator::bounded(s, end).items;
    if s.items.len() > 0 {
        lemma_skip_orderly(s);
        let head = s.head();
        if end.ends_after(head.key.data) {
            let rest = Stream { items: s.items.skip(1), fault: None };
            lemma_bounded(rest, end);
            let tail = iterator::bounded(rest, end).items;
            assert(out == seq![head] + tail);
            assert forall|i: int, j: int| 0 <= i < j < out.len() implies !(
            #[trigger] out[j]).key.before((#[trigger] out[i]).key) by {
                assert(out[j] == tail[j - 1]);
                assert(tail.contains(tail[j - 1]));
                if i > 0 {
                    assert(out[i] == tail[i - 1]);
                }
            }
            assert forall|x: Item| #[trigger] out.contains(x) <==> s.items.contains(x)
                && end.ends_after(x.key.data) by {
                if out.contains(x) {
                    let i = choose|i: int| 0 <= i < out.len() && out[i] == x;
                    if i > 0 {
                        assert(tail[i - 1] == x);
                        assert(tail.contains(x));
                    }
                }
                if s.items.contains(x) && end.ends_after(x.key.data) {
                    if x == head {
                        assert(out[0] == x);
                    } else {
                        assert(tail.contains(x));
                        let i = choose|i: int| 0 <= i < tail.len() && tail[i] == x;
                        assert(out[i + 1] == x);
                    }
                }
            }
        } else {
            assert forall|x: Item| s.items.contains(x) implies !end.ends_after(x.key.data) by {
                if let Some(e) = end.key() {
                    order::lemma_order(head.key.data, x.key.data, e);
                    order::lemma_order(x.key.data, e, head.key.data);
                    order::lemma_order(x.key.data, head.key.data, x.key.data);
                    order::lemma_order(head.key.data, e, head.key.data);
                }
            }
        }
    }
}

/// A bounded stream has every key once if the stream has.
pub proof fn lemma_bounded_distinct(s: Stream, end: BoundView)
    requires
        s.fault is None,
        distinct_keys(s.items),
    ensures
        distinct_keys(iterator::bounded(s, end).items),
    decreases s.items.len(),
{
    if s.items.len() > 0 && end.ends_after(s.head().key.data) {
        lemma_skip_distinct(s);
        let rest = Stream { items: s.items.skip(1), fault: None };
        lemma_bounded_distinct(rest, end);
        lemma_distinct_is_sorted(rest.items);
        lemma_bounded(rest, end);
        let tail = iterator::bounded(rest, end).items;
        let out = iterator::bounded(s, end).items;
        assert(out == seq![s.head()] + tail);
        assert forall|i: int, j: int| 0 <= i < j < out.len() implies order::less(
            (#[trigger] out[i]).key.data,
            (#[trigger] out[j]).key.data,
        ) by {
            assert(out[j] == tail[j - 1]);
            assert(tail.contains(tail[j - 1]));
            if i > 0 {
                assert(out[i] == tail[i - 1]);
            }
        }
    }
}

/// Where two streams stand at the same version of a key, the later one does not go first: a
/// merge gives what the earlier one has.
pub proof fn lemma_earlier_stream_goes_first(streams: Seq<Stream>, i: int, j: int)
    requires
        0 <= i < j < streams.len(),
        streams[i].items.len() > 0,
        streams[j].items.len() > 0,
        streams[i].head().key == streams[j].head().key,
    ensures
        iterator::first_of(streams) != Some(j),
        iterator::first_of(streams) matches Some(k) ==> iterator::merged(streams).items.len() > 0
            && iterator::merged(streams).items[0] == streams[k].head(),
{
    let key = streams[i].head().key;
    key::lemma_key_order(key, key, key);
    if iterator::first_of(streams) == Some(j) {
        assert(iterator::is_first(streams, j));
        assert(iterator::leads(streams, j, i));
    }
}

} // verus!
