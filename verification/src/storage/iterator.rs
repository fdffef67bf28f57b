//! Iterators over versioned entries, and how several are merged into one.

use crate::common::bound::{Bound, BoundView};
use crate::common::error::{Error, Fault};
use crate::common::key::{Key, KeyView};
use crate::common::key;
use crate::common::order;
use crate::common::simd::bytes_equal;
use crate::storage::memtable;
use crate::storage::memtable::MemTable;
use vstd::prelude::*;

verus! {

pub struct Entry {
    pub key: Key,
    pub value: Option<Vec<u8>>,
}

/// An entry as a mathematical value.
#[verifier::ext_equal]
pub struct Item {
    pub key: KeyView,
    pub value: Option<Seq<u8>>,
}

impl View for Entry {
    type V = Item;

    open spec fn view(&self) -> Item {
        Item { key: self.key@, value: memtable::value_view(self.value) }
    }
}

/// What an iterator still has to give: its entries, the current one first, and the fault
/// that it meets behind the last of them, if there is one.
#[verifier::ext_equal]
pub struct Stream {
    pub items: Seq<Item>,
    pub fault: Option<Fault>,
}

impl Stream {
    pub open spec fn end() -> Stream {
        Stream { items: Seq::empty(), fault: None }
    }

    pub open spec fn head(self) -> Item {
        self.items[0]
    }

    /// The stream behind its current entry.
    pub open spec fn advanced(self) -> Result<Stream, Fault> {
        if self.items.len() <= 1 && self.fault is Some {
            Err(self.fault->Some_0)
        } else {
            Ok(Stream { items: self.items.skip(1), ..self })
        }
    }

    /// The stream with an entry in front.
    pub open spec fn preceded(self, item: Item) -> Stream {
        Stream { items: seq![item] + self.items, ..self }
    }
}

/// What `result` and the iterator after it are, when the stream was `before`.
pub open spec fn stepped(before: Stream, result: Result<(), Error>, after: Stream) -> bool {
    match result {
        Ok(_) => before.advanced() == Ok::<Stream, Fault>(after),
        Err(e) => before.advanced() == Err::<Stream, Fault>(e@),
    }
}

pub trait StorageIterator: Sized {
    spec fn stream(&self) -> Stream;

    spec fn wf(&self) -> bool;

    /// The current entry's key.
    fn key(&self) -> (key: &Key)
        requires
            self.wf(),
            self.stream().items.len() > 0,
        ensures
            key@ == self.stream().head().key,
    ;

    /// The current entry's value, none where the key is deleted.
    fn value(&self) -> (value: Option<&Vec<u8>>)
        requires
            self.wf(),
            self.stream().items.len() > 0,
        ensures
            match value {
                Some(v) => self.stream().head().value == Some(v@),
                None => self.stream().head().value is None,
            },
    ;

    fn is_valid(&self) -> (valid: bool)
        requires
            self.wf(),
        ensures
            valid == (self.stream().items.len() > 0),
    ;

    /// Goes on to the next entry. Behind a fault there is none.
    fn next(&mut self) -> (result: Result<(), Error>)
        requires
            old(self).wf(),
            old(self).stream().items.len() > 0,
        ensures
            stepped(old(self).stream(), result, final(self).stream()),
            final(self).wf(),
            result is Err ==> final(self).stream().items.len() == 0,
    ;
}

/// The entries of a memory table, in the order of their keys.
pub struct MemTableIterator {
    entries: Vec<Entry>,
    pos: usize,
}

pub open spec fn items_of(entries: Seq<Entry>) -> Seq<Item> {
    entries.map_values(|e: Entry| e@)
}

/// `items` are the entries of a memory table, each once and in the order of their keys.
pub open spec fn lists_table(items: Seq<Item>, entries: Map<KeyView, Option<Seq<u8>>>) -> bool {
    &&& forall|i: int|
        0 <= i < items.len() ==> entries.contains_key((#[trigger] items[i]).key)
            && entries[items[i].key] == items[i].value
    &&& strictly_sorted(items)
    &&& forall|key: KeyView| #[trigger]
        entries.contains_key(key) ==> exists|i: int|
            0 <= i < items.len() && (#[trigger] items[i]).key == key
}

pub open spec fn strictly_sorted(items: Seq<Item>) -> bool {
    forall|i: int, j: int|
        0 <= i < j < items.len() ==> (#[trigger] items[i]).key.before((#[trigger] items[j]).key)
}

/// How many of the first entries have keys whose bytes are below `target`.
pub open spec fn below(items: Seq<Item>, target: Seq<u8>) -> nat
    decreases items.len(),
{
    if items.len() == 0 || !order::less(items[0].key.data, target) {
        0
    } else {
        1 + below(items.skip(1), target)
    }
}

impl MemTableIterator {
    pub closed spec fn all(&self) -> Seq<Item> {
        items_of(self.entries@)
    }

    pub fn new(table: &MemTable) -> (iter: Self)
        ensures
            iter.wf(),
            iter.stream().items == iter.all(),
            iter.stream().fault is None,
            lists_table(iter.all(), table@),
    {
        let list = table.iter();
        let ghost listed = list@;
        let mut entries: Vec<Entry> = Vec::new();
        for pair in iter: list
            invariant
                iter.seq() == listed,
                entries@.len() == iter.index(),
                forall|i: int|
                    0 <= i < entries@.len() ==> (#[trigger] entries@[i])@ == (Item {
                        key: listed[i].0@,
                        value: memtable::value_view(listed[i].1),
                    }),
        {
            let (key, value) = pair;
            entries.push(Entry { key, value });
        }
        let iter = MemTableIterator { entries, pos: 0 };
        proof {
            let items = iter.all();
            assert(items.skip(0) =~= items);
            assert forall|key: KeyView| #[trigger] table@.contains_key(key) implies exists|i: int|
                0 <= i < items.len() && (#[trigger] items[i]).key == key by {
                let i = choose|i: int| 0 <= i < listed.len() && (#[trigger] listed[i]).0@ == key;
                assert(items[i].key == key);
            }
            assert forall|i: int| 0 <= i < items.len() implies table@.contains_key(
                (#[trigger] items[i]).key,
            ) && table@[items[i].key] == items[i].value by {
                assert(entries@[i]@ == items[i]);
                assert(table@.contains_key(listed[i].0@));
            }
            assert forall|i: int, j: int| 0 <= i < j < items.len() implies (
            #[trigger] items[i]).key.before((#[trigger] items[j]).key) by {
                assert(entries@[i]@ == items[i] && entries@[j]@ == items[j]);
                assert(listed[i].0@.before(listed[j].0@));
            }
        }
        iter
    }

    /// Goes to the first entry, from the start on, whose key is not below `target`.
    pub fn seek(&mut self, target: &[u8])
        requires
            old(self).wf(),
        ensures
            final(self).wf(),
            final(self).all() == old(self).all(),
            final(self).stream().items == old(self).all().skip(
                below(old(self).all(), target@) as int,
            ),
            final(self).stream().fault is None,
    {
        let ghost items = self.all();
        self.pos = 0;
        assert(items.skip(0) =~= items);
        while self.pos < self.entries.len() && crate::common::simd::bytes_less(
            self.entries[self.pos].key.data(),
            target,
        )
            invariant
                self.pos <= self.entries@.len(),
                items == self.all(),
                items == old(self).all(),
                below(items, target@) == self.pos + below(items.skip(self.pos as int), target@),
            decreases self.entries@.len() - self.pos,
        {
            proof {
                let rest = items.skip(self.pos as int);
                assert(rest[0] == self.entries@[self.pos as int]@);
                assert(rest.skip(1) =~= items.skip(self.pos + 1));
            }
            self.pos = self.pos + 1;
        }
        proof {
            let rest = items.skip(self.pos as int);
            if self.pos < self.entries@.len() {
                assert(rest[0] == self.entries@[self.pos as int]@);
            }
        }
    }
}

impl StorageIterator for MemTableIterator {
    closed spec fn stream(&self) -> Stream {
        Stream { items: items_of(self.entries@).skip(self.pos as int), fault: None }
    }

    closed spec fn wf(&self) -> bool {
        self.pos <= self.entries@.len()
    }

    fn key(&self) -> (key: &Key) {
        &self.entries[self.pos].key
    }

    fn value(&self) -> (value: Option<&Vec<u8>>) {
        self.entries[self.pos].value.as_ref()
    }

    fn is_valid(&self) -> (valid: bool) {
        self.pos < self.entries.len()
    }

    fn next(&mut self) -> (result: Result<(), Error>) {
        let len: usize = self.entries.len();
        self.pos = self.pos + 1;
        proof {
            let items = items_of(self.entries@);
            assert(items.skip(self.pos - 1).skip(1) =~= items.skip(self.pos as int));
        }
        Ok(())
    }
}

/// How many entries the streams have in all.
pub open spec fn total(streams: Seq<Stream>) -> nat
    decreases streams.len(),
{
    if streams.len() == 0 {
        0
    } else {
        total(streams.drop_last()) + streams.last().items.len()
    }
}

/// The current entry of stream `i` comes before that of stream `j`: by its key or, where
/// the keys are the same, by the lesser number of its stream.
pub open spec fn leads(streams: Seq<Stream>, i: int, j: int) -> bool {
    let a = streams[i].head().key;
    let b = streams[j].head().key;
    a.before(b) || (a == b && i < j)
}

/// Stream `i` has the first entry of all.
pub open spec fn is_first(streams: Seq<Stream>, i: int) -> bool {
    &&& 0 <= i < streams.len()
    &&& streams[i].items.len() > 0
    &&& forall|j: int|
        0 <= j < streams.len() && j != i && (#[trigger] streams[j]).items.len() > 0 ==> leads(
            streams,
            i,
            j,
        )
}

/// The stream with the first entry, if any has one.
pub open spec fn first_of(streams: Seq<Stream>) -> Option<int> {
    if exists|i: int| #[trigger] is_first(streams, i) {
        Some(choose|i: int| #[trigger] is_first(streams, i))
    } else {
        None
    }
}

proof fn lemma_first_unique(streams: Seq<Stream>, i: int)
    requires
        is_first(streams, i),
    ensures
        first_of(streams) == Some(i),
{
    let c = choose|c: int| #[trigger] is_first(streams, c);
    if c != i {
        assert(leads(streams, i, c) && leads(streams, c, i));
        key::lemma_key_order(streams[i].head().key, streams[c].head().key, streams[i].head().key);
    }
}

/// One stream in place of another changes the total by the difference of their lengths.
pub proof fn lemma_total_update(streams: Seq<Stream>, i: int, s: Stream)
    requires
        0 <= i < streams.len(),
    ensures
        total(streams.update(i, s)) + streams[i].items.len() == total(streams) + s.items.len(),
    decreases streams.len(),
{
    let changed = streams.update(i, s);
    if i == streams.len() - 1 {
        assert(changed.drop_last() =~= streams.drop_last());
    } else {
        lemma_total_update(streams.drop_last(), i, s);
        assert(changed.drop_last() =~= streams.drop_last().update(i, s));
    }
}

/// The streams without the entries of the key `data` that come first, one after the other.
pub open spec fn drained(streams: Seq<Stream>, data: Seq<u8>) -> Result<Seq<Stream>, Fault>
    decreases total(streams),
    via drained_decreases
{
    match first_of(streams) {
        None => Ok(streams),
        Some(i) => if streams[i].head().key.data != data {
            Ok(streams)
        } else {
            match streams[i].advanced() {
                Err(f) => Err(f),
                Ok(s) => drained(streams.update(i, s), data),
            }
        },
    }
}

#[via_fn]
proof fn drained_decreases(streams: Seq<Stream>, data: Seq<u8>) {
    if let Some(i) = first_of(streams) {
        let c = choose|c: int| #[trigger] is_first(streams, c);
        assert(is_first(streams, i));
        if let Ok(s) = streams[i].advanced() {
            lemma_total_update(streams, i, s);
        }
    }
}

/// The streams behind the first entry and behind all others of its key.
pub open spec fn passed(streams: Seq<Stream>, i: int) -> Result<Seq<Stream>, Fault> {
    match streams[i].advanced() {
        Err(f) => Err(f),
        Ok(s) => drained(streams.update(i, s), streams[i].head().key.data),
    }
}

/// Passing over a key leaves no more entries than there were, in as many streams.
pub proof fn lemma_drained_total(streams: Seq<Stream>, data: Seq<u8>)
    ensures
        drained(streams, data) matches Ok(rest) ==> total(rest) <= total(streams) && rest.len()
            == streams.len(),
    decreases total(streams),
{
    if let Some(i) = first_of(streams) {
        assert(is_first(streams, i));
        if streams[i].head().key.data == data {
            if let Ok(s) = streams[i].advanced() {
                lemma_total_update(streams, i, s);
                lemma_drained_total(streams.update(i, s), data);
            }
        }
    }
}

proof fn lemma_passed_total(streams: Seq<Stream>, i: int)
    requires
        is_first(streams, i),
    ensures
        passed(streams, i) matches Ok(rest) ==> total(rest) < total(streams) && rest.len()
            == streams.len(),
{
    if let Ok(s) = streams[i].advanced() {
        lemma_total_update(streams, i, s);
        lemma_drained_total(streams.update(i, s), streams[i].head().key.data);
    }
}

/// The streams as one: of each key the first entry.
pub open spec fn merged(streams: Seq<Stream>) -> Stream
    decreases total(streams),
    via merged_decreases
{
    match first_of(streams) {
        None => Stream::end(),
        Some(i) => match passed(streams, i) {
            Err(f) => Stream { items: seq![streams[i].head()], fault: Some(f) },
            Ok(rest) => merged(rest).preceded(streams[i].head()),
        },
    }
}

#[via_fn]
proof fn merged_decreases(streams: Seq<Stream>) {
    if let Some(i) = first_of(streams) {
        assert(is_first(streams, i));
        lemma_passed_total(streams, i);
    }
}

/// A merge has no entry if none of its streams has one.
pub proof fn lemma_merged_end(streams: Seq<Stream>)
    ensures
        merged(streams).items.len() == 0 <==> first_of(streams) is None,
        merged(streams).items.len() == 0 ==> merged(streams) == Stream::end(),
{
}

/// Several iterators as one. Where keys are the same, the earlier iterator comes first.
pub struct MergeIterator<I: StorageIterator> {
    iters: Vec<I>,
    current: Option<usize>,
}

pub open spec fn streams_of<I: StorageIterator>(iters: Seq<I>) -> Seq<Stream> {
    iters.map_values(|it: I| it.stream())
}

pub open spec fn all_wf<I: StorageIterator>(iters: Seq<I>) -> bool {
    forall|i: int| 0 <= i < iters.len() ==> (#[trigger] iters[i]).wf()
}

impl<I: StorageIterator> MergeIterator<I> {
    pub fn new(iters: Vec<I>) -> (merge: Self)
        requires
            all_wf(iters@),
        ensures
            merge.wf(),
            merge.stream() == merged(streams_of(iters@)),
    {
        let current = Self::first(&iters);
        MergeIterator { iters, current }
    }

    /// The iterator with the first entry.
    fn first(iters: &Vec<I>) -> (first: Option<usize>)
        requires
            all_wf(iters@),
        ensures
            match first {
                Some(i) => is_first(streams_of(iters@), i as int) && first_of(streams_of(iters@))
                    == Some(i as int),
                None => first_of(streams_of(iters@)) is None,
            },
    {
        let ghost streams = streams_of(iters@);
        let mut best: Option<usize> = None;
        let mut i: usize = 0;
        while i < iters.len()
            invariant
                i <= iters@.len(),
                all_wf(iters@),
                streams == streams_of(iters@),
                match best {
                    Some(b) => {
                        &&& b < i
                        &&& streams[b as int].items.len() > 0
                        &&& forall|j: int|
                            0 <= j < i && j != b && (#[trigger] streams[j]).items.len() > 0
                                ==> leads(streams, b as int, j)
                    },
                    None => forall|j: int|
                        0 <= j < i ==> (#[trigger] streams[j]).items.len() == 0,
                },
            decreases iters@.len() - i,
        {
            assert(streams[i as int] == iters@[i as int].stream());
            if iters[i].is_valid() {
                let ghost here = streams[i as int].head().key;
                match best {
                    None => {
                        best = Some(i);
                    },
                    Some(b) => {
                        assert(streams[b as int] == iters@[b as int].stream());
                        let ghost there = streams[b as int].head().key;
                        let sooner = iters[i].key().is_before(iters[b].key());
                        proof {
                            key::lemma_key_order(there, here, there);
                            assert forall|j: int|
                                0 <= j < i && j != b && (#[trigger] streams[j]).items.len()
                                    > 0 && sooner implies leads(streams, i as int, j) by {
                                assert(leads(streams, b as int, j));
                                key::lemma_key_order(here, there, streams[j].head().key);
                            }
                        }
                        if sooner {
                            best = Some(i);
                        }
                    },
                }
            }
            i += 1;
        }
        proof {
            match best {
                Some(b) => {
                    assert(is_first(streams, b as int));
                    lemma_first_unique(streams, b as int);
                },
                None => {
                    assert forall|c: int| !is_first(streams, c) by {}
                },
            }
        }
        best
    }
}

impl<I: StorageIterator> StorageIterator for MergeIterator<I> {
    closed spec fn stream(&self) -> Stream {
        merged(streams_of(self.iters@))
    }

    closed spec fn wf(&self) -> bool {
        &&& all_wf(self.iters@)
        &&& match self.current {
            Some(i) => is_first(streams_of(self.iters@), i as int) && first_of(
                streams_of(self.iters@),
            ) == Some(i as int),
            None => first_of(streams_of(self.iters@)) is None,
        }
    }

    fn key(&self) -> (key: &Key) {
        proof {
            lemma_merged_end(streams_of(self.iters@));
        }
        let i: usize = self.current.unwrap();
        assert(streams_of(self.iters@)[i as int] == self.iters@[i as int].stream());
        self.iters[i].key()
    }

    fn value(&self) -> (value: Option<&Vec<u8>>) {
        proof {
            lemma_merged_end(streams_of(self.iters@));
        }
        let i: usize = self.current.unwrap();
        assert(streams_of(self.iters@)[i as int] == self.iters@[i as int].stream());
        self.iters[i].value()
    }

    fn is_valid(&self) -> (valid: bool) {
        proof {
            lemma_merged_end(streams_of(self.iters@));
        }
        self.current.is_some()
    }

    fn next(&mut self) -> (result: Result<(), Error>) {
        let ghost before = streams_of(self.iters@);
        proof {
            lemma_merged_end(before);
        }
        let i: usize = self.current.unwrap();
        self.current = None;
        let ghost head = before[i as int].head();
        assert(before[i as int] == self.iters@[i as int].stream());
        let data = crate::common::codec::copy_bytes(self.iters[i].key().data());
        let mut iters: Vec<I> = Vec::new();
        std::mem::swap(&mut iters, &mut self.iters);
        let moved = Self::advance(&mut iters, i);
        let result = match moved {
            Ok(_) => Self::pass(&mut iters, data.as_slice()),
            Err(e) => Err(e),
        };
        if let Err(e) = result {
            assert(first_of(streams_of(self.iters@)) is None) by {
                assert forall|c: int| !is_first(streams_of(self.iters@), c) by {}
            }
            return Err(e);
        }
        self.iters = iters;
        proof {
            let after = streams_of(self.iters@);
            if result is Ok {
                assert(passed(before, i as int) == Ok::<Seq<Stream>, Fault>(after));
                lemma_merged_end(after);
                assert(merged(before) == merged(after).preceded(head));
                assert(merged(before).items.skip(1) =~= merged(after).items);
                if merged(after).items.len() == 0 {
                    assert(merged(before).fault is None);
                }
            }
        }
        self.current = Self::first(&self.iters);
        Ok(())
    }
}

impl<I: StorageIterator> MergeIterator<I> {
    /// Moves one of the iterators on.
    fn advance(iters: &mut Vec<I>, i: usize) -> (result: Result<(), Error>)
        requires
            all_wf(old(iters)@),
            i < old(iters)@.len(),
            old(iters)@[i as int].stream().items.len() > 0,
        ensures
            final(iters)@.len() == old(iters)@.len(),
            match result {
                Ok(_) => {
                    &&& all_wf(final(iters)@)
                    &&& streams_of(old(iters)@)[i as int].advanced() matches Ok(s)
                    &&& streams_of(final(iters)@) == streams_of(old(iters)@).update(i as int, s)
                },
                Err(e) => streams_of(old(iters)@)[i as int].advanced() == Err::<Stream, Fault>(e@),
            },
    {
        let ghost before = iters@;
        let result = iters[i].next();
        proof {
            if result is Ok {
                let s = iters@[i as int].stream();
                assert(before[i as int].stream().advanced() == Ok::<Stream, Fault>(s));
                assert(streams_of(iters@) =~= streams_of(before).update(i as int, s));
            }
        }
        result
    }

    /// Moves the iterators past the entries of the key `data` that come first.
    fn pass(iters: &mut Vec<I>, data: &[u8]) -> (result: Result<(), Error>)
        requires
            all_wf(old(iters)@),
        ensures
            match result {
                Ok(_) => all_wf(final(iters)@) && drained(streams_of(old(iters)@), data@) == Ok::<
                    Seq<Stream>,
                    Fault,
                >(streams_of(final(iters)@)),
                Err(e) => drained(streams_of(old(iters)@), data@) == Err::<Seq<Stream>, Fault>(e@),
            },
    {
        let ghost before = streams_of(iters@);
        loop
            invariant
                all_wf(iters@),
                drained(before, data@) == drained(streams_of(iters@), data@),
                before == streams_of(old(iters)@),
            decreases total(streams_of(iters@)),
        {
            let ghost now = streams_of(iters@);
            match Self::first(&*iters) {
                None => {
                    return Ok(());
                },
                Some(i) => {
                    assert(now[i as int] == iters@[i as int].stream());
                    if !bytes_equal(iters[i].key().data(), data) {
                        return Ok(());
                    }
                    Self::advance(iters, i)?;
                    proof {
                        lemma_total_update(now, i as int, streams_of(iters@)[i as int]);
                    }
                },
            }
        }
    }
}

/// The first of two streams has the current entry.
pub open spec fn chooses_first(a: Stream, b: Stream) -> bool {
    a.items.len() > 0 && (b.items.len() > 0 ==> !b.head().key.before(a.head().key))
}

/// Both streams stand at the same key.
pub open spec fn same_key(a: Stream, b: Stream) -> bool {
    a.items.len() > 0 && b.items.len() > 0 && a.head().key.data == b.head().key.data
}

/// The two streams behind the current entry. Where the other one stands at the same key, it
/// moves on as well.
pub open spec fn passed_two(a: Stream, b: Stream) -> Result<(Stream, Stream), Fault> {
    let moves_a = chooses_first(a, b) || same_key(a, b);
    let moves_b = !chooses_first(a, b) || same_key(a, b);
    let next_a = if moves_a {
        a.advanced()
    } else {
        Ok(a)
    };
    let next_b = if moves_b {
        b.advanced()
    } else {
        Ok(b)
    };
    match (next_b, next_a) {
        (Err(f), _) => Err(f),
        (_, Err(f)) => Err(f),
        (Ok(b2), Ok(a2)) => Ok((a2, b2)),
    }
}

/// Two streams as one.
pub open spec fn merged_two(a: Stream, b: Stream) -> Stream
    decreases a.items.len() + b.items.len(),
{
    if a.items.len() == 0 && b.items.len() == 0 {
        Stream::end()
    } else {
        let head = if chooses_first(a, b) {
            a.head()
        } else {
            b.head()
        };
        match passed_two(a, b) {
            Err(f) => Stream { items: seq![head], fault: Some(f) },
            Ok((a2, b2)) => merged_two(a2, b2).preceded(head),
        }
    }
}

/// Two iterators as one. Where both have a key, the first has the newer value.
pub struct TwoMergeIterator<A: StorageIterator, B: StorageIterator> {
    a: A,
    b: B,
    use_a: bool,
    failed: bool,
}

impl<A: StorageIterator, B: StorageIterator> TwoMergeIterator<A, B> {
    pub fn new(a: A, b: B) -> (merge: Self)
        requires
            a.wf(),
            b.wf(),
        ensures
            merge.wf(),
            merge.stream() == merged_two(a.stream(), b.stream()),
    {
        let use_a = Self::choose_a(&a, &b);
        TwoMergeIterator { a, b, use_a, failed: false }
    }

    fn choose_a(a: &A, b: &B) -> (use_a: bool)
        requires
            a.wf(),
            b.wf(),
        ensures
            use_a == chooses_first(a.stream(), b.stream()),
    {
        if !a.is_valid() {
            return false;
        }
        if !b.is_valid() {
            return true;
        }
        !b.key().is_before(a.key())
    }
}

impl<A: StorageIterator, B: StorageIterator> StorageIterator for TwoMergeIterator<A, B> {
    closed spec fn stream(&self) -> Stream {
        if self.failed {
            Stream::end()
        } else {
            merged_two(self.a.stream(), self.b.stream())
        }
    }

    closed spec fn wf(&self) -> bool {
        &&& self.a.wf()
        &&& self.b.wf()
        &&& self.use_a == chooses_first(self.a.stream(), self.b.stream())
    }

    fn key(&self) -> (key: &Key) {
        if self.use_a {
            self.a.key()
        } else {
            self.b.key()
        }
    }

    fn value(&self) -> (value: Option<&Vec<u8>>) {
        if self.use_a {
            self.a.value()
        } else {
            self.b.value()
        }
    }

    fn is_valid(&self) -> (valid: bool) {
        !self.failed && (self.a.is_valid() || self.b.is_valid())
    }

    fn next(&mut self) -> (result: Result<(), Error>) {
        let ghost a = self.a.stream();
        let ghost b = self.b.stream();
        let use_a: bool = self.use_a;
        let same: bool = self.a.is_valid() && self.b.is_valid() && bytes_equal(
            self.a.key().data(),
            self.b.key().data(),
        );
        if !use_a || same {
            let moved = self.b.next();
            if let Err(e) = moved {
                self.failed = true;
                self.use_a = Self::choose_a(&self.a, &self.b);
                return Err(e);
            }
        }
        if use_a || same {
            let moved = self.a.next();
            if let Err(e) = moved {
                self.failed = true;
                self.use_a = Self::choose_a(&self.a, &self.b);
                return Err(e);
            }
        }
        self.use_a = Self::choose_a(&self.a, &self.b);
        proof {
            let a2 = self.a.stream();
            let b2 = self.b.stream();
            assert(passed_two(a, b) == Ok::<(Stream, Stream), Fault>((a2, b2)));
            let rest = merged_two(a2, b2);
            assert(merged_two(a, b).items.skip(1) =~= rest.items);
            assert(rest.items.len() == 0 ==> rest.fault is None);
        }
        Ok(())
    }
}

/// The entries of a stream up to the first whose key is beyond the end.
pub open spec fn bounded(s: Stream, end: BoundView) -> Stream
    decreases s.items.len(),
{
    if s.items.len() == 0 || !end.ends_after(s.head().key.data) {
        Stream::end()
    } else {
        match s.advanced() {
            Err(f) => Stream { items: seq![s.head()], fault: Some(f) },
            Ok(rest) => bounded(rest, end).preceded(s.head()),
        }
    }
}

/// An iterator that stops at the end of a range.
pub struct BoundedIterator<I: StorageIterator> {
    inner: I,
    end_bound: Bound,
    valid: bool,
}

impl<I: StorageIterator> BoundedIterator<I> {
    pub fn new(inner: I, end_bound: Bound) -> (iter: Self)
        requires
            inner.wf(),
        ensures
            iter.wf(),
            iter.stream() == bounded(inner.stream(), end_bound@),
    {
        let valid = Self::is_within(&inner, &end_bound);
        BoundedIterator { inner, end_bound, valid }
    }

    fn is_within(inner: &I, end_bound: &Bound) -> (within: bool)
        requires
            inner.wf(),
        ensures
            within == (inner.stream().items.len() > 0 && end_bound@.ends_after(
                inner.stream().head().key.data,
            )),
    {
        inner.is_valid() && end_bound.ends_after(inner.key().data())
    }
}

impl<I: StorageIterator> StorageIterator for BoundedIterator<I> {
    closed spec fn stream(&self) -> Stream {
        bounded(self.inner.stream(), self.end_bound@)
    }

    closed spec fn wf(&self) -> bool {
        &&& self.inner.wf()
        &&& self.valid == (self.inner.stream().items.len() > 0 && self.end_bound@.ends_after(
            self.inner.stream().head().key.data,
        ))
    }

    fn key(&self) -> (key: &Key) {
        self.inner.key()
    }

    fn value(&self) -> (value: Option<&Vec<u8>>) {
        self.inner.value()
    }

    fn is_valid(&self) -> (valid: bool) {
        self.valid
    }

    fn next(&mut self) -> (result: Result<(), Error>) {
        let ghost s = self.inner.stream();
        let moved = self.inner.next();
        if let Err(e) = moved {
            self.valid = false;
            return Err(e);
        }
        self.valid = Self::is_within(&self.inner, &self.end_bound);
        proof {
            let rest = bounded(self.inner.stream(), self.end_bound@);
            assert(bounded(s, self.end_bound@).items.skip(1) =~= rest.items);
            assert(rest.items.len() == 0 ==> rest.fault is None);
        }
        Ok(())
    }
}

} // verus!
