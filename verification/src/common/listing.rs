//! Lists of what hash maps and hash sets hold, in the order in which they are walked, and what
//! is left of lists.

use std::collections::{HashMap, HashSet};
use vstd::prelude::*;

verus! {

broadcast use vstd::std_specs::hash::group_hash_axioms;

/// Lists the members of a set, each once.
pub fn members(set: &HashSet<u64>) -> (list: Vec<u64>)
    ensures
        list@.no_duplicates(),
        forall|v: u64| list@.contains(v) <==> set@.contains(v),
{
    let mut list: Vec<u64> = Vec::new();
    for v in iter: set.iter()
        invariant
            iter.seq().no_duplicates(),
            iter.seq().unref().to_set() == set@,
            list@.len() == iter.index(),
            forall|i: int| 0 <= i < list@.len() ==> list@[i] == *iter.seq()[i],
            iter.index() == iter.seq().len() ==> list@ =~= iter.seq().unref(),
    {
        list.push(*v);
    }
    assert forall|v: u64| list@.contains(v) <==> set@.contains(v) by {
        assert(list@.to_set().contains(v) <==> list@.contains(v));
    }
    list
}

/// Lists the keys of a map, each once.
pub fn keys_of<V>(map: &HashMap<u64, V>) -> (list: Vec<u64>)
    ensures
        list@.no_duplicates(),
        forall|v: u64| list@.contains(v) <==> map@.contains_key(v),
{
    let mut list: Vec<u64> = Vec::new();
    for v in iter: map.keys()
        invariant
            iter.seq().no_duplicates(),
            iter.seq().unref().to_set() == map@.dom(),
            list@.len() == iter.index(),
            forall|i: int| 0 <= i < list@.len() ==> list@[i] == *iter.seq()[i],
            iter.index() == iter.seq().len() ==> list@ =~= iter.seq().unref(),
    {
        list.push(*v);
    }
    assert forall|v: u64| list@.contains(v) <==> map@.contains_key(v) by {
        assert(list@.to_set().contains(v) <==> list@.contains(v));
    }
    list
}

/// Copies a set.
pub fn copy_set(set: &HashSet<u64>) -> (copy: HashSet<u64>)
    ensures
        copy@ == set@,
{
    let list = members(set);
    let mut copy: HashSet<u64> = HashSet::new();
    let mut i: usize = 0;
    while i < list.len()
        invariant
            i <= list@.len(),
            forall|v: u64| list@.contains(v) <==> set@.contains(v),
            forall|v: u64| #[trigger] copy@.contains(v) <==> list@.take(i as int).contains(v),
        decreases list@.len() - i,
    {
        copy.insert(list[i]);
        proof {
            assert(list@.take(i + 1) =~= list@.take(i as int).push(list@[i as int]));
            assert forall|v: u64| #[trigger] copy@.contains(v) <==> list@.take(i + 1).contains(
                v,
            ) by {
                let before = list@.take(i as int);
                let x = list@[i as int];
                assert(before.push(x)[before.len() as int] == x);
                if before.contains(v) {
                    let k = choose|k: int| 0 <= k < before.len() && before[k] == v;
                    assert(before.push(x)[k] == v);
                }
                if before.push(x).contains(v) {
                    let k = choose|k: int| 0 <= k < before.push(x).len() && before.push(x)[k] == v;
                    if k < before.len() {
                        assert(before[k] == v);
                    }
                }
            }
        }
        i += 1;
    }
    assert(list@.take(list@.len() as int) =~= list@);
    assert(copy@ =~= set@);
    copy
}

/// What a list with one more at its end holds.
pub proof fn lemma_pushed<A>(list: Seq<A>, last: A, x: A)
    ensures
        list.push(last).contains(x) <==> list.contains(x) || x == last,
{
    let longer = list.push(last);
    assert(longer[list.len() as int] == last);
    if list.contains(x) {
        let i = choose|i: int| 0 <= i < list.len() && list[i] == x;
        assert(longer[i] == x);
    }
}

/// What is left of a list when only those that meet a condition are kept.
pub proof fn lemma_kept<A>(list: Seq<A>, keep: spec_fn(A) -> bool, x: A)
    ensures
        list.filter(keep).contains(x) <==> list.contains(x) && keep(x),
    decreases list.len(),
{
    reveal(Seq::filter);
    if list.len() > 0 {
        let shorter = list.drop_last();
        lemma_kept(shorter, keep, x);
        lemma_pushed(shorter, list.last(), x);
        lemma_pushed(shorter.filter(keep), list.last(), x);
        assert(list =~= shorter.push(list.last()));
    }
}

/// A list stays as it is where all that it holds is kept.
pub proof fn lemma_all_kept<A>(list: Seq<A>, keep: spec_fn(A) -> bool)
    requires
        forall|i: int| 0 <= i < list.len() ==> keep(#[trigger] list[i]),
    ensures
        list.filter(keep) == list,
    decreases list.len(),
{
    reveal(Seq::filter);
    if list.len() > 0 {
        let shorter = list.drop_last();
        assert forall|i: int| 0 <= i < shorter.len() implies keep(#[trigger] shorter[i]) by {
            assert(list[i] == shorter[i]);
        }
        lemma_all_kept(shorter, keep);
        assert(list.last() == list[list.len() - 1]);
        assert(list =~= shorter.push(list.last()));
    }
}

} // verus!
