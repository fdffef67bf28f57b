//! The lexicographic order on byte strings.

use std::cmp::Ordering;
use vstd::prelude::*;

verus! {

/// `a` and `b` agree below position `i`, and there `a` either ends or holds the
/// smaller byte.
pub open spec fn precedes_at(a: Seq<u8>, b: Seq<u8>, i: int) -> bool {
    &&& 0 <= i <= a.len()
    &&& i < b.len()
    &&& forall|j: int| 0 <= j < i ==> a[j] == b[j]
    &&& i == a.len() || a[i] < b[i]
}

/// `a` stands strictly before `b`.
#[verifier::opaque]
pub open spec fn less(a: Seq<u8>, b: Seq<u8>) -> bool {
    exists|i: int| precedes_at(a, b, i)
}

/// `a` stands before `b` or is equal to it.
pub open spec fn at_most(a: Seq<u8>, b: Seq<u8>) -> bool {
    a == b || less(a, b)
}

/// The three-way comparison of two byte strings.
pub open spec fn compare(a: Seq<u8>, b: Seq<u8>) -> Ordering {
    if a == b {
        Ordering::Equal
    } else if less(a, b) {
        Ordering::Less
    } else {
        Ordering::Greater
    }
}

/// `p` is a prefix of `s`.
pub open spec fn has_prefix(s: Seq<u8>, p: Seq<u8>) -> bool {
    p.len() <= s.len() && s.take(p.len() as int) == p
}

/// Nothing stands before itself.
pub proof fn lemma_irreflexive(a: Seq<u8>)
    ensures
        !less(a, a),
{
    reveal(less);
}

/// Two byte strings never stand before each other.
pub proof fn lemma_asymmetric(a: Seq<u8>, b: Seq<u8>)
    requires
        less(a, b),
    ensures
        !less(b, a),
        a != b,
{
    reveal(less);
    let i = choose|i: int| precedes_at(a, b, i);
    assert forall|j: int| !precedes_at(b, a, j) by {
        if precedes_at(b, a, j) {
            if i < j {
                assert(b[i] == a[i]);
            } else if j < i {
                assert(a[j] == b[j]);
            }
        }
    }
}

/// The order is transitive.
pub proof fn lemma_transitive(a: Seq<u8>, b: Seq<u8>, c: Seq<u8>)
    requires
        less(a, b),
        less(b, c),
    ensures
        less(a, c),
{
    reveal(less);
    let i = choose|i: int| precedes_at(a, b, i);
    let j = choose|j: int| precedes_at(b, c, j);
    let k = if i < j { i } else { j };
    assert(precedes_at(a, c, k)) by {
        assert forall|m: int| 0 <= m < k implies a[m] == c[m] by {
            assert(a[m] == b[m]);
            assert(b[m] == c[m]);
        }
        if i < j {
            assert(b[i] == c[i]);
        } else if j < i {
            assert(a[j] == b[j]);
        }
    }
}

/// Any two byte strings are equal or one stands before the other.
pub proof fn lemma_total(a: Seq<u8>, b: Seq<u8>)
    ensures
        a == b || less(a, b) || less(b, a),
{
    reveal(less);
    lemma_total_from(a, b, 0);
}

proof fn lemma_total_from(a: Seq<u8>, b: Seq<u8>, k: int)
    requires
        0 <= k <= a.len(),
        k <= b.len(),
        forall|j: int| 0 <= j < k ==> a[j] == b[j],
    ensures
        a == b || less(a, b) || less(b, a),
    decreases a.len() - k,
{
    reveal(less);
    if k == a.len() {
        if k == b.len() {
            assert(a =~= b);
        } else {
            assert(precedes_at(a, b, k));
        }
    } else if k == b.len() || b[k] < a[k] {
        assert(precedes_at(b, a, k));
    } else if a[k] < b[k] {
        assert(precedes_at(a, b, k));
    } else {
        lemma_total_from(a, b, k + 1);
    }
}

/// The facts about the order of three byte strings that its users need most.
pub proof fn lemma_order(a: Seq<u8>, b: Seq<u8>, c: Seq<u8>)
    ensures
        less(a, b) && less(b, c) ==> less(a, c),
        less(a, b) ==> !less(b, a) && a != b,
        !less(a, b) && !less(b, a) ==> a == b,
        !less(a, b) && !less(b, c) ==> !less(a, c),
        less(a, b) && !less(c, b) ==> less(a, c),
        !less(b, a) && less(b, c) ==> less(a, c),
{
    reveal(less);
    lemma_total(a, b);
    lemma_total(b, c);
    lemma_total(a, c);
    if less(a, b) {
        lemma_asymmetric(a, b);
        if less(b, c) {
            lemma_transitive(a, b, c);
        }
    }
    if less(b, a) && less(c, b) {
        lemma_transitive(c, b, a);
        lemma_asymmetric(c, a);
    }
    if less(b, c) {
        lemma_asymmetric(b, c);
    }
    if less(a, c) {
        lemma_asymmetric(a, c);
    }
}

/// `compare` is antisymmetric: swapping the arguments reverses the answer, and
/// `Equal` is given for equal strings only.
pub proof fn lemma_compare_reversed(a: Seq<u8>, b: Seq<u8>)
    ensures
        compare(a, b) == Ordering::Equal <==> a == b,
        compare(a, b) == Ordering::Less <==> less(a, b),
        compare(a, b) == Ordering::Greater <==> less(b, a),
        compare(a, b) == Ordering::Less <==> compare(b, a) == Ordering::Greater,
{
    reveal(less);
    lemma_order(a, b, a);
    lemma_order(b, a, b);
    lemma_irreflexive(a);
}

/// The order is that of the bytes from the first on: the lesser first byte goes before, and
/// where the first bytes are the same the rest decides. The empty string goes before all
/// others.
pub proof fn lemma_bytewise(a: Seq<u8>, b: Seq<u8>)
    ensures
        a.len() == 0 ==> (less(a, b) <==> b.len() > 0),
        b.len() == 0 ==> !less(a, b),
        a.len() > 0 && b.len() > 0 ==> (less(a, b) <==> a[0] < b[0] || (a[0] == b[0] && less(
            a.skip(1),
            b.skip(1),
        ))),
{
    reveal(less);
    if a.len() == 0 && b.len() > 0 {
        assert(precedes_at(a, b, 0));
    }
    if a.len() > 0 && b.len() > 0 {
        let x = a.skip(1);
        let y = b.skip(1);
        if less(a, b) {
            let i = choose|i: int| precedes_at(a, b, i);
            if i > 0 {
                assert(a[0] == b[0]);
                assert forall|j: int| 0 <= j < i - 1 implies x[j] == y[j] by {
                    assert(a[j + 1] == b[j + 1]);
                }
                assert(precedes_at(x, y, i - 1));
            }
        }
        if a[0] < b[0] {
            assert(precedes_at(a, b, 0));
        }
        if a[0] == b[0] && less(x, y) {
            let i = choose|i: int| precedes_at(x, y, i);
            assert forall|j: int| 0 <= j < i + 1 implies a[j] == b[j] by {
                if j > 0 {
                    assert(x[j - 1] == y[j - 1]);
                }
            }
            assert(i < x.len() ==> x[i] == a[i + 1] && y[i] == b[i + 1]);
            assert(precedes_at(a, b, i + 1));
        }
    }
}

/// A string has a prefix exactly where it goes on from it.
pub proof fn lemma_prefix(s: Seq<u8>, p: Seq<u8>)
    ensures
        has_prefix(s, p) <==> exists|rest: Seq<u8>| s == #[trigger] p.add(rest),
{
    if has_prefix(s, p) {
        assert(s =~= p.add(s.skip(p.len() as int)));
    }
    if exists|rest: Seq<u8>| s == #[trigger] p.add(rest) {
        let rest = choose|rest: Seq<u8>| s == #[trigger] p.add(rest);
        assert(s.take(p.len() as int) =~= p);
    }
}

/// What a comparison says: less exactly where the first goes before, equal exactly where both
/// are the same.
pub proof fn lemma_compare(a: Seq<u8>, b: Seq<u8>)
    ensures
        compare(a, b) == Ordering::Less <==> less(a, b),
        compare(a, b) == Ordering::Equal <==> a == b,
        compare(a, b) == Ordering::Greater <==> less(b, a),
{
    lemma_total(a, b);
    lemma_irreflexive(a);
    if less(a, b) {
        lemma_asymmetric(a, b);
    }
}

} // verus!
