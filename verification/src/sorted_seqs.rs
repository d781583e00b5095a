//! Order-related specifications shared by the tree and the sorting
//! routines: what it means for a sequence to be sorted, bounds on every
//! element of a sequence, and the lemmas that connect those notions with
//! multisets of elements.

use vstd::prelude::*;
use vstd::seq_lib::group_to_multiset_ensures;
use vstd::seq_lib::lemma_multiset_commutative;

verus! {

/// The sequence is in non-decreasing order.
pub open spec fn sorted(s: Seq<i64>) -> bool {
    forall|i: int, j: int| 0 <= i <= j < s.len() ==> s[i] <= s[j]
}

/// Every element of the sequence is at most `b`.
pub open spec fn all_leq(s: Seq<i64>, b: i64) -> bool {
    forall|i: int| 0 <= i < s.len() ==> s[i] <= b
}

/// Every element of the sequence is at least `b`.
pub open spec fn all_geq(s: Seq<i64>, b: i64) -> bool {
    forall|i: int| 0 <= i < s.len() ==> s[i] >= b
}

/// A concatenation contains a value exactly when one of its parts does.
pub proof fn lemma_concat_contains(a: Seq<i64>, b: Seq<i64>, v: i64)
    ensures
        (a + b).contains(v) <==> a.contains(v) || b.contains(v),
{
    if a.contains(v) {
        let i = choose|i: int| 0 <= i < a.len() && a[i] == v;
        assert((a + b)[i] == v);
    }
    if b.contains(v) {
        let i = choose|i: int| 0 <= i < b.len() && b[i] == v;
        assert((a + b)[a.len() + i] == v);
    }
    if (a + b).contains(v) {
        let i = choose|i: int| 0 <= i < (a + b).len() && (a + b)[i] == v;
        if i < a.len() {
            assert(a[i] == v);
        } else {
            assert(b[i - a.len()] == v);
        }
    }
}

/// Two sorted sequences over the same multiset of elements are equal.
///
/// In particular, every sorting routine that returns a sorted sequence
/// with the multiset of its input returns the same sequence on every
/// permutation of that input.
pub proof fn lemma_sorted_unique(a: Seq<i64>, b: Seq<i64>)
    requires
        sorted(a),
        sorted(b),
        a.to_multiset() == b.to_multiset(),
    ensures
        a == b,
    decreases a.len(),
{
    broadcast use group_to_multiset_ensures;

    if a.len() == 0 {
        assert(b.to_multiset().len() == 0);
        assert(a =~= b);
    } else {
        assert(a.to_multiset().count(a[0]) > 0);
        assert(b.contains(a[0]));
        assert(b.len() > 0);
        assert(b.to_multiset().count(b[0]) > 0);
        assert(a.contains(b[0]));
        let i = choose|i: int| 0 <= i < b.len() && b[i] == a[0];
        let j = choose|j: int| 0 <= j < a.len() && a[j] == b[0];
        assert(b[0] <= b[i]);
        assert(a[0] <= a[j]);
        assert(a[0] == b[0]);
        let a1 = a.drop_first();
        let b1 = b.drop_first();
        assert(a1 =~= a.remove(0));
        assert(b1 =~= b.remove(0));
        assert(a1.to_multiset() == a.to_multiset().remove(a[0]));
        assert(b1.to_multiset() == b.to_multiset().remove(b[0]));
        assert(sorted(a1));
        assert(sorted(b1));
        lemma_sorted_unique(a1, b1);
        assert(a =~= seq![a[0]] + a1);
        assert(b =~= seq![b[0]] + b1);
    }
}

/// Adding one occurrence of `v` to a sequence bounded above by `b` keeps
/// the bound, provided `v` itself respects it.
pub proof fn lemma_bound_above_after_insert(s1: Seq<i64>, s2: Seq<i64>, v: i64, b: i64)
    requires
        s2.to_multiset() == s1.to_multiset().insert(v),
        all_leq(s1, b),
        v <= b,
    ensures
        all_leq(s2, b),
{
    broadcast use group_to_multiset_ensures;

    assert forall|i: int| 0 <= i < s2.len() implies s2[i] <= b by {
        assert(s2.contains(s2[i]));
        assert(s2.to_multiset().count(s2[i]) > 0);
        if s2[i] != v {
            assert(s1.to_multiset().count(s2[i]) > 0);
            assert(s1.contains(s2[i]));
        }
    }
}

/// The counterpart of [`lemma_bound_above_after_insert`] for lower bounds.
pub proof fn lemma_bound_below_after_insert(s1: Seq<i64>, s2: Seq<i64>, v: i64, b: i64)
    requires
        s2.to_multiset() == s1.to_multiset().insert(v),
        all_geq(s1, b),
        v >= b,
    ensures
        all_geq(s2, b),
{
    broadcast use group_to_multiset_ensures;

    assert forall|i: int| 0 <= i < s2.len() implies s2[i] >= b by {
        assert(s2.contains(s2[i]));
        assert(s2.to_multiset().count(s2[i]) > 0);
        if s2[i] != v {
            assert(s1.to_multiset().count(s2[i]) > 0);
            assert(s1.contains(s2[i]));
        }
    }
}

/// Removing one occurrence of a value never introduces new elements, so
/// both kinds of bounds survive.
pub proof fn lemma_bounds_after_remove(s1: Seq<i64>, s2: Seq<i64>, v: i64, b: i64)
    requires
        s2.to_multiset() == s1.to_multiset().remove(v),
    ensures
        all_leq(s1, b) ==> all_leq(s2, b),
        all_geq(s1, b) ==> all_geq(s2, b),
{
    broadcast use group_to_multiset_ensures;

    assert forall|i: int| 0 <= i < s2.len() implies s1.contains(s2[i]) by {
        assert(s2.contains(s2[i]));
        assert(s2.to_multiset().count(s2[i]) > 0);
        assert(s1.to_multiset().count(s2[i]) > 0);
    }
}

/// Exchanging the elements at two positions leaves the multiset of
/// elements unchanged.
pub proof fn lemma_swap_preserves_multiset(s: Seq<i64>, i: int, j: int)
    requires
        0 <= i < s.len(),
        0 <= j < s.len(),
    ensures
        s.update(i, s[j]).update(j, s[i]).to_multiset() == s.to_multiset(),
    decreases s.len(),
{
    broadcast use group_to_multiset_ensures;

    if i == j {
        assert(s.update(i, s[j]).update(j, s[i]) =~= s);
    } else {
        let lo = if i < j { i } else { j };
        let hi = if i < j { j } else { i };
        let t = s.update(i, s[j]).update(j, s[i]);
        let a = s.subrange(0, lo);
        let b = s.subrange(lo + 1, hi);
        let c = s.subrange(hi + 1, s.len() as int);
        assert(s =~= a + seq![s[lo]] + b + seq![s[hi]] + c);
        assert(t =~= a + seq![s[hi]] + b + seq![s[lo]] + c);
        lemma_multiset_commutative(a + seq![s[lo]] + b + seq![s[hi]], c);
        lemma_multiset_commutative(a + seq![s[lo]] + b, seq![s[hi]]);
        lemma_multiset_commutative(a + seq![s[lo]], b);
        lemma_multiset_commutative(a, seq![s[lo]]);
        lemma_multiset_commutative(a + seq![s[hi]] + b + seq![s[lo]], c);
        lemma_multiset_commutative(a + seq![s[hi]] + b, seq![s[lo]]);
        lemma_multiset_commutative(a + seq![s[hi]], b);
        lemma_multiset_commutative(a, seq![s[hi]]);
        assert(t.to_multiset() =~= s.to_multiset());
    }
}

} // verus!
