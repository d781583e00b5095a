//! Comparison sorts. Every routine takes an immutable slice, leaves it
//! untouched, and returns a freshly allocated vector; the six sorting
//! routines return the contents in non-decreasing order.
//!
//! Together with [`crate::sorted_seqs::lemma_sorted_unique`], the
//! contracts imply that all six sorting routines agree on every input,
//! and return the same vector on every permutation of the same multiset
//! of elements.
//!
//! The exchange sorts run until a sweep finds no pair out of order.
//! Termination is measured with a weighted sum of the contents that every
//! exchange of an out-of-order pair strictly increases and that the
//! length and the element range bound from above.

use vstd::prelude::*;
use vstd::seq_lib::group_to_multiset_ensures;
use vstd::seq_lib::lemma_multiset_commutative;
use vstd::slice::slice_to_vec;

use crate::sorted_seqs::lemma_swap_preserves_multiset;
use crate::sorted_seqs::sorted;

verus! {

/// Position-weighted sum of the contents: each element counts with its
/// index as the weight.
spec fn wsum(s: Seq<i64>) -> int
    decreases s.len(),
{
    if s.len() == 0 {
        0
    } else {
        wsum(s.drop_last()) + (s.len() - 1) * s.last()
    }
}

/// How far the weighted sum sits under its upper bound for sequences of
/// this length.
spec fn wslack(s: Seq<i64>) -> int {
    s.len() * s.len() * (i64::MAX as int) - wsum(s)
}

/// Overwriting one position shifts the weighted sum by the weighted
/// difference.
proof fn lemma_wsum_update(s: Seq<i64>, j: int, v: i64)
    requires
        0 <= j < s.len(),
    ensures
        wsum(s.update(j, v)) == wsum(s) + j * (v - s[j]),
    decreases s.len(),
{
    let t = s.update(j, v);
    if j == s.len() - 1 {
        assert(t.drop_last() =~= s.drop_last());
        assert(t.last() == v);
        assert((s.len() - 1) * v - (s.len() - 1) * s.last() == j * (v - s[j]))
            by (nonlinear_arith)
            requires
                j == s.len() - 1,
                s.len() >= 1,
                s.last() == s[j],
        ;
    } else {
        assert(t.drop_last() =~= s.drop_last().update(j, v));
        assert(t.last() == s.last());
        lemma_wsum_update(s.drop_last(), j, v);
        assert(s.drop_last()[j] == s[j]);
    }
}

/// Exchanging an out-of-order pair strictly increases the weighted sum.
proof fn lemma_swap_increases_wsum(s: Seq<i64>, i: int, j: int)
    requires
        0 <= i < j < s.len(),
        s[i] > s[j],
    ensures
        wsum(s.update(i, s[j]).update(j, s[i])) > wsum(s),
{
    let s1 = s.update(i, s[j]);
    lemma_wsum_update(s, i, s[j]);
    assert(s1[j] == s[j]);
    lemma_wsum_update(s1, j, s[i]);
    assert(i * (s[j] - s[i]) + j * (s[i] - s1[j]) > 0) by (nonlinear_arith)
        requires
            0 <= i < j,
            s[i] > s[j],
            s1[j] == s[j],
    ;
}

/// The weighted sum never exceeds `len * len * i64::MAX`.
proof fn lemma_wsum_bound(s: Seq<i64>)
    ensures
        wsum(s) <= s.len() * s.len() * (i64::MAX as int),
        wslack(s) >= 0,
    decreases s.len(),
{
    if s.len() == 0 {
    } else {
        let d = s.drop_last();
        lemma_wsum_bound(d);
        let n = s.len() as int;
        let m = i64::MAX as int;
        assert((n - 1) * (n - 1) * m + (n - 1) * s.last() <= n * n * m) by (nonlinear_arith)
            requires
                n >= 1,
                m == i64::MAX as int,
                s.last() <= m,
        ;
    }
}

/// Adjacent order at every position gives global order.
proof fn lemma_adjacent_at(s: Seq<i64>, i: int, j: int)
    requires
        forall|k: int| 0 <= k && k + 1 < s.len() ==> #[trigger] s[k] <= s[k + 1],
        0 <= i <= j < s.len(),
    ensures
        s[i] <= s[j],
    decreases j - i,
{
    if i < j {
        lemma_adjacent_at(s, i, j - 1);
        assert(s[j - 1] <= s[j]);
    }
}

/// A sequence whose every adjacent pair is in order is sorted.
proof fn lemma_adjacent_implies_sorted(s: Seq<i64>)
    requires
        forall|k: int| 0 <= k && k + 1 < s.len() ==> #[trigger] s[k] <= s[k + 1],
    ensures
        sorted(s),
{
    assert forall|i: int, j: int| 0 <= i <= j < s.len() implies s[i] <= s[j] by {
        lemma_adjacent_at(s, i, j);
    }
}

/// One left-to-right sweep exchanging adjacent out-of-order pairs.
/// Reports whether anything was exchanged; a quiet sweep leaves the
/// contents untouched and certifies that every adjacent pair is ordered.
fn sweep_forward(v: &mut Vec<i64>) -> (swapped: bool)
    ensures
        final(v)@.len() == old(v)@.len(),
        final(v)@.to_multiset() == old(v)@.to_multiset(),
        !swapped ==> final(v)@ == old(v)@ && (forall|k: int|
            0 <= k && k + 1 < final(v)@.len() ==> #[trigger] final(v)@[k] <= final(v)@[k + 1]),
        swapped ==> wsum(final(v)@) > wsum(old(v)@),
{
    let n = v.len();
    let mut swapped = false;
    if n < 2 {
        return false;
    }
    let mut i: usize = 0;
    while i < n - 1
        invariant
            n == v@.len(),
            2 <= n,
            i <= n - 1,
            v@.to_multiset() == old(v)@.to_multiset(),
            !swapped ==> v@ == old(v)@ && (forall|k: int|
                0 <= k < i as int ==> #[trigger] v@[k] <= v@[k + 1]),
            swapped ==> wsum(v@) > wsum(old(v)@),
        decreases n - i,
    {
        let a = v[i];
        let b = v[i + 1];
        if a > b {
            let ghost s0 = v@;
            v[i] = b;
            v[i + 1] = a;
            proof {
                assert(v@ == s0.update(i as int, b).update(i + 1, a));
                lemma_swap_preserves_multiset(s0, i as int, i + 1);
                lemma_swap_increases_wsum(s0, i as int, i + 1);
                if swapped {
                    assert(wsum(v@) > wsum(old(v)@));
                }
            }
            swapped = true;
        }
        i = i + 1;
    }
    swapped
}

/// One right-to-left sweep exchanging adjacent out-of-order pairs, with
/// the same contract as the forward sweep.
fn sweep_backward(v: &mut Vec<i64>) -> (swapped: bool)
    ensures
        final(v)@.len() == old(v)@.len(),
        final(v)@.to_multiset() == old(v)@.to_multiset(),
        !swapped ==> final(v)@ == old(v)@ && (forall|k: int|
            0 <= k && k + 1 < final(v)@.len() ==> #[trigger] final(v)@[k] <= final(v)@[k + 1]),
        swapped ==> wsum(final(v)@) > wsum(old(v)@),
{
    let n = v.len();
    let mut swapped = false;
    let mut j: usize = n;
    while j > 1
        invariant
            n == v@.len(),
            j <= n,
            v@.to_multiset() == old(v)@.to_multiset(),
            !swapped ==> v@ == old(v)@ && (forall|k: int|
                j as int - 1 <= k && k + 1 < n as int ==> #[trigger] v@[k] <= v@[k + 1]),
            swapped ==> wsum(v@) > wsum(old(v)@),
        decreases j,
    {
        let a = v[j - 2];
        let b = v[j - 1];
        if a > b {
            let ghost s0 = v@;
            v[j - 2] = b;
            v[j - 1] = a;
            proof {
                assert(v@ == s0.update(j - 2, b).update(j - 1, a));
                lemma_swap_preserves_multiset(s0, j - 2, j - 1);
                lemma_swap_increases_wsum(s0, j - 2, j - 1);
                if swapped {
                    assert(wsum(v@) > wsum(old(v)@));
                }
            }
            swapped = true;
        }
        j = j - 1;
    }
    swapped
}

/// One sweep over the pairs starting at every second position from
/// `start` (0 or 1). A quiet sweep leaves the contents untouched and
/// certifies that those pairs are ordered.
fn sweep_pairs(v: &mut Vec<i64>, start: usize) -> (swapped: bool)
    requires
        start == 0 || start == 1,
    ensures
        final(v)@.len() == old(v)@.len(),
        final(v)@.to_multiset() == old(v)@.to_multiset(),
        !swapped ==> final(v)@ == old(v)@ && (forall|k: int|
            0 <= k && k + 1 < final(v)@.len() && k % 2 == start as int ==> #[trigger] final(v)@[k]
                <= final(v)@[k + 1]),
        swapped ==> wsum(final(v)@) > wsum(old(v)@),
{
    let n = v.len();
    let mut swapped = false;
    if n < 2 {
        return false;
    }
    let mut i: usize = start;
    while i < n - 1
        invariant
            n == v@.len(),
            2 <= n,
            start == 0 || start == 1,
            i % 2 == start % 2,
            i <= n + 1,
            v@.to_multiset() == old(v)@.to_multiset(),
            !swapped ==> v@ == old(v)@ && (forall|k: int|
                0 <= k < i as int && k + 1 < n as int && k % 2 == start as int ==> #[trigger] v@[k]
                    <= v@[k + 1]),
            swapped ==> wsum(v@) > wsum(old(v)@),
        decreases n - i,
    {
        let a = v[i];
        let b = v[i + 1];
        if a > b {
            let ghost s0 = v@;
            v[i] = b;
            v[i + 1] = a;
            proof {
                assert(v@ == s0.update(i as int, b).update(i + 1, a));
                lemma_swap_preserves_multiset(s0, i as int, i + 1);
                lemma_swap_increases_wsum(s0, i as int, i + 1);
                if swapped {
                    assert(wsum(v@) > wsum(old(v)@));
                }
            }
            swapped = true;
        }
        i = i + 2;
    }
    swapped
}

/// Merges two sorted vectors into one sorted vector over the combined
/// contents; when the heads are equal, the element of `a` goes first.
fn merge(a: &Vec<i64>, b: &Vec<i64>) -> (r: Vec<i64>)
    requires
        sorted(a@),
        sorted(b@),
    ensures
        sorted(r@),
        r@.to_multiset() == (a@ + b@).to_multiset(),
{
    broadcast use group_to_multiset_ensures;

    let mut res: Vec<i64> = Vec::new();
    let mut i: usize = 0;
    let mut j: usize = 0;
    while i < a.len() || j < b.len()
        invariant
            i <= a@.len(),
            j <= b@.len(),
            sorted(a@),
            sorted(b@),
            sorted(res@),
            res@.to_multiset() == (a@.take(i as int) + b@.take(j as int)).to_multiset(),
            res@.len() > 0 && (i as int) < a@.len() ==> res@.last() <= a@[i as int],
            res@.len() > 0 && (j as int) < b@.len() ==> res@.last() <= b@[j as int],
        decreases a@.len() - i + b@.len() - j,
    {
        let take_a = if i < a.len() {
            if j < b.len() {
                a[i] <= b[j]
            } else {
                true
            }
        } else {
            false
        };
        let ghost r0 = res@;
        if take_a {
            let x = a[i];
            res.push(x);
            proof {
                broadcast use vstd::multiset::group_multiset_axioms;

                assert(res@ == r0.push(x));
                vstd::seq_lib::to_multiset_build(r0, x);
                assert(a@.take(i + 1) =~= a@.take(i as int).push(x));
                vstd::seq_lib::to_multiset_build(a@.take(i as int), x);
                lemma_multiset_commutative(a@.take(i as int), b@.take(j as int));
                lemma_multiset_commutative(a@.take(i + 1), b@.take(j as int));
                assert(res@.to_multiset() =~= (a@.take(i + 1) + b@.take(j as int)).to_multiset());
                assert forall|k: int, l: int|
                    0 <= k <= l < res@.len() implies res@[k] <= res@[l] by {
                    if l < r0.len() {
                        assert(res@[k] == r0[k] && res@[l] == r0[l]);
                    } else if k < r0.len() {
                        assert(res@[k] == r0[k] && r0[k] <= r0.last());
                    }
                }
            }
            i = i + 1;
        } else {
            let y = b[j];
            res.push(y);
            proof {
                broadcast use vstd::multiset::group_multiset_axioms;

                assert(res@ == r0.push(y));
                vstd::seq_lib::to_multiset_build(r0, y);
                assert(b@.take(j + 1) =~= b@.take(j as int).push(y));
                vstd::seq_lib::to_multiset_build(b@.take(j as int), y);
                lemma_multiset_commutative(a@.take(i as int), b@.take(j as int));
                lemma_multiset_commutative(a@.take(i as int), b@.take(j + 1));
                assert(res@.to_multiset() =~= (a@.take(i as int) + b@.take(j + 1)).to_multiset());
                assert(i < a@.len() ==> y <= a@[i as int]);
                assert forall|k: int, l: int|
                    0 <= k <= l < res@.len() implies res@[k] <= res@[l] by {
                    if l < r0.len() {
                        assert(res@[k] == r0[k] && res@[l] == r0[l]);
                    } else if k < r0.len() {
                        assert(res@[k] == r0[k] && r0[k] <= r0.last());
                    }
                }
            }
            j = j + 1;
        }
    }
    proof {
        assert(a@.take(i as int) =~= a@);
        assert(b@.take(j as int) =~= b@);
    }
    res
}

/// Top-down merge sort: split in half, sort both halves, merge.
pub fn merge_sort(data: &[i64]) -> (r: Vec<i64>)
    ensures
        sorted(r@),
        r@.to_multiset() == data@.to_multiset(),
    decreases data@.len(),
{
    broadcast use group_to_multiset_ensures;

    let n = data.len();
    if n < 2 {
        return slice_to_vec(data);
    }
    let m = n / 2;
    let mut left: Vec<i64> = Vec::new();
    let mut idx: usize = 0;
    while idx < m
        invariant
            m <= n,
            idx <= m,
            n == data@.len(),
            left@ == data@.subrange(0, idx as int),
        decreases m - idx,
    {
        left.push(data[idx]);
        proof {
            assert(left@ =~= data@.subrange(0, idx + 1));
        }
        idx = idx + 1;
    }
    let mut right: Vec<i64> = Vec::new();
    let mut idx2: usize = m;
    while idx2 < n
        invariant
            m <= idx2 <= n,
            n == data@.len(),
            right@ == data@.subrange(m as int, idx2 as int),
        decreases n - idx2,
    {
        right.push(data[idx2]);
        proof {
            assert(right@ =~= data@.subrange(m as int, idx2 + 1));
        }
        idx2 = idx2 + 1;
    }
    let ls = merge_sort(left.as_slice());
    let rs = merge_sort(right.as_slice());
    let res = merge(&ls, &rs);
    proof {
        lemma_multiset_commutative(ls@, rs@);
        lemma_multiset_commutative(left@, right@);
        assert(data@ =~= left@ + right@);
        assert(res@.to_multiset() =~= data@.to_multiset());
    }
    res
}

/// Selection sort: repeatedly moves the largest remaining element to the
/// end of the unsorted prefix.
pub fn selection_sort(data: &[i64]) -> (r: Vec<i64>)
    ensures
        sorted(r@),
        r@.to_multiset() == data@.to_multiset(),
{
    let mut out = slice_to_vec(data);
    let n = out.len();
    let mut i: usize = 0;
    while i < n
        invariant
            n == out@.len(),
            i <= n,
            out@.to_multiset() == data@.to_multiset(),
            forall|k: int, l: int|
                #![trigger out@[k], out@[l]]
                0 <= k < l < n as int && n - i <= l ==> out@[k] <= out@[l],
        decreases n - i,
    {
        let limit = n - i;
        let mut mi: usize = 0;
        let mut j: usize = 1;
        while j < limit
            invariant
                n == out@.len(),
                1 <= limit <= n,
                mi < limit,
                j <= limit,
                forall|k: int| 0 <= k < j as int ==> out@[k] <= out@[mi as int],
            decreases limit - j,
        {
            if out[j] > out[mi] {
                mi = j;
            }
            j = j + 1;
        }
        let last = limit - 1;
        let x = out[mi];
        let y = out[last];
        let ghost s0 = out@;
        out[mi] = y;
        out[last] = x;
        proof {
            lemma_swap_preserves_multiset(s0, mi as int, last as int);
            assert(out@ == s0.update(mi as int, y).update(last as int, x));
            assert forall|k: int, l: int|
                #![trigger out@[k], out@[l]]
                0 <= k < l < n as int && n - (i + 1) <= l implies out@[k] <= out@[l] by {
                if l == last as int {
                    if k == mi as int {
                        assert(out@[k] == s0[last as int] && s0[last as int] <= s0[mi as int]);
                    } else {
                        assert(out@[k] == s0[k] && s0[k] <= s0[mi as int]);
                    }
                } else if l > last as int {
                    if k == mi as int {
                        assert(out@[k] == s0[last as int] && s0[last as int] <= s0[l]);
                    } else if k == last as int {
                        assert(out@[k] == s0[mi as int] && s0[mi as int] <= s0[l]);
                    } else {
                        assert(out@[k] == s0[k] && s0[k] <= s0[l]);
                    }
                }
            }
        }
        i = i + 1;
    }
    out
}

/// Double-ended selection sort: each pass moves the smallest remaining
/// element to the front of the window and the largest to its back.
pub fn doubly_selection_sort(data: &[i64]) -> (r: Vec<i64>)
    ensures
        sorted(r@),
        r@.to_multiset() == data@.to_multiset(),
{
    let mut out = slice_to_vec(data);
    let n = out.len();
    if n < 2 {
        return out;
    }
    let mut lo: usize = 0;
    let mut hi: usize = n;
    while lo < hi - 1
        invariant
            n == out@.len(),
            2 <= n,
            1 <= hi,
            lo <= hi <= n,
            out@.to_multiset() == data@.to_multiset(),
            forall|k: int, l: int|
                #![trigger out@[k], out@[l]]
                0 <= k < lo as int && k < l < n as int ==> out@[k] <= out@[l],
            forall|k: int, l: int|
                #![trigger out@[k], out@[l]]
                hi as int <= l < n as int && 0 <= k < l ==> out@[k] <= out@[l],
        decreases hi - lo,
    {
        let mut mi: usize = lo;
        let mut j: usize = lo + 1;
        while j < hi
            invariant
                n == out@.len(),
                lo < hi <= n,
                lo <= mi < hi,
                lo < j <= hi,
                forall|k: int| lo as int <= k < j as int ==> out@[mi as int] <= out@[k],
            decreases hi - j,
        {
            if out[j] < out[mi] {
                mi = j;
            }
            j = j + 1;
        }
        let x = out[mi];
        let y = out[lo];
        let ghost s0 = out@;
        out[mi] = y;
        out[lo] = x;
        proof {
            lemma_swap_preserves_multiset(s0, mi as int, lo as int);
            assert(out@ == s0.update(mi as int, y).update(lo as int, x));
            assert forall|k: int, l: int|
                #![trigger out@[k], out@[l]]
                0 <= k < lo as int + 1 && k < l < n as int implies out@[k] <= out@[l] by {
                if k < lo as int {
                    if l == mi as int && l != lo as int {
                        assert(out@[l] == s0[lo as int] && s0[k] <= s0[lo as int]);
                    } else if l == lo as int {
                        assert(out@[l] == s0[mi as int] && s0[k] <= s0[mi as int]);
                    } else {
                        assert(out@[l] == s0[l] && s0[k] <= s0[l]);
                    }
                    assert(out@[k] == s0[k]);
                } else {
                    assert(k == lo as int);
                    assert(out@[k] == s0[mi as int]);
                    if l == mi as int && l != lo as int {
                        assert(out@[l] == s0[lo as int]);
                        assert(s0[mi as int] <= s0[lo as int]);
                    } else if l < hi as int {
                        assert(out@[l] == s0[l]);
                        assert(s0[mi as int] <= s0[l]);
                    } else {
                        assert(out@[l] == s0[l]);
                        assert(s0[mi as int] <= s0[l]);
                    }
                }
            }
            assert forall|k: int, l: int|
                #![trigger out@[k], out@[l]]
                hi as int <= l < n as int && 0 <= k < l implies out@[k] <= out@[l] by {
                assert(out@[l] == s0[l]);
                if k == mi as int {
                    assert(out@[k] == s0[lo as int] && s0[lo as int] <= s0[l]);
                } else if k == lo as int {
                    assert(out@[k] == s0[mi as int] && s0[mi as int] <= s0[l]);
                } else {
                    assert(out@[k] == s0[k] && s0[k] <= s0[l]);
                }
            }
        }
        lo = lo + 1;
        let mut xi: usize = lo;
        let mut j2: usize = lo + 1;
        while j2 < hi
            invariant
                n == out@.len(),
                lo < hi <= n,
                lo <= xi < hi,
                lo < j2 <= hi,
                forall|k: int| lo as int <= k < j2 as int ==> out@[k] <= out@[xi as int],
            decreases hi - j2,
        {
            if out[j2] > out[xi] {
                xi = j2;
            }
            j2 = j2 + 1;
        }
        let back = hi - 1;
        let x2 = out[xi];
        let y2 = out[back];
        let ghost s1 = out@;
        out[xi] = y2;
        out[back] = x2;
        proof {
            lemma_swap_preserves_multiset(s1, xi as int, back as int);
            assert(out@ == s1.update(xi as int, y2).update(back as int, x2));
            assert forall|k: int, l: int|
                #![trigger out@[k], out@[l]]
                0 <= k < lo as int && k < l < n as int implies out@[k] <= out@[l] by {
                assert(out@[k] == s1[k]);
                if l == xi as int && l != back as int {
                    assert(out@[l] == s1[back as int] && s1[k] <= s1[back as int]);
                } else if l == back as int {
                    assert(out@[l] == s1[xi as int] && s1[k] <= s1[xi as int]);
                } else {
                    assert(out@[l] == s1[l] && s1[k] <= s1[l]);
                }
            }
            assert forall|k: int, l: int|
                #![trigger out@[k], out@[l]]
                hi as int - 1 <= l < n as int && 0 <= k < l implies out@[k] <= out@[l] by {
                if l == back as int {
                    if k == xi as int && k != back as int {
                        assert(out@[k] == s1[back as int] && s1[back as int] <= s1[xi as int]);
                        assert(out@[l] == s1[xi as int]);
                    } else {
                        assert(out@[k] == s1[k] && s1[k] <= s1[xi as int]);
                        assert(out@[l] == s1[xi as int]);
                    }
                } else {
                    assert(out@[l] == s1[l]);
                    if k == xi as int && k != back as int {
                        assert(out@[k] == s1[back as int] && s1[back as int] <= s1[l]);
                    } else if k == back as int {
                        assert(out@[k] == s1[xi as int] && s1[xi as int] <= s1[l]);
                    } else {
                        assert(out@[k] == s1[k] && s1[k] <= s1[l]);
                    }
                }
            }
        }
        hi = hi - 1;
    }
    proof {
        assert forall|p: int, q: int| 0 <= p <= q < out@.len() implies out@[p] <= out@[q] by {
            if p < q {
                if p < lo as int {
                } else if q >= hi as int {
                } else {
                    assert(lo as int <= p < q < hi as int);
                    assert(false);
                }
            }
        }
    }
    out
}

/// Bubble sort: left-to-right sweeps of adjacent exchanges until a sweep
/// makes none.
pub fn bubble_sort(data: &[i64]) -> (r: Vec<i64>)
    ensures
        sorted(r@),
        r@.to_multiset() == data@.to_multiset(),
{
    let mut out = slice_to_vec(data);
    loop
        invariant
            out@.len() == data@.len(),
            out@.to_multiset() == data@.to_multiset(),
        decreases wslack(out@),
    {
        let ghost before = out@;
        let sw = sweep_forward(&mut out);
        if !sw {
            proof {
                lemma_adjacent_implies_sorted(out@);
            }
            return out;
        }
        proof {
            lemma_wsum_bound(out@);
            assert(wslack(out@) < wslack(before));
        }
    }
}

/// Cocktail sort: alternating left-to-right and right-to-left sweeps of
/// adjacent exchanges until a sweep makes none.
pub fn cocktail_sort(data: &[i64]) -> (r: Vec<i64>)
    ensures
        sorted(r@),
        r@.to_multiset() == data@.to_multiset(),
{
    let mut out = slice_to_vec(data);
    loop
        invariant
            out@.len() == data@.len(),
            out@.to_multiset() == data@.to_multiset(),
        decreases wslack(out@),
    {
        let ghost before = out@;
        let fwd = sweep_forward(&mut out);
        if !fwd {
            proof {
                lemma_adjacent_implies_sorted(out@);
            }
            return out;
        }
        let bwd = sweep_backward(&mut out);
        if !bwd {
            proof {
                lemma_adjacent_implies_sorted(out@);
            }
            return out;
        }
        proof {
            lemma_wsum_bound(out@);
            assert(wslack(out@) < wslack(before));
        }
    }
}

/// Odd-even transposition sort: alternating sweeps over the pairs at
/// even and at odd positions until neither sweep exchanges anything.
pub fn odd_even_sort(data: &[i64]) -> (r: Vec<i64>)
    ensures
        sorted(r@),
        r@.to_multiset() == data@.to_multiset(),
{
    let mut out = slice_to_vec(data);
    loop
        invariant
            out@.len() == data@.len(),
            out@.to_multiset() == data@.to_multiset(),
        decreases wslack(out@),
    {
        let ghost before = out@;
        let even = sweep_pairs(&mut out, 0);
        let odd = sweep_pairs(&mut out, 1);
        if !even && !odd {
            proof {
                assert forall|k: int| 0 <= k && k + 1 < out@.len() implies #[trigger] out@[k]
                    <= out@[k + 1] by {
                    assert(k % 2 == 0 || k % 2 == 1);
                }
                lemma_adjacent_implies_sorted(out@);
            }
            return out;
        }
        proof {
            lemma_wsum_bound(out@);
            assert(wslack(out@) < wslack(before));
        }
    }
}

/// An element with a sort key and a payload tag that comparisons ignore.
#[derive(Clone, Copy, Debug, PartialEq, Eq, Structural)]
pub struct KeyedItem {
    pub key: i64,
    pub tag: i64,
}

/// The sequence is in non-decreasing order of keys.
pub open spec fn sorted_by_key(s: Seq<KeyedItem>) -> bool {
    forall|i: int, j: int| 0 <= i <= j < s.len() ==> s[i].key <= s[j].key
}

/// The subsequence of elements carrying the key `k`, in their original
/// order.
pub open spec fn key_run(s: Seq<KeyedItem>, k: i64) -> Seq<KeyedItem> {
    s.filter(|p: KeyedItem| p.key == k)
}

/// Appending an element extends the run of its own key and no other.
proof fn lemma_key_run_push(s: Seq<KeyedItem>, x: KeyedItem, k: i64)
    ensures
        x.key == k ==> key_run(s.push(x), k) == key_run(s, k).push(x),
        x.key != k ==> key_run(s.push(x), k) == key_run(s, k),
{
    reveal_with_fuel(Seq::filter, 2);
    assert(s.push(x).drop_last() =~= s);
    assert(s.push(x).last() == x);
}

/// A sequence without the key `k` has an empty run of it.
proof fn lemma_key_run_absent(s: Seq<KeyedItem>, k: i64)
    requires
        forall|l: int| 0 <= l < s.len() ==> (#[trigger] s[l]).key != k,
    ensures
        key_run(s, k) == Seq::<KeyedItem>::empty(),
{
    s.lemma_all_neg_filter_empty(|p: KeyedItem| p.key == k);
    assert(key_run(s, k) =~= Seq::<KeyedItem>::empty());
}

/// Merges two key-sorted vectors; when the heads carry equal keys the
/// element of `a` goes first, so for every key the elements of `a` end up
/// before those of `b`, each side in its original order.
fn merge_by_key(a: &Vec<KeyedItem>, b: &Vec<KeyedItem>) -> (r: Vec<KeyedItem>)
    requires
        sorted_by_key(a@),
        sorted_by_key(b@),
    ensures
        sorted_by_key(r@),
        forall|k: i64| #[trigger] key_run(r@, k) == key_run(a@, k) + key_run(b@, k),
{
    let mut res: Vec<KeyedItem> = Vec::new();
    let mut i: usize = 0;
    let mut j: usize = 0;
    while i < a.len() || j < b.len()
        invariant
            i <= a@.len(),
            j <= b@.len(),
            sorted_by_key(a@),
            sorted_by_key(b@),
            sorted_by_key(res@),
            forall|k: i64| #[trigger] key_run(res@, k) == key_run(a@.take(i as int), k)
                + key_run(b@.take(j as int), k),
            forall|l: int|
                0 <= l < j as int && (i as int) < a@.len() ==> (#[trigger] b@[l]).key
                    < a@[i as int].key,
            res@.len() > 0 && (i as int) < a@.len() ==> res@.last().key <= a@[i as int].key,
            res@.len() > 0 && (j as int) < b@.len() ==> res@.last().key <= b@[j as int].key,
        decreases a@.len() - i + b@.len() - j,
    {
        let take_a = if i < a.len() {
            if j < b.len() {
                a[i].key <= b[j].key
            } else {
                true
            }
        } else {
            false
        };
        let ghost r0 = res@;
        if take_a {
            let x = a[i];
            res.push(x);
            proof {
                assert(res@ == r0.push(x));
                assert(a@.take(i + 1) =~= a@.take(i as int).push(x));
                assert forall|k: i64| #[trigger] key_run(res@, k) == key_run(
                    a@.take(i + 1),
                    k,
                ) + key_run(b@.take(j as int), k) by {
                    lemma_key_run_push(r0, x, k);
                    lemma_key_run_push(a@.take(i as int), x, k);
                    if x.key == k {
                        assert forall|l: int|
                            0 <= l < b@.take(j as int).len() implies (#[trigger] b@.take(
                            j as int,
                        )[l]).key != k by {
                            assert(b@.take(j as int)[l] == b@[l]);
                        }
                        lemma_key_run_absent(b@.take(j as int), k);
                        assert(key_run(r0, k) == key_run(a@.take(i as int), k)
                            + Seq::<KeyedItem>::empty());
                        assert(key_run(r0, k) =~= key_run(a@.take(i as int), k));
                        assert(key_run(res@, k) =~= key_run(a@.take(i + 1), k) + key_run(
                            b@.take(j as int),
                            k,
                        ));
                    }
                }
                assert forall|k2: int, l2: int|
                    0 <= k2 <= l2 < res@.len() implies res@[k2].key <= res@[l2].key by {
                    if l2 < r0.len() {
                        assert(res@[k2] == r0[k2] && res@[l2] == r0[l2]);
                    } else if k2 < r0.len() {
                        assert(res@[k2] == r0[k2] && r0[k2].key <= r0.last().key);
                    }
                }
            }
            i = i + 1;
        } else {
            let y = b[j];
            res.push(y);
            proof {
                assert(res@ == r0.push(y));
                assert(b@.take(j + 1) =~= b@.take(j as int).push(y));
                assert forall|k: i64| #[trigger] key_run(res@, k) == key_run(
                    a@.take(i as int),
                    k,
                ) + key_run(b@.take(j + 1), k) by {
                    lemma_key_run_push(r0, y, k);
                    lemma_key_run_push(b@.take(j as int), y, k);
                    if y.key == k {
                        assert(key_run(res@, k) =~= key_run(a@.take(i as int), k) + key_run(
                            b@.take(j + 1),
                            k,
                        ));
                    }
                }
                assert((i as int) < a@.len() ==> y.key < a@[i as int].key);
                assert forall|k2: int, l2: int|
                    0 <= k2 <= l2 < res@.len() implies res@[k2].key <= res@[l2].key by {
                    if l2 < r0.len() {
                        assert(res@[k2] == r0[k2] && res@[l2] == r0[l2]);
                    } else if k2 < r0.len() {
                        assert(res@[k2] == r0[k2] && r0[k2].key <= r0.last().key);
                    }
                }
            }
            j = j + 1;
        }
    }
    proof {
        assert(a@.take(i as int) =~= a@);
        assert(b@.take(j as int) =~= b@);
    }
    res
}

/// Top-down merge sort over keyed elements, stable: the output is sorted
/// by key, and for every key the elements carrying it keep the order
/// they had in the input.
pub fn merge_sort_by_key(data: &[KeyedItem]) -> (r: Vec<KeyedItem>)
    ensures
        sorted_by_key(r@),
        forall|k: i64| #[trigger] key_run(r@, k) == key_run(data@, k),
    decreases data@.len(),
{
    let n = data.len();
    if n < 2 {
        return slice_to_vec(data);
    }
    let m = n / 2;
    let mut left: Vec<KeyedItem> = Vec::new();
    let mut idx: usize = 0;
    while idx < m
        invariant
            m <= n,
            idx <= m,
            n == data@.len(),
            left@ == data@.subrange(0, idx as int),
        decreases m - idx,
    {
        left.push(data[idx]);
        proof {
            assert(left@ =~= data@.subrange(0, idx + 1));
        }
        idx = idx + 1;
    }
    let mut right: Vec<KeyedItem> = Vec::new();
    let mut idx2: usize = m;
    while idx2 < n
        invariant
            m <= idx2 <= n,
            n == data@.len(),
            right@ == data@.subrange(m as int, idx2 as int),
        decreases n - idx2,
    {
        right.push(data[idx2]);
        proof {
            assert(right@ =~= data@.subrange(m as int, idx2 + 1));
        }
        idx2 = idx2 + 1;
    }
    let ls = merge_sort_by_key(left.as_slice());
    let rs = merge_sort_by_key(right.as_slice());
    let res = merge_by_key(&ls, &rs);
    proof {
        assert(data@ =~= left@ + right@);
        assert forall|k: i64| #[trigger] key_run(res@, k) == key_run(data@, k) by {
            Seq::filter_distributes_over_add(left@, right@, |p: KeyedItem| p.key == k);
            assert(key_run(res@, k) == key_run(ls@, k) + key_run(rs@, k));
            assert(key_run(ls@, k) == key_run(left@, k));
            assert(key_run(rs@, k) == key_run(right@, k));
            assert(key_run(left@ + right@, k) == key_run(left@, k) + key_run(right@, k));
        }
    }
    res
}

/// Returns a fresh copy of the input contents, in their original order.
pub fn comb_sort(data: &[i64]) -> (r: Vec<i64>)
    ensures
        r@ == data@,
{
    slice_to_vec(data)
}

} // verus!
