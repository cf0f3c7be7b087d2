//! Sums over sequences of integers, and the facts about them that the
//! counting arguments of the game use.

use vstd::prelude::*;

verus! {

/// The sum of a sequence of integers.
pub open spec fn sum(s: Seq<int>) -> int
    decreases s.len(),
{
    if s.len() == 0 {
        0
    } else {
        sum(s.drop_last()) + s.last()
    }
}

/// Replacing one element changes the sum by the difference.
pub proof fn lemma_sum_update(s: Seq<int>, i: int, v: int)
    requires
        0 <= i < s.len(),
    ensures
        sum(s.update(i, v)) == sum(s) - s[i] + v,
    decreases s.len(),
{
    let t = s.update(i, v);
    if i == s.len() - 1 {
        assert(t.drop_last() =~= s.drop_last());
    } else {
        assert(t.drop_last() =~= s.drop_last().update(i, v));
        lemma_sum_update(s.drop_last(), i, v);
    }
}

/// A sum of elements between `lo` and `hi` lies between `len * lo` and `len * hi`.
pub proof fn lemma_sum_bounds(s: Seq<int>, lo: int, hi: int)
    requires
        forall|i: int| 0 <= i < s.len() ==> lo <= #[trigger] s[i] <= hi,
    ensures
        s.len() * lo <= sum(s) <= s.len() * hi,
    decreases s.len(),
{
    if s.len() > 0 {
        lemma_sum_bounds(s.drop_last(), lo, hi);
        assert(s.len() * lo == (s.len() - 1) * lo + lo) by (nonlinear_arith);
        assert(s.len() * hi == (s.len() - 1) * hi + hi) by (nonlinear_arith);
    }
}

/// A sum of non-negative elements is non-negative.
pub proof fn lemma_sum_nonneg(s: Seq<int>)
    requires
        forall|j: int| 0 <= j < s.len() ==> 0 <= #[trigger] s[j],
    ensures
        0 <= sum(s),
    decreases s.len(),
{
    if s.len() > 0 {
        lemma_sum_nonneg(s.drop_last());
    }
}

/// In a sum of non-negative elements every element is at most the sum.
pub proof fn lemma_sum_element(s: Seq<int>, i: int)
    requires
        0 <= i < s.len(),
        forall|j: int| 0 <= j < s.len() ==> 0 <= #[trigger] s[j],
    ensures
        0 <= s[i] <= sum(s),
    decreases s.len(),
{
    lemma_sum_nonneg(s.drop_last());
    if i < s.len() - 1 {
        lemma_sum_element(s.drop_last(), i);
    }
}

/// Sums of two sequences of equal length add element by element.
pub proof fn lemma_sum_add(a: Seq<int>, b: Seq<int>, c: Seq<int>)
    requires
        a.len() == b.len() == c.len(),
        forall|i: int| 0 <= i < a.len() ==> #[trigger] c[i] == a[i] + b[i],
    ensures
        sum(c) == sum(a) + sum(b),
    decreases a.len(),
{
    if a.len() > 0 {
        lemma_sum_add(a.drop_last(), b.drop_last(), c.drop_last());
    }
}

/// Replacing one element of a sequence changes the sum of a measure of its
/// elements by the difference of the measures.
pub proof fn lemma_sum_map_update<A>(s: Seq<A>, i: int, v: A, f: spec_fn(A) -> int)
    requires
        0 <= i < s.len(),
    ensures
        sum(s.update(i, v).map_values(f)) == sum(s.map_values(f)) - f(s[i]) + f(v),
{
    assert(s.update(i, v).map_values(f) =~= s.map_values(f).update(i, f(v)));
    lemma_sum_update(s.map_values(f), i, f(v));
}

/// A sum of fourteen elements, written out.
pub proof fn lemma_sum_14(s: Seq<int>)
    requires
        s.len() == 14,
    ensures
        sum(s) == s[0] + s[1] + s[2] + s[3] + s[4] + s[5] + s[6] + s[7] + s[8] + s[9] + s[10] + s[11]
            + s[12] + s[13],
{
    assert(sum(s.take(0)) == 0);
    assert(s.take(1).drop_last() =~= s.take(0));
    assert(sum(s.take(1)) == sum(s.take(0)) + s[0]);
    assert(s.take(2).drop_last() =~= s.take(1));
    assert(sum(s.take(2)) == sum(s.take(1)) + s[1]);
    assert(s.take(3).drop_last() =~= s.take(2));
    assert(sum(s.take(3)) == sum(s.take(2)) + s[2]);
    assert(s.take(4).drop_last() =~= s.take(3));
    assert(sum(s.take(4)) == sum(s.take(3)) + s[3]);
    assert(s.take(5).drop_last() =~= s.take(4));
    assert(sum(s.take(5)) == sum(s.take(4)) + s[4]);
    assert(s.take(6).drop_last() =~= s.take(5));
    assert(sum(s.take(6)) == sum(s.take(5)) + s[5]);
    assert(s.take(7).drop_last() =~= s.take(6));
    assert(sum(s.take(7)) == sum(s.take(6)) + s[6]);
    assert(s.take(8).drop_last() =~= s.take(7));
    assert(sum(s.take(8)) == sum(s.take(7)) + s[7]);
    assert(s.take(9).drop_last() =~= s.take(8));
    assert(sum(s.take(9)) == sum(s.take(8)) + s[8]);
    assert(s.take(10).drop_last() =~= s.take(9));
    assert(sum(s.take(10)) == sum(s.take(9)) + s[9]);
    assert(s.take(11).drop_last() =~= s.take(10));
    assert(sum(s.take(11)) == sum(s.take(10)) + s[10]);
    assert(s.take(12).drop_last() =~= s.take(11));
    assert(sum(s.take(12)) == sum(s.take(11)) + s[11]);
    assert(s.take(13).drop_last() =~= s.take(12));
    assert(sum(s.take(13)) == sum(s.take(12)) + s[12]);
    assert(s.take(14).drop_last() =~= s.take(13));
    assert(sum(s.take(14)) == sum(s.take(13)) + s[13]);
    assert(s.take(14) =~= s);
}

/// A sum is no larger than a sum of larger elements.
pub proof fn lemma_sum_mono(a: Seq<int>, b: Seq<int>)
    requires
        a.len() == b.len(),
        forall|i: int| 0 <= i < a.len() ==> #[trigger] a[i] <= b[i],
    ensures
        sum(a) <= sum(b),
    decreases a.len(),
{
    if a.len() > 0 {
        lemma_sum_mono(a.drop_last(), b.drop_last());
    }
}

/// Scaling every element scales the sum.
pub proof fn lemma_sum_scale(a: Seq<int>, k: int)
    ensures
        sum(Seq::new(a.len(), |i: int| k * a[i])) == k * sum(a),
    decreases a.len(),
{
    if a.len() > 0 {
        let b = Seq::new(a.len(), |i: int| k * a[i]);
        assert(b.drop_last() =~= Seq::new(a.drop_last().len(), |i: int| k * a.drop_last()[i]));
        lemma_sum_scale(a.drop_last(), k);
        assert(k * sum(a) == k * sum(a.drop_last()) + k * a.last()) by (nonlinear_arith)
            requires sum(a) == sum(a.drop_last()) + a.last();
    }
}

} // verus!
