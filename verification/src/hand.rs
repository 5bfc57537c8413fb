use vstd::prelude::*;

verus! {

/// Number of distinct tile kinds.
pub const KINDS: usize = 34;

/// The entries of a count vector as mathematical integers.
pub open spec fn ints(s: Seq<i8>) -> Seq<int> {
    Seq::new(s.len(), |i: int| s[i] as int)
}

/// Sum of all entries.
pub open spec fn total(s: Seq<int>) -> int
    decreases s.len(),
{
    if s.len() == 0 {
        0
    } else {
        total(s.drop_last()) + s.last()
    }
}

/// A hand: one non-negative count for each of the 34 kinds.
pub open spec fn is_hand(h: Seq<i8>) -> bool {
    &&& h.len() == KINDS
    &&& forall|k: int| 0 <= k < h.len() ==> h[k] >= 0
}

/// A histogram: a hand in which no kind has more than its four physical copies.
pub open spec fn is_histogram(h: Seq<i8>) -> bool {
    &&& h.len() == KINDS
    &&& forall|k: int| 0 <= k < h.len() ==> 0 <= #[trigger] h[k] <= 4
}

/// Every entry lies between `lo` and `hi`.
pub open spec fn within(g: Seq<int>, lo: int, hi: int) -> bool {
    forall|k: int| 0 <= k < g.len() ==> lo <= #[trigger] g[k] <= hi
}

/// `g` with `n` copies removed at position `k`.
pub open spec fn less(g: Seq<int>, k: int, n: int) -> Seq<int> {
    g.update(k, g[k] - n)
}

/// `g` with one copy removed at each of `k`, `k + 1`, `k + 2`.
pub open spec fn less_run(g: Seq<int>, k: int) -> Seq<int> {
    less(less(less(g, k, 1), k + 1, 1), k + 2, 1)
}

/// The nine (or, for the honors, seven) counts of suit group `s` of a hand.
pub open spec fn group(h: Seq<int>, s: int) -> Seq<int> {
    if s == 3 {
        h.subrange(27, 34)
    } else {
        h.subrange(9 * s, 9 * s + 9)
    }
}

/// Changing one count changes the one integer that stands for it.
pub proof fn lemma_ints_update(s: Seq<i8>, k: int, v: i8)
    requires
        0 <= k < s.len(),
    ensures
        ints(s.update(k, v)) == ints(s).update(k, v as int),
{
    assert(ints(s.update(k, v)) =~= ints(s).update(k, v as int));
}

/// Counts that are not negative add up to no less than zero.
pub proof fn lemma_total_nonneg(s: Seq<int>)
    requires
        forall|k: int| 0 <= k < s.len() ==> s[k] >= 0,
    ensures
        total(s) >= 0,
    decreases s.len(),
{
    if s.len() > 0 {
        lemma_total_nonneg(s.drop_last());
    }
}

/// Changing one entry changes the total by as much.
pub proof fn lemma_total_update(s: Seq<int>, k: int, v: int)
    requires
        0 <= k < s.len(),
    ensures
        total(s.update(k, v)) == total(s) - s[k] + v,
    decreases s.len(),
{
    if k == s.len() - 1 {
        assert(s.update(k, v).drop_last() =~= s.drop_last());
    } else {
        lemma_total_update(s.drop_last(), k, v);
        assert(s.update(k, v).drop_last() =~= s.drop_last().update(k, v));
    }
}

/// The total of two lists, one behind the other, is the sum of their totals.
pub proof fn lemma_total_concat(a: Seq<int>, b: Seq<int>)
    ensures
        total(a + b) == total(a) + total(b),
    decreases b.len(),
{
    if b.len() == 0 {
        assert(a + b =~= a);
    } else {
        lemma_total_concat(a, b.drop_last());
        assert((a + b).drop_last() =~= a + b.drop_last());
    }
}

/// Zeros add up to zero.
pub proof fn lemma_total_all_zero(s: Seq<int>)
    requires
        forall|j: int| 0 <= j < s.len() ==> s[j] == 0,
    ensures
        total(s) == 0,
    decreases s.len(),
{
    if s.len() > 0 {
        lemma_total_all_zero(s.drop_last());
    }
}

/// An entry is at most the total when nothing is negative.
pub proof fn lemma_total_bounds_entry(s: Seq<int>, k: int)
    requires
        0 <= k < s.len(),
        forall|j: int| 0 <= j < s.len() ==> s[j] >= 0,
    ensures
        s[k] <= total(s),
    decreases s.len(),
{
    if k == s.len() - 1 {
        lemma_total_nonneg(s.drop_last());
    } else {
        lemma_total_bounds_entry(s.drop_last(), k);
    }
}

/// A sequence without negative entries whose total is zero holds only zeros.
pub proof fn lemma_total_zero(s: Seq<int>)
    requires
        forall|j: int| 0 <= j < s.len() ==> s[j] >= 0,
        total(s) == 0,
    ensures
        forall|j: int| 0 <= j < s.len() ==> s[j] == 0,
{
    assert forall|j: int| 0 <= j < s.len() implies s[j] == 0 by {
        lemma_total_bounds_entry(s, j);
    }
}

/// The total of a hand is the total of its four suit groups.
pub proof fn lemma_total_groups(h: Seq<int>)
    requires
        h.len() == 34,
    ensures
        total(h) == total(group(h, 0)) + total(group(h, 1)) + total(group(h, 2)) + total(
            group(h, 3),
        ),
{
    let a = group(h, 0);
    let b = group(h, 1);
    let c = group(h, 2);
    let d = group(h, 3);
    lemma_total_concat(a, b);
    lemma_total_concat(a + b, c);
    lemma_total_concat(a + b + c, d);
    assert(h =~= a + b + c + d);
}

} // verus!
