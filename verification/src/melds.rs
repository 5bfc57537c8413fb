use crate::hand::{less, less_run, total, within};
use vstd::prelude::*;

verus! {

/// Whether a run of three consecutive kinds may start at position `k`: the position lies
/// among the first `suited` ones, which are numerals in suits of nine, it is at most the
/// numeral 7 of its suit, and the two positions after it exist.
pub open spec fn run_fits(g: Seq<int>, k: int, suited: int) -> bool {
    0 <= k < suited && k % 9 <= 6 && k + 2 < g.len()
}

/// Whether the tiles of `g` from position `k` on can be used up by triplets and runs.
/// The leftmost tile that is left has to be part of a triplet of its kind or has to
/// start a run, so it is enough to try these two at the leftmost tile.
pub open spec fn reduces(g: Seq<int>, k: int, suited: int) -> bool
    decreases g.len() - k, (if 0 <= k < g.len() && g[k] > 0 {
        g[k]
    } else {
        0
    }),
{
    if k < 0 {
        false
    } else if k >= g.len() {
        true
    } else if g[k] == 0 {
        reduces(g, k + 1, suited)
    } else if g[k] < 0 {
        false
    } else {
        ||| (g[k] >= 3 && reduces(less(g, k, 3), k, suited))
        ||| (run_fits(g, k, suited) && g[k + 1] >= 1 && g[k + 2] >= 1 && reduces(
            less_run(g, k),
            k,
            suited,
        ))
    }
}

/// `g` with one more copy at each of `k`, `k + 1`, `k + 2`.
pub open spec fn more_run(g: Seq<int>, k: int) -> Seq<int> {
    less(less(less(g, k, -1), k + 1, -1), k + 2, -1)
}

/// `g` after `n` runs starting at `k` were taken and position `k` was emptied.
pub open spec fn cleared(g: Seq<int>, k: int, n: int) -> Seq<int> {
    g.update(k, 0).update(k + 1, g[k + 1] - n).update(k + 2, g[k + 2] - n)
}

/// What is left of a group from `k` on holds no negative count if it reduces.
pub proof fn lemma_reduces_nonneg(g: Seq<int>, k: int, suited: int)
    requires
        reduces(g, k, suited),
    ensures
        forall|j: int| k <= j < g.len() ==> g[j] >= 0,
    decreases g.len() - k, (if 0 <= k < g.len() && g[k] > 0 {
        g[k]
    } else {
        0
    }),
{
    if k >= g.len() {
    } else if g[k] == 0 {
        lemma_reduces_nonneg(g, k + 1, suited);
    } else if g[k] >= 3 && reduces(less(g, k, 3), k, suited) {
        lemma_reduces_nonneg(less(g, k, 3), k, suited);
        assert forall|j: int| k <= j < g.len() implies g[j] >= 0 by {
            assert(less(g, k, 3)[j] >= 0);
        }
    } else {
        lemma_reduces_nonneg(less_run(g, k), k, suited);
        assert forall|j: int| k <= j < g.len() implies g[j] >= 0 by {
            assert(less_run(g, k)[j] >= 0);
        }
    }
}

/// A group that reduces still reduces with one more triplet in it.
pub proof fn lemma_add_triplet(g: Seq<int>, k: int, j: int, suited: int)
    requires
        reduces(g, k, suited),
        0 <= k <= j < g.len(),
    ensures
        reduces(less(g, j, -3), k, suited),
    decreases g.len() - k, (if 0 <= k < g.len() && g[k] > 0 {
        g[k]
    } else {
        0
    }),
{
    let g2 = less(g, j, -3);
    if k == j {
        assert(less(g2, k, 3) =~= g);
    } else if g[k] == 0 {
        lemma_add_triplet(g, k + 1, j, suited);
    } else if g[k] >= 3 && reduces(less(g, k, 3), k, suited) {
        lemma_add_triplet(less(g, k, 3), k, j, suited);
        assert(less(g2, k, 3) =~= less(less(g, k, 3), j, -3));
    } else {
        lemma_add_triplet(less_run(g, k), k, j, suited);
        assert(less_run(g2, k) =~= less(less_run(g, k), j, -3));
    }
}

/// A group that reduces still reduces with one more run in it.
pub proof fn lemma_add_run(g: Seq<int>, k: int, j: int, suited: int)
    requires
        reduces(g, k, suited),
        0 <= k <= j,
        run_fits(g, j, suited),
    ensures
        reduces(more_run(g, j), k, suited),
    decreases g.len() - k, (if 0 <= k < g.len() && g[k] > 0 {
        g[k]
    } else {
        0
    }),
{
    let g2 = more_run(g, j);
    if k == j {
        lemma_reduces_nonneg(g, k, suited);
        assert(less_run(g2, k) =~= g);
    } else if g[k] == 0 {
        lemma_add_run(g, k + 1, j, suited);
    } else if g[k] >= 3 && reduces(less(g, k, 3), k, suited) {
        lemma_add_run(less(g, k, 3), k, j, suited);
        assert(less(g2, k, 3) =~= more_run(less(g, k, 3), j));
    } else {
        lemma_add_run(less_run(g, k), k, j, suited);
        assert(less_run(g2, k) =~= more_run(less_run(g, k), j));
    }
}

/// With one or two copies at the leftmost kind, each of them has to start a run.
pub proof fn lemma_leftmost_low(g: Seq<int>, k: int, suited: int)
    requires
        0 <= k < g.len(),
        g[k] == 1 || g[k] == 2,
    ensures
        reduces(g, k, suited) == (run_fits(g, k, suited) && g[k + 1] >= g[k] && g[k + 2] >= g[k]
            && reduces(cleared(g, k, g[k]), k + 1, suited)),
{
    if run_fits(g, k, suited) && g[k + 1] >= 1 && g[k + 2] >= 1 {
        let g1 = less_run(g, k);
        if g[k] == 1 {
            assert(g1 =~= cleared(g, k, 1));
            assert(reduces(g1, k, suited) == reduces(g1, k + 1, suited));
        } else {
            assert(g1[k] == 1);
            assert(run_fits(g1, k, suited));
            if g1[k + 1] >= 1 && g1[k + 2] >= 1 {
                let g2 = less_run(g1, k);
                assert(g2 =~= cleared(g, k, 2));
                assert(reduces(g2, k, suited) == reduces(g2, k + 1, suited));
                assert(reduces(g1, k, suited) == reduces(g2, k, suited));
            } else {
                assert(!reduces(g1, k, suited));
            }
        }
    }
}

/// With three copies at the leftmost kind, nothing is lost by taking them as a triplet:
/// three equal runs can be exchanged for three triplets.
pub proof fn lemma_leftmost_three(g: Seq<int>, k: int, suited: int)
    requires
        0 <= k < g.len(),
        g[k] == 3,
    ensures
        reduces(g, k, suited) == reduces(g.update(k, 0), k + 1, suited),
{
    let t = g.update(k, 0);
    assert(less(g, k, 3) =~= t);
    assert(reduces(t, k, suited) == reduces(t, k + 1, suited));
    if run_fits(g, k, suited) && g[k + 1] >= 1 && g[k + 2] >= 1 && reduces(
        less_run(g, k),
        k,
        suited,
    ) {
        let g1 = less_run(g, k);
        let g2 = less_run(g1, k);
        let g3 = less_run(g2, k);
        assert(g1[k] == 2);
        assert(reduces(g2, k, suited));
        assert(g2[k] == 1);
        assert(reduces(g3, k, suited));
        assert(g3[k] == 0);
        assert(reduces(g3, k + 1, suited));
        lemma_add_triplet(g3, k + 1, k + 1, suited);
        lemma_add_triplet(less(g3, k + 1, -3), k + 1, k + 2, suited);
        assert(less(less(g3, k + 1, -3), k + 2, -3) =~= g.update(k, 0));
    }
}

/// With four copies at the leftmost kind, one of them starts a run and nothing is lost
/// by taking the other three as a triplet.
pub proof fn lemma_leftmost_four(g: Seq<int>, k: int, suited: int)
    requires
        0 <= k < g.len(),
        g[k] == 4,
    ensures
        reduces(g, k, suited) == (run_fits(g, k, suited) && g[k + 1] >= 1 && g[k + 2] >= 1
            && reduces(cleared(g, k, 1), k + 1, suited)),
{
    let t = less(g, k, 3);
    let c = cleared(g, k, 1);
    assert(t[k] == 1);
    if run_fits(g, k, suited) && g[k + 1] >= 1 && g[k + 2] >= 1 {
        assert(run_fits(t, k, suited));
        assert(less_run(t, k) =~= c);
        assert(reduces(c, k, suited) == reduces(c, k + 1, suited));
        assert(reduces(t, k, suited) == reduces(c, k, suited));
        let g1 = less_run(g, k);
        assert(g1[k] == 3);
        assert(less(g1, k, 3) =~= c);
        if reduces(g1, k, suited) && !reduces(less(g1, k, 3), k, suited) {
            let g2 = less_run(g1, k);
            let g3 = less_run(g2, k);
            let g4 = less_run(g3, k);
            assert(reduces(g2, k, suited));
            assert(g2[k] == 2);
            assert(reduces(g3, k, suited));
            assert(g3[k] == 1);
            assert(reduces(g4, k, suited));
            assert(g4[k] == 0);
            assert(reduces(g4, k + 1, suited));
            lemma_add_triplet(g4, k + 1, k + 1, suited);
            lemma_add_triplet(less(g4, k + 1, -3), k + 1, k + 2, suited);
            assert(less(less(g4, k + 1, -3), k + 2, -3) =~= cleared(g, k, 1));
        }
    } else {
        assert(!reduces(t, k, suited));
    }
}

/// Triplets and runs take three tiles each: what reduces holds a multiple of three.
pub proof fn lemma_reduces_total(g: Seq<int>, k: int, suited: int)
    requires
        reduces(g, k, suited),
        forall|j: int| 0 <= j < k && j < g.len() ==> g[j] == 0,
    ensures
        total(g) % 3 == 0,
    decreases g.len() - k, (if 0 <= k < g.len() && g[k] > 0 {
        g[k]
    } else {
        0
    }),
{
    if k >= g.len() {
        crate::hand::lemma_total_all_zero(g);
    } else if g[k] == 0 {
        lemma_reduces_total(g, k + 1, suited);
    } else if g[k] >= 3 && reduces(less(g, k, 3), k, suited) {
        lemma_reduces_total(less(g, k, 3), k, suited);
        crate::hand::lemma_total_update(g, k, g[k] - 3);
    } else {
        let a = less(g, k, 1);
        let b = less(a, k + 1, 1);
        lemma_reduces_total(less_run(g, k), k, suited);
        crate::hand::lemma_total_update(g, k, g[k] - 1);
        crate::hand::lemma_total_update(a, k + 1, a[k + 1] - 1);
        crate::hand::lemma_total_update(b, k + 2, b[k + 2] - 1);
    }
}

/// Where no run fits, a group of at most four copies a kind reduces exactly if every
/// kind in it has none or three.
pub proof fn lemma_reduces_without_runs(g: Seq<int>, k: int)
    requires
        0 <= k,
        within(g, 0, 4),
    ensures
        reduces(g, k, 0) == (forall|j: int| k <= j < g.len() ==> g[j] == 0 || g[j] == 3),
    decreases g.len() - k,
{
    if k < g.len() {
        lemma_reduces_without_runs(g, k + 1);
        if g[k] == 3 {
            let t = less(g, k, 3);
            assert(within(t, 0, 4)) by {
                assert forall|j: int| 0 <= j < t.len() implies 0 <= #[trigger] t[j] <= 4 by {
                    assert(0 <= g[j] <= 4);
                }
            }
            lemma_reduces_without_runs(t, k + 1);
            assert(forall|j: int| k + 1 <= j < g.len() ==> t[j] == g[j]);
            assert(reduces(t, k, 0) == reduces(t, k + 1, 0));
            assert(reduces(g, k, 0) == reduces(t, k, 0));
        } else if g[k] == 4 {
            let t = less(g, k, 3);
            assert(!reduces(t, k, 0));
        } else {
            assert(0 <= g[k] <= 4);
        }
    }
}

/// Whether the tiles from `k` on reduce depends on nothing before `k`.
pub proof fn lemma_reduces_frame(a: Seq<int>, b: Seq<int>, k: int, suited: int)
    requires
        a.len() == b.len(),
        forall|j: int| k <= j < a.len() ==> a[j] == b[j],
    ensures
        reduces(a, k, suited) == reduces(b, k, suited),
    decreases a.len() - k, (if 0 <= k < a.len() && a[k] > 0 {
        a[k]
    } else {
        0
    }),
{
    if k < 0 || k >= a.len() {
    } else if a[k] == 0 {
        lemma_reduces_frame(a, b, k + 1, suited);
    } else if a[k] < 0 {
    } else {
        if a[k] >= 3 {
            lemma_reduces_frame(less(a, k, 3), less(b, k, 3), k, suited);
        }
        if run_fits(a, k, suited) && a[k + 1] >= 1 && a[k + 2] >= 1 {
            lemma_reduces_frame(less_run(a, k), less_run(b, k), k, suited);
        }
    }
}

} // verus!
