use crate::blocks::{after_runs, after_triplets, can_take_run, can_take_triplet};
use crate::hand::{group, less, less_run, within};
use crate::melds::{lemma_add_run, lemma_add_triplet, more_run, reduces, run_fits};
use crate::shapes::{all_melds, group_of, is_complete_standard, lemma_group_less, suited};
use vstd::prelude::*;

verus! {

/// No triplet can be pulled anywhere.
pub open spec fn no_triplet(x: Seq<int>) -> bool {
    forall|j: int| 0 <= j < 34 ==> !#[trigger] can_take_triplet(x, j)
}

/// No run can be pulled anywhere.
pub open spec fn no_run(x: Seq<int>) -> bool {
    forall|j: int| 0 <= j < 27 ==> !#[trigger] can_take_run(x, j)
}

/// Taking a run changes the group in which it lies and no other.
pub proof fn lemma_group_less_run(h: Seq<int>, k: int, s: int)
    requires
        h.len() == 34,
        0 <= k < 27,
        k % 9 <= 6,
        0 <= s < 4,
    ensures
        group(less_run(h, k), s) == if s == group_of(k) {
            less_run(group(h, s), k - 9 * s)
        } else {
            group(h, s)
        },
{
    if s == group_of(k) {
        assert(group(less_run(h, k), s) =~= less_run(group(h, s), k - 9 * s));
    } else {
        assert(group(less_run(h, k), s) =~= group(h, s));
    }
}

/// Adding a run changes the group in which it lies and no other.
pub proof fn lemma_group_more_run(h: Seq<int>, k: int, s: int)
    requires
        h.len() == 34,
        0 <= k < 27,
        k % 9 <= 6,
        0 <= s < 4,
    ensures
        group(more_run(h, k), s) == if s == group_of(k) {
            more_run(group(h, s), k - 9 * s)
        } else {
            group(h, s)
        },
{
    if s == group_of(k) {
        assert(group(more_run(h, k), s) =~= more_run(group(h, s), k - 9 * s));
    } else {
        assert(group(more_run(h, k), s) =~= group(h, s));
    }
}

/// Hands of melds stay hands of melds with one more triplet.
pub proof fn lemma_melds_add_triplet(y: Seq<int>, j: int)
    requires
        y.len() == 34,
        0 <= j < 34,
        all_melds(y),
    ensures
        all_melds(less(y, j, -3)),
{
    let s0 = group_of(j);
    assert forall|s: int| 0 <= s < 4 implies reduces(
        #[trigger] group(less(y, j, -3), s),
        0,
        suited(s),
    ) by {
        lemma_group_less(y, j, -3, s);
        if s == s0 {
            lemma_add_triplet(group(y, s), 0, j - 9 * s, suited(s));
        }
    }
    assert(reduces(group(less(y, j, -3), 0), 0, suited(0)));
    assert(reduces(group(less(y, j, -3), 1), 0, suited(1)));
    assert(reduces(group(less(y, j, -3), 2), 0, suited(2)));
    assert(reduces(group(less(y, j, -3), 3), 0, suited(3)));
}

/// Hands of melds stay hands of melds with one more run.
pub proof fn lemma_melds_add_run(y: Seq<int>, j: int)
    requires
        y.len() == 34,
        0 <= j < 27,
        j % 9 <= 6,
        all_melds(y),
    ensures
        all_melds(more_run(y, j)),
{
    let s0 = group_of(j);
    assert forall|s: int| 0 <= s < 4 implies reduces(
        #[trigger] group(more_run(y, j), s),
        0,
        suited(s),
    ) by {
        lemma_group_more_run(y, j, s);
        if s == s0 {
            assert(run_fits(group(y, s), j - 9 * s, suited(s)));
            lemma_add_run(group(y, s), 0, j - 9 * s, suited(s));
        }
    }
    assert(reduces(group(more_run(y, j), 0), 0, suited(0)));
    assert(reduces(group(more_run(y, j), 1), 0, suited(1)));
    assert(reduces(group(more_run(y, j), 2), 0, suited(2)));
    assert(reduces(group(more_run(y, j), 3), 0, suited(3)));
}

/// A hand in the standard shape keeps it with one more triplet.
pub proof fn lemma_standard_add_triplet(x: Seq<int>, j: int)
    requires
        x.len() == 34,
        0 <= j < 34,
        is_complete_standard(x),
    ensures
        is_complete_standard(less(x, j, -3)),
{
    let p = choose|p: int| 0 <= p < 34 && #[trigger] x[p] >= 2 && all_melds(less(x, p, 2));
    let y = less(x, p, 2);
    lemma_melds_add_triplet(y, j);
    let x2 = less(x, j, -3);
    assert(less(x2, p, 2) =~= less(y, j, -3));
    assert(x2[p] >= 2);
}

/// A hand in the standard shape keeps it with one more run.
pub proof fn lemma_standard_add_run(x: Seq<int>, j: int)
    requires
        x.len() == 34,
        0 <= j < 27,
        j % 9 <= 6,
        is_complete_standard(x),
    ensures
        is_complete_standard(more_run(x, j)),
{
    let p = choose|p: int| 0 <= p < 34 && #[trigger] x[p] >= 2 && all_melds(less(x, p, 2));
    let y = less(x, p, 2);
    lemma_melds_add_run(y, j);
    let x2 = more_run(x, j);
    assert(less(x2, p, 2) =~= more_run(y, j));
    assert(x2[p] >= 2);
}

/// What a pass of pulling triplets leaves: a histogram in the standard shape, with the
/// kinds of fewer than three copies untouched.
pub proof fn lemma_after_triplets(x: Seq<int>, i: int)
    requires
        x.len() == 34,
        within(x, 0, 4),
        0 <= i <= 34,
    ensures
        after_triplets(x, i).len() == 34,
        within(after_triplets(x, i), 0, 4),
        is_complete_standard(x) ==> is_complete_standard(after_triplets(x, i)),
        forall|k: int| 0 <= k < 34 && x[k] < 3 ==> #[trigger] after_triplets(x, i)[k] == x[k],
        forall|k: int| 0 <= k < 34 ==> #[trigger] after_triplets(x, i)[k] <= x[k],
    decreases 34 - i,
{
    if i < 34 {
        if can_take_triplet(x, i) {
            let x2 = less(x, i, 3);
            assert(within(x2, 0, 4)) by {
                assert forall|k: int| 0 <= k < 34 implies 0 <= #[trigger] x2[k] <= 4 by {
                    assert(0 <= x[k] <= 4);
                }
            }
            lemma_after_triplets(x2, i + 1);
            assert forall|k: int| 0 <= k < 34 implies #[trigger] after_triplets(x, i)[k] <= x[k]
                && (x[k] < 3 ==> after_triplets(x, i)[k] == x[k]) by {
                assert(after_triplets(x2, i + 1)[k] <= x2[k]);
            }
        } else {
            lemma_after_triplets(x, i + 1);
        }
    }
}

/// What a pass of pulling runs leaves: a histogram in the standard shape, with the
/// honors untouched.
pub proof fn lemma_after_runs(x: Seq<int>, i: int)
    requires
        x.len() == 34,
        within(x, 0, 4),
        0 <= i <= 27,
    ensures
        after_runs(x, i).len() == 34,
        within(after_runs(x, i), 0, 4),
        is_complete_standard(x) ==> is_complete_standard(after_runs(x, i)),
        forall|k: int| 27 <= k < 34 ==> #[trigger] after_runs(x, i)[k] == x[k],
        forall|k: int| 0 <= k < 34 ==> #[trigger] after_runs(x, i)[k] <= x[k],
    decreases 27 - i, (if x.len() == 34 && 0 <= i < 27 && x[i] > 0 {
        x[i]
    } else {
        0
    }),
{
    if i < 27 {
        if can_take_run(x, i) {
            let x2 = less_run(x, i);
            assert(within(x2, 0, 4)) by {
                assert forall|k: int| 0 <= k < 34 implies 0 <= #[trigger] x2[k] <= 4 by {
                    assert(0 <= x[k] <= 4);
                }
            }
            lemma_after_runs(x2, i);
            assert forall|k: int| 0 <= k < 34 implies #[trigger] after_runs(x, i)[k] <= x[k] && (27
                <= k ==> after_runs(x, i)[k] == x[k]) by {
                assert(after_runs(x2, i)[k] <= x2[k]);
            }
        } else {
            lemma_after_runs(x, i + 1);
        }
    }
}

/// After a pass of pulling triplets no triplet can be pulled any more.
pub proof fn lemma_triplets_exhaust(x: Seq<int>, i: int)
    requires
        x.len() == 34,
        within(x, 0, 4),
        0 <= i <= 34,
        forall|j: int| 0 <= j < i ==> !#[trigger] can_take_triplet(x, j),
    ensures
        no_triplet(after_triplets(x, i)),
    decreases 34 - i,
{
    if i < 34 {
        if can_take_triplet(x, i) {
            let x2 = less(x, i, 3);
            assert(within(x2, 0, 4)) by {
                assert forall|k: int| 0 <= k < 34 implies 0 <= #[trigger] x2[k] <= 4 by {
                    assert(0 <= x[k] <= 4);
                }
            }
            assert forall|j: int| 0 <= j < i + 1 implies !#[trigger] can_take_triplet(x2, j) by {
                assert(0 <= x[i] <= 4);
                if j < i && can_take_triplet(x2, j) {
                    lemma_standard_add_triplet(less(x2, j, 3), i);
                    assert(less(less(x2, j, 3), i, -3) =~= less(x, j, 3));
                    assert(can_take_triplet(x, j));
                }
            }
            lemma_triplets_exhaust(x2, i + 1);
        } else {
            lemma_triplets_exhaust(x, i + 1);
        }
    }
}

/// After a pass of pulling runs no run can be pulled any more.
pub proof fn lemma_runs_exhaust(x: Seq<int>, i: int)
    requires
        x.len() == 34,
        0 <= i <= 27,
        forall|j: int| 0 <= j < i ==> !#[trigger] can_take_run(x, j),
    ensures
        no_run(after_runs(x, i)),
    decreases 27 - i, (if x.len() == 34 && 0 <= i < 27 && x[i] > 0 {
        x[i]
    } else {
        0
    }),
{
    if i < 27 {
        if can_take_run(x, i) {
            let x2 = less_run(x, i);
            assert forall|j: int| 0 <= j < i implies !#[trigger] can_take_run(x2, j) by {
                if can_take_run(x2, j) {
                    lemma_standard_add_run(less_run(x2, j), i);
                    assert(more_run(less_run(x2, j), i) =~= less_run(x, j));
                    assert(can_take_run(x, j));
                }
            }
            lemma_runs_exhaust(x2, i);
        } else {
            lemma_runs_exhaust(x, i + 1);
        }
    }
}

/// Pulling runs does not make a triplet available that could not be pulled before.
pub proof fn lemma_runs_keep_no_triplet(x: Seq<int>, i: int)
    requires
        x.len() == 34,
        0 <= i <= 27,
        no_triplet(x),
    ensures
        no_triplet(after_runs(x, i)),
    decreases 27 - i, (if x.len() == 34 && 0 <= i < 27 && x[i] > 0 {
        x[i]
    } else {
        0
    }),
{
    if i < 27 {
        if can_take_run(x, i) {
            let x2 = less_run(x, i);
            assert forall|j: int| 0 <= j < 34 implies !#[trigger] can_take_triplet(x2, j) by {
                if can_take_triplet(x2, j) {
                    lemma_standard_add_run(less(x2, j, 3), i);
                    assert(more_run(less(x2, j, 3), i) =~= less(x, j, 3));
                    assert(can_take_triplet(x, j));
                }
            }
            lemma_runs_keep_no_triplet(x2, i);
        } else {
            lemma_runs_keep_no_triplet(x, i + 1);
        }
    }
}

/// Pulling triplets does not make a run available that could not be pulled before.
pub proof fn lemma_triplets_keep_no_run(x: Seq<int>, i: int)
    requires
        x.len() == 34,
        0 <= i <= 34,
        no_run(x),
    ensures
        no_run(after_triplets(x, i)),
    decreases 34 - i,
{
    if i < 34 {
        if can_take_triplet(x, i) {
            let x2 = less(x, i, 3);
            assert forall|j: int| 0 <= j < 27 implies !#[trigger] can_take_run(x2, j) by {
                if can_take_run(x2, j) {
                    lemma_standard_add_triplet(less_run(x2, j), i);
                    assert(less(less_run(x2, j), i, -3) =~= less_run(x, j));
                    assert(can_take_run(x, j));
                }
            }
            lemma_triplets_keep_no_run(x2, i + 1);
        } else {
            lemma_triplets_keep_no_run(x, i + 1);
        }
    }
}

/// The first position from `k` on at which a group that reduces holds a tile, or -1 if
/// it holds none: there a triplet or a run can be taken off the group.
pub proof fn first_meld(g: Seq<int>, k: int, suited: int) -> (r: int)
    requires
        0 <= k,
        reduces(g, k, suited),
        forall|j: int| 0 <= j < k && j < g.len() ==> g[j] == 0,
    ensures
        r == -1 ==> forall|j: int| 0 <= j < g.len() ==> g[j] == 0,
        r != -1 ==> 0 <= r < g.len() && g[r] > 0 && ((g[r] >= 3 && reduces(less(g, r, 3), 0, suited))
            || (run_fits(g, r, suited) && g[r + 1] >= 1 && g[r + 2] >= 1 && reduces(
            less_run(g, r),
            0,
            suited,
        ))),
    decreases g.len() - k,
{
    if k >= g.len() {
        -1
    } else if g[k] == 0 {
        first_meld(g, k + 1, suited)
    } else {
        if g[k] >= 3 && reduces(less(g, k, 3), k, suited) {
            lemma_skip_zeros(less(g, k, 3), k, suited);
        } else {
            lemma_skip_zeros(less_run(g, k), k, suited);
        }
        k
    }
}

/// Empty positions at the left of a group do not matter.
pub proof fn lemma_skip_zeros(g: Seq<int>, k: int, suited: int)
    requires
        0 <= k <= g.len(),
        forall|j: int| 0 <= j < k ==> g[j] == 0,
    ensures
        reduces(g, 0, suited) == reduces(g, k, suited),
    decreases k,
{
    if k > 0 {
        lemma_skip_zeros(g, k - 1, suited);
        assert(reduces(g, k - 1, suited) == reduces(g, k, suited));
    }
}

/// A triplet that can be taken off the melds of a hand can be pulled from the hand.
pub proof fn lemma_triplet_can_be_pulled(x: Seq<int>, p: int, big: int)
    requires
        x.len() == 34,
        within(x, 0, 4),
        0 <= p < 34,
        x[p] >= 2,
        all_melds(less(x, p, 2)),
        0 <= big < 34,
        less(x, p, 2)[big] >= 3,
        reduces(
            less(group(less(x, p, 2), group_of(big)), big - 9 * group_of(big), 3),
            0,
            suited(group_of(big)),
        ),
    ensures
        can_take_triplet(x, big),
{
    let y = less(x, p, 2);
    let y2 = less(y, big, 3);
    assert forall|t: int| 0 <= t < 4 implies reduces(#[trigger] group(y2, t), 0, suited(t)) by {
        lemma_group_less(y, big, 3, t);
    }
    assert(reduces(group(y2, 0), 0, suited(0)));
    assert(reduces(group(y2, 1), 0, suited(1)));
    assert(reduces(group(y2, 2), 0, suited(2)));
    assert(reduces(group(y2, 3), 0, suited(3)));
    assert(all_melds(y2));
    let x2 = less(x, big, 3);
    assert(0 <= x[big] <= 4);
    assert(p != big);
    assert(less(x2, p, 2) =~= y2);
    assert(x2[p] >= 2);
}

/// A run that can be taken off the melds of a hand can be pulled from the hand.
pub proof fn lemma_run_can_be_pulled(x: Seq<int>, p: int, big: int)
    requires
        x.len() == 34,
        0 <= p < 34,
        x[p] >= 2,
        all_melds(less(x, p, 2)),
        0 <= big < 27,
        big % 9 <= 6,
        less(x, p, 2)[big] >= 1,
        less(x, p, 2)[big + 1] >= 1,
        less(x, p, 2)[big + 2] >= 1,
        reduces(
            less_run(group(less(x, p, 2), group_of(big)), big - 9 * group_of(big)),
            0,
            suited(group_of(big)),
        ),
    ensures
        can_take_run(x, big),
{
    let y = less(x, p, 2);
    let y2 = less_run(y, big);
    assert forall|t: int| 0 <= t < 4 implies reduces(#[trigger] group(y2, t), 0, suited(t)) by {
        lemma_group_less_run(y, big, t);
    }
    assert(reduces(group(y2, 0), 0, suited(0)));
    assert(reduces(group(y2, 1), 0, suited(1)));
    assert(reduces(group(y2, 2), 0, suited(2)));
    assert(reduces(group(y2, 3), 0, suited(3)));
    assert(all_melds(y2));
    let x2 = less_run(x, big);
    assert(less(x2, p, 2) =~= y2);
    assert(x2[p] >= 2);
}

/// When nothing can be pulled from the melds of a hand, there are none.
pub proof fn lemma_group_empty(x: Seq<int>, p: int, s: int)
    requires
        x.len() == 34,
        within(x, 0, 4),
        0 <= p < 34,
        x[p] >= 2,
        all_melds(less(x, p, 2)),
        no_triplet(x),
        no_run(x),
        0 <= s < 4,
    ensures
        within(group(less(x, p, 2), s), 0, 0),
{
    let y = less(x, p, 2);
    let g = group(y, s);
    assert(reduces(g, 0, suited(s)));
    let r = first_meld(g, 0, suited(s));
    if r != -1 {
        let big = r + 9 * s;
        assert(y[big] == g[r]);
        assert(group_of(big) == s);
        if g[r] >= 3 && reduces(less(g, r, 3), 0, suited(s)) {
            lemma_triplet_can_be_pulled(x, p, big);
            assert(false);
        } else {
            assert(s < 3);
            assert(big % 9 == r);
            assert(y[big + 1] == g[r + 1] && y[big + 2] == g[r + 2]);
            lemma_run_can_be_pulled(x, p, big);
            assert(false);
        }
    }
}

/// When nothing can be pulled from a hand in the standard shape any more, the hand is
/// a pair: the two tiles at `f`, if two are there.
pub proof fn lemma_only_pair_left(x: Seq<int>, f: int)
    requires
        x.len() == 34,
        within(x, 0, 4),
        is_complete_standard(x),
        no_triplet(x),
        no_run(x),
        0 <= f < 34,
        x[f] == 2,
    ensures
        forall|k: int| 0 <= k < 34 && k != f ==> x[k] == 0,
{
    let p = choose|p: int| 0 <= p < 34 && #[trigger] x[p] >= 2 && all_melds(less(x, p, 2));
    let y = less(x, p, 2);
    assert forall|k: int| 0 <= k < 34 implies y[k] == 0 by {
        let s = group_of(k);
        lemma_group_empty(x, p, s);
        assert(group(y, s)[k - 9 * s] == y[k]);
    }
    assert(y[f] == 0);
    assert(p == f);
    assert forall|k: int| 0 <= k < 34 && k != f implies x[k] == 0 by {
        assert(y[k] == 0);
    }
}

} // verus!
