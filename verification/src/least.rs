use crate::hand::{less, less_run};
use crate::reach::{in_budget, lemma_budget_steps};
use crate::search::{
    height, leaf, min2, orphans_shanten, partials, search, seven_pairs_shanten, shanten, start,
    take_isolated, take_pair, take_run, take_set, take_tatsu_first, take_tatsu_second, Search,
};
use vstd::prelude::*;

verus! {

/// The distance that melds, partial runs and pairs stand for by themselves: eight, less
/// two for each meld and one for each partial run and pair, where blocks beyond the four
/// that a hand can use do not count.
pub open spec fn plain(melds: int, tatsu: int, pairs: int) -> int {
    let blocks = melds + tatsu + if pairs > 0 {
        pairs - 1
    } else {
        0
    };
    8 - 2 * melds - tatsu - pairs + if blocks > 4 {
        blocks - 4
    } else {
        0
    }
}

/// A partial run of two neighbours taken at `k`.
pub open spec fn less_first(t: Seq<int>, k: int) -> Seq<int> {
    less(less(t, k, 1), k + 1, 1)
}

/// A partial run with a gap taken at `k`.
pub open spec fn less_second(t: Seq<int>, k: int) -> Seq<int> {
    less(less(t, k, 1), k + 2, 1)
}

/// The count at `k`, where it is a positive count of a numeral.
pub open spec fn count_at(t: Seq<int>, k: int) -> int {
    if 0 <= k < 27 && k < t.len() && t[k] > 0 {
        t[k]
    } else {
        0
    }
}

/// The least distance over all ways of taking blocks from the numerals from `k` on:
/// triplets, pairs, runs and partial runs in any number, whatever is left over.
pub open spec fn least(t: Seq<int>, k: int, melds: int, tatsu: int, pairs: int) -> int
    decreases 27 - k, count_at(t, k),
{
    let i = k % 9;
    if k < 0 || t.len() != 34 {
        8
    } else if k >= 27 {
        min2(8, plain(melds, tatsu, pairs))
    } else if t[k] <= 0 {
        least(t, k + 1, melds, tatsu, pairs)
    } else {
        min2(
            least(t, k + 1, melds, tatsu, pairs),
            min2(
                if t[k] >= 3 {
                    least(less(t, k, 3), k, melds + 1, tatsu, pairs)
                } else {
                    8
                },
                min2(
                    if t[k] >= 2 {
                        least(less(t, k, 2), k, melds, tatsu, pairs + 1)
                    } else {
                        8
                    },
                    min2(
                        if i < 7 && t[k + 1] >= 1 && t[k + 2] >= 1 {
                            least(less_run(t, k), k, melds + 1, tatsu, pairs)
                        } else {
                            8
                        },
                        min2(
                            if i < 8 && t[k + 1] >= 1 {
                                least(less_first(t, k), k, melds, tatsu + 1, pairs)
                            } else {
                                8
                            },
                            if i < 7 && t[k + 2] >= 1 {
                                least(less_second(t, k), k, melds, tatsu + 1, pairs)
                            } else {
                                8
                            },
                        ),
                    ),
                ),
            ),
        )
    }
}

/// The least distance of a hand over all ways of taking blocks from its numerals, with
/// its honors counted as the search counts them, and over the three shapes.
pub open spec fn least_of_all(h: Seq<int>) -> int {
    min2(
        min2(least(h, 0, start(h).melds, 0, start(h).pairs), seven_pairs_shanten(h)),
        orphans_shanten(h),
    )
}

/// The least distance from `k` on depends on nothing before `k`.
pub proof fn lemma_least_frame(a: Seq<int>, b: Seq<int>, k: int, m: int, ta: int, p: int)
    requires
        a.len() == b.len(),
        forall|j: int| k <= j < a.len() ==> a[j] == b[j],
    ensures
        least(a, k, m, ta, p) == least(b, k, m, ta, p),
    decreases 27 - k, count_at(a, k),
{
    let i = k % 9;
    if k < 0 || a.len() != 34 || k >= 27 {
    } else if a[k] <= 0 {
        lemma_least_frame(a, b, k + 1, m, ta, p);
    } else {
        lemma_least_frame(a, b, k + 1, m, ta, p);
        if a[k] >= 3 {
            lemma_least_frame(less(a, k, 3), less(b, k, 3), k, m + 1, ta, p);
        }
        if a[k] >= 2 {
            lemma_least_frame(less(a, k, 2), less(b, k, 2), k, m, ta, p + 1);
        }
        if i < 7 && a[k + 1] >= 1 && a[k + 2] >= 1 {
            lemma_least_frame(less_run(a, k), less_run(b, k), k, m + 1, ta, p);
        }
        if i < 8 && a[k + 1] >= 1 {
            lemma_least_frame(less_first(a, k), less_first(b, k), k, m, ta + 1, p);
        }
        if i < 7 && a[k + 2] >= 1 {
            lemma_least_frame(less_second(a, k), less_second(b, k), k, m, ta + 1, p);
        }
    }
}

/// Taking a block, or going on to the next kind, does not lead below the least distance.
pub proof fn lemma_least_steps(t: Seq<int>, k: int, m: int, ta: int, p: int)
    requires
        t.len() == 34,
        0 <= k < 27,
    ensures
        least(t, k, m, ta, p) <= least(t, k + 1, m, ta, p),
        least(t, k, m, ta, p) <= 8,
        t[k] >= 3 ==> least(t, k, m, ta, p) <= least(less(t, k, 3), k, m + 1, ta, p),
        t[k] >= 2 ==> least(t, k, m, ta, p) <= least(less(t, k, 2), k, m, ta, p + 1),
        k % 9 < 7 && t[k] >= 1 && t[k + 1] >= 1 && t[k + 2] >= 1 ==> least(t, k, m, ta, p)
            <= least(less_run(t, k), k, m + 1, ta, p),
        k % 9 < 8 && t[k] >= 1 && t[k + 1] >= 1 ==> least(t, k, m, ta, p) <= least(
            less_first(t, k),
            k,
            m,
            ta + 1,
            p,
        ),
        k % 9 < 7 && t[k] >= 1 && t[k + 2] >= 1 ==> least(t, k, m, ta, p) <= least(
            less_second(t, k),
            k,
            m,
            ta + 1,
            p,
        ),
        forall|n: int|
            least(t, k, m, ta, p) <= #[trigger] least(less(t, k, n), k + 1, m, ta, p),
{
    lemma_least_top(t, k + 1, m, ta, p);
    assert forall|n: int| least(t, k, m, ta, p) <= #[trigger] least(
        less(t, k, n),
        k + 1,
        m,
        ta,
        p,
    ) by {
        lemma_least_frame(t, less(t, k, n), k + 1, m, ta, p);
    }
}

/// No distance is above eight.
pub proof fn lemma_least_top(t: Seq<int>, k: int, m: int, ta: int, p: int)
    ensures
        least(t, k, m, ta, p) <= 8,
    decreases 27 - k, count_at(t, k),
{
    if k < 0 || t.len() != 34 || k >= 27 {
    } else {
        lemma_least_top(t, k + 1, m, ta, p);
    }
}

/// The distance of a state is no less than what its blocks stand for by themselves.
pub proof fn lemma_leaf_above(st: Search)
    requires
        st.jidahai >= 0,
    ensures
        leaf(st) >= plain(st.melds, st.tatsu, st.pairs),
{
}

/// The least distance over the ways of taking blocks that are left to a state.
pub open spec fn least_from(st: Search, depth: int) -> int {
    least(st.tiles, depth, st.melds, st.tatsu, st.pairs)
}

/// Going on to a later kind does not lead below the least distance.
pub proof fn lemma_least_later(t: Seq<int>, k: int, k2: int, m: int, ta: int, p: int)
    requires
        t.len() == 34,
        0 <= k <= k2 <= 27,
    ensures
        least(t, k, m, ta, p) <= least(t, k2, m, ta, p),
    decreases k2 - k,
{
    if k < k2 {
        lemma_least_steps(t, k, m, ta, p);
        lemma_least_later(t, k + 1, k2, m, ta, p);
    }
}

/// What the search does at a kind are ways of taking blocks.
pub proof fn lemma_steps_above(st: Search, d: int)
    requires
        in_budget(st),
        0 <= d < 27,
    ensures
        st.tiles[d] >= 3 ==> least_from(st, d) <= least_from(take_set(st, d), d),
        st.tiles[d] >= 2 ==> least_from(st, d) <= least_from(take_pair(st, d), d),
        st.tiles[d] >= 1 ==> least_from(st, d) <= least_from(take_isolated(st, d), d + 1),
        d % 9 < 7 && st.tiles[d] >= 1 && st.tiles[d + 1] >= 1 && st.tiles[d + 2] >= 1
            ==> least_from(st, d) <= least_from(take_run(st, d), d),
        d % 9 < 8 && st.tiles[d] >= 1 && st.tiles[d + 1] >= 1 ==> least_from(st, d)
            <= least_from(take_tatsu_first(st, d), d),
        d % 9 < 7 && st.tiles[d] >= 1 && st.tiles[d + 2] >= 1 ==> least_from(st, d)
            <= least_from(take_tatsu_second(st, d), d),
        forall|d2: int| d <= d2 <= 27 ==> least_from(st, d) <= #[trigger] least_from(st, d2),
{
    lemma_least_steps(st.tiles, d, st.melds, st.tatsu, st.pairs);
    assert(least(st.tiles, d, st.melds, st.tatsu, st.pairs) <= least(
        less(st.tiles, d, 1),
        d + 1,
        st.melds,
        st.tatsu,
        st.pairs,
    ));
    assert forall|d2: int| d <= d2 <= 27 implies least_from(st, d) <= #[trigger] least_from(
        st,
        d2,
    ) by {
        lemma_least_later(st.tiles, d, d2, st.melds, st.tatsu, st.pairs);
    }
}

/// The search finds no distance below the least over all ways of taking blocks.
pub proof fn lemma_search_above(st: Search, depth: int)
    requires
        in_budget(st),
        0 <= depth <= 27,
    ensures
        search(st, depth) >= least_from(st, depth),
    decreases 27 - depth, height(st, depth), 1int,
{
    let t = st.tiles;
    let i = depth % 9;
    if depth >= 27 {
        lemma_leaf_above(st);
    } else if t[depth] == 0 {
        lemma_search_above(st, depth + 1);
    } else if 1 <= t[depth] <= 4 {
        lemma_steps_above(st, depth);
        lemma_budget_steps(st, depth);
        if i < 8 {
            assert(t[depth + 1] >= 0);
        }
        if i < 7 {
            assert(t[depth + 2] >= 0);
        }
        if t[depth] == 4 {
            let a = take_set(st, depth);
            let b = take_pair(st, depth);
            lemma_budget_steps(a, depth);
            lemma_steps_above(a, depth);
            lemma_partials_above(a, depth, false);
            lemma_search_above(take_isolated(a, depth), depth + 1);
            lemma_partials_above(b, depth, true);
        } else if t[depth] == 3 {
            let a = take_set(st, depth);
            let b = take_pair(st, depth);
            lemma_steps_above(a, depth);
            lemma_steps_above(b, depth);
            lemma_budget_steps(b, depth);
            lemma_search_above(a, depth + 1);
            assert(least_from(a, depth) <= least_from(a, depth + 1));
            if i < 7 && t[depth + 1] != 0 && t[depth + 2] != 0 {
                let c = take_run(b, depth);
                lemma_steps_above(c, depth);
                lemma_search_above(c, depth + 1);
                assert(least_from(c, depth) <= least_from(c, depth + 1));
            } else {
                if i < 7 && t[depth + 2] != 0 {
                    let c = take_tatsu_second(b, depth);
                    lemma_steps_above(c, depth);
                    lemma_search_above(c, depth + 1);
                    assert(least_from(c, depth) <= least_from(c, depth + 1));
                }
                if i < 8 && t[depth + 1] != 0 {
                    let c = take_tatsu_first(b, depth);
                    lemma_steps_above(c, depth);
                    lemma_search_above(c, depth + 1);
                    assert(least_from(c, depth) <= least_from(c, depth + 1));
                }
            }
            if i < 7 && t[depth + 2] >= 2 && t[depth + 1] >= 2 {
                let once = take_run(st, depth);
                lemma_budget_steps(once, depth);
                lemma_steps_above(once, depth);
                lemma_search_above(take_run(once, depth), depth);
            }
        } else if t[depth] == 2 {
            let b = take_pair(st, depth);
            lemma_steps_above(b, depth);
            lemma_search_above(b, depth + 1);
            assert(least_from(b, depth) <= least_from(b, depth + 1));
            if i < 7 && t[depth + 2] != 0 && t[depth + 1] != 0 {
                lemma_search_above(take_run(st, depth), depth);
            }
        } else {
            if i < 6 && t[depth + 1] == 1 && t[depth + 2] != 0 && t[depth + 3] != 4 {
                let c = take_run(st, depth);
                lemma_steps_above(c, depth);
                lemma_search_above(c, depth + 2);
                assert(least_from(c, depth) <= least_from(c, depth + 2));
            } else {
                lemma_search_above(take_isolated(st, depth), depth + 1);
                lemma_partials_above(st, depth, false);
            }
        }
    } else {
        lemma_least_top(t, depth, st.melds, st.tatsu, st.pairs);
    }
}

/// The same of the search that starts a run or a partial run.
pub proof fn lemma_partials_above(st: Search, depth: int, again: bool)
    requires
        in_budget(st),
        0 <= depth < 27,
    ensures
        partials(st, depth, again) >= least_from(st, depth),
    decreases 27 - depth, height(st, depth), 0int,
{
    let t = st.tiles;
    let i = depth % 9;
    lemma_least_top(t, depth, st.melds, st.tatsu, st.pairs);
    if t[depth] >= 1 {
        lemma_steps_above(st, depth);
        lemma_budget_steps(st, depth);
        if i < 8 {
            assert(t[depth + 1] >= 0);
        }
        if i < 7 {
            assert(t[depth + 2] >= 0);
        }
        if i < 7 && t[depth + 2] != 0 {
            if t[depth + 1] != 0 {
                let c = take_run(st, depth);
                lemma_steps_above(c, depth);
                if again {
                    lemma_search_above(c, depth);
                } else {
                    lemma_search_above(c, depth + 1);
                    assert(least_from(c, depth) <= least_from(c, depth + 1));
                }
            }
            let c = take_tatsu_second(st, depth);
            lemma_steps_above(c, depth);
            lemma_search_above(c, depth + 1);
            assert(least_from(c, depth) <= least_from(c, depth + 1));
        }
        if i < 8 && t[depth + 1] != 0 {
            let c = take_tatsu_first(st, depth);
            lemma_steps_above(c, depth);
            lemma_search_above(c, depth + 1);
            assert(least_from(c, depth) <= least_from(c, depth + 1));
        }
    }
}

/// The distance of a hand is no less than the least distance over all ways of taking
/// blocks: what the search finds is the distance of one of these ways, or more where the
/// hand holds all four copies of a kind.
pub proof fn lemma_shanten_above(h: Seq<int>)
    requires
        h.len() == 34,
        forall|k: int| 0 <= k < 34 ==> h[k] >= 0,
        crate::hand::total(h) <= 14,
    ensures
        shanten(h) >= least_of_all(h),
{
    crate::shanten::lemma_start_budget(h);
    lemma_search_above(start(h), 0);
}

} // verus!
