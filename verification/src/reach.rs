use crate::hand::{lemma_total_update, less, less_run};
use crate::melds::{
    cleared, lemma_add_run, lemma_add_triplet, lemma_leftmost_four, lemma_leftmost_low,
    lemma_leftmost_three, lemma_reduces_nonneg, more_run, reduces, run_fits,
};
use crate::search::{
    height, leaf, partials, search, take_isolated, take_pair, take_run, take_set, take_tatsu_first,
    take_tatsu_second, Search,
};
use crate::shapes::{lemma_total_prefix, prefix_total};
use vstd::prelude::*;

verus! {

/// What holds of a state throughout the search: no numeral count and no counter is
/// negative, and the blocks counted and the numerals left are at most fourteen tiles.
pub open spec fn in_budget(st: Search) -> bool {
    &&& st.tiles.len() == 34
    &&& forall|k: int| 0 <= k < 27 ==> #[trigger] st.tiles[k] >= 0
    &&& st.melds >= 0
    &&& st.tatsu >= 0
    &&& st.pairs >= 0
    &&& st.jidahai >= 0
    &&& 3 * st.melds + 2 * st.tatsu + 2 * st.pairs + prefix_total(st.tiles, 27) <= 14
}

/// The numerals that are left can be used up, from `depth` on, by melds and by the pair
/// if none is counted yet.
pub open spec fn melds_left(t: Seq<int>, depth: int, pairs: int) -> bool {
    ||| (pairs == 1 && reduces(t, depth, 27))
    ||| (pairs == 0 && exists|q: int|
        depth <= q < 27 && #[trigger] t[q] >= 2 && reduces(less(t, q, 2), depth, 27))
}

/// The state leads to a complete hand: nothing is counted but melds and at most one
/// pair, nothing is left before `depth`, and what is left from there on are the melds
/// and the pair that are missing.
pub open spec fn completes(st: Search, depth: int) -> bool {
    &&& st.tatsu == 0
    &&& 3 * st.melds + 2 * st.pairs + prefix_total(st.tiles, 27) == 14
    &&& forall|k: int| 0 <= k < depth && k < 27 ==> #[trigger] st.tiles[k] == 0
    &&& melds_left(st.tiles.take(27), depth, st.pairs)
}

/// Taking tiles of a numeral away lowers the number of numerals left by as much.
pub proof fn lemma_prefix_less(t: Seq<int>, k: int, n: int)
    requires
        t.len() == 34,
        0 <= k < 27,
    ensures
        prefix_total(less(t, k, n), 27) == prefix_total(t, 27) - n,
        less(t, k, n).take(27) == less(t.take(27), k, n),
{
    lemma_total_prefix(t, 27);
    lemma_total_prefix(less(t, k, n), 27);
    assert(less(t, k, n).take(27) =~= less(t.take(27), k, n));
    lemma_total_update(t.take(27), k, t[k] - n);
}

/// The distance of a state is not below -1, and it is -1 only with four melds and a pair.
pub proof fn lemma_leaf_floor(st: Search)
    requires
        in_budget(st),
    ensures
        leaf(st) >= -1,
        leaf(st) == -1 <==> (st.melds == 4 && st.pairs == 1 && st.tatsu == 0),
        leaf(st) == -1 ==> prefix_total(st.tiles, 27) == 0,
{
    lemma_prefix_nonneg(st.tiles, 27);
}

/// The first `n` counts add up to no less than zero when none of them is negative.
pub proof fn lemma_prefix_nonneg(t: Seq<int>, n: int)
    requires
        0 <= n <= 27,
        forall|k: int| 0 <= k < 27 ==> #[trigger] t[k] >= 0,
    ensures
        prefix_total(t, n) >= 0,
        forall|k: int| 0 <= k < n ==> t[k] <= prefix_total(t, n),
    decreases n,
{
    if n > 0 {
        lemma_prefix_nonneg(t, n - 1);
        assert(t[n - 1] >= 0);
        assert forall|k: int| 0 <= k < n implies t[k] <= prefix_total(t, n) by {
            if k < n - 1 {
                assert(t[k] <= prefix_total(t, n - 1));
            }
        }
    }
}

/// Taking blocks keeps a state in its budget.
pub proof fn lemma_budget_steps(st: Search, k: int)
    requires
        in_budget(st),
        0 <= k < 27,
    ensures
        st.tiles[k] >= 3 ==> in_budget(take_set(st, k)),
        st.tiles[k] >= 2 ==> in_budget(take_pair(st, k)),
        st.tiles[k] >= 1 ==> in_budget(take_isolated(st, k)),
        k + 2 < 27 && st.tiles[k] >= 1 && st.tiles[k + 1] >= 1 && st.tiles[k + 2] >= 1
            ==> in_budget(take_run(st, k)),
        k + 1 < 27 && st.tiles[k] >= 1 && st.tiles[k + 1] >= 1 ==> in_budget(
            take_tatsu_first(st, k),
        ),
        k + 2 < 27 && st.tiles[k] >= 1 && st.tiles[k + 2] >= 1 ==> in_budget(
            take_tatsu_second(st, k),
        ),
{
    let t = st.tiles;
    lemma_prefix_less(t, k, 3);
    lemma_prefix_less(t, k, 2);
    lemma_prefix_less(t, k, 1);
    let t1 = less(t, k, 1);
    if st.tiles[k] >= 3 {
        assert forall|j: int| 0 <= j < 27 implies #[trigger] take_set(st, k).tiles[j] >= 0 by {
            assert(t[j] >= 0);
        }
    }
    if st.tiles[k] >= 2 {
        assert forall|j: int| 0 <= j < 27 implies #[trigger] take_pair(st, k).tiles[j] >= 0 by {
            assert(t[j] >= 0);
        }
    }
    if st.tiles[k] >= 1 {
        assert forall|j: int| 0 <= j < 27 implies #[trigger] take_isolated(st, k).tiles[j]
            >= 0 by {
            assert(t[j] >= 0);
        }
    }
    if k + 1 < 27 {
        lemma_prefix_less(t1, k + 1, 1);
        if st.tiles[k] >= 1 && st.tiles[k + 1] >= 1 {
            assert forall|j: int| 0 <= j < 27 implies #[trigger] take_tatsu_first(
                st,
                k,
            ).tiles[j] >= 0 by {
                assert(t[j] >= 0);
            }
        }
    }
    if k + 2 < 27 {
        lemma_prefix_less(t1, k + 2, 1);
        lemma_prefix_less(less(t1, k + 1, 1), k + 2, 1);
        if st.tiles[k] >= 1 && st.tiles[k + 2] >= 1 {
            assert forall|j: int| 0 <= j < 27 implies #[trigger] take_tatsu_second(
                st,
                k,
            ).tiles[j] >= 0 by {
                assert(t[j] >= 0);
            }
        }
        if st.tiles[k] >= 1 && st.tiles[k + 1] >= 1 && st.tiles[k + 2] >= 1 {
            assert forall|j: int| 0 <= j < 27 implies #[trigger] take_run(st, k).tiles[j]
                >= 0 by {
                assert(t[j] >= 0);
            }
        }
    }
}

/// Empty positions at which a scan starts do not matter.
pub proof fn lemma_lower_start(x: Seq<int>, d: int, d2: int)
    requires
        0 <= d <= d2 <= x.len(),
        forall|k: int| d <= k < d2 ==> x[k] == 0,
    ensures
        reduces(x, d, 27) == reduces(x, d2, 27),
    decreases d2 - d,
{
    if d < d2 {
        lemma_lower_start(x, d + 1, d2);
    }
}

/// If what is left after a triplet at `d` can be used up, so can what was left before.
pub proof fn lemma_back_triplet(t: Seq<int>, d: int, d2: int, pairs: int)
    requires
        t.len() == 27,
        0 <= d < 27,
        d <= d2 <= 27,
        forall|k: int| d <= k < d2 ==> less(t, d, 3)[k] == 0,
        melds_left(less(t, d, 3), d2, pairs),
    ensures
        melds_left(t, d, pairs),
{
    let x = less(t, d, 3);
    if pairs == 1 {
        lemma_lower_start(x, d, d2);
        lemma_add_triplet(x, d, d, 27);
        assert(less(x, d, -3) =~= t);
    } else {
        let q = choose|q: int|
            d2 <= q < 27 && #[trigger] x[q] >= 2 && reduces(less(x, q, 2), d2, 27);
        let y = less(x, q, 2);
        lemma_lower_start(y, d, d2);
        lemma_add_triplet(y, d, d, 27);
        assert(less(y, d, -3) =~= less(t, q, 2));
        assert(t[q] >= 2);
    }
}

/// If what is left after a run at `d` can be used up, so can what was left before.
pub proof fn lemma_back_run(t: Seq<int>, d: int, d2: int, pairs: int)
    requires
        t.len() == 27,
        0 <= d < 27,
        d % 9 <= 6,
        d <= d2 <= 27,
        forall|k: int| d <= k < d2 ==> less_run(t, d)[k] == 0,
        melds_left(less_run(t, d), d2, pairs),
    ensures
        melds_left(t, d, pairs),
{
    let x = less_run(t, d);
    assert(run_fits(x, d, 27));
    if pairs == 1 {
        lemma_lower_start(x, d, d2);
        lemma_add_run(x, d, d, 27);
        assert(more_run(x, d) =~= t);
    } else {
        let q = choose|q: int|
            d2 <= q < 27 && #[trigger] x[q] >= 2 && reduces(less(x, q, 2), d2, 27);
        let y = less(x, q, 2);
        lemma_lower_start(y, d, d2);
        lemma_add_run(y, d, d, 27);
        assert(more_run(y, d) =~= less(t, q, 2));
        assert(t[q] >= 2);
    }
}

/// If what is left after a pair at `d` can be used up by melds, then what was left
/// before can be used up by melds and a pair.
pub proof fn lemma_back_pair(t: Seq<int>, d: int, d2: int)
    requires
        t.len() == 27,
        0 <= d < 27,
        d <= d2 <= 27,
        forall|k: int| d <= k < d2 ==> less(t, d, 2)[k] == 0,
        melds_left(less(t, d, 2), d2, 1),
    ensures
        melds_left(t, d, 0),
{
    let x = less(t, d, 2);
    lemma_lower_start(x, d, d2);
    lemma_reduces_nonneg(x, d, 27);
    assert(x[d] >= 0);
    assert(t[d] >= 2);
}

/// A state that leads to a complete hand after a run at `d` leads to one before it.
pub proof fn lemma_completes_back_run(st: Search, d: int, d2: int)
    requires
        in_budget(st),
        0 <= d < 27,
        d % 9 <= 6,
        d <= d2 <= 27,
        completes(take_run(st, d), d2),
    ensures
        completes(st, d),
{
    let t = st.tiles;
    let t1 = less(t, d, 1);
    let t2 = less(t1, d + 1, 1);
    lemma_prefix_less(t, d, 1);
    lemma_prefix_less(t1, d + 1, 1);
    lemma_prefix_less(t2, d + 2, 1);
    let child = take_run(st, d);
    assert(child.tiles.take(27) =~= less_run(t.take(27), d));
    assert forall|k: int| d <= k < d2 implies less_run(t.take(27), d)[k] == 0 by {
        assert(child.tiles[k] == 0);
    }
    lemma_back_run(t.take(27), d, d2, st.pairs);
    assert forall|k: int| 0 <= k < d implies #[trigger] st.tiles[k] == 0 by {
        assert(child.tiles[k] == 0);
    }
}

/// A state that leads to a complete hand after a triplet at `d` leads to one before it.
pub proof fn lemma_completes_back_set(st: Search, d: int, d2: int)
    requires
        in_budget(st),
        0 <= d < 27,
        d <= d2 <= 27,
        completes(take_set(st, d), d2),
    ensures
        completes(st, d),
{
    let t = st.tiles;
    lemma_prefix_less(t, d, 3);
    let child = take_set(st, d);
    assert forall|k: int| d <= k < d2 implies less(t.take(27), d, 3)[k] == 0 by {
        assert(child.tiles[k] == 0);
    }
    lemma_back_triplet(t.take(27), d, d2, st.pairs);
    assert forall|k: int| 0 <= k < d implies #[trigger] st.tiles[k] == 0 by {
        assert(child.tiles[k] == 0);
    }
}

/// A state that leads to a complete hand after a pair at `d` leads to one before it.
pub proof fn lemma_completes_back_pair(st: Search, d: int, d2: int)
    requires
        in_budget(st),
        0 <= d < 27,
        d <= d2 <= 27,
        completes(take_pair(st, d), d2),
    ensures
        completes(st, d),
{
    let t = st.tiles;
    lemma_prefix_less(t, d, 2);
    let child = take_pair(st, d);
    assert(child.pairs == 1);
    assert forall|k: int| d <= k < d2 implies less(t.take(27), d, 2)[k] == 0 by {
        assert(child.tiles[k] == 0);
    }
    lemma_back_pair(t.take(27), d, d2);
    assert forall|k: int| 0 <= k < d implies #[trigger] st.tiles[k] == 0 by {
        assert(child.tiles[k] == 0);
    }
}

/// With a tile set aside, or with a partial run, no complete hand is reached.
pub proof fn lemma_no_way(st: Search, d: int, d2: int)
    requires
        in_budget(st),
        0 <= d < 27,
    ensures
        !completes(take_isolated(st, d), d2),
        !completes(take_tatsu_first(st, d), d2),
        !completes(take_tatsu_second(st, d), d2),
{
    lemma_prefix_less(st.tiles, d, 1);
}

/// The search finds no distance below -1, and it finds -1 only from a state that leads
/// to a complete hand.
pub proof fn lemma_search_floor(st: Search, depth: int)
    requires
        in_budget(st),
        0 <= depth <= 27,
    ensures
        -1 <= search(st, depth) <= 8,
        search(st, depth) == -1 ==> completes(st, depth),
    decreases 27 - depth, height(st, depth), 1int,
{
    let t = st.tiles;
    let i = depth % 9;
    if depth >= 27 {
        lemma_leaf_floor(st);
        if leaf(st) == -1 {
            lemma_prefix_nonneg(t, 27);
            assert forall|k: int| 0 <= k < 27 implies #[trigger] st.tiles[k] == 0 by {
                assert(t[k] >= 0);
                assert(t[k] <= prefix_total(t, 27));
            }
            assert(reduces(t.take(27), 27, 27));
        }
    } else if t[depth] == 0 {
        lemma_search_floor(st, depth + 1);
        if search(st, depth + 1) == -1 {
            let x = t.take(27);
            if st.pairs == 1 {
                lemma_lower_start(x, depth, depth + 1);
            } else {
                let q = choose|q: int|
                    depth + 1 <= q < 27 && #[trigger] x[q] >= 2 && reduces(
                        less(x, q, 2),
                        depth + 1,
                        27,
                    );
                lemma_lower_start(less(x, q, 2), depth, depth + 1);
            }
        }
    } else if t[depth] == 4 {
        lemma_budget_steps(st, depth);
        let a = take_set(st, depth);
        let b = take_pair(st, depth);
        lemma_budget_steps(a, depth);
        lemma_budget_steps(b, depth);
        lemma_partials_floor(a, depth, false);
        lemma_search_floor(take_isolated(a, depth), depth + 1);
        lemma_partials_floor(b, depth, true);
        lemma_no_way(a, depth, depth + 1);
        if partials(a, depth, false) == -1 {
            lemma_completes_back_run(a, depth, depth + 1);
            lemma_completes_back_set(st, depth, depth);
        }
        if partials(b, depth, true) == -1 {
            lemma_completes_back_run(b, depth, depth);
            lemma_completes_back_pair(st, depth, depth);
        }
    } else if t[depth] == 3 {
        lemma_budget_steps(st, depth);
        let a = take_set(st, depth);
        let b = take_pair(st, depth);
        lemma_budget_steps(b, depth);
        lemma_search_floor(a, depth + 1);
        if search(a, depth + 1) == -1 {
            lemma_completes_back_set(st, depth, depth + 1);
        }
        if i < 8 {
            assert(t[depth + 1] >= 0);
        }
        if i < 7 {
            assert(t[depth + 2] >= 0);
        }
        if i < 7 && t[depth + 1] != 0 && t[depth + 2] != 0 {
            lemma_search_floor(take_run(b, depth), depth + 1);
            if search(take_run(b, depth), depth + 1) == -1 {
                lemma_completes_back_run(b, depth, depth + 1);
                lemma_completes_back_pair(st, depth, depth);
            }
        } else {
            lemma_no_way(b, depth, depth + 1);
            if i < 7 && t[depth + 2] != 0 {
                lemma_search_floor(take_tatsu_second(b, depth), depth + 1);
            }
            if i < 8 && t[depth + 1] != 0 {
                lemma_search_floor(take_tatsu_first(b, depth), depth + 1);
            }
        }
        if i < 7 && t[depth + 2] >= 2 && t[depth + 1] >= 2 {
            let once = take_run(st, depth);
            lemma_budget_steps(once, depth);
            let twice = take_run(once, depth);
            lemma_search_floor(twice, depth);
            if search(twice, depth) == -1 {
                lemma_completes_back_run(once, depth, depth);
                lemma_completes_back_run(st, depth, depth);
            }
        }
    } else if t[depth] == 2 {
        lemma_budget_steps(st, depth);
        lemma_search_floor(take_pair(st, depth), depth + 1);
        if search(take_pair(st, depth), depth + 1) == -1 {
            lemma_completes_back_pair(st, depth, depth + 1);
        }
        if i < 8 {
            assert(t[depth + 1] >= 0);
        }
        if i < 7 {
            assert(t[depth + 2] >= 0);
        }
        if i < 7 && t[depth + 2] != 0 && t[depth + 1] != 0 {
            lemma_search_floor(take_run(st, depth), depth);
            if search(take_run(st, depth), depth) == -1 {
                lemma_completes_back_run(st, depth, depth);
            }
        }
    } else if t[depth] == 1 {
        lemma_budget_steps(st, depth);
        if i < 8 {
            assert(t[depth + 1] >= 0);
        }
        if i < 7 {
            assert(t[depth + 2] >= 0);
        }
        if i < 6 && t[depth + 1] == 1 && t[depth + 2] != 0 && t[depth + 3] != 4 {
            lemma_search_floor(take_run(st, depth), depth + 2);
            if search(take_run(st, depth), depth + 2) == -1 {
                lemma_completes_back_run(st, depth, depth + 2);
            }
        } else {
            lemma_search_floor(take_isolated(st, depth), depth + 1);
            lemma_no_way(st, depth, depth + 1);
            lemma_partials_floor(st, depth, false);
            if partials(st, depth, false) == -1 {
                lemma_completes_back_run(st, depth, depth + 1);
            }
        }
    } else {
    }
}

/// The same of the search that starts a run or a partial run: it finds -1 only by a run.
pub proof fn lemma_partials_floor(st: Search, depth: int, again: bool)
    requires
        in_budget(st),
        0 <= depth < 27,
    ensures
        -1 <= partials(st, depth, again) <= 8,
        partials(st, depth, again) == -1 ==> depth % 9 <= 6 && completes(
            take_run(st, depth),
            if again {
                depth
            } else {
                depth + 1
            },
        ),
    decreases 27 - depth, height(st, depth), 0int,
{
    let t = st.tiles;
    let i = depth % 9;
    if t[depth] >= 1 {
        lemma_budget_steps(st, depth);
        lemma_no_way(st, depth, depth + 1);
        if i < 8 {
            assert(t[depth + 1] >= 0);
        }
        if i < 7 {
            assert(t[depth + 2] >= 0);
        }
        if i < 7 && t[depth + 2] != 0 {
            if t[depth + 1] != 0 {
                lemma_search_floor(
                    take_run(st, depth),
                    if again {
                        depth
                    } else {
                        depth + 1
                    },
                );
            }
            lemma_search_floor(take_tatsu_second(st, depth), depth + 1);
        }
        if i < 8 && t[depth + 1] != 0 {
            lemma_search_floor(take_tatsu_first(st, depth), depth + 1);
        }
    }
}

/// What is left can be used up from `d` on by melds, and by a pair at `q` if none is
/// counted yet.
pub open spec fn left(t: Seq<int>, d: int, pairs: int, q: int) -> bool {
    ||| (pairs == 1 && reduces(t, d, 27))
    ||| (pairs == 0 && d <= q < 27 && t[q] >= 2 && reduces(less(t, q, 2), d, 27))
}

/// An empty kind is passed over.
pub proof fn lemma_left_skip(t: Seq<int>, d: int, pairs: int, q: int)
    requires
        t.len() == 27,
        0 <= d < 27,
        t[d] == 0,
        left(t, d, pairs, q),
    ensures
        left(t, d + 1, pairs, q),
{
}

/// A single tile at the leftmost kind starts a run.
pub proof fn lemma_left_run_one(t: Seq<int>, d: int, pairs: int, q: int)
    requires
        t.len() == 27,
        0 <= d < 27,
        t[d] == 1,
        left(t, d, pairs, q),
    ensures
        d % 9 <= 6,
        d + 2 < 27,
        t[d + 1] >= 1,
        t[d + 2] >= 1,
        left(less_run(t, d), d + 1, pairs, q),
        t[d + 1] == 1 ==> left(less_run(t, d), d + 2, pairs, q),
{
    let x = if pairs == 1 {
        t
    } else {
        less(t, q, 2)
    };
    lemma_leftmost_low(x, d, 27);
    let c = cleared(x, d, 1);
    assert(less_run(x, d) =~= c);
    if pairs == 0 {
        assert(less(less_run(t, d), q, 2) =~= c);
    }
    if t[d + 1] == 1 {
        assert(c[d + 1] == 0);
        assert(reduces(c, d + 1, 27) == reduces(c, d + 2, 27));
    }
}

/// Two tiles at the leftmost kind that are no pair start two runs.
pub proof fn lemma_left_run_two(t: Seq<int>, d: int, pairs: int, q: int)
    requires
        t.len() == 27,
        0 <= d < 27,
        t[d] == 2,
        left(t, d, pairs, q),
        pairs == 0 ==> q > d,
    ensures
        d % 9 <= 6,
        d + 2 < 27,
        t[d + 1] >= 1,
        t[d + 2] >= 1,
        left(less_run(t, d), d, pairs, q),
{
    let x = if pairs == 1 {
        t
    } else {
        less(t, q, 2)
    };
    lemma_leftmost_low(x, d, 27);
    let y = less_run(x, d);
    lemma_leftmost_low(y, d, 27);
    assert(cleared(y, d, 1) =~= cleared(x, d, 2));
    if pairs == 0 {
        assert(less(less_run(t, d), q, 2) =~= y);
    }
}

/// Three tiles at the leftmost kind that hold no pair are a triplet.
pub proof fn lemma_left_set_three(t: Seq<int>, d: int, pairs: int, q: int)
    requires
        t.len() == 27,
        0 <= d < 27,
        t[d] == 3,
        left(t, d, pairs, q),
        pairs == 0 ==> q > d,
    ensures
        left(less(t, d, 3), d + 1, pairs, q),
{
    let x = if pairs == 1 {
        t
    } else {
        less(t, q, 2)
    };
    lemma_leftmost_three(x, d, 27);
    assert(less(x, d, 3) =~= x.update(d, 0));
    if pairs == 0 {
        assert(less(less(t, d, 3), q, 2) =~= x.update(d, 0));
    }
}

/// Four tiles at the leftmost kind that hold no pair are a triplet and the start of a
/// run.
pub proof fn lemma_left_set_four(t: Seq<int>, d: int, pairs: int, q: int)
    requires
        t.len() == 27,
        0 <= d < 27,
        t[d] == 4,
        left(t, d, pairs, q),
        pairs == 0 ==> q > d,
    ensures
        d % 9 <= 6,
        d + 2 < 27,
        t[d + 1] >= 1,
        t[d + 2] >= 1,
        left(less_run(less(t, d, 3), d), d + 1, pairs, q),
{
    let x = if pairs == 1 {
        t
    } else {
        less(t, q, 2)
    };
    lemma_leftmost_four(x, d, 27);
    let c = cleared(x, d, 1);
    assert(less_run(less(x, d, 3), d) =~= c);
    if pairs == 0 {
        assert(less(less_run(less(t, d, 3), d), q, 2) =~= c);
    }
}

/// Where the pair is at the leftmost kind, what is left behind it are melds: none of
/// its kind if there were two tiles, one run if there were three, two runs if four.
pub proof fn lemma_left_pair(t: Seq<int>, d: int)
    requires
        t.len() == 27,
        0 <= d < 27,
        2 <= t[d] <= 4,
        left(t, d, 0, d),
    ensures
        t[d] == 2 ==> left(less(t, d, 2), d + 1, 1, 0),
        t[d] >= 3 ==> d % 9 <= 6 && d + 2 < 27 && t[d + 1] >= 1 && t[d + 2] >= 1,
        t[d] == 3 ==> left(less_run(less(t, d, 2), d), d + 1, 1, 0),
        t[d] == 4 ==> left(less_run(less(t, d, 2), d), d, 1, 0),
{
    let x = less(t, d, 2);
    if t[d] == 3 {
        lemma_leftmost_low(x, d, 27);
        assert(less_run(x, d) =~= cleared(x, d, 1));
    } else if t[d] == 4 {
        lemma_leftmost_low(x, d, 27);
        let y = less_run(x, d);
        lemma_leftmost_low(y, d, 27);
        assert(cleared(y, d, 1) =~= cleared(x, d, 2));
    }
}

/// No numeral is held more than four times.
pub open spec fn low(st: Search) -> bool {
    forall|k: int| 0 <= k < 27 ==> #[trigger] st.tiles[k] <= 4
}

/// What the state of a child of the search has to hold so that it leads to a complete
/// hand: the counts of its parent with one block more, the tiles of that block taken
/// away, and melds left behind the kinds that were used up.
pub proof fn lemma_child_completes(
    st: Search,
    child: Search,
    d: int,
    d2: int,
    used: int,
    q: int,
)
    requires
        in_budget(st),
        low(st),
        completes(st, d),
        0 <= d < 27,
        d <= d2 <= 27,
        child.tiles.len() == 34,
        child.tatsu == 0,
        3 * child.melds + 2 * child.pairs == 3 * st.melds + 2 * st.pairs + used,
        child.melds >= st.melds,
        child.pairs >= st.pairs,
        child.jidahai == st.jidahai,
        prefix_total(child.tiles, 27) == prefix_total(st.tiles, 27) - used,
        forall|k: int| 0 <= k < 27 ==> 0 <= #[trigger] child.tiles[k] <= st.tiles[k],
        forall|k: int| d <= k < d2 ==> #[trigger] child.tiles[k] == 0,
        left(child.tiles.take(27), d2, child.pairs, q),
    ensures
        in_budget(child),
        low(child),
        completes(child, d2),
{
    assert forall|k: int| 0 <= k < d2 && k < 27 implies #[trigger] child.tiles[k] == 0 by {
        if k < d {
            assert(st.tiles[k] == 0);
            assert(0 <= child.tiles[k] <= st.tiles[k]);
        }
    }
    assert forall|k: int| 0 <= k < 27 implies #[trigger] child.tiles[k] <= 4 by {
        assert(0 <= child.tiles[k] <= st.tiles[k]);
        assert(st.tiles[k] <= 4);
    }
    assert forall|k: int| 0 <= k < 27 implies #[trigger] child.tiles[k] >= 0 by {
        assert(0 <= child.tiles[k] <= st.tiles[k]);
    }
    let x = child.tiles.take(27);
    if child.pairs == 0 {
        assert(x[q] >= 2);
    }
}

/// Nothing adds up to nothing.
pub proof fn lemma_prefix_zero(t: Seq<int>, n: int)
    requires
        0 <= n <= 27,
        forall|k: int| 0 <= k < n ==> #[trigger] t[k] == 0,
    ensures
        prefix_total(t, n) == 0,
    decreases n,
{
    if n > 0 {
        lemma_prefix_zero(t, n - 1);
    }
}

/// Taking a run away lowers the number of numerals left by three.
pub proof fn lemma_prefix_less_run(t: Seq<int>, d: int)
    requires
        t.len() == 34,
        0 <= d,
        d + 2 < 27,
    ensures
        prefix_total(less_run(t, d), 27) == prefix_total(t, 27) - 3,
        less_run(t, d).take(27) == less_run(t.take(27), d),
{
    let t1 = less(t, d, 1);
    let t2 = less(t1, d + 1, 1);
    lemma_prefix_less(t, d, 1);
    lemma_prefix_less(t1, d + 1, 1);
    lemma_prefix_less(t2, d + 2, 1);
    assert(less_run(t, d).take(27) =~= less_run(t.take(27), d));
}

/// The search finds the distance -1 from every state that leads to a complete hand.
pub proof fn lemma_search_complete(st: Search, depth: int)
    requires
        in_budget(st),
        low(st),
        0 <= depth <= 27,
        completes(st, depth),
    ensures
        search(st, depth) == -1,
    decreases 27 - depth, height(st, depth), 1int,
{
    let t = st.tiles;
    let x = t.take(27);
    if depth >= 27 {
        lemma_prefix_zero(t, 27);
        lemma_leaf_floor(st);
    } else {
        let q = if st.pairs == 1 {
            0
        } else {
            choose|q: int|
                depth <= q < 27 && #[trigger] x[q] >= 2 && reduces(less(x, q, 2), depth, 27)
        };
        assert(left(x, depth, st.pairs, q));
        assert(x[depth] == t[depth]);
        assert(0 <= t[depth] <= 4);
        if t[depth] == 0 {
            lemma_left_skip(x, depth, st.pairs, q);
            lemma_child_completes(st, st, depth, depth + 1, 0, q);
            lemma_search_complete(st, depth + 1);
        } else if st.pairs == 0 && q == depth {
            lemma_complete_pair(st, depth);
        } else if t[depth] == 1 {
            lemma_complete_one(st, depth, q);
        } else if t[depth] == 2 {
            lemma_complete_two(st, depth, q);
        } else if t[depth] == 3 {
            lemma_complete_three(st, depth, q);
        } else {
            lemma_complete_four(st, depth, q);
        }
    }
}

/// The same where the pair is at the leftmost kind.
pub proof fn lemma_complete_pair(st: Search, depth: int)
    requires
        in_budget(st),
        low(st),
        0 <= depth < 27,
        completes(st, depth),
        st.pairs == 0,
        left(st.tiles.take(27), depth, 0, depth),
    ensures
        search(st, depth) == -1,
    decreases 27 - depth, height(st, depth), 0int,
{
    lemma_search_floor(st, depth);
    let t = st.tiles;
    let x = t.take(27);
    assert(x[depth] == t[depth]);
    assert(0 <= t[depth] <= 4);
    lemma_left_pair(x, depth);
    let b = take_pair(st, depth);
    lemma_prefix_less(t, depth, 2);
    lemma_budget_steps(st, depth);
    if t[depth] == 2 {
        lemma_child_completes(st, b, depth, depth + 1, 2, 0);
        lemma_search_complete(b, depth + 1);
    } else {
        assert(x[depth + 1] == t[depth + 1] && x[depth + 2] == t[depth + 2]);
        let c = take_run(b, depth);
        lemma_prefix_less_run(b.tiles, depth);
        let d2 = if t[depth] == 3 {
            depth + 1
        } else {
            depth
        };
        assert(c.tiles.take(27) =~= less_run(less(x, depth, 2), depth));
        lemma_child_completes(st, c, depth, d2, 5, 0);
        lemma_search_complete(c, d2);
        assert(b.tiles[depth + 1] == t[depth + 1] && b.tiles[depth + 2] == t[depth + 2]);
        if t[depth] == 4 {
            assert(b.tiles[depth] == 2);
            assert(partials(b, depth, true) <= search(c, depth));
        }
    }
}

/// The same with one tile of the leftmost kind.
pub proof fn lemma_complete_one(st: Search, depth: int, q: int)
    requires
        in_budget(st),
        low(st),
        0 <= depth < 27,
        completes(st, depth),
        left(st.tiles.take(27), depth, st.pairs, q),
        st.tiles[depth] == 1,
    ensures
        search(st, depth) == -1,
    decreases 27 - depth, height(st, depth), 0int,
{
    lemma_search_floor(st, depth);
    let t = st.tiles;
    let x = t.take(27);
    let i = depth % 9;
    assert(x[depth] == t[depth]);
    lemma_left_run_one(x, depth, st.pairs, q);
    assert(x[depth + 1] == t[depth + 1] && x[depth + 2] == t[depth + 2]);
    let c = take_run(st, depth);
    lemma_prefix_less_run(t, depth);
    if i < 6 && t[depth + 1] == 1 && t[depth + 2] != 0 && t[depth + 3] != 4 {
        lemma_child_completes(st, c, depth, depth + 2, 3, q);
        lemma_search_complete(c, depth + 2);
    } else {
        lemma_child_completes(st, c, depth, depth + 1, 3, q);
        lemma_search_complete(c, depth + 1);
        assert(partials(st, depth, false) <= search(c, depth + 1));
    }
}

/// The same with two tiles of the leftmost kind that are not the pair.
pub proof fn lemma_complete_two(st: Search, depth: int, q: int)
    requires
        in_budget(st),
        low(st),
        0 <= depth < 27,
        completes(st, depth),
        left(st.tiles.take(27), depth, st.pairs, q),
        st.tiles[depth] == 2,
        st.pairs == 0 ==> q > depth,
    ensures
        search(st, depth) == -1,
    decreases 27 - depth, height(st, depth), 0int,
{
    lemma_search_floor(st, depth);
    let t = st.tiles;
    let x = t.take(27);
    assert(x[depth] == t[depth]);
    lemma_left_run_two(x, depth, st.pairs, q);
    assert(x[depth + 1] == t[depth + 1] && x[depth + 2] == t[depth + 2]);
    let c = take_run(st, depth);
    lemma_prefix_less_run(t, depth);
    lemma_child_completes(st, c, depth, depth, 3, q);
    lemma_search_complete(c, depth);
}

/// The same with three tiles of the leftmost kind that do not hold the pair.
pub proof fn lemma_complete_three(st: Search, depth: int, q: int)
    requires
        in_budget(st),
        low(st),
        0 <= depth < 27,
        completes(st, depth),
        left(st.tiles.take(27), depth, st.pairs, q),
        st.tiles[depth] == 3,
        st.pairs == 0 ==> q > depth,
    ensures
        search(st, depth) == -1,
    decreases 27 - depth, height(st, depth), 0int,
{
    lemma_search_floor(st, depth);
    let t = st.tiles;
    let x = t.take(27);
    assert(x[depth] == t[depth]);
    lemma_left_set_three(x, depth, st.pairs, q);
    let c = take_set(st, depth);
    lemma_prefix_less(t, depth, 3);
    lemma_child_completes(st, c, depth, depth + 1, 3, q);
    lemma_search_complete(c, depth + 1);
}

/// The same with four tiles of the leftmost kind that do not hold the pair.
pub proof fn lemma_complete_four(st: Search, depth: int, q: int)
    requires
        in_budget(st),
        low(st),
        0 <= depth < 27,
        completes(st, depth),
        left(st.tiles.take(27), depth, st.pairs, q),
        st.tiles[depth] == 4,
        st.pairs == 0 ==> q > depth,
    ensures
        search(st, depth) == -1,
    decreases 27 - depth, height(st, depth), 0int,
{
    lemma_search_floor(st, depth);
    let t = st.tiles;
    let x = t.take(27);
    assert(x[depth] == t[depth]);
    lemma_left_set_four(x, depth, st.pairs, q);
    assert(x[depth + 1] == t[depth + 1] && x[depth + 2] == t[depth + 2]);
    let a = take_set(st, depth);
    let c = take_run(a, depth);
    lemma_prefix_less(t, depth, 3);
    lemma_prefix_less_run(a.tiles, depth);
    assert(c.tiles.take(27) =~= less_run(less(x, depth, 3), depth));
    lemma_child_completes(st, c, depth, depth + 1, 6, q);
    lemma_search_complete(c, depth + 1);
    assert(a.tiles[depth] == 1);
    assert(a.tiles[depth + 1] == t[depth + 1] && a.tiles[depth + 2] == t[depth + 2]);
    assert(partials(a, depth, false) <= search(c, depth + 1));
}

} // verus!
