use crate::blocks::{
    after_runs, after_triplets, can_take_run, can_take_triplet, candidates, distinct_patterns,
    first_pair, has_digest, orphan_list, pair_block, pair_list, patterns, raw_patterns, run_block,
    runs_first, runs_from, spare_honor, triplet_block, triplets_first, triplets_from,
    with_placeholder,
};
use crate::constants::digest_of;
use crate::hand::{lemma_total_update, lemma_total_zero, less, less_run, total, within};
use crate::pulls::{
    lemma_after_runs, lemma_after_triplets, lemma_only_pair_left, lemma_runs_exhaust,
    lemma_runs_keep_no_triplet, lemma_triplets_exhaust, lemma_triplets_keep_no_run,
};
use crate::shapes::{
    is_complete_any, is_complete_seven_pairs, is_complete_standard, is_complete_thirteen_orphans,
    lemma_orphans_total, lemma_standard_total, lemma_total_prefix, prefix_total,
};
use vstd::prelude::*;

verus! {

/// How often the tile `t` occurs in the block `b`.
pub open spec fn count_in(b: Seq<i8>, t: int) -> int
    decreases b.len(),
{
    if b.len() == 0 {
        0
    } else {
        count_in(b.drop_last(), t) + if b.last() == t {
            1int
        } else {
            0
        }
    }
}

/// How often the tile `t` occurs in the blocks of `d`.
pub open spec fn count_in_all(d: Seq<Seq<i8>>, t: int) -> int
    decreases d.len(),
{
    if d.len() == 0 {
        0
    } else {
        count_in_all(d.drop_last(), t) + count_in(d.last(), t)
    }
}

/// The hand that the blocks of `d` make up.
pub open spec fn tiles_of(d: Seq<Seq<i8>>) -> Seq<int> {
    Seq::new(34, |k: int| count_in_all(d, k + 1))
}

/// Three tiles of one kind.
pub open spec fn is_triplet(b: Seq<i8>) -> bool {
    b.len() == 3 && 1 <= b[0] <= 34 && b[1] == b[0] && b[2] == b[0]
}

/// Three consecutive numerals of one suit.
pub open spec fn is_run(b: Seq<i8>) -> bool {
    b.len() == 3 && 1 <= b[0] <= 27 && (b[0] - 1) % 9 <= 6 && b[1] == b[0] + 1 && b[2] == b[0] + 2
}

/// Two tiles of one kind.
pub open spec fn is_pair(b: Seq<i8>) -> bool {
    b.len() == 2 && 1 <= b[0] <= 34 && b[1] == b[0]
}

/// Triplets and runs, and one pair behind them.
pub open spec fn is_standard_split(d: Seq<Seq<i8>>) -> bool {
    &&& d.len() >= 1
    &&& is_pair(d.last())
    &&& forall|i: int| 0 <= i < d.len() - 1 ==> is_triplet(#[trigger] d[i]) || is_run(d[i])
}

/// Seven pairs of seven kinds, from the lowest kind to the highest.
pub open spec fn is_pairs_split(d: Seq<Seq<i8>>) -> bool {
    &&& d.len() == 7
    &&& forall|i: int| 0 <= i < d.len() ==> is_pair(#[trigger] d[i])
    &&& forall|i: int, j: int| 0 <= i < j < d.len() ==> (#[trigger] d[i])[0] < (#[trigger] d[j])[0]
}

/// Whether `d` is a decomposition of the hand `h`: its blocks use the tiles of the hand,
/// each of them once, and they are a pair behind triplets and runs, or seven pairs, or
/// the one list that stands for thirteen orphans.
pub open spec fn is_decomposition_of(h: Seq<int>, d: Seq<Seq<i8>>) -> bool {
    &&& tiles_of(d) == h
    &&& (is_standard_split(d) || is_pairs_split(d) || (is_complete_thirteen_orphans(h) && d
        == seq![orphan_list(h, 0)]))
}

/// The tiles of two lists of blocks, one behind the other.
pub proof fn lemma_count_concat(a: Seq<Seq<i8>>, b: Seq<Seq<i8>>, t: int)
    ensures
        count_in_all(a + b, t) == count_in_all(a, t) + count_in_all(b, t),
    decreases b.len(),
{
    if b.len() == 0 {
        assert(a + b =~= a);
    } else {
        lemma_count_concat(a, b.drop_last(), t);
        assert((a + b).drop_last() =~= a + b.drop_last());
    }
}

/// The tiles of a list of blocks with one block more.
pub proof fn lemma_count_push(a: Seq<Seq<i8>>, x: Seq<i8>, t: int)
    ensures
        count_in_all(a.push(x), t) == count_in_all(a, t) + count_in(x, t),
{
    assert(a.push(x).drop_last() =~= a);
}

/// The tiles of a list of one block.
pub proof fn lemma_count_one(x: Seq<i8>, t: int)
    ensures
        count_in_all(seq![x], t) == count_in(x, t),
{
    assert(seq![x].drop_last() =~= Seq::<Seq<i8>>::empty());
    assert(count_in_all(seq![x].drop_last(), t) == 0);
}

/// The tiles of two blocks, one behind the other.
pub proof fn lemma_count_tiles_concat(a: Seq<i8>, b: Seq<i8>, t: int)
    ensures
        count_in(a + b, t) == count_in(a, t) + count_in(b, t),
    decreases b.len(),
{
    if b.len() == 0 {
        assert(a + b =~= a);
    } else {
        lemma_count_tiles_concat(a, b.drop_last(), t);
        assert((a + b).drop_last() =~= a + b.drop_last());
    }
}

/// The tiles of the three kinds of block.
pub proof fn lemma_block_tiles(k: int, t: int)
    requires
        0 <= k < 34,
    ensures
        count_in(triplet_block(k), t) == (if t == k + 1 {
            3int
        } else {
            0
        }),
        count_in(pair_block(k), t) == (if t == k + 1 {
            2int
        } else {
            0
        }),
        k < 32 ==> count_in(run_block(k), t) == (if k + 1 <= t <= k + 3 {
            1int
        } else {
            0
        }),
        is_triplet(triplet_block(k)),
        is_pair(pair_block(k)),
        k < 27 && k % 9 <= 6 ==> is_run(run_block(k)),
{
    let a = triplet_block(k);
    assert(a.drop_last() =~= seq![(k + 1) as i8, (k + 1) as i8]);
    assert(a.drop_last().drop_last() =~= seq![(k + 1) as i8]);
    assert(a.drop_last().drop_last().drop_last() =~= Seq::<i8>::empty());
    assert(count_in(a.drop_last().drop_last().drop_last(), t) == 0);
    assert(count_in(a.drop_last().drop_last(), t) == (if t == k + 1 {
        1int
    } else {
        0
    }));
    assert(count_in(a.drop_last(), t) == (if t == k + 1 {
        2int
    } else {
        0
    }));
    let b = pair_block(k);
    assert(b =~= a.drop_last());
    if k < 32 {
        let c = run_block(k);
        assert(c.drop_last() =~= seq![(k + 1) as i8, (k + 2) as i8]);
        assert(c.drop_last().drop_last() =~= seq![(k + 1) as i8]);
        assert(c.drop_last().drop_last().drop_last() =~= Seq::<i8>::empty());
        assert(count_in(c.drop_last().drop_last().drop_last(), t) == 0);
        assert(count_in(c.drop_last().drop_last(), t) == (if t == k + 1 {
            1int
        } else {
            0
        }));
        assert(count_in(c.drop_last(), t) == (if t == k + 1 || t == k + 2 {
            1int
        } else {
            0
        }));
    }
}

/// A pass of pulling triplets pulls triplets, and they and what is left make up the hand.
pub proof fn lemma_triplets_tiles(x: Seq<int>, i: int)
    requires
        x.len() == 34,
        0 <= i <= 34,
    ensures
        after_triplets(x, i).len() == 34,
        forall|t: int|
            1 <= t <= 34 ==> #[trigger] count_in_all(triplets_from(x, i), t) + after_triplets(
                x,
                i,
            )[t - 1] == x[t - 1],
        forall|n: int|
            0 <= n < triplets_from(x, i).len() ==> is_triplet(#[trigger] triplets_from(x, i)[n]),
    decreases 34 - i,
{
    if i < 34 {
        if can_take_triplet(x, i) {
            let x2 = less(x, i, 3);
            let rest = triplets_from(x2, i + 1);
            lemma_triplets_tiles(x2, i + 1);
            assert forall|t: int| 1 <= t <= 34 implies #[trigger] count_in_all(
                triplets_from(x, i),
                t,
            ) + after_triplets(x, i)[t - 1] == x[t - 1] by {
                lemma_count_concat(seq![triplet_block(i)], rest, t);
                lemma_count_one(triplet_block(i), t);
                lemma_block_tiles(i, t);
                assert(count_in_all(rest, t) + after_triplets(x2, i + 1)[t - 1] == x2[t - 1]);
            }
            assert forall|n: int| 0 <= n < triplets_from(x, i).len() implies is_triplet(
                #[trigger] triplets_from(x, i)[n],
            ) by {
                lemma_block_tiles(i, 0);
                if n > 0 {
                    assert(triplets_from(x, i)[n] == rest[n - 1]);
                }
            }
        } else {
            lemma_triplets_tiles(x, i + 1);
            assert(triplets_from(x, i) == triplets_from(x, i + 1));
        }
    } else {
        assert(triplets_from(x, i) =~= Seq::<Seq<i8>>::empty());
    }
}

/// A pass of pulling runs pulls runs, and they and what is left make up the hand.
pub proof fn lemma_runs_tiles(x: Seq<int>, i: int)
    requires
        x.len() == 34,
        0 <= i <= 27,
    ensures
        after_runs(x, i).len() == 34,
        forall|t: int|
            1 <= t <= 34 ==> #[trigger] count_in_all(runs_from(x, i), t) + after_runs(x, i)[t - 1]
                == x[t - 1],
        forall|n: int| 0 <= n < runs_from(x, i).len() ==> is_run(#[trigger] runs_from(x, i)[n]),
    decreases 27 - i, (if x.len() == 34 && 0 <= i < 27 && x[i] > 0 {
        x[i]
    } else {
        0
    }),
{
    if i < 27 {
        if can_take_run(x, i) {
            let x2 = less_run(x, i);
            let rest = runs_from(x2, i);
            lemma_runs_tiles(x2, i);
            assert forall|t: int| 1 <= t <= 34 implies #[trigger] count_in_all(
                runs_from(x, i),
                t,
            ) + after_runs(x, i)[t - 1] == x[t - 1] by {
                lemma_count_concat(seq![run_block(i)], rest, t);
                lemma_count_one(run_block(i), t);
                lemma_block_tiles(i, t);
                assert(count_in_all(rest, t) + after_runs(x2, i)[t - 1] == x2[t - 1]);
            }
            assert forall|n: int| 0 <= n < runs_from(x, i).len() implies is_run(
                #[trigger] runs_from(x, i)[n],
            ) by {
                lemma_block_tiles(i, 0);
                if n > 0 {
                    assert(runs_from(x, i)[n] == rest[n - 1]);
                }
            }
        } else {
            lemma_runs_tiles(x, i + 1);
            assert(runs_from(x, i) == runs_from(x, i + 1));
        }
    } else {
        assert(runs_from(x, i) =~= Seq::<Seq<i8>>::empty());
    }
}

/// One pass pulls at most one triplet at each position.
pub proof fn lemma_triplets_len(x: Seq<int>, i: int)
    requires
        0 <= i <= 34,
    ensures
        triplets_from(x, i).len() <= 34 - i,
    decreases 34 - i,
{
    if i < 34 {
        if can_take_triplet(x, i) {
            lemma_triplets_len(less(x, i, 3), i + 1);
        } else {
            lemma_triplets_len(x, i + 1);
        }
    }
}

/// One pass pulls at most four runs at each position.
pub proof fn lemma_runs_len(x: Seq<int>, i: int)
    requires
        x.len() == 34,
        within(x, 0, 4),
        0 <= i <= 27,
    ensures
        runs_from(x, i).len() <= (if i < 27 {
            x[i] + 4 * (26 - i)
        } else {
            0
        }),
    decreases 27 - i, (if x.len() == 34 && 0 <= i < 27 && x[i] > 0 {
        x[i]
    } else {
        0
    }),
{
    if i < 27 {
        assert(0 <= x[i] <= 4);
        if can_take_run(x, i) {
            let x2 = less_run(x, i);
            assert(within(x2, 0, 4)) by {
                assert forall|k: int| 0 <= k < 34 implies 0 <= #[trigger] x2[k] <= 4 by {
                    assert(0 <= x[k] <= 4);
                }
            }
            lemma_runs_len(x2, i);
        } else {
            lemma_runs_len(x, i + 1);
            if i + 1 < 27 {
                assert(0 <= x[i + 1] <= 4);
            }
        }
    }
}

/// A hand of two tiles that holds two tiles of a kind holds nothing else.
pub proof fn lemma_pair_alone(x: Seq<int>, f: int)
    requires
        within(x, 0, 4),
        0 <= f < x.len(),
        x[f] == 2,
        total(x) == 2,
    ensures
        forall|k: int| 0 <= k < x.len() && k != f ==> x[k] == 0,
{
    let z = x.update(f, 0);
    lemma_total_update(x, f, 0);
    assert forall|j: int| 0 <= j < z.len() implies z[j] >= 0 by {
        assert(0 <= x[j] <= 4);
    }
    lemma_total_zero(z);
    assert forall|k: int| 0 <= k < x.len() && k != f implies x[k] == 0 by {
        assert(z[k] == 0);
    }
}

/// The hand that a split is to make up: the hand that was split, without its
/// placeholder at `f` and with the pair at `i` that was put aside.
pub open spec fn restored(c: Seq<int>, f: int, i: int) -> Seq<int> {
    Seq::new(
        34,
        |k: int|
            c[k] - (if k == f {
                2int
            } else {
                0
            }) + (if k == i {
                2int
            } else {
                0
            }),
    )
}

/// Melds and a pair behind them.
pub proof fn lemma_split_shape(a: Seq<Seq<i8>>, b: Seq<Seq<i8>>, i: int)
    requires
        0 <= i < 34,
        forall|n: int| 0 <= n < a.len() ==> is_triplet(#[trigger] a[n]) || is_run(a[n]),
        forall|n: int| 0 <= n < b.len() ==> is_triplet(#[trigger] b[n]) || is_run(b[n]),
    ensures
        is_standard_split((a + b).push(pair_block(i))),
        is_standard_split(a.push(pair_block(i))),
{
    lemma_block_tiles(i, 0);
    let d = (a + b).push(pair_block(i));
    assert forall|n: int| 0 <= n < d.len() - 1 implies is_triplet(#[trigger] d[n]) || is_run(
        d[n],
    ) by {
        if n < a.len() {
            assert(d[n] == a[n]);
        } else {
            assert(d[n] == b[n - a.len()]);
        }
    }
    let e = a.push(pair_block(i));
    assert forall|n: int| 0 <= n < e.len() - 1 implies is_triplet(#[trigger] e[n]) || is_run(
        e[n],
    ) by {
        assert(e[n] == a[n]);
    }
}

/// The split that pulls triplets first is a decomposition.
pub proof fn lemma_triplets_first_sound(c: Seq<int>, f: int, i: int)
    requires
        c.len() == 34,
        within(c, 0, 4),
        is_complete_standard(c),
        27 <= f < 34,
        c[f] == 2,
        0 <= i < 34,
    ensures
        forall|n: int|
            0 <= n < triplets_first(c, f, i).len() ==> is_decomposition_of(
                restored(c, f, i),
                #[trigger] triplets_first(c, f, i)[n],
            ) && triplets_first(c, f, i)[n].len() <= 150,
{
    let kotsu = triplets_from(c, 0);
    let r1 = after_triplets(c, 0);
    lemma_after_triplets(c, 0);
    lemma_triplets_len(c, 0);
    lemma_runs_len(r1, 0);
    assert(r1[0] <= 4);
    lemma_triplets_tiles(c, 0);
    lemma_triplets_exhaust(c, 0);
    assert(r1[f] == 2);
    if total(r1) == 2 {
        lemma_pair_alone(r1, f);
        let d = kotsu.push(pair_block(i));
        lemma_split_shape(kotsu, seq![], i);
        assert forall|k: int| 0 <= k < 34 implies count_in_all(d, k + 1) == restored(
            c,
            f,
            i,
        )[k] by {
            lemma_count_push(kotsu, pair_block(i), k + 1);
            lemma_block_tiles(i, k + 1);
            assert(count_in_all(kotsu, k + 1) + r1[k + 1 - 1] == c[k + 1 - 1]);
        }
        assert(tiles_of(d) =~= restored(c, f, i));
    } else if kotsu.len() > 0 {
        let shuntsu = runs_from(r1, 0);
        let r2 = after_runs(r1, 0);
        lemma_after_runs(r1, 0);
        lemma_runs_tiles(r1, 0);
        lemma_runs_keep_no_triplet(r1, 0);
        lemma_runs_exhaust(r1, 0);
        assert(r2[f] == 2);
        lemma_only_pair_left(r2, f);
        let d = (kotsu + shuntsu).push(pair_block(i));
        lemma_split_shape(kotsu, shuntsu, i);
        assert forall|k: int| 0 <= k < 34 implies count_in_all(d, k + 1) == restored(
            c,
            f,
            i,
        )[k] by {
            lemma_count_push(kotsu + shuntsu, pair_block(i), k + 1);
            lemma_count_concat(kotsu, shuntsu, k + 1);
            lemma_block_tiles(i, k + 1);
            assert(count_in_all(kotsu, k + 1) + r1[k + 1 - 1] == c[k + 1 - 1]);
            assert(count_in_all(shuntsu, k + 1) + r2[k + 1 - 1] == r1[k + 1 - 1]);
        }
        assert(tiles_of(d) =~= restored(c, f, i));
    }
}

/// The split that pulls runs first is a decomposition.
pub proof fn lemma_runs_first_sound(c: Seq<int>, f: int, i: int)
    requires
        c.len() == 34,
        within(c, 0, 4),
        is_complete_standard(c),
        27 <= f < 34,
        c[f] == 2,
        0 <= i < 34,
    ensures
        forall|n: int|
            0 <= n < runs_first(c, f, i).len() ==> is_decomposition_of(
                restored(c, f, i),
                #[trigger] runs_first(c, f, i)[n],
            ) && runs_first(c, f, i)[n].len() <= 150,
{
    let shuntsu = runs_from(c, 0);
    let r1 = after_runs(c, 0);
    lemma_after_runs(c, 0);
    lemma_runs_len(c, 0);
    lemma_triplets_len(r1, 0);
    assert(c[0] <= 4);
    lemma_runs_tiles(c, 0);
    lemma_runs_exhaust(c, 0);
    assert(r1[f] == 2);
    if total(r1) == 2 {
        lemma_pair_alone(r1, f);
        let d = shuntsu.push(pair_block(i));
        lemma_split_shape(shuntsu, seq![], i);
        assert forall|k: int| 0 <= k < 34 implies count_in_all(d, k + 1) == restored(
            c,
            f,
            i,
        )[k] by {
            lemma_count_push(shuntsu, pair_block(i), k + 1);
            lemma_block_tiles(i, k + 1);
            assert(count_in_all(shuntsu, k + 1) + r1[k + 1 - 1] == c[k + 1 - 1]);
        }
        assert(tiles_of(d) =~= restored(c, f, i));
    } else {
        let kotsu = triplets_from(r1, 0);
        let r2 = after_triplets(r1, 0);
        lemma_after_triplets(r1, 0);
        lemma_triplets_tiles(r1, 0);
        lemma_triplets_keep_no_run(r1, 0);
        lemma_triplets_exhaust(r1, 0);
        assert(r2[f] == 2);
        lemma_only_pair_left(r2, f);
        let d = (shuntsu + kotsu).push(pair_block(i));
        lemma_split_shape(shuntsu, kotsu, i);
        assert forall|k: int| 0 <= k < 34 implies count_in_all(d, k + 1) == restored(
            c,
            f,
            i,
        )[k] by {
            lemma_count_push(shuntsu + kotsu, pair_block(i), k + 1);
            lemma_count_concat(shuntsu, kotsu, k + 1);
            lemma_block_tiles(i, k + 1);
            assert(count_in_all(shuntsu, k + 1) + r1[k + 1 - 1] == c[k + 1 - 1]);
            assert(count_in_all(kotsu, k + 1) + r2[k + 1 - 1] == r1[k + 1 - 1]);
        }
        assert(tiles_of(d) =~= restored(c, f, i));
    }
}

/// The spare honor, where there is one, is an honor of which the hand holds no tile.
pub proof fn lemma_spare_honor(h: Seq<int>, i: int)
    requires
        27 <= i <= 34,
    ensures
        spare_honor(h, i) == -1 || (i <= spare_honor(h, i) < 34 && h[spare_honor(h, i)] == 0),
    decreases 34 - i,
{
    if i < 34 && h[i] != 0 {
        lemma_spare_honor(h, i + 1);
    }
}

/// Every split that comes of putting a pair aside is a decomposition of the hand.
pub proof fn lemma_candidates_sound(h: Seq<int>, i: int, n: int)
    requires
        h.len() == 34,
        within(h, 0, 4),
        total(h) % 3 == 2,
        0 <= i <= 34,
        0 <= n < candidates(with_placeholder(h), spare_honor(h, 27), i).len(),
    ensures
        is_decomposition_of(h, candidates(with_placeholder(h), spare_honor(h, 27), i)[n]),
        candidates(with_placeholder(h), spare_honor(h, 27), i)[n].len() <= 150,
    decreases 34 - i,
{
    let c = with_placeholder(h);
    let f = spare_honor(h, 27);
    lemma_spare_honor(h, 27);
    if i < 34 {
        if i != f && c[i] >= 2 && is_complete_standard(less(c, i, 2)) {
            let c2 = less(c, i, 2);
            if f == -1 {
                lemma_standard_total(c2);
                lemma_total_update(h, i, h[i] - 2);
                assert(false);
            }
            assert(within(c2, 0, 4)) by {
                assert forall|k: int| 0 <= k < 34 implies 0 <= #[trigger] c2[k] <= 4 by {
                    assert(0 <= h[k] <= 4);
                }
            }
            lemma_triplets_first_sound(c2, f, i);
            lemma_runs_first_sound(c2, f, i);
            assert(restored(c2, f, i) =~= h);
            let a = triplets_first(c2, f, i);
            let b = runs_first(c2, f, i);
            let rest = candidates(c, f, i + 1);
            if n < a.len() {
                assert(candidates(c, f, i)[n] == a[n]);
            } else if n < a.len() + b.len() {
                assert(candidates(c, f, i)[n] == b[n - a.len()]);
            } else {
                assert(candidates(c, f, i)[n] == rest[n - a.len() - b.len()]);
                lemma_candidates_sound(h, i + 1, n - a.len() - b.len());
            }
        } else {
            lemma_candidates_sound(h, i + 1, n);
        }
    }
}

/// How often a tile is in the list of a hand's kinds.
pub proof fn lemma_orphan_count(h: Seq<int>, i: int, t: int)
    requires
        h.len() == 34,
        0 <= i <= 34,
    ensures
        count_in(orphan_list(h, i), t) == (if i < t <= 34 {
            if h[t - 1] > 1 {
                2int
            } else if h[t - 1] > 0 {
                1
            } else {
                0
            }
        } else {
            0
        }),
    decreases 34 - i,
{
    if i < 34 {
        lemma_orphan_count(h, i + 1, t);
        let rest = orphan_list(h, i + 1);
        if h[i] > 1 {
            lemma_count_tiles_concat(pair_block(i), rest, t);
            lemma_block_tiles(i, t);
        } else if h[i] > 0 {
            let one = seq![(i + 1) as i8];
            lemma_count_tiles_concat(one, rest, t);
            assert(one.drop_last() =~= Seq::<i8>::empty());
            assert(count_in(one.drop_last(), t) == 0);
        }
    }
}

/// The list that stands for thirteen orphans holds the tiles of the hand.
pub proof fn lemma_orphans_sound(h: Seq<int>)
    requires
        h.len() == 34,
        within(h, 0, 4),
        total(h) <= 14,
        is_complete_thirteen_orphans(h),
    ensures
        is_decomposition_of(h, seq![orphan_list(h, 0)]),
{
    let d = seq![orphan_list(h, 0)];
    assert(within(h, 0, 14)) by {
        assert forall|k: int| 0 <= k < 34 implies 0 <= #[trigger] h[k] <= 14 by {
            assert(0 <= h[k] <= 4);
        }
    }
    lemma_orphans_total(h);
    assert(0 <= h[0] && 0 <= h[8] && 0 <= h[9] && 0 <= h[17] && 0 <= h[18] && 0 <= h[26] && 0
        <= h[27] && 0 <= h[28] && 0 <= h[29] && 0 <= h[30] && 0 <= h[31] && 0 <= h[32] && 0
        <= h[33]);
    assert forall|k: int| 0 <= k < 34 implies count_in_all(d, k + 1) == h[k] by {
        lemma_count_one(orphan_list(h, 0), k + 1);
        lemma_orphan_count(h, 0, k + 1);
        assert(0 <= h[k] <= 4);
        if !crate::constants::is_orphan(k + 1) {
            assert(h[k] == 0);
        }
    }
    assert(tiles_of(d) =~= h);
}

/// The pairs of a hand in which every kind has no tile or two.
pub proof fn lemma_pair_list(h: Seq<int>, i: int)
    requires
        h.len() == 34,
        0 <= i <= 34,
        forall|k: int| 0 <= k < 34 ==> #[trigger] h[k] == 0 || h[k] == 2,
    ensures
        forall|t: int|
            1 <= t <= 34 ==> #[trigger] count_in_all(pair_list(h, i), t) == (if i < t {
                h[t - 1]
            } else {
                0
            }),
        forall|n: int|
            0 <= n < pair_list(h, i).len() ==> is_pair(#[trigger] pair_list(h, i)[n]) && pair_list(
                h,
                i,
            )[n][0] > i,
        forall|m: int, n: int|
            0 <= m < n < pair_list(h, i).len() ==> (#[trigger] pair_list(h, i)[m])[0] < (
            #[trigger] pair_list(h, i)[n])[0],
        2 * pair_list(h, i).len() == total(h) - prefix_total(h, i),
    decreases 34 - i,
{
    if i < 34 {
        lemma_pair_list(h, i + 1);
        let rest = pair_list(h, i + 1);
        assert(h[i] == 0 || h[i] == 2);
        if h[i] == 2 {
            let d = pair_list(h, i);
            assert(d =~= seq![pair_block(i)] + rest);
            assert forall|t: int| 1 <= t <= 34 implies #[trigger] count_in_all(d, t) == (if i
                < t {
                h[t - 1]
            } else {
                0
            }) by {
                lemma_count_concat(seq![pair_block(i)], rest, t);
                lemma_count_one(pair_block(i), t);
                lemma_block_tiles(i, t);
                assert(h[t - 1] == 0 || h[t - 1] == 2);
            }
            lemma_block_tiles(i, 0);
            assert forall|n: int| 0 <= n < d.len() implies is_pair(#[trigger] d[n]) && d[n][0]
                > i by {
                if n > 0 {
                    assert(d[n] == rest[n - 1]);
                }
            }
            assert forall|m: int, n: int| 0 <= m < n < d.len() implies (#[trigger] d[m])[0] < (
            #[trigger] d[n])[0] by {
                assert(d[n] == rest[n - 1]);
                if m > 0 {
                    assert(d[m] == rest[m - 1]);
                }
            }
        } else {
            assert(pair_list(h, i) == rest);
            assert forall|t: int| 1 <= t <= 34 implies #[trigger] count_in_all(
                pair_list(h, i),
                t,
            ) == (if i < t {
                h[t - 1]
            } else {
                0
            }) by {
                assert(count_in_all(rest, t) == (if i + 1 < t {
                    h[t - 1]
                } else {
                    0
                }));
            }
        }
    } else {
        assert(pair_list(h, i) =~= Seq::<Seq<i8>>::empty());
        lemma_total_prefix(h, 34);
        assert(h.take(34) =~= h);
    }
}

/// The pairs of a seven-pairs hand are a decomposition of it.
pub proof fn lemma_pairs_sound(h: Seq<int>)
    requires
        h.len() == 34,
        within(h, 0, 4),
        is_complete_seven_pairs(h),
    ensures
        is_decomposition_of(h, pair_list(h, 0)),
        is_pairs_split(pair_list(h, 0)),
{
    assert forall|k: int| 0 <= k < 34 implies #[trigger] h[k] == 0 || h[k] == 2 by {
        assert(0 <= h[k] <= 4);
    }
    lemma_pair_list(h, 0);
    let d = pair_list(h, 0);
    assert forall|k: int| 0 <= k < 34 implies count_in_all(d, k + 1) == h[k] by {
        assert(count_in_all(d, k + 1) == h[k + 1 - 1]);
    }
    assert(tiles_of(d) =~= h);
    assert(is_pairs_split(d));
}

/// What is kept of the decompositions found: each one was found, no two have the same
/// signature, and every one that was found has the signature of one that is kept.
pub proof fn lemma_distinct_patterns(raw: Seq<Seq<Seq<i8>>>, n: int)
    requires
        0 <= n <= raw.len(),
    ensures
        forall|j: int|
            0 <= j < distinct_patterns(raw, n).len() ==> exists|m: int|
                0 <= m < n && #[trigger] distinct_patterns(raw, n)[j] == raw[m],
        forall|i: int, j: int|
            0 <= i < j < distinct_patterns(raw, n).len() ==> digest_of(
                #[trigger] distinct_patterns(raw, n)[i],
            ) != digest_of(#[trigger] distinct_patterns(raw, n)[j]),
        forall|m: int| 0 <= m < n ==> has_digest(distinct_patterns(raw, n), #[trigger] raw[m]),
    decreases n,
{
    if n > 0 {
        lemma_distinct_patterns(raw, n - 1);
        let kept = distinct_patterns(raw, n - 1);
        let now = distinct_patterns(raw, n);
        if has_digest(kept, raw[n - 1]) {
            assert(now == kept);
            assert forall|j: int| 0 <= j < now.len() implies exists|m: int|
                0 <= m < n && #[trigger] now[j] == raw[m] by {
                let m = choose|m: int| 0 <= m < n - 1 && kept[j] == raw[m];
                assert(now[j] == raw[m]);
            }
        } else {
            assert(now == kept.push(raw[n - 1]));
            assert forall|j: int| 0 <= j < now.len() implies exists|m: int|
                0 <= m < n && #[trigger] now[j] == raw[m] by {
                if j < kept.len() {
                    let m = choose|m: int| 0 <= m < n - 1 && kept[j] == raw[m];
                    assert(now[j] == raw[m]);
                } else {
                    assert(now[j] == raw[n - 1]);
                }
            }
            assert forall|i: int, j: int| 0 <= i < j < now.len() implies digest_of(
                #[trigger] now[i],
            ) != digest_of(#[trigger] now[j]) by {
                if j < kept.len() {
                    assert(now[i] == kept[i] && now[j] == kept[j]);
                } else {
                    assert(now[i] == kept[i]);
                }
            }
            assert forall|m: int| 0 <= m < n implies has_digest(now, #[trigger] raw[m]) by {
                if m < n - 1 {
                    let j = choose|j: int|
                        0 <= j < kept.len() && digest_of(#[trigger] kept[j]) == digest_of(raw[m]);
                    assert(now[j] == kept[j]);
                } else {
                    assert(now[kept.len() as int] == raw[m]);
                }
            }
        }
    }
}

/// Every decomposition that the search comes by is a decomposition of the hand.
pub proof fn lemma_raw_patterns_sound(h: Seq<int>, n: int)
    requires
        h.len() == 34,
        within(h, 0, 4),
        total(h) <= 14,
        is_complete_any(h),
        0 <= n < raw_patterns(h).len(),
    ensures
        is_decomposition_of(h, raw_patterns(h)[n]),
        raw_patterns(h)[n].len() <= 150,
{
    let head: Seq<Seq<Seq<i8>>> = if is_complete_thirteen_orphans(h) {
        seq![seq![orphan_list(h, 0)]]
    } else {
        seq![]
    };
    let mid = candidates(with_placeholder(h), spare_honor(h, 27), 0);
    let tail: Seq<Seq<Seq<i8>>> = if is_complete_seven_pairs(h) {
        seq![pair_list(h, 0)]
    } else {
        seq![]
    };
    assert(raw_patterns(h) == head + mid + tail);
    if n < head.len() {
        lemma_orphans_sound(h);
        assert(raw_patterns(h)[n] == head[n]);
        assert(head[n].len() == 1);
    } else if n < head.len() + mid.len() {
        lemma_complete_total(h);
        lemma_candidates_sound(h, 0, n - head.len());
        assert(raw_patterns(h)[n] == mid[n - head.len()]);
    } else {
        lemma_pairs_sound(h);
        assert(raw_patterns(h)[n] == tail[n - head.len() - mid.len()]);
    }
}

/// A complete hand of at most fourteen tiles holds a number of tiles that leaves a
/// remainder of two.
pub proof fn lemma_complete_total(h: Seq<int>)
    requires
        h.len() == 34,
        within(h, 0, 4),
        total(h) <= 14,
        is_complete_any(h),
    ensures
        total(h) % 3 == 2,
{
    if is_complete_standard(h) {
        lemma_standard_total(h);
    } else if is_complete_thirteen_orphans(h) {
        assert(within(h, 0, 14)) by {
            assert forall|k: int| 0 <= k < 34 implies 0 <= #[trigger] h[k] <= 14 by {
                assert(0 <= h[k] <= 4);
            }
        }
        lemma_orphans_total(h);
    }
}

/// Decomposition soundness: every decomposition that is returned for a hand of at most
/// fourteen tiles uses exactly the tiles of the hand, and its blocks are triplets, runs
/// and one pair, or seven pairs, or the one list that stands for thirteen orphans.
pub proof fn lemma_patterns_sound(h: Seq<int>, n: int)
    requires
        h.len() == 34,
        within(h, 0, 4),
        total(h) <= 14,
        0 <= n < patterns(h).len(),
    ensures
        is_decomposition_of(h, patterns(h)[n]),
        patterns(h)[n].len() <= 150,
{
    if total(h) == 2 {
        let found = first_pair(h, -1, 0);
        crate::agari::lemma_first_pair_range(h, -1, 0);
        assert(found != -1);
        assert forall|j: int| 0 <= j < h.len() implies h[j] >= 0 by {
            assert(0 <= h[j] <= 4);
        }
        crate::hand::lemma_total_bounds_entry(h, found);
        lemma_pair_alone(h, found);
        let d = seq![pair_block(found)];
        assert(patterns(h)[n] == d);
        lemma_block_tiles(found, 0);
        assert forall|k: int| 0 <= k < 34 implies count_in_all(d, k + 1) == h[k] by {
            lemma_count_one(pair_block(found), k + 1);
            lemma_block_tiles(found, k + 1);
        }
        assert(tiles_of(d) =~= h);
        assert(is_standard_split(d));
    } else {
        let raw = raw_patterns(h);
        lemma_distinct_patterns(raw, raw.len() as int);
        let m = choose|m: int| 0 <= m < raw.len() && patterns(h)[n] == raw[m];
        lemma_raw_patterns_sound(h, m);
    }
}

/// De-duplication: no two decompositions that are returned have the same signature.
pub proof fn lemma_patterns_distinct(h: Seq<int>, i: int, j: int)
    requires
        0 <= i < j < patterns(h).len(),
    ensures
        digest_of(patterns(h)[i]) != digest_of(patterns(h)[j]),
{
    let raw = raw_patterns(h);
    lemma_distinct_patterns(raw, raw.len() as int);
}

/// Where the hand holds a pair that is not excluded, a pair is found.
pub proof fn lemma_first_pair_found(h: Seq<int>, exclude: int, i: int, p: int)
    requires
        0 <= i <= p < h.len(),
        h[p] >= 2,
        p != exclude,
    ensures
        first_pair(h, exclude, i) != -1,
    decreases h.len() - i,
{
    if !(h[i] >= 2 && i != exclude) {
        lemma_first_pair_found(h, exclude, i + 1, p);
    }
}

/// Where the hand lacks an honor, a spare honor is found.
pub proof fn lemma_spare_found(h: Seq<int>, i: int, k: int)
    requires
        27 <= i <= k < 34,
        h[k] == 0,
    ensures
        spare_honor(h, i) != -1,
    decreases 34 - i,
{
    if h[i] != 0 {
        lemma_spare_found(h, i + 1, k);
    }
}

/// Where a pair can be put aside at `p`, there is a split.
pub proof fn lemma_candidates_found(c: Seq<int>, f: int, i: int, p: int)
    requires
        0 <= i <= p < 34,
        p != f,
        c[p] >= 2,
        is_complete_standard(less(c, p, 2)),
    ensures
        candidates(c, f, i).len() >= 1,
    decreases 34 - i,
{
    if i < p {
        lemma_candidates_found(c, f, i + 1, p);
    }
}

/// What is kept of the decompositions found is not nothing, unless nothing was found.
pub proof fn lemma_distinct_some(raw: Seq<Seq<Seq<i8>>>, n: int)
    requires
        1 <= n <= raw.len(),
    ensures
        distinct_patterns(raw, n).len() >= 1,
    decreases n,
{
    if n > 1 {
        lemma_distinct_some(raw, n - 1);
    } else {
        assert(distinct_patterns(raw, 0).len() == 0);
    }
}

/// A hand of at most fourteen tiles in the standard shape lacks one of the honors.
pub proof fn lemma_standard_spare(h: Seq<int>, p: int)
    requires
        h.len() == 34,
        within(h, 0, 4),
        total(h) <= 14,
        0 <= p < 34,
        h[p] >= 2,
        crate::shapes::all_melds(less(h, p, 2)),
    ensures
        spare_honor(h, 27) != -1,
        spare_honor(h, 27) != p,
{
    let y = less(h, p, 2);
    let g = crate::hand::group(y, 3);
    assert(within(g, 0, 4)) by {
        assert forall|k: int| 0 <= k < g.len() implies 0 <= #[trigger] g[k] <= 4 by {
            assert(0 <= h[27 + k] <= 4);
        }
    }
    crate::melds::lemma_reduces_without_runs(g, 0);
    assert forall|k: int| 27 <= k < 34 && k != p implies h[k] == 0 || h[k] == 3 by {
        assert(g[k - 27] == y[k]);
        assert(g[k - 27] == 0 || g[k - 27] == 3);
    }
    assert forall|k: int| 0 <= k < 34 implies h[k] >= 0 by {
        assert(0 <= h[k] <= 4);
    }
    lemma_total_prefix(h, 34);
    assert(h.take(34) =~= h);
    crate::reach::lemma_prefix_nonneg(h, 27);
    reveal_with_fuel(prefix_total, 8);
    assert(h[27] + h[28] + h[29] + h[30] + h[31] + h[32] + h[33] <= 14);
    let k: int = if h[27] == 0 {
        27
    } else if h[28] == 0 {
        28
    } else if h[29] == 0 {
        29
    } else if h[30] == 0 {
        30
    } else if h[31] == 0 {
        31
    } else if h[32] == 0 {
        32
    } else {
        33
    };
    assert(h[k] == 0);
    lemma_spare_found(h, 27, k);
    lemma_spare_honor(h, 27);
}

/// A complete hand of at most fourteen tiles has a decomposition, and no other hand has
/// one.
pub proof fn lemma_patterns_exist(h: Seq<int>)
    requires
        h.len() == 34,
        within(h, 0, 4),
        total(h) <= 14,
    ensures
        patterns(h).len() >= 1 <==> is_complete_any(h),
{
    if is_complete_any(h) {
        if total(h) == 2 {
            if is_complete_thirteen_orphans(h) {
                assert(within(h, 0, 14)) by {
                    assert forall|k: int| 0 <= k < 34 implies 0 <= #[trigger] h[k] <= 14 by {
                        assert(0 <= h[k] <= 4);
                    }
                }
                lemma_orphans_total(h);
            }
            let p = choose|p: int|
                0 <= p < 34 && #[trigger] h[p] >= 2 && crate::shapes::all_melds(less(h, p, 2));
            lemma_first_pair_found(h, -1, 0, p);
        } else {
            let raw = raw_patterns(h);
            if !is_complete_thirteen_orphans(h) && !is_complete_seven_pairs(h) {
                let p = choose|p: int|
                    0 <= p < 34 && #[trigger] h[p] >= 2 && crate::shapes::all_melds(less(h, p, 2));
                lemma_standard_spare(h, p);
                lemma_spare_honor(h, 27);
                let f = spare_honor(h, 27);
                let c = with_placeholder(h);
                let c2 = less(c, p, 2);
                assert(less(c2, f, 2) =~= less(h, p, 2));
                assert(c2[f] >= 2);
                assert(is_complete_standard(c2));
                lemma_candidates_found(c, f, 0, p);
            }
            assert(raw.len() >= 1);
            lemma_distinct_some(raw, raw.len() as int);
        }
    }
}

} // verus!
