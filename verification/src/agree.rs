use crate::hand::{group, lemma_total_nonneg, less, less_run, total, within};
use crate::melds::{lemma_reduces_frame, lemma_reduces_without_runs, reduces, run_fits};
use crate::reach::{
    completes, in_budget, lemma_search_complete, lemma_search_floor, low, melds_left,
};
use crate::search::{
    honors_with, kinds_with, orphans_shanten, seven_pairs_shanten, shanten, standard_shanten, start,
};
use crate::shanten::{lemma_honors_range, lemma_start_budget};
use crate::shapes::{
    all_melds, is_complete_any, is_complete_seven_pairs, is_complete_standard,
    is_complete_thirteen_orphans, lemma_orphan_total, lemma_standard_total, lemma_total_minus,
    lemma_total_prefix, orphan_total, orphans_only, prefix_total,
};
use vstd::prelude::*;

verus! {

/// Scanning the numerals of a hand within one suit is scanning that suit by itself, and
/// then what is behind it.
pub proof fn lemma_group_scan(t: Seq<int>, s: int, k: int)
    requires
        t.len() == 27,
        0 <= s < 3,
        9 * s <= k <= 9 * s + 9,
    ensures
        reduces(t, k, 27) == (reduces(t.subrange(9 * s, 9 * s + 9), k - 9 * s, 9) && reduces(
            t,
            9 * s + 9,
            27,
        )),
    decreases t.len() - k, (if 0 <= k < t.len() && t[k] > 0 {
        t[k]
    } else {
        0
    }),
{
    let g = t.subrange(9 * s, 9 * s + 9);
    let j = k - 9 * s;
    let end = 9 * s + 9;
    if k == end {
        if end == 27 {
            assert(reduces(t, 27, 27));
        }
    } else {
        assert(g[j] == t[k]);
        assert(k % 9 == j) by {
            assert(0 <= j < 9);
            assert(k == 9 * s + j);
        }
        if t[k] == 0 {
            lemma_group_scan(t, s, k + 1);
        } else if t[k] < 0 {
        } else {
            if t[k] >= 3 {
                let t2 = less(t, k, 3);
                lemma_group_scan(t2, s, k);
                assert(t2.subrange(9 * s, 9 * s + 9) =~= less(g, j, 3));
                lemma_reduces_frame(t2, t, end, 27);
            }
            assert(run_fits(t, k, 27) == run_fits(g, j, 9));
            if run_fits(t, k, 27) && t[k + 1] >= 1 && t[k + 2] >= 1 {
                let t2 = less_run(t, k);
                lemma_group_scan(t2, s, k);
                assert(t2.subrange(9 * s, 9 * s + 9) =~= less_run(g, j));
                lemma_reduces_frame(t2, t, end, 27);
            }
            if run_fits(t, k, 27) {
                assert(g[j + 1] == t[k + 1] && g[j + 2] == t[k + 2]);
            }
        }
    }
}

/// The numerals of a hand are melds exactly if each of the three suits is.
pub proof fn lemma_numerals_by_groups(h: Seq<int>)
    requires
        h.len() == 34,
    ensures
        reduces(h.take(27), 0, 27) == (reduces(group(h, 0), 0, 9) && reduces(group(h, 1), 0, 9)
            && reduces(group(h, 2), 0, 9)),
{
    let t = h.take(27);
    lemma_group_scan(t, 0, 0);
    lemma_group_scan(t, 1, 9);
    lemma_group_scan(t, 2, 18);
    assert(t.subrange(0, 9) =~= group(h, 0));
    assert(t.subrange(9, 18) =~= group(h, 1));
    assert(t.subrange(18, 27) =~= group(h, 2));
    assert(reduces(t, 27, 27));
}

/// What the counts of the honors say about the honors one by one.
pub proof fn lemma_honors_each(h: Seq<int>, v: int, i: int)
    requires
        27 <= i <= 34,
    ensures
        honors_with(h, v, i) == 0 <==> forall|k: int| i <= k < 34 ==> h[k] != v,
        forall|p: int|
            i <= p < 34 && h[p] == v && honors_with(h, v, i) == 1 ==> forall|k: int|
                i <= k < 34 && k != p ==> h[k] != v,
        forall|p: int|
            i <= p < 34 && h[p] == v && (forall|k: int| i <= k < 34 && k != p ==> h[k] != v)
                ==> honors_with(h, v, i) == 1,
    decreases 34 - i,
{
    if i < 34 {
        lemma_honors_each(h, v, i + 1);
        lemma_honors_range(h, v, i + 1);
        if honors_with(h, v, i) == 0 {
            assert forall|k: int| i <= k < 34 implies h[k] != v by {
                if k > i {
                    assert(honors_with(h, v, i + 1) == 0);
                }
            }
        }
        assert forall|p: int|
            i <= p < 34 && h[p] == v && honors_with(h, v, i) == 1 implies forall|k: int|
            i <= k < 34 && k != p ==> h[k] != v by {
            if p == i {
                assert(honors_with(h, v, i + 1) == 0);
            } else {
                assert(honors_with(h, v, i + 1) >= 1) by {
                    if honors_with(h, v, i + 1) == 0 {
                        assert(h[p] != v);
                    }
                }
            }
        }
        assert forall|p: int|
            i <= p < 34 && h[p] == v && (forall|k: int| i <= k < 34 && k != p ==> h[k] != v)
            implies honors_with(h, v, i) == 1 by {
            if p == i {
                assert forall|k: int| i + 1 <= k < 34 implies h[k] != v by {}
                assert(honors_with(h, v, i + 1) == 0);
            } else {
                assert(h[i] != v);
                assert forall|k: int| i + 1 <= k < 34 && k != p implies h[k] != v by {}
                assert(honors_with(h, v, i + 1) == 1);
            }
        }
    }
}

/// The honors that the search counts as melds and pairs are tiles of the hand, and the
/// honors that it does not count among them are singles and fourth copies.
pub proof fn lemma_honors_tight(h: Seq<int>, i: int)
    requires
        h.len() == 34,
        within(h, 0, 4),
        27 <= i <= 34,
    ensures
        prefix_total(h, 34) - prefix_total(h, i) == 3 * honors_with(h, 3, i) + 4 * honors_with(
            h,
            4,
            i,
        ) + 2 * honors_with(h, 2, i) + honors_with(h, 1, i),
    decreases 34 - i,
{
    if i < 34 {
        lemma_honors_tight(h, i + 1);
        assert(0 <= h[i] <= 4);
    }
}

/// What the search starts with: the melds and pairs counted for the honors and for the
/// tiles that the hand lacks, and the numerals, are fourteen tiles but for the honors
/// held once or four times and for up to two tiles that the hand lacks besides.
pub proof fn lemma_start_account(h: Seq<int>)
    requires
        h.len() == 34,
        within(h, 0, 4),
        total(h) <= 14,
    ensures
        3 * start(h).melds + 2 * start(h).pairs + prefix_total(h, 27) == 14 - (14 - total(h)) % 3
            - honors_with(h, 1, 27) - honors_with(h, 4, 27),
        honors_with(h, 1, 27) >= 0,
        honors_with(h, 4, 27) >= 0,
        in_budget(start(h)),
        low(start(h)),
        total(h) >= 0,
{
    assert forall|k: int| 0 <= k < 34 implies h[k] >= 0 by {
        assert(0 <= h[k] <= 4);
    }
    lemma_total_nonneg(h);
    lemma_start_budget(h);
    lemma_honors_tight(h, 27);
    lemma_total_prefix(h, 34);
    assert(h.take(34) =~= h);
    lemma_honors_range(h, 1, 27);
    lemma_honors_range(h, 4, 27);
    assert(low(start(h))) by {
        assert forall|k: int| 0 <= k < 27 implies #[trigger] start(h).tiles[k] <= 4 by {
            assert(0 <= h[k] <= 4);
        }
    }
}

/// The search finds the distance -1 only for a hand of the standard shape.
pub proof fn lemma_standard_sound(h: Seq<int>)
    requires
        h.len() == 34,
        within(h, 0, 4),
        total(h) <= 14,
        standard_shanten(h) == -1,
    ensures
        is_complete_standard(h),
{
    let st = start(h);
    let x = h.take(27);
    lemma_start_account(h);
    lemma_search_floor(st, 0);
    assert(completes(st, 0));
    assert(honors_with(h, 1, 27) == 0 && honors_with(h, 4, 27) == 0);
    lemma_honors_each(h, 1, 27);
    lemma_honors_each(h, 2, 27);
    lemma_honors_each(h, 4, 27);
    lemma_honors_range(h, 2, 27);
    assert forall|k: int| 27 <= k < 34 implies h[k] == 0 || h[k] == 2 || h[k] == 3 by {
        assert(0 <= h[k] <= 4);
    }
    if st.pairs == 1 {
        assert(honors_with(h, 2, 27) == 1);
        let p = choose|p: int| 27 <= p < 34 && h[p] == 2;
        assert forall|k: int| 27 <= k < 34 && k != p implies h[k] == 0 || h[k] == 3 by {
            assert(h[k] != 2);
        }
        lemma_pair_found(h, p);
    } else {
        assert(honors_with(h, 2, 27) == 0);
        let q = choose|q: int| 0 <= q < 27 && #[trigger] x[q] >= 2 && reduces(less(x, q, 2), 0, 27);
        assert(h[q] == x[q]);
        assert forall|k: int| 27 <= k < 34 && k != q implies h[k] == 0 || h[k] == 3 by {
            assert(h[k] != 2);
        }
        lemma_pair_found(h, q);
    }
}

/// The search finds the distance -1 for every hand of the standard shape.
pub proof fn lemma_standard_found(h: Seq<int>)
    requires
        h.len() == 34,
        within(h, 0, 4),
        total(h) <= 14,
        is_complete_standard(h),
    ensures
        standard_shanten(h) == -1,
{
    let st = start(h);
    let x = h.take(27);
    lemma_start_account(h);
    let p = choose|p: int| 0 <= p < 34 && #[trigger] h[p] >= 2 && all_melds(less(h, p, 2));
    let y = less(h, p, 2);
    lemma_standard_total(h);
    let g = group(y, 3);
    assert(within(g, 0, 4)) by {
        assert forall|k: int| 0 <= k < g.len() implies 0 <= #[trigger] g[k] <= 4 by {
            assert(0 <= h[27 + k] <= 4);
        }
    }
    lemma_reduces_without_runs(g, 0);
    assert forall|k: int| 27 <= k < 34 implies (if k == p {
        h[k] == 2
    } else {
        h[k] == 0 || h[k] == 3
    }) by {
        assert(g[k - 27] == y[k]);
        assert(g[k - 27] == 0 || g[k - 27] == 3);
        assert(0 <= h[k] <= 4);
    }
    lemma_honors_each(h, 1, 27);
    lemma_honors_each(h, 2, 27);
    lemma_honors_each(h, 4, 27);
    assert(honors_with(h, 1, 27) == 0);
    assert(honors_with(h, 4, 27) == 0);
    lemma_numerals_by_groups(y);
    if p >= 27 {
        assert(y.take(27) =~= x);
        assert(honors_with(h, 2, 27) == 1);
        assert(melds_left(x, 0, 1));
    } else {
        assert(y.take(27) =~= less(x, p, 2));
        assert(honors_with(h, 2, 27) == 0);
        assert(x[p] >= 2);
        assert(melds_left(x, 0, 0));
    }
    assert(completes(st, 0));
    lemma_search_complete(st, 0);
}

/// The standard shape and the search agree.
pub proof fn lemma_standard_agrees(h: Seq<int>)
    requires
        h.len() == 34,
        within(h, 0, 4),
        total(h) <= 14,
    ensures
        is_complete_standard(h) <==> standard_shanten(h) == -1,
{
    if standard_shanten(h) == -1 {
        lemma_standard_sound(h);
    }
    if is_complete_standard(h) {
        lemma_standard_found(h);
    }
}

/// A hand whose honors are triplets, but for a pair at `p`, and whose numerals without
/// that pair are melds has the standard shape.
pub proof fn lemma_pair_found(h: Seq<int>, p: int)
    requires
        h.len() == 34,
        within(h, 0, 4),
        0 <= p < 34,
        h[p] >= 2,
        forall|k: int| 27 <= k < 34 && k != p ==> h[k] == 0 || h[k] == 3,
        p >= 27 ==> h[p] == 2 && reduces(h.take(27), 0, 27),
        p < 27 ==> reduces(less(h.take(27), p, 2), 0, 27),
    ensures
        is_complete_standard(h),
{
    let y = less(h, p, 2);
    let g = group(y, 3);
    assert(within(g, 0, 4)) by {
        assert forall|k: int| 0 <= k < g.len() implies 0 <= #[trigger] g[k] <= 4 by {
            assert(0 <= h[27 + k] <= 4);
        }
    }
    lemma_reduces_without_runs(g, 0);
    assert forall|j: int| 0 <= j < g.len() implies g[j] == 0 || g[j] == 3 by {
        assert(g[j] == y[27 + j]);
    }
    lemma_numerals_by_groups(y);
    if p >= 27 {
        assert(y.take(27) =~= h.take(27));
    } else {
        assert(y.take(27) =~= less(h.take(27), p, 2));
    }
    assert(all_melds(y));
}

/// Two for each pair, and what is held besides.
pub proof fn lemma_pairs_exact(h: Seq<int>, n: int)
    requires
        0 <= n <= h.len(),
        forall|k: int| 0 <= k < h.len() ==> h[k] >= 0,
    ensures
        prefix_total(h, n) >= 2 * kinds_with(h, 2, n),
        prefix_total(h, n) == 2 * kinds_with(h, 2, n) <==> forall|k: int|
            0 <= k < n ==> h[k] == 0 || h[k] == 2,
    decreases n,
{
    if n > 0 {
        lemma_pairs_exact(h, n - 1);
        if prefix_total(h, n) == 2 * kinds_with(h, 2, n) {
            assert forall|k: int| 0 <= k < n implies h[k] == 0 || h[k] == 2 by {
                assert(h[n - 1] >= 0);
            }
        }
        if forall|k: int| 0 <= k < n ==> h[k] == 0 || h[k] == 2 {
            assert(h[n - 1] == 0 || h[n - 1] == 2);
            assert forall|k: int| 0 <= k < n - 1 implies h[k] == 0 || h[k] == 2 by {}
        }
    }
}

/// Seven pairs and the distance to seven pairs agree.
pub proof fn lemma_seven_pairs_agree(h: Seq<int>)
    requires
        h.len() == 34,
        within(h, 0, 4),
        total(h) <= 14,
    ensures
        is_complete_seven_pairs(h) <==> seven_pairs_shanten(h) == -1,
{
    assert forall|k: int| 0 <= k < 34 implies h[k] >= 0 by {
        assert(0 <= h[k] <= 4);
    }
    lemma_pairs_exact(h, 34);
    lemma_total_prefix(h, 34);
    assert(h.take(34) =~= h);
    crate::search::lemma_pairs_bound(h, 34);
    if is_complete_seven_pairs(h) {
        assert forall|k: int| 0 <= k < 34 implies h[k] == 0 || h[k] == 2 by {
            if h[k] != 0 {
                assert(h[k] > 0);
            }
        }
    }
}

/// The terminals and honors held are tiles of the hand.
pub proof fn lemma_orphans_within(h: Seq<int>)
    requires
        h.len() == 34,
        forall|k: int| 0 <= k < 34 ==> h[k] >= 0,
    ensures
        orphan_total(h) <= total(h),
{
    let z = orphans_only(h);
    lemma_orphan_total(h);
    let rest = Seq::new(34, |k: int| h[k] - z[k]);
    lemma_total_minus(h, z, 34);
    assert(Seq::new(34, |k: int| h[k] - z[k]).take(34) =~= rest);
    assert(h.take(34) =~= h);
    assert(z.take(34) =~= z);
    lemma_total_nonneg(rest);
}

/// Thirteen orphans and the distance to thirteen orphans agree.
pub proof fn lemma_orphans_agree(h: Seq<int>)
    requires
        h.len() == 34,
        within(h, 0, 4),
        total(h) <= 14,
    ensures
        is_complete_thirteen_orphans(h) <==> orphans_shanten(h) == -1,
{
    assert forall|k: int| 0 <= k < 34 implies h[k] >= 0 by {
        assert(0 <= h[k] <= 4);
    }
    lemma_orphans_within(h);
    assert(0 <= h[0] && 0 <= h[8] && 0 <= h[9] && 0 <= h[17] && 0 <= h[18] && 0 <= h[26] && 0
        <= h[27] && 0 <= h[28] && 0 <= h[29] && 0 <= h[30] && 0 <= h[31] && 0 <= h[32] && 0
        <= h[33]);
}

/// Completeness agreement: a hand of at most fourteen tiles, no kind of which is held
/// more than four times, is complete exactly if its distance to completion is -1.
pub proof fn lemma_complete_iff_shanten(h: Seq<int>)
    requires
        h.len() == 34,
        within(h, 0, 4),
        total(h) <= 14,
    ensures
        is_complete_any(h) <==> shanten(h) == -1,
{
    lemma_standard_agrees(h);
    lemma_seven_pairs_agree(h);
    lemma_orphans_agree(h);
    assert forall|k: int| 0 <= k < 34 implies h[k] >= 0 by {
        assert(0 <= h[k] <= 4);
    }
    lemma_start_budget(h);
    lemma_search_floor(start(h), 0);
    crate::search::lemma_pairs_bound(h, 34);
    lemma_total_prefix(h, 34);
    assert(h.take(34) =~= h);
}

/// A hand of thirteen tiles at distance 0 waits for the kinds that complete it: a kind
/// of which it holds fewer than four tiles is among its waits exactly if one more tile
/// of that kind makes the hand complete.
pub proof fn lemma_waits_complete(h: Seq<int>, k: int)
    requires
        h.len() == 34,
        within(h, 0, 4),
        total(h) == 13,
        shanten(h) == 0,
        0 <= k < 34,
        h[k] < 4,
    ensures
        crate::search::waits_from(h, 0, -1, 0).contains(k as i8) <==> is_complete_any(
            less(h, k, -1),
        ),
{
    let more = less(h, k, -1);
    crate::search::lemma_waits(h, 0, -1, 0, k);
    crate::hand::lemma_total_update(h, k, h[k] + 1);
    assert(within(more, 0, 4)) by {
        assert forall|j: int| 0 <= j < 34 implies 0 <= #[trigger] more[j] <= 4 by {
            assert(0 <= h[j] <= 4);
        }
    }
    lemma_complete_iff_shanten(more);
    assert forall|j: int| 0 <= j < 34 implies more[j] >= 0 by {
        assert(0 <= more[j] <= 4);
    }
    lemma_start_budget(more);
    lemma_search_floor(start(more), 0);
    crate::search::lemma_pairs_bound(more, 34);
    lemma_total_prefix(more, 34);
    assert(more.take(34) =~= more);
}

} // verus!
