use crate::blocks::{
    after_runs, after_triplets, can_take_run, can_take_triplet, candidates, distinct_patterns,
    first_pair, has_digest, lemma_views2_push, lemma_views_push, orphan_list, pair_block, pair_list,
    pair_position, patterns, raw_patterns, run_block, runs_first, runs_from, spare_honor, splits,
    triplet_block, triplets_first, triplets_from, views2, with_placeholder,
};
use crate::constants::{digest, digest_of, slice_by_suit, tally, views};
use crate::hand::{ints, is_histogram, lemma_ints_update, less, less_run, total, within};
use crate::melds::{cleared, lemma_leftmost_four, lemma_leftmost_low, lemma_leftmost_three, reduces};
use crate::shapes::{
    group_complete, is_complete_any, is_complete_seven_pairs, is_complete_standard,
    is_complete_thirteen_orphans, lemma_reduces_zeros, lemma_standard_by_groups, suited,
};
use crate::sound::{
    is_decomposition_of, lemma_patterns_distinct, lemma_patterns_exist, lemma_patterns_sound,
};
use vstd::prelude::*;

verus! {

/// Whether the hand is seven pairs.
pub fn check7(haipai: &Vec<i8>) -> (r: bool)
    requires
        haipai.len() <= 0x100_0000,
    ensures
        r == is_complete_seven_pairs(ints(haipai@)),
{
    let mut i: usize = 0;
    while i < haipai.len()
        invariant
            0 <= i <= haipai.len(),
            forall|k: int| 0 <= k < i && #[trigger] ints(haipai@)[k] > 0 ==> ints(haipai@)[k] == 2,
        decreases haipai.len() - i,
    {
        if haipai[i] > 0 && haipai[i] != 2 {
            assert(ints(haipai@)[i as int] > 0);
            return false;
        }
        i += 1;
    }
    tally(haipai) == 14
}

/// Whether the hand is thirteen orphans.
pub fn check13(haipai: &Vec<i8>) -> (r: bool)
    requires
        haipai.len() >= 34,
    ensures
        r == is_complete_thirteen_orphans(ints(haipai@)),
{
    let present = haipai[0] != 0 && haipai[8] != 0 && haipai[9] != 0 && haipai[17] != 0
        && haipai[18] != 0 && haipai[26] != 0 && haipai[27] != 0 && haipai[28] != 0 && haipai[29]
        != 0 && haipai[30] != 0 && haipai[31] != 0 && haipai[32] != 0 && haipai[33] != 0;
    let s: i32 = haipai[0] as i32 + haipai[8] as i32 + haipai[9] as i32 + haipai[17] as i32
        + haipai[18] as i32 + haipai[26] as i32 + haipai[27] as i32 + haipai[28] as i32
        + haipai[29] as i32 + haipai[30] as i32 + haipai[31] as i32 + haipai[32] as i32
        + haipai[33] as i32;
    present && s == 14
}

/// Whether a suit group that holds no pair is made of melds: scans it from the left,
/// takes three equal tiles as a triplet and lets every other tile start a run.
fn check_melds(haipai: &Vec<i8>, is_jihai: bool) -> (r: bool)
    requires
        within(ints(haipai@), 0, 4),
        is_jihai || haipai.len() >= 9,
    ensures
        r == reduces(ints(haipai@), 0, if is_jihai { 0 } else { 9 }),
{
    let ghost suited: int = if is_jihai { 0 } else { 9 };
    let mut tmp = haipai.clone();
    assert(tmp@ =~= haipai@);
    let mut i: usize = 0;
    while i < tmp.len()
        invariant
            0 <= i <= tmp.len(),
            tmp.len() == haipai.len(),
            is_jihai || haipai.len() >= 9,
            suited == (if is_jihai { 0int } else { 9 }),
            within(ints(tmp@), 0, 4),
            reduces(ints(haipai@), 0, suited) == reduces(ints(tmp@), i as int, suited),
        decreases tmp.len() - i,
    {
        let ghost g = ints(tmp@);
        let c: i8 = tmp[i];
        assert(0 <= g[i as int] <= 4);
        if c == 0 {
            i += 1;
            continue;
        }
        if c == 3 {
            proof {
                lemma_leftmost_three(g, i as int, suited);
                lemma_ints_update(tmp@, i as int, 0);
            }
            tmp[i] = 0;
            assert(within(ints(tmp@), 0, 4)) by {
                assert forall|k: int| 0 <= k < tmp.len() implies 0 <= #[trigger] ints(tmp@)[k]
                    <= 4 by {
                    assert(0 <= g[k] <= 4);
                }
            }
        } else {
            proof {
                if c == 4 {
                    lemma_leftmost_four(g, i as int, suited);
                } else {
                    lemma_leftmost_low(g, i as int, suited);
                }
            }
            if is_jihai || i >= 7 {
                return false;
            }
            let n: i8 = if c == 4 { 1 } else { c };
            assert(0 <= g[i + 1] <= 4 && 0 <= g[i + 2] <= 4);
            if tmp[i + 1] < n || tmp[i + 2] < n {
                return false;
            }
            let ghost a = tmp@;
            tmp[i] = 0;
            let ghost b = tmp@;
            tmp[i + 1] = tmp[i + 1] - n;
            let ghost d = tmp@;
            tmp[i + 2] = tmp[i + 2] - n;
            proof {
                lemma_ints_update(a, i as int, 0);
                lemma_ints_update(b, i + 1, (b[i + 1] - n) as i8);
                lemma_ints_update(d, i + 2, (d[i + 2] - n) as i8);
                assert(ints(tmp@) =~= cleared(g, i as int, n as int));
                assert(within(ints(tmp@), 0, 4)) by {
                    assert forall|k: int| 0 <= k < tmp.len() implies 0 <= #[trigger] ints(
                        tmp@,
                    )[k] <= 4 by {
                        assert(0 <= g[k] <= 4);
                    }
                }
            }
        }
        i += 1;
    }
    true
}

/// Whether one suit group is complete by itself. A group whose size leaves a remainder of
/// two holds the pair: every kind with two copies is tried as the pair.
fn check_internal(haipai: &Vec<i8>, is_jihai: bool) -> (r: bool)
    requires
        within(ints(haipai@), 0, 4),
        haipai.len() <= 34,
        is_jihai || haipai.len() >= 9,
    ensures
        r == group_complete(ints(haipai@), if is_jihai { 0 } else { 9 }),
{
    let ghost suited: int = if is_jihai { 0 } else { 9 };
    let ghost g = ints(haipai@);
    let s: i32 = tally(haipai);
    proof {
        crate::hand::lemma_total_nonneg(g);
    }
    if s == 0 {
        proof {
            crate::hand::lemma_total_zero(g);
            lemma_reduces_zeros(g, 0, suited);
        }
        return true;
    }
    if s % 3 == 2 {
        let mut tmp = haipai.clone();
        assert(tmp@ =~= haipai@);
        let mut i: usize = 0;
        while i < tmp.len()
            invariant
                0 <= i <= tmp.len(),
                tmp@ == haipai@,
                g == ints(haipai@),
                total(g) % 3 == 2,
                within(g, 0, 4),
                is_jihai || haipai.len() >= 9,
                suited == (if is_jihai { 0int } else { 9 }),
                forall|p: int|
                    0 <= p < i ==> !(#[trigger] g[p] >= 2 && reduces(less(g, p, 2), 0, suited)),
            decreases tmp.len() - i,
        {
            assert(0 <= g[i as int] <= 4);
            if tmp[i] >= 2 {
                tmp[i] = tmp[i] - 2;
                proof {
                    lemma_ints_update(haipai@, i as int, (haipai[i as int] - 2) as i8);
                    assert(ints(tmp@) =~= less(g, i as int, 2));
                    assert(within(ints(tmp@), 0, 4)) by {
                        assert forall|k: int| 0 <= k < tmp.len() implies 0 <= #[trigger] ints(
                            tmp@,
                        )[k] <= 4 by {
                            assert(0 <= g[k] <= 4);
                        }
                    }
                }
                if check_melds(&tmp, is_jihai) {
                    assert(g[i as int] >= 2 && reduces(less(g, i as int, 2), 0, suited));
                    return true;
                }
                tmp[i] = tmp[i] + 2;
                assert(tmp@ =~= haipai@);
            }
            i += 1;
        }
        return false;
    }
    check_melds(haipai, is_jihai)
}

/// Whether the hand has the standard shape: a pair, and triplets and runs besides.
pub fn check(haipai: &Vec<i8>) -> (r: bool)
    requires
        is_histogram(haipai@),
    ensures
        r == is_complete_standard(ints(haipai@)),
{
    let ghost h = ints(haipai@);
    let slices = slice_by_suit(haipai);
    proof {
        lemma_standard_by_groups(h);
        assert forall|s: int| 0 <= s < 4 implies ints(#[trigger] slices[s]@) == crate::hand::group(
            h,
            s,
        )
            && within(ints(slices[s]@), 0, 4) by {
            assert(ints(slices[s]@) =~= crate::hand::group(h, s));
            assert forall|k: int| 0 <= k < slices[s]@.len() implies 0 <= #[trigger] ints(
                slices[s]@,
            )[k] <= 4 by {
                assert(0 <= haipai@[9 * s + k] <= 4);
            }
        }
    }
    let mut j: i32 = 0;
    let mut i: usize = 0;
    while i < 4
        invariant
            0 <= i <= 4,
            slices.len() == 4,
            h == ints(haipai@),
            h.len() == 34,
            is_complete_standard(h) == crate::shapes::standard_by_groups(h),
            forall|s: int| 0 <= s < 4 ==> ints(#[trigger] slices[s]@) == crate::hand::group(h, s),
            forall|s: int| 0 <= s < 4 ==> within(ints(#[trigger] slices[s]@), 0, 4),
            forall|s: int| 0 <= s < i ==> total(#[trigger] crate::hand::group(h, s)) % 3 != 1,
            j == (if i > 0 && total(crate::hand::group(h, 0)) % 3 == 2 { 1int } else { 0 })
                + (if i > 1 && total(crate::hand::group(h, 1)) % 3 == 2 { 1int } else { 0 })
                + (if i > 2 && total(crate::hand::group(h, 2)) % 3 == 2 { 1int } else { 0 })
                + (if i > 3 && total(crate::hand::group(h, 3)) % 3 == 2 { 1int } else { 0 }),
        decreases 4 - i,
    {
        let slice_sum: i32 = tally(&slices[i]);
        proof {
            assert(slice_sum == total(crate::hand::group(h, i as int)));
            assert(within(ints(slices[i as int]@), 0, 4));
            crate::hand::lemma_total_nonneg(ints(slices[i as int]@));
        }
        if slice_sum % 3 == 1 {
            assert(total(crate::hand::group(h, i as int)) % 3 == 1);
            assert(!crate::shapes::standard_by_groups(h));
            return false;
        }
        if slice_sum % 3 == 2 {
            j += 1;
        }
        i += 1;
    }
    assert(ints(slices[0]@) == crate::hand::group(h, 0));
    assert(ints(slices[1]@) == crate::hand::group(h, 1));
    assert(ints(slices[2]@) == crate::hand::group(h, 2));
    assert(ints(slices[3]@) == crate::hand::group(h, 3));
    j == 1 && check_internal(&slices[0], false) && check_internal(&slices[1], false)
        && check_internal(&slices[2], false) && check_internal(&slices[3], true)
}

/// Whether the hand is complete in any of the three shapes.
pub fn check_all(haipai: &Vec<i8>) -> (r: bool)
    requires
        is_histogram(haipai@),
    ensures
        r == is_complete_any(ints(haipai@)),
{
    check7(haipai) || check13(haipai) || check(haipai)
}

/// Three tiles of the kind at position `i`.
fn triplet_at(i: usize) -> (r: Vec<i8>)
    requires
        i < 34,
    ensures
        r@ == triplet_block(i as int),
{
    let t: i8 = i as i8 + 1;
    let mut r: Vec<i8> = Vec::new();
    r.push(t);
    r.push(t);
    r.push(t);
    assert(r@ =~= triplet_block(i as int));
    r
}

/// The run that starts at position `i`.
fn run_at(i: usize) -> (r: Vec<i8>)
    requires
        i < 32,
    ensures
        r@ == run_block(i as int),
{
    let t: i8 = i as i8 + 1;
    let mut r: Vec<i8> = Vec::new();
    r.push(t);
    r.push(t + 1);
    r.push(t + 2);
    assert(r@ =~= run_block(i as int));
    r
}

/// Two tiles of the kind at position `i`.
fn pair_at(i: i8) -> (r: Vec<i8>)
    requires
        i < 127,
    ensures
        r@ == pair_block(i as int),
{
    let mut r: Vec<i8> = Vec::new();
    r.push(i + 1);
    r.push(i + 1);
    assert(r@ =~= pair_block(i as int));
    r
}

/// A copy of a list of blocks.
pub(crate) fn copy_blocks(src: &Vec<Vec<i8>>) -> (r: Vec<Vec<i8>>)
    ensures
        views(r@) == views(src@),
{
    let mut r: Vec<Vec<i8>> = Vec::new();
    let mut i: usize = 0;
    while i < src.len()
        invariant
            0 <= i <= src.len(),
            views(r@) == views(src@).take(i as int),
        decreases src.len() - i,
    {
        let b = src[i].clone();
        assert(b@ =~= src[i as int]@);
        proof {
            lemma_views_push(r@, b);
        }
        r.push(b);
        i += 1;
        assert(views(r@) =~= views(src@).take(i as int));
    }
    assert(views(src@).take(src.len() as int) =~= views(src@));
    r
}

/// Puts copies of the blocks of `src` behind those of `dst`.
pub(crate) fn append_blocks(dst: &mut Vec<Vec<i8>>, src: &Vec<Vec<i8>>)
    ensures
        views(final(dst)@) == views(old(dst)@) + views(src@),
{
    let ghost start = views(dst@);
    let mut i: usize = 0;
    assert(views(dst@) =~= start + views(src@).take(0));
    while i < src.len()
        invariant
            0 <= i <= src.len(),
            views(dst@) == start + views(src@).take(i as int),
        decreases src.len() - i,
    {
        let b = src[i].clone();
        assert(b@ =~= src[i as int]@);
        proof {
            lemma_views_push(dst@, b);
        }
        dst.push(b);
        i += 1;
        assert(views(dst@) =~= start + views(src@).take(i as int));
    }
    assert(views(src@).take(src.len() as int) =~= views(src@));
}

/// Puts copies of the decompositions of `src` behind those of `dst`.
fn append_patterns(dst: &mut Vec<Vec<Vec<i8>>>, src: &Vec<Vec<Vec<i8>>>)
    ensures
        views2(final(dst)@) == views2(old(dst)@) + views2(src@),
{
    let ghost start = views2(dst@);
    let mut i: usize = 0;
    assert(views2(dst@) =~= start + views2(src@).take(0));
    while i < src.len()
        invariant
            0 <= i <= src.len(),
            views2(dst@) == start + views2(src@).take(i as int),
        decreases src.len() - i,
    {
        let b = copy_blocks(&src[i]);
        proof {
            lemma_views2_push(dst@, b);
        }
        dst.push(b);
        i += 1;
        assert(views2(dst@) =~= start + views2(src@).take(i as int));
    }
    assert(views2(src@).take(src.len() as int) =~= views2(src@));
}

/// Pulls triplets out of the hand, going over the kinds once: a triplet is pulled where
/// three copies are there and what is left still has the standard shape. The hand is
/// left without the pulled tiles.
pub fn find_kotsu(haipai: &mut Vec<i8>) -> (res: Vec<Vec<i8>>)
    requires
        is_histogram(old(haipai)@),
    ensures
        views(res@) == triplets_from(ints(old(haipai)@), 0),
        ints(final(haipai)@) == after_triplets(ints(old(haipai)@), 0),
        is_histogram(final(haipai)@),
{
    let mut res: Vec<Vec<i8>> = Vec::new();
    let ghost h0 = ints(haipai@);
    let mut i: usize = 0;
    assert(views(res@) + triplets_from(h0, 0) =~= triplets_from(h0, 0));
    while i < haipai.len()
        invariant
            0 <= i <= 34,
            is_histogram(haipai@),
            triplets_from(h0, 0) == views(res@) + triplets_from(ints(haipai@), i as int),
            after_triplets(h0, 0) == after_triplets(ints(haipai@), i as int),
        decreases 34 - i,
    {
        let ghost before = haipai@;
        let ghost h = ints(before);
        let ghost found = views(res@);
        assert(0 <= before[i as int] <= 4);
        if haipai[i] >= 3 {
            haipai[i] = haipai[i] - 3;
            proof {
                lemma_ints_update(before, i as int, (before[i as int] - 3) as i8);
                assert(ints(haipai@) == less(h, i as int, 3));
                assert(is_histogram(haipai@)) by {
                    assert forall|k: int| 0 <= k < 34 implies 0 <= #[trigger] haipai@[k] <= 4 by {
                        assert(0 <= before[k] <= 4);
                    }
                }
            }
            if check(haipai) {
                res.push(triplet_at(i));
                proof {
                    assert(can_take_triplet(h, i as int));
                    assert(views(res@) =~= found.push(triplet_block(i as int)));
                    assert(found + (seq![triplet_block(i as int)] + triplets_from(
                        less(h, i as int, 3),
                        i + 1,
                    )) =~= found.push(triplet_block(i as int)) + triplets_from(
                        less(h, i as int, 3),
                        i + 1,
                    ));
                }
            } else {
                haipai[i] = haipai[i] + 3;
                assert(haipai@ =~= before);
            }
        }
        i += 1;
    }
    assert(views(res@) + triplets_from(ints(haipai@), 34) =~= views(res@));
    res
}

/// Pulls runs out of the hand, going over the numeral kinds once: at each kind up to the
/// 7 of its suit runs are pulled as long as the three kinds are there and what is left
/// still has the standard shape. The hand is left without the pulled tiles.
pub fn find_shuntsu(haipai: &mut Vec<i8>) -> (res: Vec<Vec<i8>>)
    requires
        is_histogram(old(haipai)@),
    ensures
        views(res@) == runs_from(ints(old(haipai)@), 0),
        ints(final(haipai)@) == after_runs(ints(old(haipai)@), 0),
        is_histogram(final(haipai)@),
{
    let mut res: Vec<Vec<i8>> = Vec::new();
    let ghost h0 = ints(haipai@);
    let mut i: usize = 0;
    assert(views(res@) + runs_from(h0, 0) =~= runs_from(h0, 0));
    while i < haipai.len() - 7
        invariant
            0 <= i <= 27,
            is_histogram(haipai@),
            runs_from(h0, 0) == views(res@) + runs_from(ints(haipai@), i as int),
            after_runs(h0, 0) == after_runs(ints(haipai@), i as int),
        decreases 27 - i,
    {
        if i % 9 >= 7 {
            i += 1;
            continue;
        }
        loop
            invariant
                0 <= i < 27,
                i % 9 <= 6,
                is_histogram(haipai@),
                runs_from(h0, 0) == views(res@) + runs_from(ints(haipai@), i as int),
                after_runs(h0, 0) == after_runs(ints(haipai@), i as int),
            ensures
                0 <= i < 27,
                is_histogram(haipai@),
                runs_from(h0, 0) == views(res@) + runs_from(ints(haipai@), i + 1),
                after_runs(h0, 0) == after_runs(ints(haipai@), i + 1),
            decreases haipai@[i as int],
        {
            let ghost before = haipai@;
            let ghost h = ints(before);
            let ghost found = views(res@);
            assert(0 <= before[i as int] <= 4 && 0 <= before[i + 1] <= 4 && 0 <= before[i + 2]
                <= 4);
            if !(haipai[i] >= 1 && haipai[i + 1] >= 1 && haipai[i + 2] >= 1) {
                break;
            }
            haipai[i] = haipai[i] - 1;
            let ghost a = haipai@;
            haipai[i + 1] = haipai[i + 1] - 1;
            let ghost b = haipai@;
            haipai[i + 2] = haipai[i + 2] - 1;
            proof {
                lemma_ints_update(before, i as int, (before[i as int] - 1) as i8);
                lemma_ints_update(a, i + 1, (a[i + 1] - 1) as i8);
                lemma_ints_update(b, i + 2, (b[i + 2] - 1) as i8);
                assert(ints(haipai@) =~= less_run(h, i as int));
                assert(is_histogram(haipai@)) by {
                    assert forall|k: int| 0 <= k < 34 implies 0 <= #[trigger] haipai@[k] <= 4 by {
                        assert(0 <= before[k] <= 4);
                    }
                }
            }
            if check(haipai) {
                res.push(run_at(i));
                proof {
                    assert(can_take_run(h, i as int));
                    assert(views(res@) =~= found.push(run_block(i as int)));
                    assert(found + (seq![run_block(i as int)] + runs_from(
                        less_run(h, i as int),
                        i as int,
                    )) =~= found.push(run_block(i as int)) + runs_from(
                        less_run(h, i as int),
                        i as int,
                    ));
                }
            } else {
                haipai[i] = haipai[i] + 1;
                haipai[i + 1] = haipai[i + 1] + 1;
                haipai[i + 2] = haipai[i + 2] + 1;
                assert(haipai@ =~= before);
                break;
            }
        }
        i += 1;
    }
    assert(views(res@) + runs_from(ints(haipai@), 27) =~= views(res@));
    res
}

/// The first position, other than `exclude`, at which the hand holds two copies or more;
/// -1 if there is none.
pub fn find_janto(haipai: &Vec<i8>, exclude: i8) -> (r: i8)
    requires
        haipai.len() <= 127,
    ensures
        r == first_pair(ints(haipai@), exclude as int, 0),
{
    let mut i: usize = 0;
    while i < haipai.len()
        invariant
            0 <= i <= haipai.len() <= 127,
            first_pair(ints(haipai@), exclude as int, 0) == first_pair(
                ints(haipai@),
                exclude as int,
                i as int,
            ),
        decreases haipai.len() - i,
    {
        if haipai[i] >= 2 && i as i8 != exclude {
            return i as i8;
        }
        i += 1;
    }
    -1
}

/// The pair of a split, as a block.
fn split_pair(rest: &Vec<i8>, exclude: i8, real_pair: i8) -> (r: Vec<i8>)
    requires
        rest.len() == 34,
        real_pair < 127,
    ensures
        r@ == pair_block(pair_position(ints(rest@), exclude as int, real_pair as int)),
{
    let janto: i8 = if real_pair != -1 {
        real_pair
    } else {
        find_janto(rest, exclude)
    };
    proof {
        lemma_first_pair_range(ints(rest@), exclude as int, 0);
    }
    pair_at(janto)
}

/// Where a pair is found, it is at a position of the hand.
pub proof fn lemma_first_pair_range(h: Seq<int>, exclude: int, i: int)
    requires
        0 <= i,
    ensures
        first_pair(h, exclude, i) == -1 || (i <= first_pair(h, exclude, i) < h.len() && h[first_pair(
            h,
            exclude,
            i,
        )] >= 2 && first_pair(h, exclude, i) != exclude),
    decreases h.len() - i,
{
    if i < h.len() && !(h[i] >= 2 && i != exclude) {
        lemma_first_pair_range(h, exclude, i + 1);
    }
}

/// Splits a hand, whose pair was put aside, into blocks in the two usual orders:
/// triplets before runs, and runs before triplets. Each split ends with the pair:
/// `real_pair` if that is not -1, else the first pair left that is not at `exclude`.
pub fn calc(haipai: &Vec<i8>, exclude: i8, real_pair: i8) -> (res: Vec<Vec<Vec<i8>>>)
    requires
        is_histogram(haipai@),
        real_pair < 127,
    ensures
        views2(res@) == splits(ints(haipai@), exclude as int, real_pair as int),
{
    let mut res: Vec<Vec<Vec<i8>>> = Vec::new();
    let ghost h = ints(haipai@);
    let ghost ex = exclude as int;
    let ghost rp = real_pair as int;

    let mut clone = haipai.clone();
    assert(clone@ =~= haipai@);
    let mut kotsu = find_kotsu(&mut clone);
    if tally(&clone) == 2 {
        let ghost k = views(kotsu@);
        kotsu.push(split_pair(&clone, exclude, real_pair));
        assert(views(kotsu@) =~= k.push(pair_block(pair_position(ints(clone@), ex, rp))));
        res.push(kotsu);
    } else if kotsu.len() > 0 {
        let shuntsu = find_shuntsu(&mut clone);
        append_blocks(&mut kotsu, &shuntsu);
        let ghost k = views(kotsu@);
        kotsu.push(split_pair(&clone, exclude, real_pair));
        assert(views(kotsu@) =~= k.push(pair_block(pair_position(ints(clone@), ex, rp))));
        res.push(kotsu);
    }
    assert(views2(res@) =~= triplets_first(h, ex, rp));

    clone = haipai.clone();
    assert(clone@ =~= haipai@);
    let mut shuntsu = find_shuntsu(&mut clone);
    if tally(&clone) == 2 {
        let ghost k = views(shuntsu@);
        shuntsu.push(split_pair(&clone, exclude, real_pair));
        assert(views(shuntsu@) =~= k.push(pair_block(pair_position(ints(clone@), ex, rp))));
        res.push(shuntsu);
    } else {
        let kotsu = find_kotsu(&mut clone);
        append_blocks(&mut shuntsu, &kotsu);
        let ghost k = views(shuntsu@);
        shuntsu.push(split_pair(&clone, exclude, real_pair));
        assert(views(shuntsu@) =~= k.push(pair_block(pair_position(ints(clone@), ex, rp))));
        res.push(shuntsu);
    }
    assert(views2(res@) =~= triplets_first(h, ex, rp) + runs_first(h, ex, rp));
    res
}

/// The tiles of a thirteen-orphans hand as one list.
fn list_orphans(haipai: &Vec<i8>) -> (vals: Vec<i8>)
    requires
        haipai.len() == 34,
    ensures
        vals@ == orphan_list(ints(haipai@), 0),
{
    let ghost h = ints(haipai@);
    let mut vals: Vec<i8> = Vec::new();
    let mut i: usize = 0;
    assert(vals@ + orphan_list(h, 0) =~= orphan_list(h, 0));
    while i < haipai.len()
        invariant
            0 <= i <= 34,
            haipai.len() == 34,
            h == ints(haipai@),
            orphan_list(h, 0) == vals@ + orphan_list(h, i as int),
        decreases 34 - i,
    {
        let ghost before = vals@;
        if haipai[i] > 0 {
            vals.push(i as i8 + 1);
            if haipai[i] > 1 {
                vals.push(i as i8 + 1);
                assert(before + (seq![(i + 1) as i8, (i + 1) as i8] + orphan_list(h, i + 1))
                    =~= vals@ + orphan_list(h, i + 1));
            } else {
                assert(before + (seq![(i + 1) as i8] + orphan_list(h, i + 1)) =~= vals@
                    + orphan_list(h, i + 1));
            }
        }
        i += 1;
    }
    assert(vals@ + orphan_list(h, 34) =~= vals@);
    vals
}

/// The pairs of a seven-pairs hand.
fn list_pairs(haipai: &Vec<i8>) -> (vals: Vec<Vec<i8>>)
    requires
        haipai.len() == 34,
    ensures
        views(vals@) == pair_list(ints(haipai@), 0),
{
    let ghost h = ints(haipai@);
    let mut vals: Vec<Vec<i8>> = Vec::new();
    let mut i: usize = 0;
    assert(views(vals@) + pair_list(h, 0) =~= pair_list(h, 0));
    while i < haipai.len()
        invariant
            0 <= i <= 34,
            haipai.len() == 34,
            h == ints(haipai@),
            pair_list(h, 0) == views(vals@) + pair_list(h, i as int),
        decreases 34 - i,
    {
        let ghost before = views(vals@);
        if haipai[i] == 2 {
            let b = pair_at(i as i8);
            proof {
                lemma_views_push(vals@, b);
            }
            vals.push(b);
            assert(before + (seq![pair_block(i as int)] + pair_list(h, i + 1)) =~= views(vals@)
                + pair_list(h, i + 1));
        }
        i += 1;
    }
    assert(views(vals@) + pair_list(h, 34) =~= views(vals@));
    vals
}

/// The first honor position of which the hand holds no tile, or -1.
fn find_spare_honor(haipai: &Vec<i8>) -> (r: i8)
    requires
        haipai.len() == 34,
    ensures
        r == spare_honor(ints(haipai@), 27),
        r == -1 || (27 <= r < 34 && haipai[r as int] == 0),
{
    let mut i: usize = 27;
    while i < 34
        invariant
            27 <= i <= 34,
            haipai.len() == 34,
            spare_honor(ints(haipai@), 27) == spare_honor(ints(haipai@), i as int),
        decreases 34 - i,
    {
        if haipai[i] == 0 {
            return i as i8;
        }
        i += 1;
    }
    -1
}

/// Whether one of `kept` has the signature `sig`.
fn known_digest(kept: &Vec<Vec<Vec<i8>>>, sig: &String, Ghost(d): Ghost<Seq<Seq<i8>>>) -> (r: bool)
    requires
        sig@ == digest_of(d),
    ensures
        r == has_digest(views2(kept@), d),
{
    let mut is_duplicate = false;
    let mut ii: usize = 0;
    while ii < kept.len()
        invariant
            0 <= ii <= kept.len(),
            sig@ == digest_of(d),
            is_duplicate == exists|j: int|
                0 <= j < ii && digest_of(#[trigger] views2(kept@)[j]) == digest_of(d),
        decreases kept.len() - ii,
    {
        let other = digest(&kept[ii]);
        assert(views2(kept@)[ii as int] == views(kept[ii as int]@));
        if *sig == other {
            is_duplicate = true;
        }
        ii += 1;
    }
    is_duplicate
}

/// What holds of the decompositions of a hand: no two have the same signature, and for
/// a hand of at most fourteen tiles each of them uses exactly the tiles of the hand, and
/// there is one exactly if the hand is complete.
pub proof fn lemma_about_patterns(haipai: Seq<i8>)
    requires
        is_histogram(haipai),
    ensures
        forall|i: int, j: int|
            0 <= i < j < patterns(ints(haipai)).len() ==> digest_of(
                #[trigger] patterns(ints(haipai))[i],
            ) != digest_of(#[trigger] patterns(ints(haipai))[j]),
        total(ints(haipai)) <= 14 ==> forall|n: int|
            0 <= n < patterns(ints(haipai)).len() ==> is_decomposition_of(
                ints(haipai),
                #[trigger] patterns(ints(haipai))[n],
            ),
        total(ints(haipai)) <= 14 ==> (patterns(ints(haipai)).len() >= 1 <==> is_complete_any(
            ints(haipai),
        )),
{
    let h = ints(haipai);
    assert forall|i: int, j: int| 0 <= i < j < patterns(h).len() implies digest_of(
        #[trigger] patterns(h)[i],
    ) != digest_of(#[trigger] patterns(h)[j]) by {
        lemma_patterns_distinct(h, i, j);
    }
    if total(h) <= 14 {
        assert(within(h, 0, 4)) by {
            assert forall|k: int| 0 <= k < 34 implies 0 <= #[trigger] h[k] <= 4 by {
                assert(0 <= haipai[k] <= 4);
            }
        }
        assert forall|n: int| 0 <= n < patterns(h).len() implies is_decomposition_of(
            h,
            #[trigger] patterns(h)[n],
        ) by {
            lemma_patterns_sound(h, n);
        }
        lemma_patterns_exist(h);
    }
}

/// All the ways in which a complete hand splits into blocks.
///
/// A hand that is not complete has none. A hand of two tiles is its pair. A hand of
/// thirteen orphans is one list of its tiles, a hand of seven pairs its pairs. For the
/// standard shape each pair of the hand is put aside in turn and what is left is split
/// in the two usual orders. Of decompositions with the same signature only the first
/// is kept.
pub fn find_all_agari_patterns(haipai: &Vec<i8>) -> (r: Vec<Vec<Vec<i8>>>)
    requires
        is_histogram(haipai@),
    ensures
        views2(r@) == patterns(ints(haipai@)),
        !is_complete_any(ints(haipai@)) ==> r.len() == 0,
        forall|i: int, j: int|
            0 <= i < j < r.len() ==> digest_of(#[trigger] views2(r@)[i]) != digest_of(
                #[trigger] views2(r@)[j],
            ),
        total(ints(haipai@)) <= 14 ==> forall|n: int|
            0 <= n < r.len() ==> is_decomposition_of(ints(haipai@), #[trigger] views2(r@)[n]),
        total(ints(haipai@)) <= 14 ==> (r.len() >= 1 <==> is_complete_any(ints(haipai@))),
{
    let ghost h = ints(haipai@);
    let mut res: Vec<Vec<Vec<i8>>> = Vec::new();
    let mut clone = haipai.clone();
    assert(clone@ =~= haipai@);

    let can_be_kokushi = check13(&clone);
    let can_be_chiitoitsu = check7(&clone);
    let can_be_basic_form = check(&clone);

    if !can_be_kokushi && !can_be_chiitoitsu && !can_be_basic_form {
        assert(views2(res@) =~= patterns(h));
        proof {
            lemma_about_patterns(haipai@);
        }
        return res;
    }
    if tally(&clone) == 2 {
        let found = find_janto(&clone, -1);
        if found != -1 {
            proof {
                lemma_first_pair_range(h, -1, 0);
            }
            let mut only: Vec<Vec<i8>> = Vec::new();
            let b = pair_at(found);
            only.push(b);
            assert(views(only@) =~= seq![pair_block(found as int)]);
            res.push(only);
        }
        assert(views2(res@) =~= patterns(h));
        proof {
            lemma_about_patterns(haipai@);
        }
        return res;
    }
    if can_be_kokushi {
        let vals = list_orphans(&clone);
        let mut only: Vec<Vec<i8>> = Vec::new();
        only.push(vals);
        assert(views(only@) =~= seq![orphan_list(h, 0)]);
        res.push(only);
    }
    let ghost head: Seq<Seq<Seq<i8>>> = if is_complete_thirteen_orphans(h) {
        seq![seq![orphan_list(h, 0)]]
    } else {
        seq![]
    };
    assert(views2(res@) =~= head);

    let fake_pair_index = find_spare_honor(&clone);
    if fake_pair_index != -1 {
        proof {
            lemma_ints_update(haipai@, fake_pair_index as int, 2);
        }
        clone[fake_pair_index as usize] = 2;
    }
    let ghost c = with_placeholder(h);
    let ghost f = fake_pair_index as int;
    assert(ints(clone@) =~= c);
    let ghost held = clone@;
    assert(is_histogram(held)) by {
        assert forall|k: int| 0 <= k < 34 implies 0 <= #[trigger] held[k] <= 4 by {
            assert(0 <= haipai@[k] <= 4);
        }
    }

    let mut i: usize = 0;
    assert(views2(res@) + candidates(c, f, 0) =~= head + candidates(c, f, 0));
    while i < clone.len()
        invariant
            0 <= i <= 34,
            clone@ == held,
            is_histogram(held),
            ints(held) == c,
            f == fake_pair_index as int,
            head + candidates(c, f, 0) == views2(res@) + candidates(c, f, i as int),
        decreases 34 - i,
    {
        let ghost found = views2(res@);
        if i as i8 != fake_pair_index && clone[i] >= 2 {
            assert(0 <= held[i as int] <= 4);
            clone[i] = clone[i] - 2;
            proof {
                lemma_ints_update(held, i as int, (held[i as int] - 2) as i8);
                assert(ints(clone@) == less(c, i as int, 2));
                assert(is_histogram(clone@)) by {
                    assert forall|k: int| 0 <= k < 34 implies 0 <= #[trigger] clone@[k] <= 4 by {
                        assert(0 <= held[k] <= 4);
                    }
                }
            }
            if check(&clone) {
                let calc_res = calc(&clone, fake_pair_index, i as i8);
                append_patterns(&mut res, &calc_res);
                assert(found + (splits(less(c, i as int, 2), f, i as int) + candidates(c, f, i + 1))
                    =~= views2(res@) + candidates(c, f, i + 1));
            }
            clone[i] = clone[i] + 2;
            assert(clone@ =~= held);
        }
        i += 1;
    }
    assert(views2(res@) + candidates(c, f, 34) =~= views2(res@));

    if can_be_chiitoitsu {
        let vals = list_pairs(haipai);
        proof {
            lemma_views2_push(res@, vals);
        }
        res.push(vals);
    }
    let ghost raw = raw_patterns(h);
    assert(views2(res@) =~= raw);

    let mut final_res: Vec<Vec<Vec<i8>>> = Vec::new();
    let mut n: usize = 0;
    assert(views2(final_res@) =~= distinct_patterns(raw, 0));
    while n < res.len()
        invariant
            0 <= n <= res.len(),
            views2(res@) == raw,
            views2(final_res@) == distinct_patterns(raw, n as int),
        decreases res.len() - n,
    {
        let v_digest = digest(&res[n]);
        assert(raw[n as int] == views(res[n as int]@));
        let is_duplicate = known_digest(&final_res, &v_digest, Ghost(raw[n as int]));
        if !is_duplicate {
            let kept = copy_blocks(&res[n]);
            proof {
                lemma_views2_push(final_res@, kept);
            }
            final_res.push(kept);
        }
        n += 1;
    }
    proof {
        lemma_about_patterns(haipai@);
        let got = views2(final_res@);
        assert(got == patterns(h));
        assert forall|i: int, j: int| 0 <= i < j < final_res.len() implies digest_of(
            #[trigger] got[i],
        ) != digest_of(#[trigger] got[j]) by {
            assert(got[i] == patterns(h)[i] && got[j] == patterns(h)[j]);
        }
    }
    final_res
}

} // verus!
