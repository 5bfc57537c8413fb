use crate::constants::digest_of;
use crate::hand::{less, less_run, total};
use crate::shapes::{
    is_complete_any, is_complete_seven_pairs, is_complete_standard, is_complete_thirteen_orphans,
};
use vstd::prelude::*;

verus! {

/// The views of the decompositions in `d`, each a list of blocks.
pub open spec fn views2(d: Seq<Vec<Vec<i8>>>) -> Seq<Seq<Seq<i8>>> {
    Seq::new(d.len(), |i: int| crate::constants::views(d[i]@))
}

/// Putting a block behind a list of blocks.
pub proof fn lemma_views_push<T>(d: Seq<Vec<T>>, b: Vec<T>)
    ensures
        crate::constants::views(d.push(b)) == crate::constants::views(d).push(b@),
{
    assert(crate::constants::views(d.push(b)) =~= crate::constants::views(d).push(b@));
}

/// Putting a decomposition behind a list of decompositions.
pub proof fn lemma_views2_push(d: Seq<Vec<Vec<i8>>>, b: Vec<Vec<i8>>)
    ensures
        views2(d.push(b)) == views2(d).push(crate::constants::views(b@)),
{
    assert(views2(d.push(b)) =~= views2(d).push(crate::constants::views(b@)));
}

/// Three tiles of the kind at position `k`. Blocks name a kind by its position plus one.
pub open spec fn triplet_block(k: int) -> Seq<i8> {
    seq![(k + 1) as i8, (k + 1) as i8, (k + 1) as i8]
}

/// The run of three kinds that starts at position `k`.
pub open spec fn run_block(k: int) -> Seq<i8> {
    seq![(k + 1) as i8, (k + 2) as i8, (k + 3) as i8]
}

/// Two tiles of the kind at position `k`.
pub open spec fn pair_block(k: int) -> Seq<i8> {
    seq![(k + 1) as i8, (k + 1) as i8]
}

/// Whether a triplet can be pulled at position `k`: three copies are there and what is
/// left still has the standard shape.
pub open spec fn can_take_triplet(h: Seq<int>, k: int) -> bool {
    h[k] >= 3 && is_complete_standard(less(h, k, 3))
}

/// Whether a run can be pulled at position `k`: the position is a numeral up to 7, the
/// three kinds are there and what is left still has the standard shape.
pub open spec fn can_take_run(h: Seq<int>, k: int) -> bool {
    0 <= k < 27 && k % 9 <= 6 && h[k] >= 1 && h[k + 1] >= 1 && h[k + 2] >= 1
        && is_complete_standard(less_run(h, k))
}

/// The triplets pulled by one pass over the positions from `i` on: at most one at each
/// position, each pull kept only if the rest can still be completed.
pub open spec fn triplets_from(h: Seq<int>, i: int) -> Seq<Seq<i8>>
    decreases 34 - i,
{
    if i < 0 || i >= 34 {
        seq![]
    } else if can_take_triplet(h, i) {
        seq![triplet_block(i)] + triplets_from(less(h, i, 3), i + 1)
    } else {
        triplets_from(h, i + 1)
    }
}

/// What that pass leaves of the hand.
pub open spec fn after_triplets(h: Seq<int>, i: int) -> Seq<int>
    decreases 34 - i,
{
    if i < 0 || i >= 34 {
        h
    } else if can_take_triplet(h, i) {
        after_triplets(less(h, i, 3), i + 1)
    } else {
        after_triplets(h, i + 1)
    }
}

/// The runs pulled by one pass over the numeral positions from `i` on: at each position
/// as many as can be pulled one after the other.
pub open spec fn runs_from(h: Seq<int>, i: int) -> Seq<Seq<i8>>
    decreases 27 - i, (if h.len() == 34 && 0 <= i < 27 && h[i] > 0 {
        h[i]
    } else {
        0
    }),
{
    if h.len() != 34 || i < 0 || i >= 27 {
        seq![]
    } else if can_take_run(h, i) {
        seq![run_block(i)] + runs_from(less_run(h, i), i)
    } else {
        runs_from(h, i + 1)
    }
}

/// What that pass leaves of the hand.
pub open spec fn after_runs(h: Seq<int>, i: int) -> Seq<int>
    decreases 27 - i, (if h.len() == 34 && 0 <= i < 27 && h[i] > 0 {
        h[i]
    } else {
        0
    }),
{
    if h.len() != 34 || i < 0 || i >= 27 {
        h
    } else if can_take_run(h, i) {
        after_runs(less_run(h, i), i)
    } else {
        after_runs(h, i + 1)
    }
}

/// The first position from `i` on, other than `exclude`, with two copies or more; -1 if
/// there is none.
pub open spec fn first_pair(h: Seq<int>, exclude: int, i: int) -> int
    decreases h.len() - i,
{
    if i < 0 || i >= h.len() {
        -1
    } else if h[i] >= 2 && i != exclude {
        i
    } else {
        first_pair(h, exclude, i + 1)
    }
}

/// The position of the pair of a split: the one that was put aside, or else the first
/// pair that is left.
pub open spec fn pair_position(rest: Seq<int>, exclude: int, real_pair: int) -> int {
    if real_pair != -1 {
        real_pair
    } else {
        first_pair(rest, exclude, 0)
    }
}

/// The split that pulls triplets first and runs after them. There is none where no
/// triplet can be pulled and more than a pair is left.
pub open spec fn triplets_first(h: Seq<int>, exclude: int, real_pair: int) -> Seq<Seq<Seq<i8>>> {
    let kotsu = triplets_from(h, 0);
    let rest = after_triplets(h, 0);
    if total(rest) == 2 {
        seq![kotsu.push(pair_block(pair_position(rest, exclude, real_pair)))]
    } else if kotsu.len() > 0 {
        seq![
            (kotsu + runs_from(rest, 0)).push(
                pair_block(pair_position(after_runs(rest, 0), exclude, real_pair)),
            ),
        ]
    } else {
        seq![]
    }
}

/// The split that pulls runs first and triplets after them.
pub open spec fn runs_first(h: Seq<int>, exclude: int, real_pair: int) -> Seq<Seq<Seq<i8>>> {
    let shuntsu = runs_from(h, 0);
    let rest = after_runs(h, 0);
    if total(rest) == 2 {
        seq![shuntsu.push(pair_block(pair_position(rest, exclude, real_pair)))]
    } else {
        seq![
            (shuntsu + triplets_from(rest, 0)).push(
                pair_block(pair_position(after_triplets(rest, 0), exclude, real_pair)),
            ),
        ]
    }
}

/// The splits of a hand whose pair was put aside: the two orders of pulling, one after
/// the other.
pub open spec fn splits(h: Seq<int>, exclude: int, real_pair: int) -> Seq<Seq<Seq<i8>>> {
    triplets_first(h, exclude, real_pair) + runs_first(h, exclude, real_pair)
}

/// The first honor position from `i` on of which the hand holds no tile; -1 if there is
/// none.
pub open spec fn spare_honor(h: Seq<int>, i: int) -> int
    decreases 34 - i,
{
    if i < 27 || i >= 34 {
        -1
    } else if h[i] == 0 {
        i
    } else {
        spare_honor(h, i + 1)
    }
}

/// The hand with a pair of its spare honor put in as a placeholder.
pub open spec fn with_placeholder(h: Seq<int>) -> Seq<int> {
    let f = spare_honor(h, 27);
    if f == -1 {
        h
    } else {
        less(h, f, -2)
    }
}

/// The splits found by putting aside, in turn, each pair from position `i` on of a hand
/// `c` that holds the placeholder at `f`.
pub open spec fn candidates(c: Seq<int>, f: int, i: int) -> Seq<Seq<Seq<i8>>>
    decreases 34 - i,
{
    if i < 0 || i >= 34 {
        seq![]
    } else if i != f && c[i] >= 2 && is_complete_standard(less(c, i, 2)) {
        splits(less(c, i, 2), f, i) + candidates(c, f, i + 1)
    } else {
        candidates(c, f, i + 1)
    }
}

/// The tiles of the hand from position `i` on, one for each kind that is there and two
/// for a kind that is there more than once.
pub open spec fn orphan_list(h: Seq<int>, i: int) -> Seq<i8>
    decreases 34 - i,
{
    if i < 0 || i >= 34 {
        seq![]
    } else if h[i] > 1 {
        seq![(i + 1) as i8, (i + 1) as i8] + orphan_list(h, i + 1)
    } else if h[i] > 0 {
        seq![(i + 1) as i8] + orphan_list(h, i + 1)
    } else {
        orphan_list(h, i + 1)
    }
}

/// A pair for each kind from position `i` on that is there exactly twice.
pub open spec fn pair_list(h: Seq<int>, i: int) -> Seq<Seq<i8>>
    decreases 34 - i,
{
    if i < 0 || i >= 34 {
        seq![]
    } else if h[i] == 2 {
        seq![pair_block(i)] + pair_list(h, i + 1)
    } else {
        pair_list(h, i + 1)
    }
}

/// Every decomposition that the search comes by, in the order in which it does.
pub open spec fn raw_patterns(h: Seq<int>) -> Seq<Seq<Seq<i8>>> {
    (if is_complete_thirteen_orphans(h) {
        seq![seq![orphan_list(h, 0)]]
    } else {
        seq![]
    }) + candidates(with_placeholder(h), spare_honor(h, 27), 0) + (if is_complete_seven_pairs(h) {
        seq![pair_list(h, 0)]
    } else {
        seq![]
    })
}

/// Whether one of `kept` has the signature of `d`.
pub open spec fn has_digest(kept: Seq<Seq<Seq<i8>>>, d: Seq<Seq<i8>>) -> bool {
    exists|j: int| 0 <= j < kept.len() && digest_of(#[trigger] kept[j]) == digest_of(d)
}

/// The first `n` of `raw` without those whose signature an earlier one has.
pub open spec fn distinct_patterns(raw: Seq<Seq<Seq<i8>>>, n: int) -> Seq<Seq<Seq<i8>>>
    decreases n,
{
    if n <= 0 {
        seq![]
    } else {
        let kept = distinct_patterns(raw, n - 1);
        if has_digest(kept, raw[n - 1]) {
            kept
        } else {
            kept.push(raw[n - 1])
        }
    }
}

/// The decompositions of a hand. A hand that is not complete has none; a hand of two
/// tiles is its pair.
pub open spec fn patterns(h: Seq<int>) -> Seq<Seq<Seq<i8>>> {
    if !is_complete_any(h) {
        seq![]
    } else if total(h) == 2 {
        let found = first_pair(h, -1, 0);
        if found != -1 {
            seq![seq![pair_block(found)]]
        } else {
            seq![]
        }
    } else {
        let raw = raw_patterns(h);
        distinct_patterns(raw, raw.len() as int)
    }
}

} // verus!
