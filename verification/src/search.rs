use crate::hand::{less, less_run, total};
use vstd::prelude::*;

verus! {

/// The state of the search for the standard shape: the tiles not yet used, the blocks
/// counted so far, and the two sets of positions that decide about the penalty.
pub struct Search {
    /// What is left of each kind.
    pub tiles: Seq<int>,
    /// Complete melds: triplets and runs.
    pub melds: int,
    /// Partial runs: two tiles that wait for a third.
    pub tatsu: int,
    /// Pairs.
    pub pairs: int,
    /// Honor kinds of which all four copies are held and cannot serve as a pair.
    pub jidahai: int,
    /// The numeral positions that held four copies at the start; the last entry speaks
    /// for the honors, all together.
    pub fours: Seq<bool>,
    /// The numeral positions of which one tile was set aside as isolated; the last entry
    /// speaks for the honors.
    pub isolated: Seq<bool>,
}

/// The lesser of two numbers.
pub open spec fn min2(a: int, b: int) -> int {
    if a <= b {
        a
    } else {
        b
    }
}

/// The state after a triplet was taken at `k`.
pub open spec fn take_set(st: Search, k: int) -> Search {
    Search { tiles: less(st.tiles, k, 3), melds: st.melds + 1, ..st }
}

/// The state after a pair was taken at `k`.
pub open spec fn take_pair(st: Search, k: int) -> Search {
    Search { tiles: less(st.tiles, k, 2), pairs: st.pairs + 1, ..st }
}

/// The state after a run was taken that starts at `k`.
pub open spec fn take_run(st: Search, k: int) -> Search {
    Search { tiles: less_run(st.tiles, k), melds: st.melds + 1, ..st }
}

/// The state after two neighbours, at `k` and `k + 1`, were taken as a partial run.
pub open spec fn take_tatsu_first(st: Search, k: int) -> Search {
    Search { tiles: less(less(st.tiles, k, 1), k + 1, 1), tatsu: st.tatsu + 1, ..st }
}

/// The state after the tiles at `k` and `k + 2` were taken as a partial run with a gap.
pub open spec fn take_tatsu_second(st: Search, k: int) -> Search {
    Search { tiles: less(less(st.tiles, k, 1), k + 2, 1), tatsu: st.tatsu + 1, ..st }
}

/// The state after one tile at `k` was set aside as isolated.
pub open spec fn take_isolated(st: Search, k: int) -> Search {
    Search { tiles: less(st.tiles, k, 1), isolated: st.isolated.update(k, true), ..st }
}

/// Whether a pair can no longer come of an isolated tile: there are isolated tiles, and
/// each of them is of a kind of which all four copies are held.
pub open spec fn locked(st: Search) -> bool {
    &&& exists|i: int| 0 <= i < st.fours.len() && st.fours[i]
    &&& exists|i: int| 0 <= i < st.isolated.len() && st.isolated[i]
    &&& forall|i: int| 0 <= i < st.isolated.len() && st.isolated[i] ==> st.fours[i]
}

/// The distance that the blocks counted in a state stand for: eight, less two for each
/// meld and one for each partial run and pair; one more where there is no pair and none
/// can come of the isolated tiles; blocks beyond the four that a hand can use do not
/// count; and never less than the number of honor kinds held four times, but for a
/// complete hand.
pub open spec fn leaf(st: Search) -> int {
    let base = 8 - 2 * st.melds - st.tatsu - st.pairs;
    let blocks = st.melds + st.tatsu + if st.pairs > 0 {
        st.pairs - 1
    } else {
        0
    };
    let penalty: int = if st.pairs == 0 && locked(st) {
        1
    } else {
        0
    };
    let excess = if blocks > 4 {
        blocks - 4
    } else {
        0
    };
    let ret = base + penalty + excess;
    if ret != -1 && ret < st.jidahai {
        st.jidahai
    } else {
        ret
    }
}

/// The count at `depth`, where it is a positive count of a numeral.
pub open spec fn height(st: Search, depth: int) -> int {
    if 0 <= depth < 27 && depth < st.tiles.len() && st.tiles[depth] > 0 {
        st.tiles[depth]
    } else {
        0
    }
}

/// The least distance found by the search from the numeral position `depth` on, and 8 if
/// it finds none below that. At the first kind that is left every use of its tiles is
/// tried: as a triplet, as a pair, as the start of a run or of a partial run, as an
/// isolated tile; then the search goes on behind it.
pub open spec fn search(st: Search, depth: int) -> int
    decreases 27 - depth, height(st, depth), 1int,
{
    let t = st.tiles;
    let i = depth % 9;
    if depth < 0 || t.len() != 34 {
        8
    } else if depth >= 27 {
        min2(8, leaf(st))
    } else if t[depth] == 0 {
        search(st, depth + 1)
    } else if t[depth] == 4 {
        let a = take_set(st, depth);
        let b = take_pair(st, depth);
        min2(
            min2(partials(a, depth, false), search(take_isolated(a, depth), depth + 1)),
            partials(b, depth, true),
        )
    } else if t[depth] == 3 {
        let a = take_set(st, depth);
        let b = take_pair(st, depth);
        min2(
            min2(
                search(a, depth + 1),
                if i < 7 && t[depth + 1] != 0 && t[depth + 2] != 0 {
                    search(take_run(b, depth), depth + 1)
                } else {
                    min2(
                        if i < 7 && t[depth + 2] != 0 {
                            search(take_tatsu_second(b, depth), depth + 1)
                        } else {
                            8
                        },
                        if i < 8 && t[depth + 1] != 0 {
                            search(take_tatsu_first(b, depth), depth + 1)
                        } else {
                            8
                        },
                    )
                },
            ),
            if i < 7 && t[depth + 2] >= 2 && t[depth + 1] >= 2 {
                search(take_run(take_run(st, depth), depth), depth)
            } else {
                8
            },
        )
    } else if t[depth] == 2 {
        min2(
            search(take_pair(st, depth), depth + 1),
            if i < 7 && t[depth + 2] != 0 && t[depth + 1] != 0 {
                search(take_run(st, depth), depth)
            } else {
                8
            },
        )
    } else if t[depth] == 1 {
        if i < 6 && t[depth + 1] == 1 && t[depth + 2] != 0 && t[depth + 3] != 4 {
            search(take_run(st, depth), depth + 2)
        } else {
            min2(search(take_isolated(st, depth), depth + 1), partials(st, depth, false))
        }
    } else {
        8
    }
}

/// The least distance found by starting a run or a partial run at `depth`. After a run
/// the search goes on at `depth` itself if `again` is set, else behind it.
pub open spec fn partials(st: Search, depth: int, again: bool) -> int
    decreases 27 - depth, height(st, depth), 0int,
{
    let t = st.tiles;
    let i = depth % 9;
    if depth < 0 || depth >= 27 || t.len() != 34 || t[depth] < 1 {
        8
    } else {
        min2(
            if i < 7 && t[depth + 2] != 0 {
                min2(
                    if t[depth + 1] != 0 {
                        search(
                            take_run(st, depth),
                            if again {
                                depth
                            } else {
                                depth + 1
                            },
                        )
                    } else {
                        8
                    },
                    search(take_tatsu_second(st, depth), depth + 1),
                )
            } else {
                8
            },
            if i < 8 && t[depth + 1] != 0 {
                search(take_tatsu_first(st, depth), depth + 1)
            } else {
                8
            },
        )
    }
}

/// How many of the honor kinds from position `i` on are held exactly `v` times.
pub open spec fn honors_with(h: Seq<int>, v: int, i: int) -> int
    decreases 34 - i,
{
    if i < 27 || i >= 34 {
        0
    } else {
        honors_with(h, v, i + 1) + if h[i] == v {
            1int
        } else {
            0
        }
    }
}

/// How many of the first `n` kinds are held at least `v` times.
pub open spec fn kinds_with(h: Seq<int>, v: int, n: int) -> int
    decreases n,
{
    if n <= 0 {
        0
    } else {
        kinds_with(h, v, n - 1) + if h[n - 1] >= v {
            1int
        } else {
            0
        }
    }
}

/// The state in which the search starts. The honors are counted beforehand, since no
/// run goes through them: three or four of a kind are a meld, two are a pair, and a
/// single tile, as the fourth of four, is isolated. A hand of fewer than fourteen tiles
/// counts a meld for every three tiles that it lacks.
pub open spec fn start(h: Seq<int>) -> Search {
    let fours = honors_with(h, 4, 27);
    let lone = honors_with(h, 1, 27) + fours > 0;
    Search {
        tiles: h,
        melds: (14 - total(h)) / 3 + honors_with(h, 3, 27) + fours,
        tatsu: 0,
        pairs: honors_with(h, 2, 27),
        jidahai: if fours > 0 && total(h) % 3 == 2 {
            fours - 1
        } else {
            fours
        },
        fours: Seq::new(
            28,
            |i: int|
                if i < 27 {
                    h[i] == 4
                } else {
                    lone && honors_with(h, 1, 27) == 0
                },
        ),
        isolated: Seq::new(28, |i: int| i == 27 && lone),
    }
}

/// The distance to the standard shape.
pub open spec fn standard_shanten(h: Seq<int>) -> int {
    search(start(h), 0)
}

/// The distance to seven pairs: six, less one for each pair, and one more for each kind
/// that is missing for seven; -1 with seven pairs.
pub open spec fn seven_pairs_shanten(h: Seq<int>) -> int {
    let pairs = kinds_with(h, 2, h.len() as int);
    let kinds = kinds_with(h, 1, h.len() as int);
    if pairs == 7 {
        -1
    } else {
        6 - pairs + if kinds < 7 {
            7 - kinds
        } else {
            0
        }
    }
}

/// How many of the thirteen terminal and honor kinds are held at least `v` times.
pub open spec fn orphans_with(h: Seq<int>, v: int) -> int {
    at_least(h[0], v) + at_least(h[8], v) + at_least(h[9], v) + at_least(h[17], v) + at_least(
        h[18],
        v,
    ) + at_least(h[26], v) + at_least(h[27], v) + at_least(h[28], v) + at_least(h[29], v)
        + at_least(h[30], v) + at_least(h[31], v) + at_least(h[32], v) + at_least(h[33], v)
}

/// One if `c` is `v` or more, else zero.
pub open spec fn at_least(c: int, v: int) -> int {
    if c >= v {
        1
    } else {
        0
    }
}

/// The distance to thirteen orphans: thirteen, less one for each terminal and honor kind
/// that is held, and less one more if one of them is held twice.
pub open spec fn orphans_shanten(h: Seq<int>) -> int {
    13 - orphans_with(h, 1) - if orphans_with(h, 2) > 0 {
        1int
    } else {
        0
    }
}

/// The distance to completion: the least of the distances to the three shapes. It is -1
/// for a complete hand.
pub open spec fn shanten(h: Seq<int>) -> int {
    min2(min2(standard_shanten(h), seven_pairs_shanten(h)), orphans_shanten(h))
}

/// The kinds from `i` on, other than `skip`, of which one more tile brings the hand
/// below the distance `base`.
pub open spec fn waits_from(h: Seq<int>, base: int, skip: int, i: int) -> Seq<i8>
    decreases 34 - i,
{
    if i < 0 || i >= 34 {
        seq![]
    } else if i != skip && shanten(less(h, i, -1)) < base {
        seq![i as i8] + waits_from(h, base, skip, i + 1)
    } else {
        waits_from(h, base, skip, i + 1)
    }
}

/// The kinds from `i` on that the hand holds and can discard while it stays at the
/// distance `base`, each with what the hand waits for after the discard.
pub open spec fn discards_from(h: Seq<int>, base: int, i: int) -> Seq<(i8, Seq<i8>)>
    decreases 34 - i,
{
    if i < 0 || i >= 34 {
        seq![]
    } else if h[i] != 0 && shanten(less(h, i, 1)) == base {
        seq![(i as i8, waits_from(less(h, i, 1), base, i, 0))] + discards_from(h, base, i + 1)
    } else {
        discards_from(h, base, i + 1)
    }
}

/// Wait correctness: a kind is among the waits exactly if one more tile of it brings
/// the hand below the distance `base`.
pub proof fn lemma_waits(h: Seq<int>, base: int, skip: int, i: int, k: int)
    requires
        0 <= i <= 34,
        0 <= k < 34,
    ensures
        waits_from(h, base, skip, i).contains(k as i8) <==> (i <= k && k != skip && shanten(
            less(h, k, -1),
        ) < base),
    decreases 34 - i,
{
    let w = waits_from(h, base, skip, i);
    if i < 34 {
        lemma_waits(h, base, skip, i + 1, k);
        let rest = waits_from(h, base, skip, i + 1);
        if i != skip && shanten(less(h, i, -1)) < base {
            assert(w =~= seq![i as i8] + rest);
            if rest.contains(k as i8) {
                let j = choose|j: int| 0 <= j < rest.len() && rest[j] == k as i8;
                assert(w[j + 1] == k as i8);
            }
            if k == i {
                assert(w[0] == k as i8);
            }
            if w.contains(k as i8) {
                let j = choose|j: int| 0 <= j < w.len() && w[j] == k as i8;
                if j > 0 {
                    assert(rest[j - 1] == k as i8);
                }
            }
        }
    }
}

/// Two for each pair is no more than the tiles held.
pub proof fn lemma_pairs_bound(h: Seq<int>, n: int)
    requires
        0 <= n <= h.len(),
        forall|k: int| 0 <= k < h.len() ==> h[k] >= 0,
    ensures
        0 <= kinds_with(h, 1, n) <= n,
        0 <= kinds_with(h, 2, n) <= kinds_with(h, 1, n),
        2 * kinds_with(h, 2, n) <= crate::shapes::prefix_total(h, n),
    decreases n,
{
    if n > 0 {
        lemma_pairs_bound(h, n - 1);
    }
}

} // verus!
