use crate::agari::{append_blocks, check_all, copy_blocks, find_all_agari_patterns};
use crate::blocks::{lemma_views_push, orphan_list, patterns, views2};
use crate::constants::{
    ceil10, ceil100, is19, is_orphan, is_proper_open_set, proper_open_set, round_up, views,
};
use crate::hand::{ints, is_histogram, lemma_total_update, total, within};
use crate::interfaces::{HairiResult, RiichiHand, RiichiOptions, RiichiResult};
use crate::shanten::{hairi, is_hairi_of};
use crate::shapes::is_complete_any;
use crate::sound::{
    count_in, is_decomposition_of, is_pair, is_pairs_split, is_run, is_standard_split, is_triplet,
    lemma_patterns_sound,
};
use crate::yaku::{
    block_has, check_yaku, face, is_dragon, proper, proper_block, proper_blocks, settings_of, shows,
    YAKU_COUNT, yaku_settings, Situation, YakuCheckInput,
};
use vstd::prelude::*;
use vstd::string::StringExecFns;

verus! {

/// The numbers under which a result lists the patterns that the minipoints depend on,
/// and the bonus tiles.
pub const YAKU_KOKUSHIMUSOU_13_SIDES: i8 = 0;

/// Thirteen orphans.
pub const YAKU_KOKUSHIMUSOU: i8 = 1;

/// Seven pairs.
pub const YAKU_CHIITOITSU: i8 = 28;

/// The hand without minipoints.
pub const YAKU_PINFU: i8 = 33;

/// Bonus tiles.
pub const YAKU_DORA: i8 = 53;

/// Red fives.
pub const YAKU_AKADORA: i8 = 55;

/// Whether the hand is concealed: every declared meld of three tiles or more is a quad
/// that was declared concealed.
pub open spec fn menzen(furo: Seq<Seq<i8>>) -> bool {
    forall|j: int|
        0 <= j < furo.len() && (#[trigger] furo[j]).len() > 2 ==> furo[j][0] == furo[j][1]
            && furo[j][0] < 0
}

/// Whether the hand is concealed.
fn is_menzen(furo: &Vec<Vec<i8>>) -> (r: bool)
    ensures
        r == menzen(views(furo@)),
{
    let ghost f = views(furo@);
    let mut j: usize = 0;
    while j < furo.len()
        invariant
            0 <= j <= furo.len(),
            f == views(furo@),
            forall|m: int|
                0 <= m < j && (#[trigger] f[m]).len() > 2 ==> f[m][0] == f[m][1] && f[m][0] < 0,
        decreases furo.len() - j,
    {
        let meld = &furo[j];
        assert(f[j as int] == meld@);
        if meld.len() > 2 {
            if !(meld[0] == meld[1] && meld[0] < 0) {
                return false;
            }
        }
        j += 1;
    }
    true
}

/// How often the kinds of the first `n` tiles of a list are named as bonus tiles.
pub open spec fn bonus_in(tiles: Seq<i8>, n: int, dora: Seq<i8>) -> int
    decreases n,
{
    if n <= 0 {
        0
    } else {
        bonus_in(tiles, n - 1, dora) + count_in(dora, face(tiles[n - 1]))
    }
}

/// The same for the tiles of the first `n` declared melds.
pub open spec fn bonus_in_melds(furo: Seq<Seq<i8>>, n: int, dora: Seq<i8>) -> int
    decreases n,
{
    if n <= 0 {
        0
    } else {
        bonus_in_melds(furo, n - 1, dora) + bonus_in(furo[n - 1], furo[n - 1].len() as int, dora)
    }
}

/// How many bonus tiles the hand holds. A tile counts once for each time that its kind
/// is named.
pub open spec fn bonus_tiles(haipai: Seq<i8>, furo: Seq<Seq<i8>>, dora: Seq<i8>) -> int {
    bonus_held(haipai, haipai.len() as int, dora) + bonus_in_melds(furo, furo.len() as int, dora)
}

/// How often the first `n` tiles held are named as bonus tiles, each as it is written.
pub open spec fn bonus_held(tiles: Seq<i8>, n: int, dora: Seq<i8>) -> int
    decreases n,
{
    if n <= 0 {
        0
    } else {
        bonus_held(tiles, n - 1, dora) + count_in(dora, tiles[n - 1] as int)
    }
}

/// Declared melds whose tiles have a kind: none of them is written as -128.
pub open spec fn countable(furo: Seq<Seq<i8>>) -> bool {
    forall|j: int, k: int|
        0 <= j < furo.len() && 0 <= k < furo[j].len() ==> (#[trigger] furo[j][k]) > -128
}

/// A kind is named no less than zero times.
pub proof fn lemma_count_in_nonneg(b: Seq<i8>, t: int)
    ensures
        count_in(b, t) >= 0,
    decreases b.len(),
{
    if b.len() > 0 {
        lemma_count_in_nonneg(b.drop_last(), t);
    }
}

/// More tiles are no fewer bonus tiles.
pub proof fn lemma_bonus_grows(tiles: Seq<i8>, n: int, m: int, dora: Seq<i8>)
    requires
        0 <= n <= m,
    ensures
        0 <= bonus_held(tiles, n, dora) <= bonus_held(tiles, m, dora),
        0 <= bonus_in(tiles, n, dora) <= bonus_in(tiles, m, dora),
    decreases m,
{
    if m > 0 {
        lemma_count_in_nonneg(dora, tiles[m - 1] as int);
        lemma_count_in_nonneg(dora, face(tiles[m - 1]));
        if n < m {
            lemma_bonus_grows(tiles, n, m - 1, dora);
        } else {
            lemma_bonus_grows(tiles, n - 1, m - 1, dora);
        }
    }
}

/// More melds are no fewer bonus tiles.
pub proof fn lemma_bonus_melds_grow(furo: Seq<Seq<i8>>, n: int, m: int, dora: Seq<i8>)
    requires
        0 <= n <= m,
    ensures
        0 <= bonus_in_melds(furo, n, dora) <= bonus_in_melds(furo, m, dora),
    decreases m,
{
    if m > 0 {
        lemma_bonus_grows(furo[m - 1], 0, furo[m - 1].len() as int, dora);
        if n < m {
            lemma_bonus_melds_grow(furo, n, m - 1, dora);
        } else {
            lemma_bonus_melds_grow(furo, n - 1, m - 1, dora);
        }
    }
}

/// How often `t` is named as a bonus tile.
fn named(dora: &Vec<i8>, t: i8) -> (r: usize)
    ensures
        r == count_in(dora@, t as int),
{
    let mut n: usize = 0;
    let mut k: usize = 0;
    while k < dora.len()
        invariant
            0 <= k <= dora.len(),
            n == count_in(dora@.take(k as int), t as int),
            n <= k,
        decreases dora.len() - k,
    {
        proof {
            let next = dora@.take(k + 1);
            assert(next.drop_last() =~= dora@.take(k as int));
            assert(next.last() == dora@[k as int]);
        }
        if dora[k] == t {
            n += 1;
        }
        k += 1;
    }
    assert(dora@.take(dora.len() as int) =~= dora@);
    n
}

/// How many bonus tiles the hand holds.
fn calc_dora(haipai: &Vec<i8>, furo: &Vec<Vec<i8>>, dora: &Vec<i8>) -> (r: i8)
    requires
        countable(views(furo@)),
        bonus_tiles(haipai@, views(furo@), dora@) <= 127,
    ensures
        r == bonus_tiles(haipai@, views(furo@), dora@),
{
    let ghost f = views(furo@);
    let ghost all = bonus_tiles(haipai@, f, dora@);
    proof {
        lemma_bonus_melds_grow(f, 0, f.len() as int, dora@);
    }
    let mut dora_count: usize = 0;
    let mut a: usize = 0;
    while a < haipai.len()
        invariant
            0 <= a <= haipai.len(),
            dora_count == bonus_held(haipai@, a as int, dora@),
            bonus_held(haipai@, haipai.len() as int, dora@) <= 127,
        decreases haipai.len() - a,
    {
        proof {
            lemma_bonus_grows(haipai@, a + 1, haipai.len() as int, dora@);
        }
        dora_count += named(dora, haipai[a]);
        a += 1;
    }
    let ghost held = dora_count as int;
    let mut j: usize = 0;
    while j < furo.len()
        invariant
            0 <= j <= furo.len(),
            f == views(furo@),
            countable(f),
            held == bonus_held(haipai@, haipai.len() as int, dora@),
            0 <= held,
            held + bonus_in_melds(f, f.len() as int, dora@) <= 127,
            dora_count == held + bonus_in_melds(f, j as int, dora@),
        decreases furo.len() - j,
    {
        let meld = &furo[j];
        assert(f[j as int] == meld@);
        let ghost before = dora_count as int;
        proof {
            lemma_bonus_melds_grow(f, j + 1, f.len() as int, dora@);
        }
        let mut k: usize = 0;
        while k < meld.len()
            invariant
                0 <= k <= meld.len(),
                0 <= j < furo.len(),
                f == views(furo@),
                f[j as int] == meld@,
                countable(f),
                0 <= before,
                before + bonus_in(meld@, meld.len() as int, dora@) <= 127,
                dora_count == before + bonus_in(meld@, k as int, dora@),
            decreases meld.len() - k,
        {
            proof {
                assert(f[j as int][k as int] > -128);
                lemma_bonus_grows(meld@, k + 1, meld.len() as int, dora@);
            }
            let t: i8 = meld[k];
            let kind: i8 = if t < 0 {
                -t
            } else {
                t
            };
            dora_count += named(dora, kind);
            k += 1;
        }
        j += 1;
    }
    dora_count as i8
}

/// The bonus tiles that count: none for a hand without a pattern; else the bonus tiles
/// held and, if red fives are played, the red fives.
fn calc_all_dora(
    haipai: &Vec<i8>,
    furo: &Vec<Vec<i8>>,
    dora: &Vec<i8>,
    current_han: i32,
    current_aka: i8,
    aka_enabled: bool,
) -> (r: (i8, i8))
    requires
        countable(views(furo@)),
        bonus_tiles(haipai@, views(furo@), dora@) <= 127,
    ensures
        r.0 == (if current_han == 0 {
            0
        } else {
            bonus_tiles(haipai@, views(furo@), dora@)
        }),
        r.1 == (if current_han == 0 || !aka_enabled {
            0i8
        } else {
            current_aka
        }),
{
    if current_han == 0 {
        return (0, 0);
    }
    let dora_count: i8 = calc_dora(haipai, furo, dora);
    (
        dora_count,
        if aka_enabled {
            current_aka
        } else {
            0
        },
    )
}

/// Two to the power of `n`.
pub open spec fn pow2(n: int) -> int
    decreases n,
{
    if n <= 0 {
        1
    } else {
        2 * pow2(n - 1)
    }
}

/// The base points of a hand: 8000 for each yakuman; else the minipoints doubled once
/// for each han and twice more, capped by the limits from 2000 on.
pub open spec fn base_points(yakuman: int, han: int, fu: int, kiriage: bool) -> int {
    if yakuman > 0 {
        8000 * yakuman
    } else if han == 0 {
        0
    } else if fu * pow2(han + 2) > 2000 {
        if han >= 13 {
            8000
        } else if han >= 11 {
            6000
        } else if han >= 8 {
            4000
        } else if han >= 6 {
            3000
        } else {
            2000
        }
    } else if kiriage && ((han == 4 && fu == 30) || (han == 3 && fu == 60)) {
        2000
    } else {
        fu * pow2(han + 2)
    }
}

/// What a hand pays: the whole amount, and for a self-drawn win the share of the dealer
/// and the share of every other player.
pub open spec fn payment(jikaze: i8, is_tsumo: bool, base: int) -> (int, int, int) {
    if is_tsumo {
        (
            if jikaze == 28 {
                round_up(base * 2, 100) * 3
            } else {
                round_up(base * 2, 100) + 2 * round_up(base, 100)
            },
            round_up(base * 2, 100),
            round_up(base, 100),
        )
    } else {
        (
            if jikaze == 28 {
                round_up(base * 6, 100)
            } else {
                round_up(base * 4, 100)
            },
            0,
            0,
        )
    }
}

/// Doubling grows.
pub proof fn lemma_pow2_grows(a: int, b: int)
    requires
        0 <= a <= b,
    ensures
        1 <= pow2(a) <= pow2(b),
    decreases b,
{
    if b > 0 {
        if a < b {
            lemma_pow2_grows(a, b - 1);
        } else {
            lemma_pow2_grows(a - 1, b - 1);
        }
    }
}

/// What the hand pays: the whole amount, and for a self-drawn win the share of the
/// dealer and the share of every other player.
fn calc_ten(
    jikaze: i8,
    is_tsumo: bool,
    yakuman_count: i8,
    han_count: i32,
    fu_count: i32,
    kiriage: bool,
) -> (r: (i32, i32, i32))
    requires
        han_count >= 0,
        0 <= fu_count <= 100000,
    ensures
        (r.0 as int, r.1 as int, r.2 as int) == payment(
            jikaze,
            is_tsumo,
            base_points(yakuman_count as int, han_count as int, fu_count as int, kiriage),
        ),
        0 <= r.0 <= 10000000,
{
    let mut base: i32;
    if yakuman_count > 0 {
        base = 8000 * yakuman_count as i32;
    } else {
        if han_count == 0 {
            return (0, 0, 0);
        }
        if han_count >= 13 {
            proof {
                lemma_pow2_grows(15, han_count + 2);
                assert(pow2(15) == 32768) by {
                    reveal_with_fuel(pow2, 16);
                }
                if fu_count > 0 {
                    assert(fu_count * pow2(han_count + 2) >= pow2(han_count + 2)) by (
                        nonlinear_arith)
                        requires
                            fu_count >= 1,
                            pow2(han_count + 2) >= 0,
                    ;
                }
            }
            base = if fu_count > 0 {
                8000
            } else {
                0
            };
        } else {
            let mut doubled: i32 = 1;
            let mut k: i32 = 0;
            while k < han_count + 2
                invariant
                    0 <= k <= han_count + 2 <= 14,
                    doubled == pow2(k as int),
                    1 <= doubled <= 16384,
                decreases han_count + 2 - k,
            {
                proof {
                    lemma_pow2_grows(k + 1, 14);
                    assert(pow2(14) == 16384) by {
                        reveal_with_fuel(pow2, 15);
                    }
                }
                doubled = doubled * 2;
                k += 1;
            }
            assert(fu_count * doubled <= 100000 * 16384) by (nonlinear_arith)
                requires
                    0 <= fu_count <= 100000,
                    1 <= doubled <= 16384,
            ;
            assert(fu_count * doubled >= 0) by (nonlinear_arith)
                requires
                    0 <= fu_count,
                    1 <= doubled,
            ;
            base = fu_count * doubled;
            if base > 2000 {
                if han_count >= 13 {
                    base = 8000;
                } else if han_count >= 11 {
                    base = 6000;
                } else if han_count >= 8 {
                    base = 4000;
                } else if han_count >= 6 {
                    base = 3000;
                } else {
                    base = 2000;
                }
            } else {
                if kiriage && ((han_count == 4 && fu_count == 30) || (han_count == 3 && fu_count
                    == 60)) {
                    base = 2000;
                }
            }
        }
    }
    if is_tsumo {
        (
            if jikaze == 28 {
                ceil100(base * 2) * 3
            } else {
                ceil100(base * 2) + 2 * ceil100(base)
            },
            ceil100(base * 2),
            ceil100(base),
        )
    } else {
        (
            if jikaze == 28 {
                ceil100(base * 6)
            } else {
                ceil100(base * 4)
            },
            0,
            0,
        )
    }
}

/// The minipoints of a declared meld: a quad has them, more so if it is concealed or
/// of a terminal or an honor, and an open triplet has them.
pub open spec fn meld_fu(m: Seq<i8>) -> int {
    if m.len() == 4 {
        if is_orphan(face(m[0])) {
            if m[0] > 0 {
                16
            } else {
                32
            }
        } else {
            if m[0] > 0 {
                8
            } else {
                16
            }
        }
    } else if m.len() == 3 && m[0] == m[1] {
        if is_orphan(m[0] as int) {
            4
        } else {
            2
        }
    } else {
        0
    }
}

/// The minipoints of the first `n` declared melds.
pub open spec fn melds_fu(furo: Seq<Seq<i8>>, n: int) -> int
    decreases n,
{
    if n <= 0 {
        0
    } else {
        melds_fu(furo, n - 1) + meld_fu(furo[n - 1])
    }
}

/// How the hand was won, as far as the minipoints depend on it.
pub struct Win {
    pub is_tsumo: bool,
    pub bakaze: i8,
    pub jikaze: i8,
    /// The winning tile, or -1.
    pub taken_tile: i8,
}

/// A run whose first or last tile is the winning tile.
pub open spec fn ends_with(form: Seq<i8>, t: i8, other_is_terminal: bool) -> bool {
    form.len() == 3 && form[0] != form[1] && ((form[0] == t && is_orphan(form[2] as int)
        == other_is_terminal) || (form[2] == t && is_orphan(form[0] as int) == other_is_terminal))
}

/// The winning tile can be the end of a run that was open at both ends.
pub open spec fn can_be_ryanmen(p: Seq<Seq<i8>>, t: i8) -> bool {
    t != -1 && exists|j: int| 0 <= j < p.len() && ends_with(#[trigger] p[j], t, false)
}

/// The winning tile can be the end of a run that was open at one end only.
pub open spec fn can_be_penchan(p: Seq<Seq<i8>>, t: i8) -> bool {
    t != -1 && exists|j: int| 0 <= j < p.len() && ends_with(#[trigger] p[j], t, true)
}

/// The winning tile can be the middle of a run.
pub open spec fn can_be_kanchan(p: Seq<Seq<i8>>, t: i8) -> bool {
    t != -1 && exists|j: int|
        0 <= j < p.len() && (#[trigger] p[j]).len() == 3 && p[j][0] != p[j][1] && p[j][1] == t
}

/// The winning tile can have completed a triplet.
pub open spec fn can_be_shanpon(p: Seq<Seq<i8>>, t: i8) -> bool {
    t != -1 && exists|j: int|
        0 <= j < p.len() && (#[trigger] p[j]).len() == 3 && p[j][0] == p[j][1] && p[j][0] == t
}

/// The winning tile can have completed the pair.
pub open spec fn can_be_tanki(p: Seq<Seq<i8>>, t: i8) -> bool {
    t != -1 && exists|j: int| 0 <= j < p.len() && (#[trigger] p[j]).len() == 2 && p[j][0] == t
}

/// The minipoints of a block of the hand. A pair has them if it is of a kind that
/// counts; a triplet has them, fewer if another player's discard completed it and it
/// cannot have completed a run instead.
pub open spec fn form_fu(w: Win, by_run: bool, form: Seq<i8>) -> int {
    if form.len() == 2 {
        (if form[0] == w.bakaze || form[0] == w.jikaze || is_dragon(form[0] as int) {
            2int
        } else {
            0
        }) + (if w.bakaze == w.jikaze && w.bakaze == form[0] {
            2int
        } else {
            0
        }) + (if form[0] == w.taken_tile {
            2int
        } else {
            0
        })
    } else if form.len() == 3 && form[0] == form[1] {
        if !w.is_tsumo && w.taken_tile == form[0] && !by_run {
            if is_orphan(form[0] as int) {
                4
            } else {
                2
            }
        } else {
            if is_orphan(form[0] as int) {
                8
            } else {
                4
            }
        }
    } else {
        0
    }
}

/// The minipoints of the first `n` blocks of the hand.
pub open spec fn forms_fu(w: Win, by_run: bool, p: Seq<Seq<i8>>, n: int) -> int
    decreases n,
{
    if n <= 0 {
        0
    } else {
        forms_fu(w, by_run, p, n - 1) + form_fu(w, by_run, p[n - 1])
    }
}

/// The minipoints of a hand: 25 for seven pairs, none for thirteen orphans, 20 or 30 for
/// pinfu; else 20, 10 more for a concealed hand won by a discard, those of the melds and
/// blocks, 2 for a wait on one tile and 2 for a self-drawn win, rounded up to tens and
/// at least 30.
pub open spec fn minipoints(
    w: Win,
    found_yaku: Seq<i8>,
    p: Seq<Seq<i8>>,
    furo: Seq<Seq<i8>>,
) -> int {
    if found_yaku.contains(YAKU_CHIITOITSU) {
        25
    } else if found_yaku.contains(YAKU_KOKUSHIMUSOU) || found_yaku.contains(
        YAKU_KOKUSHIMUSOU_13_SIDES,
    ) {
        0
    } else if found_yaku.contains(YAKU_PINFU) {
        if w.is_tsumo {
            20
        } else {
            30
        }
    } else {
        let t = w.taken_tile;
        let by_run = can_be_ryanmen(p, t) || can_be_kanchan(p, t) || can_be_penchan(p, t);
        let raw = 20 + (if !w.is_tsumo && menzen(furo) {
            10int
        } else {
            0
        }) + melds_fu(furo, furo.len() as int) + forms_fu(w, by_run, p, p.len() as int) + (if (
        can_be_penchan(p, t) || can_be_kanchan(p, t)) && !can_be_tanki(p, t) {
            2int
        } else {
            0
        }) + (if w.is_tsumo {
            2int
        } else {
            0
        });
        if round_up(raw, 10) < 30 {
            30
        } else {
            round_up(raw, 10)
        }
    }
}

/// Lists of blocks that are short enough for their minipoints to be added up.
pub open spec fn addable(p: Seq<Seq<i8>>, furo: Seq<Seq<i8>>) -> bool {
    &&& p.len() <= 1000000
    &&& furo.len() <= 1000000
    &&& forall|j: int|
        0 <= j < furo.len() && (#[trigger] furo[j]).len() == 4 ==> furo[j][0] > -128
}

/// The minipoints of a hand.
pub fn calc_fu(
    is_tsumo: bool,
    bakaze: i8,
    jikaze: i8,
    found_yaku: Vec<i8>,
    taken_tile: i8,
    current_pattern: &Vec<Vec<i8>>,
    furo: &Vec<Vec<i8>>,
) -> (r: Option<i32>)
    requires
        addable(views(current_pattern@), views(furo@)),
    ensures
        r == Some(
            minipoints(
                Win { is_tsumo, bakaze, jikaze, taken_tile },
                found_yaku@,
                views(current_pattern@),
                views(furo@),
            ) as i32,
        ),
        r.unwrap() == minipoints(
            Win { is_tsumo, bakaze, jikaze, taken_tile },
            found_yaku@,
            views(current_pattern@),
            views(furo@),
        ),
        0 <= r.unwrap() <= 50 + 32 * furo.len() + 8 * current_pattern.len(),
{
    let ghost w = Win { is_tsumo, bakaze, jikaze, taken_tile };
    let ghost p = views(current_pattern@);
    let ghost f = views(furo@);
    let mut fu: i32;
    let have_pinfu = block_has(&found_yaku, YAKU_PINFU);
    if block_has(&found_yaku, YAKU_CHIITOITSU) {
        fu = 25;
    } else if block_has(&found_yaku, YAKU_KOKUSHIMUSOU) || block_has(
        &found_yaku,
        YAKU_KOKUSHIMUSOU_13_SIDES,
    ) {
        fu = 0;
    } else if have_pinfu {
        fu = if is_tsumo {
            20
        } else {
            30
        };
    } else {
        fu = 20;
        if !is_tsumo && is_menzen(furo) {
            fu += 10;
        }
        let ghost start = fu as int;
        let mut ryanmen = false;
        let mut kanchan = false;
        let mut penchan = false;
        let mut tanki = false;
        let mut a: usize = 0;
        while a < current_pattern.len()
            invariant
                0 <= a <= current_pattern.len(),
                p == views(current_pattern@),
                ryanmen == (taken_tile != -1 && exists|j: int|
                    0 <= j < a && ends_with(#[trigger] p[j], taken_tile, false)),
                penchan == (taken_tile != -1 && exists|j: int|
                    0 <= j < a && ends_with(#[trigger] p[j], taken_tile, true)),
                kanchan == (taken_tile != -1 && exists|j: int|
                    0 <= j < a && (#[trigger] p[j]).len() == 3 && p[j][0] != p[j][1] && p[j][1]
                        == taken_tile),
                tanki == (taken_tile != -1 && exists|j: int|
                    0 <= j < a && (#[trigger] p[j]).len() == 2 && p[j][0] == taken_tile),
            decreases current_pattern.len() - a,
        {
            let form = &current_pattern[a];
            assert(p[a as int] == form@);
            if taken_tile != -1 {
                if form.len() != 3 {
                    if form.len() == 2 && taken_tile == form[0] {
                        tanki = true;
                    }
                } else if form[0] != form[1] {
                    if (form[0] == taken_tile && !is19(form[2])) || (form[2] == taken_tile
                        && !is19(form[0])) {
                        ryanmen = true;
                    }
                    if (form[0] == taken_tile && is19(form[2])) || (form[2] == taken_tile && is19(
                        form[0],
                    )) {
                        penchan = true;
                    }
                    if form[1] == taken_tile {
                        kanchan = true;
                    }
                }
            }
            a += 1;
        }
        let by_run = ryanmen || kanchan || penchan;
        let mut j: usize = 0;
        while j < furo.len()
            invariant
                0 <= j <= furo.len() <= 1000000,
                f == views(furo@),
                addable(p, f),
                fu == start + melds_fu(f, j as int),
                start <= fu <= start + 32 * j,
                20 <= start <= 30,
            decreases furo.len() - j,
        {
            let meld = &furo[j];
            assert(f[j as int] == meld@);
            if meld.len() == 4 {
                let kind: i8 = if meld[0] < 0 {
                    -meld[0]
                } else {
                    meld[0]
                };
                fu += if is19(kind) {
                    if meld[0] > 0 {
                        16
                    } else {
                        32
                    }
                } else {
                    if meld[0] > 0 {
                        8
                    } else {
                        16
                    }
                };
            } else if meld.len() == 3 && meld[0] == meld[1] {
                fu += if is19(meld[0]) {
                    4
                } else {
                    2
                };
            }
            j += 1;
        }
        let ghost mid = fu as int;
        let mut b: usize = 0;
        while b < current_pattern.len()
            invariant
                0 <= b <= current_pattern.len() <= 1000000,
                p == views(current_pattern@),
                w == (Win { is_tsumo, bakaze, jikaze, taken_tile }),
                fu == mid + forms_fu(w, by_run, p, b as int),
                mid <= fu <= mid + 8 * b,
                20 <= mid <= 30 + 32 * 1000000,
            decreases current_pattern.len() - b,
        {
            let form = &current_pattern[b];
            assert(p[b as int] == form@);
            if form.len() == 2 {
                if form[0] == bakaze || form[0] == jikaze || form[0] == 32 || form[0] == 33
                    || form[0] == 34 {
                    fu += 2;
                }
                if bakaze == jikaze && bakaze == form[0] {
                    fu += 2
                }
                if form[0] == taken_tile {
                    fu += 2;
                }
            } else if form.len() == 3 && form[0] == form[1] {
                if !is_tsumo && taken_tile == form[0] {
                    if by_run {
                        fu += if is19(form[0]) {
                            8
                        } else {
                            4
                        };
                    } else {
                        fu += if is19(form[0]) {
                            4
                        } else {
                            2
                        };
                    }
                } else {
                    fu += if is19(form[0]) {
                        8
                    } else {
                        4
                    };
                }
            }
            b += 1;
        }
        if penchan || kanchan {
            if !have_pinfu && !tanki {
                fu += 2;
            }
        }
        if is_tsumo {
            fu += 2;
        }
        fu = ceil10(fu);
        if fu < 30 {
            fu = 30;
        }
    }
    Some(fu)
}

/// The patterns found so far: their list, each with its value, the yakuman among them
/// and the han of the others.
pub struct Found {
    pub list: Seq<(i8, i8)>,
    pub yakuman: int,
    pub han: int,
}

/// Whether the pattern with the number `y` is looked for: it is not disabled, it is no
/// local pattern or local patterns are allowed, it is a yakuman or none was found yet,
/// and it does not ask for a concealed hand or the hand is concealed.
pub open spec fn in_play(y: int, yakuman: int, s: Situation, rules: &RiichiOptions) -> bool {
    let yaku = settings_of(y);
    &&& !rules.disabled_yaku@.contains(y as i8)
    &&& !(yaku.is_local && !rules.all_local_yaku_enabled && !rules.local_yaku_enabled@.contains(
        y as i8,
    ))
    &&& !(yakuman > 0 && yaku.yakuman == 0)
    &&& !(yaku.is_menzen_only && !menzen(s.furo))
}

/// The patterns among the first `n` that the hand shows, looked for one after the other.
/// A yakuman counts once, or as often as it says where double yakuman are allowed; a
/// pattern that loses value in an open hand counts one han less there.
pub open spec fn scored(n: int, s: Situation, rules: &RiichiOptions) -> Found
    decreases n,
{
    if n <= 0 {
        Found { list: seq![], yakuman: 0, han: 0 }
    } else {
        let before = scored(n - 1, s, rules);
        let y = n - 1;
        let yaku = settings_of(y);
        if in_play(y, before.yakuman, s, rules) && shows(y, s) {
            if yaku.yakuman > 0 {
                let times: int = if rules.allow_double_yakuman {
                    yaku.yakuman as int
                } else {
                    1
                };
                Found {
                    list: before.list.push(
                        (
                            y as i8,
                            if times > 1 {
                                26i8
                            } else {
                                13i8
                            },
                        ),
                    ),
                    yakuman: before.yakuman + times,
                    han: before.han,
                }
            } else {
                let value: int = if yaku.is_furo_minus && !menzen(s.furo) {
                    yaku.han - 1
                } else {
                    yaku.han as int
                };
                Found {
                    list: before.list.push((y as i8, value as i8)),
                    yakuman: before.yakuman,
                    han: before.han + value,
                }
            }
        } else {
            before
        }
    }
}

/// The yakuman and han found are small numbers.
pub proof fn lemma_scored_bounds(n: int, s: Situation, rules: &RiichiOptions)
    requires
        0 <= n <= 53,
    ensures
        0 <= scored(n, s, rules).yakuman <= 2 * n,
        0 <= scored(n, s, rules).han <= 6 * n,
        scored(n, s, rules).list.len() <= n,
    decreases n,
{
    if n > 0 {
        lemma_scored_bounds(n - 1, s, rules);
    }
}

/// The patterns that the hand shows in one of its decompositions, with the yakuman
/// and the han that they are worth.
fn calc_yaku(
    haipai: &Vec<i8>,
    haipai34: &Vec<i8>,
    furo: &Vec<Vec<i8>>,
    current_pattern: &Vec<Vec<i8>>,
    settings: &RiichiOptions,
    is_tsumo: bool,
) -> (r: (Vec<(i8, i8)>, i8, i32))
    requires
        proper(
            situation_of(
                haipai@,
                haipai34@,
                views(furo@),
                views(current_pattern@),
                settings,
                is_tsumo,
            ),
        ),
    ensures
        ({
            let found = scored(
                53,
                situation_of(
                    haipai@,
                    haipai34@,
                    views(furo@),
                    views(current_pattern@),
                    settings,
                    is_tsumo,
                ),
                settings,
            );
            r.0@ == found.list && r.1 == found.yakuman && r.2 == found.han
        }),
        0 <= r.1 <= 106,
        0 <= r.2 <= 318,
        r.0.len() <= 53,
{
    let mut yaku_list: Vec<(i8, i8)> = Vec::new();
    let mut yakuman: i8 = 0;
    let mut han: i32 = 0;
    let check_input = YakuCheckInput {
        haipai,
        haipai34,
        furo,
        current_pattern,
        taken_tile: settings.tile_discarded_by_someone,
        is_tsumo,
        jikaze: settings.jikaze,
        bakaze: settings.bakaze,
        first_take: settings.first_take,
        riichi: settings.riichi,
        double_riichi: settings.double_riichi,
        ippatsu: settings.ippatsu,
        after_kan: settings.after_kan,
        last_tile: settings.last_tile,
        allow_kuitan: settings.allow_kuitan,
    };
    let ghost s = situation_of(
        haipai@,
        haipai34@,
        views(furo@),
        views(current_pattern@),
        settings,
        is_tsumo,
    );
    assert(check_input.situation() == s);
    let concealed = is_menzen(furo);
    let mut y: usize = 0;
    while y < YAKU_COUNT
        invariant
            0 <= y <= 53,
            check_input.situation() == s,
            proper(s),
            concealed == menzen(s.furo),
            yaku_list@ == scored(y as int, s, settings).list,
            yakuman == scored(y as int, s, settings).yakuman,
            han == scored(y as int, s, settings).han,
        decreases 53 - y,
    {
        proof {
            lemma_scored_bounds(y as int, s, settings);
            lemma_scored_bounds(y + 1, s, settings);
        }
        let yaku = yaku_settings(y);
        let skip = block_has(&settings.disabled_yaku, y as i8) || (yaku.is_local
            && !settings.all_local_yaku_enabled && !block_has(
            &settings.local_yaku_enabled,
            y as i8,
        )) || (yakuman > 0 && yaku.yakuman == 0) || (yaku.is_menzen_only && !concealed);
        if !skip && check_yaku(y, &check_input) {
            if yaku.yakuman > 0 {
                let n: i8 = if settings.allow_double_yakuman {
                    yaku.yakuman
                } else {
                    1
                };
                yakuman += n;
                yaku_list.push(
                    (
                        y as i8,
                        if n > 1 {
                            26
                        } else {
                            13
                        },
                    ),
                );
            } else {
                let mut n: i8 = yaku.han;
                if yaku.is_furo_minus && !concealed {
                    n -= 1;
                }
                yaku_list.push((y as i8, n));
                han += n as i32;
            }
        }
        y += 1;
    }
    proof {
        lemma_scored_bounds(53, s, settings);
    }
    (yaku_list, yakuman, han)
}

/// What the checks are given: the hand, a decomposition with the declared melds behind
/// it, and the circumstances, with the winning tile taken from the rules.
pub open spec fn situation_of(
    haipai: Seq<i8>,
    haipai34: Seq<i8>,
    furo: Seq<Seq<i8>>,
    pattern: Seq<Seq<i8>>,
    rules: &RiichiOptions,
    is_tsumo: bool,
) -> Situation {
    Situation {
        haipai,
        haipai34,
        furo,
        pattern,
        taken_tile: rules.tile_discarded_by_someone,
        is_tsumo,
        jikaze: rules.jikaze,
        bakaze: rules.bakaze,
        first_take: rules.first_take,
        riichi: rules.riichi,
        double_riichi: rules.double_riichi,
        ippatsu: rules.ippatsu,
        after_kan: rules.after_kan,
        last_tile: rules.last_tile,
        allow_kuitan: rules.allow_kuitan,
    }
}

/// How many tiles of each kind a list of tiles holds.
pub open spec fn tile_counts(tiles: Seq<i8>) -> Seq<i8> {
    Seq::new(34, |k: int| count_in(tiles, k + 1) as i8)
}

/// Every tile of the list is one of the 34 kinds.
pub open spec fn all_kinds(tiles: Seq<i8>) -> bool {
    forall|k: int| 0 <= k < tiles.len() ==> 1 <= #[trigger] tiles[k] <= 34
}

/// A list of tiles of the 34 kinds holds as many tiles as its counts add up to.
pub proof fn lemma_counts_total(tiles: Seq<i8>)
    requires
        all_kinds(tiles),
        tiles.len() <= 100,
    ensures
        total(ints(tile_counts(tiles))) == tiles.len(),
        forall|k: int| 0 <= k < 34 ==> 0 <= #[trigger] count_in(tiles, k + 1) <= tiles.len(),
    decreases tiles.len(),
{
    let c = ints(tile_counts(tiles));
    if tiles.len() == 0 {
        crate::hand::lemma_total_all_zero(c);
    } else {
        let rest = tiles.drop_last();
        let t = tiles.last();
        assert(1 <= tiles[tiles.len() - 1] <= 34);
        assert(all_kinds(rest)) by {
            assert forall|k: int| 0 <= k < rest.len() implies 1 <= #[trigger] rest[k] <= 34 by {
                assert(rest[k] == tiles[k]);
            }
        }
        lemma_counts_total(rest);
        let d = ints(tile_counts(rest));
        assert forall|k: int| 0 <= k < 34 implies 0 <= #[trigger] count_in(tiles, k + 1)
            <= tiles.len() by {
            assert(0 <= count_in(rest, k + 1) <= rest.len());
        }
        assert(c =~= d.update(t - 1, d[t - 1] + 1)) by {
            assert forall|k: int| 0 <= k < 34 implies c[k] == d.update(t - 1, d[t - 1] + 1)[k] by {
                assert(0 <= count_in(rest, k + 1) <= rest.len());
            }
        }
        lemma_total_update(d, t - 1, d[t - 1] + 1);
    }
}

/// The tiles of a list with `x` put in behind every tile that is not greater.
pub open spec fn tiles_with(t: Seq<i8>, x: i8) -> Seq<i8> {
    t.insert(rank(t, x), x)
}

/// How many tiles at the start of the list are not greater than `x`.
pub open spec fn rank(t: Seq<i8>, x: i8) -> int
    decreases t.len(),
{
    if t.len() == 0 || t[0] > x {
        0
    } else {
        1 + rank(t.skip(1), x)
    }
}

/// The first `n` tiles of a declared meld in ascending order, each written as a
/// negative number if the meld is concealed.
pub open spec fn meld_tiles(open: bool, meld: Seq<i8>, n: int) -> Seq<i8>
    decreases n,
{
    if n <= 0 {
        seq![]
    } else {
        tiles_with(
            meld_tiles(open, meld, n - 1),
            if open {
                meld[n - 1]
            } else {
                (-meld[n - 1]) as i8
            },
        )
    }
}

/// A declared meld as the list of melds holds it.
fn arrange_meld(open: bool, meld_tiles_in: &Vec<i8>) -> (r: Vec<i8>)
    requires
        all_kinds(meld_tiles_in@),
    ensures
        r@ == meld_tiles(open, meld_tiles_in@, meld_tiles_in.len() as int),
        r.len() == meld_tiles_in.len(),
        forall|k: int| 0 <= k < r.len() ==> 1 <= face(#[trigger] r@[k]) <= 34,
{
    let mut tiles: Vec<i8> = Vec::new();
    let mut n: usize = 0;
    while n < meld_tiles_in.len()
        invariant
            0 <= n <= meld_tiles_in.len(),
            all_kinds(meld_tiles_in@),
            tiles@ == meld_tiles(open, meld_tiles_in@, n as int),
            tiles.len() == n,
            forall|k: int| 0 <= k < tiles.len() ==> 1 <= face(#[trigger] tiles@[k]) <= 34,
        decreases meld_tiles_in.len() - n,
    {
        assert(1 <= meld_tiles_in@[n as int] <= 34);
        let x: i8 = if open {
            meld_tiles_in[n]
        } else {
            -meld_tiles_in[n]
        };
        let mut at: usize = 0;
        assert(tiles@.skip(0) =~= tiles@);
        while at < tiles.len() && tiles[at] <= x
            invariant
                0 <= at <= tiles.len(),
                rank(tiles@, x) == at + rank(tiles@.skip(at as int), x),
            decreases tiles.len() - at,
        {
            assert(tiles@.skip(at as int).skip(1) =~= tiles@.skip(at + 1));
            at += 1;
        }
        let ghost before = tiles@;
        tiles.insert(at, x);
        assert forall|k: int| 0 <= k < tiles.len() implies 1 <= face(#[trigger] tiles@[k])
            <= 34 by {
            if k < at {
                assert(tiles@[k] == before[k]);
            } else if k > at {
                assert(tiles@[k] == before[k - 1]);
            }
        }
        n += 1;
    }
    tiles
}

/// The circumstances as they are given to the checks: with the winning tile `taken`.
pub open spec fn rules_with(rules: RiichiOptions, taken: i8) -> RiichiOptions {
    RiichiOptions { tile_discarded_by_someone: taken, ..rules }
}

/// The tiles that the hand holds: the closed part, behind it the tile that another
/// player discarded, if one did, and behind that the tiles of the first `n` declared
/// melds that are no proper sets.
pub open spec fn closed_tiles(hand: RiichiHand, discarded: i8, n: int) -> Seq<i8>
    decreases n,
{
    if n <= 0 {
        if discarded != -1 {
            hand.closed_part@.push(discarded)
        } else {
            hand.closed_part@
        }
    } else if crate::constants::proper_open_set(hand.open_part@[n - 1].1@) {
        closed_tiles(hand, discarded, n - 1)
    } else {
        closed_tiles(hand, discarded, n - 1) + hand.open_part@[n - 1].1@
    }
}

/// The proper sets among the first `n` declared melds.
pub open spec fn declared(hand: RiichiHand, n: int) -> Seq<Seq<i8>>
    decreases n,
{
    if n <= 0 {
        seq![]
    } else if crate::constants::proper_open_set(hand.open_part@[n - 1].1@) {
        declared(hand, n - 1).push(
            meld_tiles(
                hand.open_part@[n - 1].0,
                hand.open_part@[n - 1].1@,
                hand.open_part@[n - 1].1@.len() as int,
            ),
        )
    } else {
        declared(hand, n - 1)
    }
}

/// What one decomposition of the hand is worth.
pub struct Rating {
    pub yaku: Seq<(i8, i8)>,
    pub yakuman: int,
    pub han: int,
    pub fu: int,
    pub ten: int,
    pub pays: Option<(int, int)>,
}

/// The numbers of the patterns of a list.
pub open spec fn numbers(list: Seq<(i8, i8)>) -> Seq<i8> {
    Seq::new(list.len(), |k: int| list[k].0)
}

/// What the decomposition `v` is worth; nothing without a pattern. The bonus tiles count
/// where a pattern with han was found.
pub open spec fn rate(
    haipai: Seq<i8>,
    furo: Seq<Seq<i8>>,
    v: Seq<Seq<i8>>,
    rules: &RiichiOptions,
    is_tsumo: bool,
) -> Option<Rating> {
    let s = situation_of(haipai, tile_counts(haipai), furo, v + furo, rules, is_tsumo);
    let found = scored(53, s, rules);
    if found.yakuman == 0 && found.han == 0 {
        None
    } else {
        let dora: int = if found.han == 0 {
            0
        } else {
            bonus_tiles(haipai, furo, rules.dora@)
        };
        let aka: int = if found.han == 0 || !rules.allow_aka {
            0
        } else {
            rules.aka_count as int
        };
        let with_dora = if dora > 0 {
            found.list.push((YAKU_DORA, dora as i8))
        } else {
            found.list
        };
        let list = if aka > 0 {
            with_dora.push((YAKU_AKADORA, aka as i8))
        } else {
            with_dora
        };
        let han = found.han + (if dora > 0 {
            dora
        } else {
            0
        }) + (if aka > 0 {
            aka
        } else {
            0
        });
        let fu = minipoints(
            Win {
                is_tsumo,
                bakaze: rules.bakaze,
                jikaze: rules.jikaze,
                taken_tile: rules.tile_discarded_by_someone,
            },
            numbers(list),
            v,
            furo,
        );
        let paid = payment(
            rules.jikaze,
            is_tsumo,
            base_points(found.yakuman, han, fu, rules.with_kiriage),
        );
        Some(
            Rating {
                yaku: list,
                yakuman: found.yakuman,
                han,
                fu,
                ten: paid.0,
                pays: if is_tsumo {
                    Some((paid.1, paid.2))
                } else {
                    None
                },
            },
        )
    }
}

/// Whether a rating is better than another: it pays more, or as much with more han, or
/// as much with as many han and more minipoints.
pub open spec fn better(r: Rating, than: Rating) -> bool {
    r.ten > than.ten || (r.ten == than.ten && r.han > than.han) || (r.ten == than.ten && r.han
        == than.han && r.fu > than.fu)
}

/// The best rating among the first `n` decompositions; of equally good ones the first.
pub open spec fn best_rating(
    pats: Seq<Seq<Seq<i8>>>,
    n: int,
    haipai: Seq<i8>,
    furo: Seq<Seq<i8>>,
    rules: &RiichiOptions,
    is_tsumo: bool,
) -> Rating
    decreases n,
{
    if n <= 0 {
        Rating { yaku: seq![], yakuman: 0, han: 0, fu: 0, ten: 0, pays: Some((0, 0)) }
    } else {
        let before = best_rating(pats, n - 1, haipai, furo, rules, is_tsumo);
        match rate(haipai, furo, pats[n - 1], rules, is_tsumo) {
            Some(r) => if better(r, before) {
                r
            } else {
                before
            },
            None => before,
        }
    }
}

/// Whether a result says what the rating says.
pub open spec fn shows_rating(res: RiichiResult, r: Rating) -> bool {
    &&& res.yaku@ == r.yaku
    &&& res.yakuman == r.yakuman
    &&& res.han == r.han
    &&& res.fu == r.fu
    &&& res.ten == r.ten
    &&& match (res.outgoing_ten, r.pays) {
        (Some(a), Some(b)) => a.0 == b.0 && a.1 == b.1,
        (None, None) => true,
        _ => false,
    }
}

/// What is asked of the lists that a hand is scored from.
pub open spec fn scorable(haipai: Seq<i8>, furo: Seq<Seq<i8>>, rules: &RiichiOptions) -> bool {
    &&& all_kinds(haipai)
    &&& haipai.len() <= 100
    &&& is_histogram(tile_counts(haipai))
    &&& proper_blocks(furo)
    &&& furo.len() <= 100
    &&& bonus_tiles(haipai, furo, rules.dora@) <= 127
    &&& (rules.tile_discarded_by_someone == -1 || 1 <= rules.tile_discarded_by_someone <= 34)
}

/// The value of a hand: whether it is complete, and if it is, with fourteen tiles, its
/// best rating over all its decompositions; without a pattern there is none. For a hand
/// that is not complete the result says, if asked, what it waits for.
#[verifier::opaque]
pub open spec fn is_value_of(
    r: Result<RiichiResult, String>,
    haipai: Seq<i8>,
    furo: Seq<Seq<i8>>,
    rules: &RiichiOptions,
    is_tsumo: bool,
    calc_hairi: bool,
) -> bool {
    let h = ints(tile_counts(haipai));
    if !is_complete_any(h) || haipai.len() + furo.len() * 3 != 14 {
        r matches Ok(res) && {
            &&& res.is_agari == is_complete_any(h)
            &&& shows_rating(
                res,
                Rating { yaku: seq![], yakuman: 0, han: 0, fu: 0, ten: 0, pays: Some((0, 0)) },
            )
            &&& if calc_hairi {
                is_hairi_of(h, res.hairi)
            } else {
                res.hairi is None
            }
        }
    } else {
        let best = best_rating(
            patterns(h),
            patterns(h).len() as int,
            haipai,
            furo,
            rules,
            is_tsumo,
        );
        if best.ten == 0 {
            r matches Err(e) && e@ == "no yaku"@
        } else {
            r matches Ok(res) && res.is_agari && shows_rating(res, best) && res.hairi is None
        }
    }
}

/// The blocks of a decomposition are blocks as the checks expect them.
pub proof fn lemma_decomposition_proper(h: Seq<int>, d: Seq<Seq<i8>>)
    requires
        h.len() == 34,
        within(h, 0, 4),
        is_decomposition_of(h, d),
        d.len() <= 150,
    ensures
        proper_blocks(d),
{
    assert forall|j: int| 0 <= j < d.len() implies proper_block(#[trigger] d[j]) by {
        let b = d[j];
        if is_standard_split(d) {
            if j == d.len() - 1 {
                assert(is_pair(d.last()));
            } else {
                assert(is_triplet(d[j]) || is_run(d[j]));
            }
            assert forall|k: int| 0 <= k < b.len() implies 1 <= face(#[trigger] b[k]) <= 34 by {
                assert(1 <= b[0] <= 34);
            }
        } else if is_pairs_split(d) {
            assert(is_pair(d[j]));
            assert forall|k: int| 0 <= k < b.len() implies 1 <= face(#[trigger] b[k]) <= 34 by {
                assert(1 <= b[0] <= 34);
            }
        } else {
            assert(b == orphan_list(h, 0));
            lemma_orphan_list_shape(h, 0);
            assert(h[0] != 0 && h[8] != 0);
            assert(0 <= h[0] <= 4 && 0 <= h[8] <= 4);
            lemma_orphan_list_two(h);
        }
    }
}

/// The list of the kinds of a hand names kinds, at most two of each.
pub proof fn lemma_orphan_list_shape(h: Seq<int>, i: int)
    requires
        0 <= i <= 34,
    ensures
        orphan_list(h, i).len() <= 2 * (34 - i),
        forall|k: int|
            0 <= k < orphan_list(h, i).len() ==> i < #[trigger] orphan_list(h, i)[k] <= 34,
    decreases 34 - i,
{
    if i < 34 {
        lemma_orphan_list_shape(h, i + 1);
        let rest = orphan_list(h, i + 1);
        let all = orphan_list(h, i);
        assert forall|k: int| 0 <= k < all.len() implies i < #[trigger] all[k] <= 34 by {
            if h[i] > 1 {
                if k >= 2 {
                    assert(all[k] == rest[k - 2]);
                }
            } else if h[i] > 0 {
                if k >= 1 {
                    assert(all[k] == rest[k - 1]);
                }
            }
        }
    }
}

/// A hand that holds a 1 and a 9 of the first suit has a list of two tiles or more.
pub proof fn lemma_orphan_list_two(h: Seq<int>)
    requires
        h.len() == 34,
        h[0] > 0,
        h[8] > 0,
    ensures
        orphan_list(h, 0).len() >= 2,
{
    lemma_orphan_list_shape(h, 9);
    assert(orphan_list(h, 8).len() >= 1);
    lemma_orphan_list_grows(h, 1, 8);
    assert(orphan_list(h, 1).len() >= 1);
}

/// The list from an earlier kind on is no shorter.
pub proof fn lemma_orphan_list_grows(h: Seq<int>, i: int, j: int)
    requires
        0 <= i <= j <= 34,
    ensures
        orphan_list(h, i).len() >= orphan_list(h, j).len(),
    decreases j - i,
{
    if i < j {
        lemma_orphan_list_grows(h, i + 1, j);
    }
}

/// The numbers of the patterns of a list.
fn yaku_numbers(list: &Vec<(i8, i8)>) -> (r: Vec<i8>)
    ensures
        r@ == numbers(list@),
{
    let mut r: Vec<i8> = Vec::new();
    let mut k: usize = 0;
    while k < list.len()
        invariant
            0 <= k <= list.len(),
            r@ == numbers(list@.take(k as int)),
        decreases list.len() - k,
    {
        r.push(list[k].0);
        k += 1;
        assert(r@ =~= numbers(list@.take(k as int)));
    }
    assert(list@.take(list.len() as int) =~= list@);
    r
}

/// What a rating holds, as the numbers that a result is made of.
pub struct Rated {
    pub yaku: Vec<(i8, i8)>,
    pub yakuman: i8,
    pub han: i32,
    pub fu: i32,
    pub ten: i32,
    pub pays: Option<(i32, i32)>,
}

impl Rated {
    /// The rating as mathematical values.
    pub open spec fn rating(&self) -> Rating {
        Rating {
            yaku: self.yaku@,
            yakuman: self.yakuman as int,
            han: self.han as int,
            fu: self.fu as int,
            ten: self.ten as int,
            pays: match self.pays {
                Some(p) => Some((p.0 as int, p.1 as int)),
                None => None,
            },
        }
    }
}

/// Rates one decomposition of the hand.
fn rate_pattern(
    haipai: &Vec<i8>,
    haipai34: &Vec<i8>,
    furo: &Vec<Vec<i8>>,
    v: &Vec<Vec<i8>>,
    dora: &Vec<i8>,
    opts: &RiichiOptions,
    is_tsumo: bool,
) -> (r: Option<Rated>)
    requires
        scorable(haipai@, views(furo@), opts),
        haipai34@ == tile_counts(haipai@),
        dora@ == opts.dora@,
        proper_blocks(views(v@)),
        v.len() <= 150,
    ensures
        match r {
            Some(x) => rate(haipai@, views(furo@), views(v@), opts, is_tsumo) == Some(x.rating()),
            None => rate(haipai@, views(furo@), views(v@), opts, is_tsumo) is None,
        },
{
    let ghost f = views(furo@);
    let ghost vv = views(v@);
    let mut current_pattern = copy_blocks(v);
    append_blocks(&mut current_pattern, furo);
    proof {
        let both = views(current_pattern@);
        assert(both == vv + f);
        assert(proper_blocks(both)) by {
            assert forall|j: int| 0 <= j < both.len() implies proper_block(#[trigger] both[j]) by {
                if j < vv.len() {
                    assert(both[j] == vv[j]);
                } else {
                    assert(both[j] == f[j - vv.len()]);
                }
            }
        }
    }
    let (mut yaku_list, yakuman, mut han) = calc_yaku(
        haipai,
        haipai34,
        furo,
        &current_pattern,
        opts,
        is_tsumo,
    );
    if yakuman == 0 && han == 0 {
        return None;
    }
    let ghost found_list = yaku_list@;
    proof {
        assert(countable(f)) by {
            assert forall|j: int, k: int| 0 <= j < f.len() && 0 <= k < f[j].len() implies (
            #[trigger] f[j][k]) > -128 by {
                assert(proper_block(f[j]));
                assert(1 <= face(f[j][k]) <= 34);
            }
        }
        assert(addable(vv, f)) by {
            assert forall|j: int| 0 <= j < f.len() && (#[trigger] f[j]).len() == 4 implies f[j][0]
                > -128 by {
                assert(proper_block(f[j]));
                assert(1 <= face(f[j][0]) <= 34);
            }
        }
    }
    let (dora_count, akadora_count) = calc_all_dora(
        haipai,
        furo,
        dora,
        han,
        opts.aka_count,
        opts.allow_aka,
    );
    if dora_count > 0 {
        han += dora_count as i32;
        yaku_list.push((YAKU_DORA, dora_count));
    }
    let ghost with_dora = yaku_list@;
    if opts.allow_aka && akadora_count > 0 {
        han += akadora_count as i32;
        yaku_list.push((YAKU_AKADORA, akadora_count));
    }
    let ids = yaku_numbers(&yaku_list);
    let fu: i32 = match calc_fu(
        is_tsumo,
        opts.bakaze,
        opts.jikaze,
        ids,
        opts.tile_discarded_by_someone,
        v,
        furo,
    ) {
        Some(x) => x,
        None => 0,
    };
    let (total, oya, ko) = calc_ten(opts.jikaze, is_tsumo, yakuman, han, fu, opts.with_kiriage);
    proof {
        let rated = rate(haipai@, f, vv, opts, is_tsumo);
        let found = scored(
            53,
            situation_of(haipai@, tile_counts(haipai@), f, vv + f, opts, is_tsumo),
            opts,
        );
        assert(found_list == found.list && yakuman == found.yakuman);
        assert(rated is Some);
        let want = rated.unwrap();
        assert(with_dora =~= (if dora_count > 0 {
            found.list.push((YAKU_DORA, dora_count))
        } else {
            found.list
        }));
        assert(yaku_list@ =~= want.yaku);
        assert(han == want.han);
        assert(yakuman == want.yakuman);
        assert(fu == want.fu);
        assert(total == want.ten);
    }
    Some(
        Rated {
            yaku: yaku_list,
            yakuman,
            han,
            fu,
            ten: total,
            pays: if is_tsumo {
                Some((oya, ko))
            } else {
                None
            },
        },
    )
}

/// Rates the hand: whether it is complete and, if it is, what its best decomposition is
/// worth.
fn calc_all(
    haipai: &Vec<i8>,
    haipai34: &Vec<i8>,
    furo: &Vec<Vec<i8>>,
    dora: &Vec<i8>,
    opts: &RiichiOptions,
    is_tsumo: bool,
    calc_hairi: bool,
) -> (r: Result<RiichiResult, String>)
    requires
        scorable(haipai@, views(furo@), opts),
        haipai34@ == tile_counts(haipai@),
        dora@ == opts.dora@,
        haipai.len() + furo.len() * 3 <= 14,
    ensures
        is_value_of(r, haipai@, views(furo@), opts, is_tsumo, calc_hairi),
{
    let ghost h = ints(haipai34@);
    let ghost f = views(furo@);
    proof {
        reveal(is_value_of);
        lemma_counts_total(haipai@);
    }
    let is_agari = check_all(haipai34);
    if !is_agari || haipai.len() + furo.len() * 3 != 14 {
        let mut waits: Option<HairiResult> = None;
        if calc_hairi {
            let mut copy = haipai34.clone();
            assert(copy@ =~= haipai34@);
            waits = hairi(&mut copy);
        }
        return Ok(
            RiichiResult {
                is_agari,
                yakuman: 0,
                han: 0,
                fu: 0,
                ten: 0,
                outgoing_ten: Some((0, 0)),
                yaku: Vec::new(),
                hairi: waits,
            },
        );
    }
    let agari_patterns = find_all_agari_patterns(haipai34);
    let ghost pats = patterns(h);
    let mut best = Rated {
        yaku: Vec::new(),
        yakuman: 0,
        han: 0,
        fu: 0,
        ten: 0,
        pays: Some((0, 0)),
    };
    let mut n: usize = 0;
    while n < agari_patterns.len()
        invariant
            0 <= n <= agari_patterns.len(),
            views2(agari_patterns@) == pats,
            pats == patterns(h),
            h == ints(haipai34@),
            f == views(furo@),
            scorable(haipai@, f, opts),
            haipai34@ == tile_counts(haipai@),
            dora@ == opts.dora@,
            total(h) == haipai.len(),
            haipai.len() + furo.len() * 3 == 14,
            best.rating() == best_rating(pats, n as int, haipai@, f, opts, is_tsumo),
        decreases agari_patterns.len() - n,
    {
        let v = &agari_patterns[n];
        let ghost vv = views(v@);
        assert(pats[n as int] == vv);
        proof {
            assert(within(h, 0, 4)) by {
                assert forall|k: int| 0 <= k < 34 implies 0 <= #[trigger] h[k] <= 4 by {
                    assert(0 <= haipai34@[k] <= 4);
                }
            }
            lemma_patterns_sound(h, n as int);
            lemma_decomposition_proper(h, vv);
        }
        match rate_pattern(haipai, haipai34, furo, v, dora, opts, is_tsumo) {
            Some(x) => {
                if x.ten > best.ten || (x.ten == best.ten && x.han > best.han) || (x.ten
                    == best.ten && x.han == best.han && x.fu > best.fu) {
                    best = x;
                }
            },
            None => {},
        }
        n += 1;
    }
    if best.ten == 0 {
        return Err(String::from_str("no yaku"));
    }
    Ok(
        RiichiResult {
            is_agari: true,
            yakuman: best.yakuman,
            han: best.han,
            fu: best.fu,
            ten: best.ten,
            outgoing_ten: best.pays,
            yaku: best.yaku,
            hairi: None,
        },
    )
}

/// The winning tile: the tile that another player discarded, or else the last tile of
/// the closed part.
pub open spec fn winning_tile(hand: RiichiHand, discarded: i8) -> i8 {
    if discarded != -1 {
        discarded
    } else {
        hand.closed_part@.last()
    }
}

/// A hand and circumstances that can be scored: every tile is one of the 34 kinds, a
/// hand that is said to be self-drawn holds a tile, and a hand of up to fourteen tiles
/// holds no kind more than four times and no more bonus tiles than a result can name.
pub open spec fn playable(hand: RiichiHand, rules: RiichiOptions) -> bool {
    let discarded = rules.tile_discarded_by_someone;
    let melds = hand.open_part@;
    let haipai = closed_tiles(hand, discarded, melds.len() as int);
    let furo = declared(hand, melds.len() as int);
    &&& discarded == -1 ==> hand.closed_part@.len() > 0
    &&& discarded == -1 || 1 <= discarded <= 34
    &&& all_kinds(hand.closed_part@)
    &&& forall|j: int| 0 <= j < melds.len() ==> all_kinds((#[trigger] melds[j]).1@)
    &&& haipai.len() + furo.len() * 3 <= 14 ==> is_histogram(tile_counts(haipai)) && bonus_tiles(
        haipai,
        furo,
        rules.dora@,
    ) <= 127
}

/// The counts of the kinds of a list of tiles.
fn count_tiles(haipai: &Vec<i8>) -> (haipai34: Vec<i8>)
    requires
        all_kinds(haipai@),
        haipai.len() <= 100,
    ensures
        haipai34@ == tile_counts(haipai@),
{
    let mut haipai34: Vec<i8> = Vec::new();
    let mut z: usize = 0;
    while z < 34
        invariant
            0 <= z <= 34,
            haipai34.len() == z,
            forall|k: int| 0 <= k < z ==> #[trigger] haipai34[k] == 0,
        decreases 34 - z,
    {
        haipai34.push(0);
        z += 1;
    }
    let mut n: usize = 0;
    assert(haipai34@ =~= tile_counts(haipai@.take(0)));
    while n < haipai.len()
        invariant
            0 <= n <= haipai.len() <= 100,
            all_kinds(haipai@),
            haipai34.len() == 34,
            haipai34@ == tile_counts(haipai@.take(n as int)),
        decreases haipai.len() - n,
    {
        let ghost before = haipai@.take(n as int);
        let ghost next = haipai@.take(n + 1);
        proof {
            assert(next.drop_last() =~= before);
            assert(next.last() == haipai@[n as int]);
            assert(1 <= haipai@[n as int] <= 34);
            assert(all_kinds(before)) by {
                assert forall|k: int| 0 <= k < before.len() implies 1 <= #[trigger] before[k]
                    <= 34 by {
                    assert(before[k] == haipai@[k]);
                }
            }
            assert(all_kinds(next)) by {
                assert forall|k: int| 0 <= k < next.len() implies 1 <= #[trigger] next[k] <= 34 by {
                    assert(next[k] == haipai@[k]);
                }
            }
            lemma_counts_total(before);
            lemma_counts_total(next);
        }
        let at: usize = (haipai[n] - 1) as usize;
        assert(haipai34@[at as int] == count_in(before, at + 1));
        haipai34[at] = haipai34[at] + 1;
        n += 1;
        assert(haipai34@ =~= tile_counts(next));
    }
    assert(haipai@.take(haipai.len() as int) =~= haipai@);
    haipai34
}

/// Every block of the list is a block as the checks expect it.
pub open spec fn each_proper(p: Seq<Seq<i8>>) -> bool {
    forall|j: int| 0 <= j < p.len() ==> proper_block(#[trigger] p[j])
}

/// The tiles held and the melds declared, as the hand is scored: a declared meld that
/// is no proper set counts as tiles held.
fn sort_out(hand: &RiichiHand, discarded: i8) -> (r: (Vec<i8>, Vec<Vec<i8>>))
    requires
        all_kinds(hand.closed_part@),
        discarded == -1 || 1 <= discarded <= 34,
        forall|j: int|
            0 <= j < hand.open_part@.len() ==> all_kinds((#[trigger] hand.open_part@[j]).1@),
    ensures
        r.0@ == closed_tiles(*hand, discarded, hand.open_part@.len() as int),
        views(r.1@) == declared(*hand, hand.open_part@.len() as int),
        all_kinds(r.0@),
        each_proper(views(r.1@)),
{
    let ghost melds = hand.open_part@;
    let mut haipai = hand.closed_part.clone();
    assert(haipai@ =~= hand.closed_part@);
    let mut furo: Vec<Vec<i8>> = Vec::new();
    if discarded != -1 {
        haipai.push(discarded);
    }
    assert(all_kinds(haipai@)) by {
        assert forall|j: int| 0 <= j < haipai.len() implies 1 <= #[trigger] haipai@[j] <= 34 by {
            if j < hand.closed_part@.len() {
                assert(haipai@[j] == hand.closed_part@[j]);
            }
        }
    }
    assert(views(furo@) =~= declared(*hand, 0));
    let mut n: usize = 0;
    while n < hand.open_part.len()
        invariant
            0 <= n <= hand.open_part.len(),
            melds == hand.open_part@,
            haipai@ == closed_tiles(*hand, discarded, n as int),
            views(furo@) == declared(*hand, n as int),
            all_kinds(haipai@),
            each_proper(views(furo@)),
            forall|j: int| 0 <= j < melds.len() ==> all_kinds((#[trigger] melds[j]).1@),
        decreases hand.open_part.len() - n,
    {
        let open = hand.open_part[n].0;
        let meld_tiles_in = &hand.open_part[n].1;
        assert(melds[n as int].1@ == meld_tiles_in@);
        assert(all_kinds(melds[n as int].1@));
        if is_proper_open_set(meld_tiles_in) {
            let tiles = arrange_meld(open, meld_tiles_in);
            let ghost before = views(furo@);
            proof {
                lemma_views_push(furo@, tiles);
            }
            furo.push(tiles);
            assert(each_proper(views(furo@))) by {
                let now = views(furo@);
                assert forall|j: int| 0 <= j < now.len() implies proper_block(
                    #[trigger] now[j],
                ) by {
                    if j < before.len() {
                        assert(now[j] == before[j]);
                    }
                }
            }
        } else {
            let ghost before = haipai@;
            let mut k: usize = 0;
            while k < meld_tiles_in.len()
                invariant
                    0 <= k <= meld_tiles_in.len(),
                    haipai@ == before + meld_tiles_in@.take(k as int),
                decreases meld_tiles_in.len() - k,
            {
                haipai.push(meld_tiles_in[k]);
                k += 1;
                assert(haipai@ =~= before + meld_tiles_in@.take(k as int));
            }
            assert(meld_tiles_in@.take(meld_tiles_in.len() as int) =~= meld_tiles_in@);
            assert(all_kinds(haipai@)) by {
                assert forall|j: int| 0 <= j < haipai.len() implies 1 <= #[trigger] haipai@[j]
                    <= 34 by {
                    if j < before.len() {
                        assert(haipai@[j] == before[j]);
                    } else {
                        assert(haipai@[j] == meld_tiles_in@[j - before.len()]);
                    }
                }
            }
        }
        n += 1;
    }
    (haipai, furo)
}

/// Puts the winning tile in the place of the discarded one.
fn name_winning_tile(options: &mut RiichiOptions, tile: i8)
    ensures
        *final(options) == rules_with(*old(options), tile),
{
    options.tile_discarded_by_someone = tile;
}

/// The value of a hand.
///
/// The hand is its closed part, the tile that another player discarded, if the win is
/// not self-drawn, and its declared melds; a declared meld that is no proper set counts
/// as tiles held. With a number of tiles held that is a multiple of three, or with more
/// than fourteen tiles, counting a declared meld as three, there is no value. The
/// circumstances are left with the winning tile in the place of the discarded one.
pub fn calc_riichi(hand: RiichiHand, options: &mut RiichiOptions, calc_hairi: bool) -> (r: Result<
    RiichiResult,
    String,
>)
    requires
        playable(hand, *old(options)),
    ensures
        *final(options) == rules_with(
            *old(options),
            winning_tile(hand, old(options).tile_discarded_by_someone),
        ),
        ({
            let discarded = old(options).tile_discarded_by_someone;
            let haipai = closed_tiles(hand, discarded, hand.open_part@.len() as int);
            let furo = declared(hand, hand.open_part@.len() as int);
            if haipai.len() % 3 == 0 || haipai.len() + furo.len() * 3 > 14 {
                r matches Err(e) && e@ == "Incorrect number of tiles"@
            } else {
                is_value_of(r, haipai, furo, final(options), discarded == -1, calc_hairi)
            }
        }),
{
    let discarded: i8 = options.tile_discarded_by_someone;
    let is_tsumo = discarded == -1;
    if is_tsumo {
        assert(1 <= hand.closed_part@[hand.closed_part@.len() - 1] <= 34);
        name_winning_tile(options, hand.closed_part[hand.closed_part.len() - 1]);
    }
    let (haipai, furo) = sort_out(&hand, discarded);
    if haipai.len() % 3 == 0 {
        return Err(String::from_str("Incorrect number of tiles"));
    }
    if haipai.len() > 14 || furo.len() > 4 || haipai.len() + furo.len() * 3 > 14 {
        return Err(String::from_str("Incorrect number of tiles"));
    }
    let haipai34 = count_tiles(&haipai);
    let dora = options.dora.clone();
    assert(dora@ =~= options.dora@);
    assert(options.dora@ == old(options).dora@);
    assert(scorable(haipai@, views(furo@), options));
    calc_all(&haipai, &haipai34, &furo, &dora, options, is_tsumo, calc_hairi)
}

} // verus!
