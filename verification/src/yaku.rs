use crate::agari::{check13, check7};
use crate::constants::{is19, is_orphan, views};
use crate::hand::{ints, is_histogram};
use crate::shapes::{is_complete_seven_pairs, is_complete_thirteen_orphans};
use crate::sound::count_in;
use vstd::prelude::*;

verus! {

/// What a scoring pattern is checked against: the hand, one of its decompositions with
/// the declared melds behind it, and the circumstances of the win.
pub struct YakuCheckInput<'t> {
    pub haipai: &'t Vec<i8>,
    pub haipai34: &'t Vec<i8>,
    pub furo: &'t Vec<Vec<i8>>,
    pub current_pattern: &'t Vec<Vec<i8>>,
    pub taken_tile: i8,
    pub is_tsumo: bool,
    pub jikaze: i8,
    pub bakaze: i8,
    pub first_take: bool,
    pub riichi: bool,
    pub double_riichi: bool,
    pub ippatsu: bool,
    pub after_kan: bool,
    pub last_tile: bool,
    pub allow_kuitan: bool,
}

/// What a scoring pattern is worth and when it counts.
pub struct YakuCheck {
    pub is_local: bool,
    pub yakuman: i8,
    pub han: i8,
    pub is_menzen_only: bool,
    pub is_furo_minus: bool,
}

/// The input of a check as mathematical values.
pub struct Situation {
    pub haipai: Seq<i8>,
    pub haipai34: Seq<i8>,
    pub furo: Seq<Seq<i8>>,
    pub pattern: Seq<Seq<i8>>,
    pub taken_tile: i8,
    pub is_tsumo: bool,
    pub jikaze: i8,
    pub bakaze: i8,
    pub first_take: bool,
    pub riichi: bool,
    pub double_riichi: bool,
    pub ippatsu: bool,
    pub after_kan: bool,
    pub last_tile: bool,
    pub allow_kuitan: bool,
}

impl<'t> YakuCheckInput<'t> {
    pub open spec fn situation(&self) -> Situation {
        Situation {
            haipai: self.haipai@,
            haipai34: self.haipai34@,
            furo: views(self.furo@),
            pattern: views(self.current_pattern@),
            taken_tile: self.taken_tile,
            is_tsumo: self.is_tsumo,
            jikaze: self.jikaze,
            bakaze: self.bakaze,
            first_take: self.first_take,
            riichi: self.riichi,
            double_riichi: self.double_riichi,
            ippatsu: self.ippatsu,
            after_kan: self.after_kan,
            last_tile: self.last_tile,
            allow_kuitan: self.allow_kuitan,
        }
    }
}

/// The kind of a tile, whether it lies open or, written as a negative number, belongs
/// to a concealed quad.
pub open spec fn face(t: i8) -> int {
    if t < 0 {
        -t
    } else {
        t as int
    }
}

/// A block as the checks expect it: at least two tiles, each of them one of the 34 kinds.
pub open spec fn proper_block(v: Seq<i8>) -> bool {
    &&& 2 <= v.len() <= 100
    &&& forall|k: int| 0 <= k < v.len() ==> 1 <= face(#[trigger] v[k]) <= 34
}

/// Every block of the list is as the checks expect it.
pub open spec fn proper_blocks(p: Seq<Seq<i8>>) -> bool {
    &&& p.len() <= 1000
    &&& forall|j: int| 0 <= j < p.len() ==> proper_block(#[trigger] p[j])
}

/// An input as the checks expect it.
pub open spec fn proper(s: Situation) -> bool {
    &&& is_histogram(s.haipai34)
    &&& s.haipai.len() <= 100
    &&& proper_blocks(s.furo)
    &&& proper_blocks(s.pattern)
    &&& (s.taken_tile == -1 || 1 <= s.taken_tile <= 34)
}

/// The four winds.
pub open spec fn is_wind(t: int) -> bool {
    28 <= t <= 31
}

/// The three dragons.
pub open spec fn is_dragon(t: int) -> bool {
    32 <= t <= 34
}

/// Winds and dragons.
pub open spec fn is_honor(t: int) -> bool {
    28 <= t <= 34
}

/// The 1 and the 9 of each suit.
pub open spec fn is_terminal(t: int) -> bool {
    t == 1 || t == 9 || t == 10 || t == 18 || t == 19 || t == 27
}

/// The kinds that are all green: the 2, 3, 4, 6 and 8 of the third suit and the green
/// dragon.
pub open spec fn is_green(t: int) -> bool {
    t == 20 || t == 21 || t == 22 || t == 24 || t == 26 || t == 33
}

/// The numerals from 2 to 8 of each suit.
pub open spec fn is_simple(t: int) -> bool {
    (2 <= t <= 8) || (11 <= t <= 17) || (20 <= t <= 26)
}

/// The kinds with which a run 1-2-3, 4-5-6 or 7-8-9 starts.
pub open spec fn is_chi_start(t: int) -> bool {
    t == 1 || t == 4 || t == 7 || t == 10 || t == 13 || t == 16 || t == 19 || t == 22 || t == 25
}

/// The sets of kinds that patterns ask for.
#[derive(Clone, Copy, Debug, PartialEq, Eq)]
pub enum TileSet {
    Greens,
    Winds,
    Dragons,
    Honors,
    Terminals,
    TerminalsAndHonors,
    ChiStart,
    SimpleTiles,
}

impl TileSet {
    /// Whether the kind `t` is in the set.
    pub open spec fn holds(self, t: int) -> bool {
        match self {
            TileSet::Greens => is_green(t),
            TileSet::Winds => is_wind(t),
            TileSet::Dragons => is_dragon(t),
            TileSet::Honors => is_honor(t),
            TileSet::Terminals => is_terminal(t),
            TileSet::TerminalsAndHonors => is_terminal(t) || is_honor(t),
            TileSet::ChiStart => is_chi_start(t),
            TileSet::SimpleTiles => is_simple(t),
        }
    }

    /// Whether the kind `t` is in the set.
    pub fn contains(self, t: i8) -> (r: bool)
        ensures
            r == self.holds(t as int),
    {
        match self {
            TileSet::Greens => t == 20 || t == 21 || t == 22 || t == 24 || t == 26 || t == 33,
            TileSet::Winds => 28 <= t && t <= 31,
            TileSet::Dragons => 32 <= t && t <= 34,
            TileSet::Honors => 28 <= t && t <= 34,
            TileSet::Terminals => t == 1 || t == 9 || t == 10 || t == 18 || t == 19 || t == 27,
            TileSet::TerminalsAndHonors => t == 1 || t == 9 || t == 10 || t == 18 || t == 19 || t
                == 27 || (28 <= t && t <= 34),
            TileSet::ChiStart => t == 1 || t == 4 || t == 7 || t == 10 || t == 13 || t == 16 || t
                == 19 || t == 22 || t == 25,
            TileSet::SimpleTiles => (2 <= t && t <= 8) || (11 <= t && t <= 17) || (20 <= t && t
                <= 26),
        }
    }
}

/// The kind of a tile of a block.
fn face_of(t: i8) -> (r: i8)
    requires
        t > -128,
    ensures
        r == face(t),
{
    if t < 0 {
        -t
    } else {
        t
    }
}

/// Whether all tiles of the hand are of the allowed kinds: tiles held are, as they are
/// written, and tiles of declared melds are by their kind.
pub open spec fn all_allowed(haipai: Seq<i8>, furo: Seq<Seq<i8>>, allowed: TileSet) -> bool {
    &&& forall|j: int| 0 <= j < haipai.len() ==> allowed.holds(#[trigger] haipai[j] as int)
    &&& forall|j: int, k: int|
        0 <= j < furo.len() && 0 <= k < furo[j].len() ==> allowed.holds(face(#[trigger] furo[j][k]))
}

/// Whether all tiles of the hand are of the allowed kinds.
fn check_allowed(haipai: &Vec<i8>, furo: &Vec<Vec<i8>>, allowed: TileSet) -> (r: bool)
    requires
        proper_blocks(views(furo@)),
    ensures
        r == all_allowed(haipai@, views(furo@), allowed),
{
    let mut a: usize = 0;
    while a < haipai.len()
        invariant
            0 <= a <= haipai.len(),
            forall|j: int| 0 <= j < a ==> allowed.holds(#[trigger] haipai@[j] as int),
        decreases haipai.len() - a,
    {
        if !allowed.contains(haipai[a]) {
            return false;
        }
        a += 1;
    }
    let ghost f = views(furo@);
    let mut j: usize = 0;
    while j < furo.len()
        invariant
            0 <= j <= furo.len(),
            f == views(furo@),
            proper_blocks(f),
            forall|m: int| 0 <= m < haipai.len() ==> allowed.holds(#[trigger] haipai@[m] as int),
            forall|m: int, k: int|
                0 <= m < j && 0 <= k < f[m].len() ==> allowed.holds(face(#[trigger] f[m][k])),
        decreases furo.len() - j,
    {
        let v = &furo[j];
        assert(f[j as int] == v@);
        assert(proper_block(f[j as int]));
        let mut k: usize = 0;
        while k < v.len()
            invariant
                0 <= k <= v.len(),
                0 <= j < furo.len(),
                f == views(furo@),
                f[j as int] == v@,
                proper_block(v@),
                forall|n: int| 0 <= n < k ==> allowed.holds(face(#[trigger] v@[n])),
            decreases v.len() - k,
        {
            assert(1 <= face(v@[k as int]) <= 34);
            if !allowed.contains(face_of(v[k])) {
                assert(!allowed.holds(face(f[j as int][k as int])));
                return false;
            }
            k += 1;
        }
        j += 1;
    }
    true
}

/// How many tiles of the kind at position `k` the first `n` blocks hold.
pub open spec fn kind_count(p: Seq<Seq<i8>>, n: int, k: int) -> int
    decreases n,
{
    if n <= 0 {
        0
    } else {
        kind_count(p, n - 1, k) + face_count(p[n - 1], p[n - 1].len() as int, k)
    }
}

/// How many of the first `n` tiles of a block are of the kind at position `k`.
pub open spec fn face_count(v: Seq<i8>, n: int, k: int) -> int
    decreases n,
{
    if n <= 0 {
        0
    } else {
        face_count(v, n - 1, k) + if face(v[n - 1]) == k + 1 {
            1int
        } else {
            0
        }
    }
}

/// The hand that the blocks make up, concealed quads counted by their kind.
fn to_hand(pattern: &Vec<Vec<i8>>) -> (hand: Vec<i32>)
    requires
        proper_blocks(views(pattern@)),
    ensures
        hand.len() == 34,
        forall|k: int|
            0 <= k < 34 ==> #[trigger] hand[k] == kind_count(
                views(pattern@),
                pattern.len() as int,
                k,
            ),
        forall|k: int| 0 <= k < 34 ==> 0 <= #[trigger] hand[k] <= 100000,
{
    let ghost p = views(pattern@);
    let mut hand: Vec<i32> = Vec::new();
    let mut z: usize = 0;
    while z < 34
        invariant
            0 <= z <= 34,
            hand.len() == z,
            forall|k: int| 0 <= k < z ==> #[trigger] hand[k] == 0,
        decreases 34 - z,
    {
        hand.push(0);
        z += 1;
    }
    let mut j: usize = 0;
    while j < pattern.len()
        invariant
            0 <= j <= pattern.len() <= 1000,
            p == views(pattern@),
            proper_blocks(p),
            hand.len() == 34,
            forall|k: int| 0 <= k < 34 ==> #[trigger] hand[k] == kind_count(p, j as int, k),
            forall|k: int| 0 <= k < 34 ==> 0 <= #[trigger] hand[k] <= 100 * j,
        decreases pattern.len() - j,
    {
        let v = &pattern[j];
        assert(p[j as int] == v@);
        assert(proper_block(p[j as int]));
        let mut n: usize = 0;
        while n < v.len()
            invariant
                0 <= n <= v.len() <= 100,
                0 <= j < pattern.len() <= 1000,
                p == views(pattern@),
                p[j as int] == v@,
                proper_block(v@),
                hand.len() == 34,
                forall|k: int|
                    0 <= k < 34 ==> #[trigger] hand[k] == kind_count(p, j as int, k) + face_count(
                        v@,
                        n as int,
                        k,
                    ),
                forall|k: int| 0 <= k < 34 ==> 0 <= #[trigger] hand[k] <= 100 * j + n,
            decreases v.len() - n,
        {
            assert(1 <= face(v@[n as int]) <= 34);
            let at: usize = (face_of(v[n]) - 1) as usize;
            let ghost before = hand@;
            hand[at] = hand[at] + 1;
            n += 1;
            assert forall|k: int| 0 <= k < 34 implies #[trigger] hand[k] == kind_count(
                p,
                j as int,
                k,
            ) + face_count(v@, n as int, k) by {
                assert(before[k] == kind_count(p, j as int, k) + face_count(v@, n - 1, k));
            }
            assert forall|k: int| 0 <= k < 34 implies 0 <= #[trigger] hand[k] <= 100 * j + n by {
                assert(0 <= before[k] <= 100 * j + (n - 1));
            }
        }
        j += 1;
    }
    hand
}

/// Whether the blocks hold a tile of suit group `s`.
pub open spec fn suit_held(p: Seq<Seq<i8>>, s: int) -> bool {
    exists|k: int|
        9 * s <= k < 9 * s + 9 && k < 34 && #[trigger] kind_count(p, p.len() as int, k) != 0
}

/// The one suit of which the blocks hold tiles, or -1 if they hold tiles of no suit or of
/// more than one. Honors count as a suit of their own unless they are left out.
pub open spec fn same_suit(p: Seq<Seq<i8>>, exclude_honors: bool) -> int {
    let a = suit_held(p, 0);
    let b = suit_held(p, 1);
    let c = suit_held(p, 2);
    let d = suit_held(p, 3) && !exclude_honors;
    if a && !b && !c && !d {
        0
    } else if !a && b && !c && !d {
        1
    } else if !a && !b && c && !d {
        2
    } else {
        -1
    }
}

/// The one suit of the hand, or -1.
fn get_same_suit(current_pattern: &Vec<Vec<i8>>, exclude_honors: bool) -> (r: i8)
    requires
        proper_blocks(views(current_pattern@)),
    ensures
        r == same_suit(views(current_pattern@), exclude_honors),
{
    let ghost p = views(current_pattern@);
    let hand = to_hand(current_pattern);
    let mut found_suit: i8 = -1;
    let mut seen: usize = 0;
    let mut i: usize = 0;
    while i < 4
        invariant
            0 <= i <= 4,
            p == views(current_pattern@),
            hand.len() == 34,
            forall|k: int|
                0 <= k < 34 ==> #[trigger] hand[k] == kind_count(p, p.len() as int, k),
            forall|k: int| 0 <= k < 34 ==> 0 <= #[trigger] hand[k] <= 100000,
            seen == (if i > 0 && suit_held(p, 0) { 1int } else { 0 }) + (if i > 1 && suit_held(p, 1) {
                1int
            } else {
                0
            }) + (if i > 2 && suit_held(p, 2) { 1int } else { 0 }) + (if i > 3 && suit_held(p, 3)
                && !exclude_honors { 1int } else { 0 }),
            seen == 0 ==> found_suit == -1,
            seen == 1 ==> 0 <= found_suit < i && (found_suit == 3 ==> !exclude_honors) && suit_held(
                p,
                found_suit as int,
            ),
        decreases 4 - i,
    {
        let len: usize = if i == 3 {
            7
        } else {
            9
        };
        let mut any = false;
        let mut k: usize = 0;
        while k < len
            invariant
                0 <= k <= len,
                0 <= i < 4,
                len == (if i == 3 { 7int } else { 9 }),
                hand.len() == 34,
                forall|m: int|
                    0 <= m < 34 ==> #[trigger] hand[m] == kind_count(p, p.len() as int, m),
                any == exists|m: int|
                    9 * i <= m < 9 * i + k && #[trigger] kind_count(p, p.len() as int, m) != 0,
            decreases len - k,
        {
            if hand[9 * i + k] != 0 {
                assert(kind_count(p, p.len() as int, 9 * i + k) != 0);
                any = true;
            }
            k += 1;
        }
        assert(any == suit_held(p, i as int));
        if any && !(exclude_honors && i == 3) {
            seen += 1;
            found_suit = i as i8;
        }
        i += 1;
    }
    if seen != 1 || found_suit == 3 {
        -1
    } else {
        found_suit
    }
}

/// The powers of 128 up to the eighth.
pub open spec fn pow128(n: int) -> int {
    if n <= 0 {
        1
    } else if n == 1 {
        128
    } else if n == 2 {
        16384
    } else if n == 3 {
        2097152
    } else if n == 4 {
        268435456
    } else if n == 5 {
        34359738368
    } else if n == 6 {
        4398046511104
    } else if n == 7 {
        562949953421312
    } else {
        72057594037927936
    }
}

/// The tiles of a block from the `i`-th on, packed into one number, seven bits a tile.
pub open spec fn packed(v: Seq<i8>, i: int) -> int
    decreases v.len() - i,
{
    if i < 0 || i >= v.len() {
        0
    } else {
        v[i] + 128 * packed(v, i + 1)
    }
}

/// Whether two blocks pack into the same number. Blocks of more than eight tiles are
/// not compared.
pub open spec fn same_digest(a: Seq<i8>, b: Seq<i8>) -> bool {
    a.len() <= 8 && b.len() <= 8 && packed(a, 0) == packed(b, 0)
}

/// A block of up to eight tiles packed into one number.
fn digest_simple(input: &Vec<i8>) -> (r: i64)
    requires
        input.len() <= 8,
    ensures
        r == packed(input@, 0),
{
    let mut output: i64 = 0;
    let mut k: usize = input.len();
    while k > 0
        invariant
            0 <= k <= input.len() <= 8,
            output == packed(input@, k as int),
            2 - 2 * pow128(input.len() - k) <= output <= 2 * pow128(input.len() - k) - 2,
        decreases k,
    {
        let ghost done: int = input.len() - k;
        assert(pow128(done + 1) == 128 * pow128(done) && 1 <= pow128(done) <= 562949953421312);
        k -= 1;
        output = output * 128 + input[k] as i64;
    }
    output
}

/// Whether two blocks pack into the same number.
fn digests_agree(a: &Vec<i8>, b: &Vec<i8>) -> (r: bool)
    ensures
        r == same_digest(a@, b@),
{
    if a.len() > 8 || b.len() > 8 {
        false
    } else {
        digest_simple(a) == digest_simple(b)
    }
}

/// A triplet or a quad: three tiles or more, the first two of one kind.
pub open spec fn is_kotsu(v: Seq<i8>) -> bool {
    v.len() >= 3 && v[0] == v[1]
}

/// A run: three tiles or more, the first two not of one kind.
pub open spec fn is_shuntsu(v: Seq<i8>) -> bool {
    v.len() >= 3 && v[0] != v[1]
}

/// What the blocks of a pattern are counted by.
#[derive(Clone, Copy, Debug, PartialEq, Eq)]
pub enum BlockKind {
    /// Triplets and quads.
    Kotsu,
    /// Quads.
    Kantsu,
    /// Triplets and quads of a wind.
    WindSet,
    /// Pairs of a wind.
    WindPair,
    /// Triplets and quads of a dragon.
    DragonSet,
    /// Pairs, triplets and quads of a dragon.
    DragonGroup,
}

impl BlockKind {
    /// Whether the block `v` is of this kind.
    pub open spec fn holds(self, v: Seq<i8>) -> bool {
        match self {
            BlockKind::Kotsu => is_kotsu(v),
            BlockKind::Kantsu => v.len() == 4,
            BlockKind::WindSet => is_wind(face(v[0])) && v.len() >= 3,
            BlockKind::WindPair => is_wind(v[0] as int) && v.len() == 2,
            BlockKind::DragonSet => is_dragon(face(v[0])) && v.len() >= 3,
            BlockKind::DragonGroup => is_dragon(face(v[0])) && v[0] == v[1],
        }
    }

    /// Whether the block `v` is of this kind.
    fn fits(self, v: &Vec<i8>) -> (r: bool)
        requires
            proper_block(v@),
        ensures
            r == self.holds(v@),
    {
        assert(1 <= face(v@[0]) <= 34);
        match self {
            BlockKind::Kotsu => v.len() >= 3 && v[0] == v[1],
            BlockKind::Kantsu => v.len() == 4,
            BlockKind::WindSet => TileSet::Winds.contains(face_of(v[0])) && v.len() >= 3,
            BlockKind::WindPair => TileSet::Winds.contains(v[0]) && v.len() == 2,
            BlockKind::DragonSet => TileSet::Dragons.contains(face_of(v[0])) && v.len() >= 3,
            BlockKind::DragonGroup => TileSet::Dragons.contains(face_of(v[0])) && v[0] == v[1],
        }
    }
}

/// How many of the first `n` blocks are of the kind.
pub open spec fn blocks_of(p: Seq<Seq<i8>>, n: int, kind: BlockKind) -> int
    decreases n,
{
    if n <= 0 {
        0
    } else {
        blocks_of(p, n - 1, kind) + if kind.holds(p[n - 1]) {
            1int
        } else {
            0
        }
    }
}

/// How many blocks of the pattern are of the kind.
fn count_blocks(pattern: &Vec<Vec<i8>>, kind: BlockKind) -> (r: usize)
    requires
        proper_blocks(views(pattern@)),
    ensures
        r == blocks_of(views(pattern@), pattern.len() as int, kind),
{
    let ghost p = views(pattern@);
    let mut n: usize = 0;
    let mut j: usize = 0;
    while j < pattern.len()
        invariant
            0 <= j <= pattern.len(),
            p == views(pattern@),
            proper_blocks(p),
            n == blocks_of(p, j as int, kind),
            n <= j,
        decreases pattern.len() - j,
    {
        assert(p[j as int] == pattern[j as int]@);
        assert(proper_block(p[j as int]));
        if kind.fits(&pattern[j]) {
            n += 1;
        }
        j += 1;
    }
    n
}

/// Whether one of the declared melds lies open.
pub open spec fn any_open(furo: Seq<Seq<i8>>) -> bool {
    exists|j: int| 0 <= j < furo.len() && (#[trigger] furo[j])[0] > 0
}

/// Whether one of the declared melds lies open.
fn has_open_meld(furo: &Vec<Vec<i8>>) -> (r: bool)
    requires
        proper_blocks(views(furo@)),
    ensures
        r == any_open(views(furo@)),
{
    let ghost f = views(furo@);
    let mut j: usize = 0;
    while j < furo.len()
        invariant
            0 <= j <= furo.len(),
            f == views(furo@),
            proper_blocks(f),
            forall|m: int| 0 <= m < j ==> !((#[trigger] f[m])[0] > 0),
        decreases furo.len() - j,
    {
        assert(f[j as int] == furo[j as int]@);
        assert(proper_block(f[j as int]));
        if furo[j][0] > 0 {
            return true;
        }
        j += 1;
    }
    false
}

/// Whether a block holds the tile `t`.
pub(crate) fn block_has(v: &Vec<i8>, t: i8) -> (r: bool)
    ensures
        r == v@.contains(t),
{
    let mut k: usize = 0;
    while k < v.len()
        invariant
            0 <= k <= v.len(),
            forall|m: int| 0 <= m < k ==> v@[m] != t,
        decreases v.len() - k,
    {
        if v[k] == t {
            return true;
        }
        k += 1;
    }
    false
}

/// Whether two blocks hold the same tiles in the same order.
fn same_block(a: &Vec<i8>, b: &Vec<i8>) -> (r: bool)
    ensures
        r == (a@ == b@),
{
    if a.len() != b.len() {
        return false;
    }
    let mut k: usize = 0;
    while k < a.len()
        invariant
            0 <= k <= a.len(),
            a.len() == b.len(),
            forall|m: int| 0 <= m < k ==> a@[m] == b@[m],
        decreases a.len() - k,
    {
        if a[k] != b[k] {
            return false;
        }
        k += 1;
    }
    assert(a@ =~= b@);
    true
}

/// A hand of terminals, or of terminals and honors, in every block: pairs and triplets
/// are of the allowed kinds, runs begin or end with a terminal, and there is a run.
pub open spec fn chanta_like(p: Seq<Seq<i8>>, allow: TileSet) -> bool {
    &&& forall|j: int|
        0 <= j < p.len() ==> if is_shuntsu(#[trigger] p[j]) {
            is_orphan(p[j][0] as int) || is_orphan(p[j][2] as int)
        } else {
            allow.holds(face(p[j][0]))
        }
    &&& exists|j: int| 0 <= j < p.len() && is_shuntsu(#[trigger] p[j])
}

/// Whether every block holds one of the allowed kinds at its end, and one block is a run.
fn check_chanta_like(current_pattern: &Vec<Vec<i8>>, allow: TileSet) -> (r: bool)
    requires
        proper_blocks(views(current_pattern@)),
    ensures
        r == chanta_like(views(current_pattern@), allow),
{
    let ghost p = views(current_pattern@);
    let mut has_jyuntsu = false;
    let mut j: usize = 0;
    while j < current_pattern.len()
        invariant
            0 <= j <= current_pattern.len(),
            p == views(current_pattern@),
            proper_blocks(p),
            forall|m: int|
                0 <= m < j ==> if is_shuntsu(#[trigger] p[m]) {
                    is_orphan(p[m][0] as int) || is_orphan(p[m][2] as int)
                } else {
                    allow.holds(face(p[m][0]))
                },
            has_jyuntsu == exists|m: int| 0 <= m < j && is_shuntsu(#[trigger] p[m]),
        decreases current_pattern.len() - j,
    {
        let v = &current_pattern[j];
        assert(p[j as int] == v@);
        assert(proper_block(p[j as int]));
        assert(1 <= face(v@[0]) <= 34);
        if v.len() <= 2 || v[0] == v[1] {
            if !allow.contains(face_of(v[0])) {
                return false;
            }
        } else {
            has_jyuntsu = true;
            if !is19(v[0]) && !is19(v[2]) {
                return false;
            }
        }
        j += 1;
    }
    has_jyuntsu
}

/// Whether the pattern holds a triplet or a quad of the kind `which`, and this kind
/// counts: it is a dragon or the wind of the round or of the seat.
pub open spec fn yakuhai(p: Seq<Seq<i8>>, jikaze: i8, bakaze: i8, which: i8) -> bool {
    exists|j: int|
        0 <= j < p.len() && face((#[trigger] p[j])[0]) == which && (which == jikaze || which
            == bakaze || is_dragon(which as int)) && p[j].len() >= 3
}

/// Whether the hand holds a triplet of the kind `which`, and this kind counts.
fn check_yakuhai(current_pattern: &Vec<Vec<i8>>, jikaze: i8, bakaze: i8, which: i8) -> (r: bool)
    requires
        proper_blocks(views(current_pattern@)),
    ensures
        r == yakuhai(views(current_pattern@), jikaze, bakaze, which),
{
    let ghost p = views(current_pattern@);
    let mut j: usize = 0;
    while j < current_pattern.len()
        invariant
            0 <= j <= current_pattern.len(),
            p == views(current_pattern@),
            proper_blocks(p),
            forall|m: int|
                0 <= m < j ==> !(face((#[trigger] p[m])[0]) == which && (which == jikaze || which
                    == bakaze || is_dragon(which as int)) && p[m].len() >= 3),
        decreases current_pattern.len() - j,
    {
        let v = &current_pattern[j];
        assert(p[j as int] == v@);
        assert(proper_block(p[j as int]));
        assert(1 <= face(v@[0]) <= 34);
        let a: i8 = face_of(v[0]);
        if a == which && (a == jikaze || a == bakaze || a == 32 || a == 33 || a == 34) && v.len()
            >= 3 {
            return true;
        }
        j += 1;
    }
    false
}

/// How often the winning tile is among the tiles held.
fn count_taken(i: &YakuCheckInput) -> (r: usize)
    ensures
        r == count_in(i.haipai@, i.taken_tile as int),
{
    let mut total: usize = 0;
    let mut k: usize = 0;
    while k < i.haipai.len()
        invariant
            0 <= k <= i.haipai.len(),
            total == count_in(i.haipai@.take(k as int), i.taken_tile as int),
            total <= k,
        decreases i.haipai.len() - k,
    {
        proof {
            let next = i.haipai@.take(k + 1);
            assert(next.drop_last() =~= i.haipai@.take(k as int));
            assert(next.last() == i.haipai@[k as int]);
        }
        if i.haipai[k] == i.taken_tile {
            total += 1;
        }
        k += 1;
    }
    assert(i.haipai@.take(i.haipai.len() as int) =~= i.haipai@);
    total
}

/// Thirteen orphans that waited for any of the thirteen: the winning tile is held twice.
pub open spec fn kokushimusou_13_sides(s: Situation) -> bool {
    is_complete_thirteen_orphans(ints(s.haipai34)) && count_in(s.haipai, s.taken_tile as int) == 2
}

/// Whether the hand shows the pattern.
fn yaku_check_kokushimusou_13_sides(i: &YakuCheckInput) -> (r: bool)
    requires
        proper(i.situation()),
    ensures
        r == kokushimusou_13_sides(i.situation()),
{
    check13(i.haipai34) && count_taken(i) == 2
}

/// Thirteen orphans that waited for the one kind that was missing.
pub open spec fn kokushimusou(s: Situation) -> bool {
    is_complete_thirteen_orphans(ints(s.haipai34)) && count_in(s.haipai, s.taken_tile as int) == 1
}

/// Whether the hand shows the pattern.
fn yaku_check_kokusimusou(i: &YakuCheckInput) -> (r: bool)
    requires
        proper(i.situation()),
    ensures
        r == kokushimusou(i.situation()),
{
    check13(i.haipai34) && count_taken(i) == 1
}

/// Nine gates but for the winning tile: the hand is of one suit and holds three or more
/// of its 1 and its 9 and every numeral between them.
pub open spec fn nine_gates(s: Situation) -> bool {
    let f = same_suit(s.pattern, false);
    &&& f != -1
    &&& s.haipai34[9 * f] >= 3
    &&& s.haipai34[9 * f + 8] >= 3
    &&& forall|k: int| 9 * f <= k < 9 * f + 9 ==> #[trigger] s.haipai34[k] != 0
}

/// How many tiles the hand holds of the numeral of the winning tile in its suit.
pub open spec fn gate_count(s: Situation) -> int {
    s.haipai34[9 * same_suit(s.pattern, false) + (s.taken_tile - 1) % 9] as int
}

/// Nine gates that waited for any of the nine numerals: without the winning tile the
/// hand held its numeral once or three times.
pub open spec fn chuurenpoto_9_sides(s: Situation) -> bool {
    nine_gates(s) && s.taken_tile != -1 && (gate_count(s) == 2 || gate_count(s) == 4)
}

/// Nine gates that waited for fewer than nine numerals.
pub open spec fn chuurenpoto(s: Situation) -> bool {
    nine_gates(s) && s.taken_tile != -1 && (gate_count(s) == 1 || gate_count(s) == 3)
}

/// The count that decides between the two forms of the nine gates, or -1 if the hand is
/// not of that shape or no winning tile is named.
fn nine_gates_count(i: &YakuCheckInput) -> (r: i8)
    requires
        proper(i.situation()),
    ensures
        r == (if nine_gates(i.situation()) && i.taken_tile != -1 {
            gate_count(i.situation())
        } else {
            -1
        }),
        -1 <= r <= 4,
{
    let ghost s = i.situation();
    let found_suit: i8 = get_same_suit(i.current_pattern, false);
    if found_suit == -1 {
        return -1;
    }
    let base: usize = 9 * (found_suit as usize);
    assert(0 <= s.haipai34[base as int] <= 4 && 0 <= s.haipai34[base + 8] <= 4);
    if i.haipai34[base] < 3 || i.haipai34[base + 8] < 3 {
        return -1;
    }
    let mut k: usize = 0;
    while k < 9
        invariant
            0 <= k <= 9,
            base == 9 * found_suit,
            0 <= found_suit <= 2,
            found_suit == same_suit(s.pattern, false),
            i.haipai34.len() == 34,
            s == i.situation(),
            forall|m: int| base <= m < base + k ==> #[trigger] s.haipai34[m] != 0,
        decreases 9 - k,
    {
        if i.haipai34[base + k] == 0 {
            assert(s.haipai34[base + k] == 0);
            return -1;
        }
        k += 1;
    }
    if i.taken_tile == -1 {
        return -1;
    }
    let at: usize = base + ((i.taken_tile - 1) % 9) as usize;
    assert(0 <= s.haipai34[at as int] <= 4);
    i.haipai34[at]
}

/// Whether the hand shows the pattern.
fn yaku_check_chuurenpoto_9_sides(i: &YakuCheckInput) -> (r: bool)
    requires
        proper(i.situation()),
    ensures
        r == chuurenpoto_9_sides(i.situation()),
{
    let c: i8 = nine_gates_count(i);
    c == 2 || c == 4
}

/// Whether the hand shows the pattern.
fn yaku_check_chuurenpoto(i: &YakuCheckInput) -> (r: bool)
    requires
        proper(i.situation()),
    ensures
        r == chuurenpoto(i.situation()),
{
    let c: i8 = nine_gates_count(i);
    c == 1 || c == 3
}

/// Four concealed triplets that wait for their pair: no meld lies open, every block is
/// a triplet or begins with the winning tile, and there are four triplets.
pub open spec fn suuankou_tanki(s: Situation) -> bool {
    &&& !any_open(s.furo)
    &&& forall|j: int|
        0 <= j < s.pattern.len() ==> is_kotsu(#[trigger] s.pattern[j]) || s.pattern[j][0]
            == s.taken_tile
    &&& blocks_of(s.pattern, s.pattern.len() as int, BlockKind::Kotsu) == 4
}

/// Whether the hand shows the pattern.
fn yaku_check_suuankou_tanki(i: &YakuCheckInput) -> (r: bool)
    requires
        proper(i.situation()),
    ensures
        r == suuankou_tanki(i.situation()),
{
    let ghost p = views(i.current_pattern@);
    if has_open_meld(i.furo) {
        return false;
    }
    let mut j: usize = 0;
    while j < i.current_pattern.len()
        invariant
            0 <= j <= i.current_pattern.len(),
            p == views(i.current_pattern@),
            proper_blocks(p),
            forall|m: int| 0 <= m < j ==> is_kotsu(#[trigger] p[m]) || p[m][0] == i.taken_tile,
        decreases i.current_pattern.len() - j,
    {
        let v = &i.current_pattern[j];
        assert(p[j as int] == v@);
        assert(proper_block(p[j as int]));
        if !(v.len() >= 3 && v[0] == v[1]) && v[0] != i.taken_tile {
            return false;
        }
        j += 1;
    }
    count_blocks(i.current_pattern, BlockKind::Kotsu) == 4
}

/// Four concealed triplets, drawn, that did not wait for their pair.
pub open spec fn suuankou(s: Situation) -> bool {
    &&& !any_open(s.furo)
    &&& blocks_of(s.pattern, s.pattern.len() as int, BlockKind::Kotsu) == 4
    &&& s.is_tsumo
    &&& !suuankou_tanki(s)
}

/// Whether the hand shows the pattern.
fn yaku_check_suuankou(i: &YakuCheckInput) -> (r: bool)
    requires
        proper(i.situation()),
    ensures
        r == suuankou(i.situation()),
{
    if has_open_meld(i.furo) {
        return false;
    }
    count_blocks(i.current_pattern, BlockKind::Kotsu) == 4 && i.is_tsumo
        && !yaku_check_suuankou_tanki(i)
}

/// Triplets of all four winds.
pub open spec fn daisuushi(s: Situation) -> bool {
    blocks_of(s.pattern, s.pattern.len() as int, BlockKind::WindSet) == 4
}

/// Whether the hand shows the pattern.
fn yaku_check_daisuushi(i: &YakuCheckInput) -> (r: bool)
    requires
        proper(i.situation()),
    ensures
        r == daisuushi(i.situation()),
{
    count_blocks(i.current_pattern, BlockKind::WindSet) == 4
}

/// Triplets of three winds and a pair of the fourth.
pub open spec fn shosuushi(s: Situation) -> bool {
    blocks_of(s.pattern, s.pattern.len() as int, BlockKind::WindSet) == 3 && blocks_of(
        s.pattern,
        s.pattern.len() as int,
        BlockKind::WindPair,
    ) == 1
}

/// Whether the hand shows the pattern.
fn yaku_check_shosuushi(i: &YakuCheckInput) -> (r: bool)
    requires
        proper(i.situation()),
    ensures
        r == shosuushi(i.situation()),
{
    count_blocks(i.current_pattern, BlockKind::WindSet) == 3 && count_blocks(
        i.current_pattern,
        BlockKind::WindPair,
    ) == 1
}

/// Triplets of all three dragons.
pub open spec fn daisangen(s: Situation) -> bool {
    blocks_of(s.pattern, s.pattern.len() as int, BlockKind::DragonSet) == 3
}

/// Whether the hand shows the pattern.
fn yaku_check_daisangen(i: &YakuCheckInput) -> (r: bool)
    requires
        proper(i.situation()),
    ensures
        r == daisangen(i.situation()),
{
    count_blocks(i.current_pattern, BlockKind::DragonSet) == 3
}

/// A hand of honors only.
pub open spec fn tsuuiisou(s: Situation) -> bool {
    all_allowed(s.haipai, s.furo, TileSet::Honors)
}

/// Whether the hand shows the pattern.
fn yaku_check_tsuuiisou(i: &YakuCheckInput) -> (r: bool)
    requires
        proper(i.situation()),
    ensures
        r == tsuuiisou(i.situation()),
{
    check_allowed(i.haipai, i.furo, TileSet::Honors)
}

/// A hand of green kinds only.
pub open spec fn ryuuiisou(s: Situation) -> bool {
    all_allowed(s.haipai, s.furo, TileSet::Greens)
}

/// Whether the hand shows the pattern.
fn yaku_check_ryuuiisou(i: &YakuCheckInput) -> (r: bool)
    requires
        proper(i.situation()),
    ensures
        r == ryuuiisou(i.situation()),
{
    check_allowed(i.haipai, i.furo, TileSet::Greens)
}

/// A hand of terminals only.
pub open spec fn chinroutou(s: Situation) -> bool {
    all_allowed(s.haipai, s.furo, TileSet::Terminals)
}

/// Whether the hand shows the pattern.
fn yaku_check_chinroutou(i: &YakuCheckInput) -> (r: bool)
    requires
        proper(i.situation()),
    ensures
        r == chinroutou(i.situation()),
{
    check_allowed(i.haipai, i.furo, TileSet::Terminals)
}

/// Four quads.
pub open spec fn suukantsu(s: Situation) -> bool {
    blocks_of(s.pattern, s.pattern.len() as int, BlockKind::Kantsu) == 4
}

/// Whether the hand shows the pattern.
fn yaku_check_suukantsu(i: &YakuCheckInput) -> (r: bool)
    requires
        proper(i.situation()),
    ensures
        r == suukantsu(i.situation()),
{
    count_blocks(i.current_pattern, BlockKind::Kantsu) == 4
}

/// The dealer wins with the tiles dealt.
pub open spec fn tenhou(s: Situation) -> bool {
    s.first_take && s.is_tsumo && s.jikaze == 28 && s.furo.len() == 0
}

/// Whether the hand shows the pattern.
fn yaku_check_tenhou(i: &YakuCheckInput) -> (r: bool)
    ensures
        r == tenhou(i.situation()),
{
    i.first_take && i.is_tsumo && i.jikaze == 28 && i.furo.len() == 0
}

/// Another player wins with the first tile drawn.
pub open spec fn chihou(s: Situation) -> bool {
    s.first_take && s.is_tsumo && s.jikaze != 28 && s.furo.len() == 0
}

/// Whether the hand shows the pattern.
fn yaku_check_chihou(i: &YakuCheckInput) -> (r: bool)
    ensures
        r == chihou(i.situation()),
{
    i.first_take && i.is_tsumo && i.jikaze != 28 && i.furo.len() == 0
}

/// A player wins by a discard before the first draw.
pub open spec fn renhou(s: Situation) -> bool {
    s.first_take && !s.is_tsumo && s.furo.len() == 0
}

/// Whether the hand shows the pattern.
fn yaku_check_renhou(i: &YakuCheckInput) -> (r: bool)
    ensures
        r == renhou(i.situation()),
{
    i.first_take && !i.is_tsumo && i.furo.len() == 0
}

/// Seven pairs of honors.
pub open spec fn daisharin(s: Situation) -> bool {
    tsuuiisou(s) && chiitoitsu(s)
}

/// Whether the hand shows the pattern.
fn yaku_check_daisharin(i: &YakuCheckInput) -> (r: bool)
    requires
        proper(i.situation()),
    ensures
        r == daisharin(i.situation()),
{
    yaku_check_tsuuiisou(i) && yaku_check_chiitoitsu(i)
}

/// A hand of one suit.
pub open spec fn chinitsu(s: Situation) -> bool {
    same_suit(s.pattern, false) != -1
}

/// Whether the hand shows the pattern.
fn yaku_check_chinitsu(i: &YakuCheckInput) -> (r: bool)
    requires
        proper(i.situation()),
    ensures
        r == chinitsu(i.situation()),
{
    get_same_suit(i.current_pattern, false) != -1
}

/// A hand of one suit and honors.
pub open spec fn honitsu(s: Situation) -> bool {
    same_suit(s.pattern, true) != -1 && !chinitsu(s)
}

/// Whether the hand shows the pattern.
fn yaku_check_honitsu(i: &YakuCheckInput) -> (r: bool)
    requires
        proper(i.situation()),
    ensures
        r == honitsu(i.situation()),
{
    get_same_suit(i.current_pattern, true) != -1 && !yaku_check_chinitsu(i)
}

/// The blocks of three tiles among the first `n` blocks.
pub open spec fn threes(p: Seq<Seq<i8>>, n: int) -> Seq<Seq<i8>>
    decreases n,
{
    if n <= 0 {
        seq![]
    } else if p[n - 1].len() == 3 {
        threes(p, n - 1).push(p[n - 1])
    } else {
        threes(p, n - 1)
    }
}

/// Whether four blocks are two pairs of blocks that pack into the same number.
pub open spec fn two_pairs(t: Seq<Seq<i8>>) -> bool {
    ||| (packed(t[0], 0) == packed(t[1], 0) && packed(t[2], 0) == packed(t[3], 0))
    ||| (packed(t[0], 0) == packed(t[2], 0) && packed(t[1], 0) == packed(t[3], 0))
    ||| (packed(t[0], 0) == packed(t[3], 0) && packed(t[1], 0) == packed(t[2], 0))
}

/// Two pairs of equal runs: nothing is declared, no block is a triplet, four blocks have
/// three tiles, and they are two pairs of equal blocks.
pub open spec fn ryanpeikou(s: Situation) -> bool {
    &&& s.furo.len() == 0
    &&& forall|j: int| 0 <= j < s.pattern.len() ==> !is_kotsu(#[trigger] s.pattern[j])
    &&& threes(s.pattern, s.pattern.len() as int).len() == 4
    &&& two_pairs(threes(s.pattern, s.pattern.len() as int))
}

/// Whether the hand shows the pattern.
fn yaku_check_ryanpeikou(i: &YakuCheckInput) -> (r: bool)
    requires
        proper(i.situation()),
    ensures
        r == ryanpeikou(i.situation()),
{
    if i.furo.len() > 0 {
        return false;
    }
    let ghost p = views(i.current_pattern@);
    let mut digests: Vec<i64> = Vec::new();
    let mut j: usize = 0;
    while j < i.current_pattern.len()
        invariant
            0 <= j <= i.current_pattern.len(),
            p == views(i.current_pattern@),
            proper_blocks(p),
            forall|m: int| 0 <= m < j ==> !is_kotsu(#[trigger] p[m]),
            digests.len() == threes(p, j as int).len(),
            digests.len() <= j,
            forall|m: int|
                0 <= m < digests.len() ==> #[trigger] digests[m] == packed(
                    threes(p, j as int)[m],
                    0,
                ),
        decreases i.current_pattern.len() - j,
    {
        let v = &i.current_pattern[j];
        assert(p[j as int] == v@);
        assert(proper_block(p[j as int]));
        if v.len() >= 3 && v[0] == v[1] {
            return false;
        }
        if v.len() == 3 {
            digests.push(digest_simple(v));
        }
        j += 1;
    }
    digests.len() == 4 && ((digests[0] == digests[1] && digests[2] == digests[3]) || (digests[0]
        == digests[2] && digests[1] == digests[3]) || (digests[0] == digests[3] && digests[1]
        == digests[2]))
}

/// A terminal in every block, and a run among the blocks.
pub open spec fn junchan(s: Situation) -> bool {
    chanta_like(s.pattern, TileSet::Terminals)
}

/// Whether the hand shows the pattern.
fn yaku_check_junchan(i: &YakuCheckInput) -> (r: bool)
    requires
        proper(i.situation()),
    ensures
        r == junchan(i.situation()),
{
    check_chanta_like(i.current_pattern, TileSet::Terminals)
}

/// A terminal or an honor in every block and a run among the blocks, where not every
/// block holds a terminal.
pub open spec fn chanta(s: Situation) -> bool {
    chanta_like(s.pattern, TileSet::TerminalsAndHonors) && !junchan(s)
}

/// Whether the hand shows the pattern.
fn yaku_check_chanta(i: &YakuCheckInput) -> (r: bool)
    requires
        proper(i.situation()),
    ensures
        r == chanta(i.situation()),
{
    check_chanta_like(i.current_pattern, TileSet::TerminalsAndHonors) && !yaku_check_junchan(i)
}

/// Four triplets or quads.
pub open spec fn toitoi(s: Situation) -> bool {
    blocks_of(s.pattern, s.pattern.len() as int, BlockKind::Kotsu) == 4
}

/// Whether the hand shows the pattern.
fn yaku_check_toitoi(i: &YakuCheckInput) -> (r: bool)
    requires
        proper(i.situation()),
    ensures
        r == toitoi(i.situation()),
{
    count_blocks(i.current_pattern, BlockKind::Kotsu) == 4
}

/// A hand of terminals and honors only.
pub open spec fn honroutou(s: Situation) -> bool {
    all_allowed(s.haipai, s.furo, TileSet::TerminalsAndHonors)
}

/// Whether the hand shows the pattern.
fn yaku_check_honroutou(i: &YakuCheckInput) -> (r: bool)
    requires
        proper(i.situation()),
    ensures
        r == honroutou(i.situation()),
{
    check_allowed(i.haipai, i.furo, TileSet::TerminalsAndHonors)
}

/// Three quads.
pub open spec fn sankantsu(s: Situation) -> bool {
    blocks_of(s.pattern, s.pattern.len() as int, BlockKind::Kantsu) == 3
}

/// Whether the hand shows the pattern.
fn yaku_check_sankantsu(i: &YakuCheckInput) -> (r: bool)
    requires
        proper(i.situation()),
    ensures
        r == sankantsu(i.situation()),
{
    count_blocks(i.current_pattern, BlockKind::Kantsu) == 3
}

/// Triplets of two dragons and a pair of the third.
pub open spec fn shosangen(s: Situation) -> bool {
    blocks_of(s.pattern, s.pattern.len() as int, BlockKind::DragonGroup) == 3 && !daisangen(s)
        && !chiitoitsu(s)
}

/// Whether the hand shows the pattern.
fn yaku_check_shosangen(i: &YakuCheckInput) -> (r: bool)
    requires
        proper(i.situation()),
    ensures
        r == shosangen(i.situation()),
{
    count_blocks(i.current_pattern, BlockKind::DragonGroup) == 3 && !yaku_check_daisangen(i)
        && !yaku_check_chiitoitsu(i)
}

/// Seven pairs that are not two pairs of equal runs.
pub open spec fn chiitoitsu(s: Situation) -> bool {
    is_complete_seven_pairs(ints(s.haipai34)) && !ryanpeikou(s)
}

/// Whether the hand shows the pattern.
fn yaku_check_chiitoitsu(i: &YakuCheckInput) -> (r: bool)
    requires
        proper(i.situation()),
    ensures
        r == chiitoitsu(i.situation()),
{
    check7(i.haipai34) && !yaku_check_ryanpeikou(i)
}

/// A ready hand declared in the first turn.
pub open spec fn daburu_riichi(s: Situation) -> bool {
    s.double_riichi
}

/// Whether the hand shows the pattern.
fn yaku_check_daburu_riichi(i: &YakuCheckInput) -> (r: bool)
    ensures
        r == daburu_riichi(i.situation()),
{
    i.double_riichi
}

/// A list of `n` entries, all of them `false`.
fn unmarked(n: usize) -> (r: Vec<bool>)
    ensures
        r.len() == n,
        forall|k: int| 0 <= k < n ==> !#[trigger] r[k],
{
    let mut r: Vec<bool> = Vec::new();
    let mut k: usize = 0;
    while k < n
        invariant
            0 <= k <= n,
            r.len() == k,
            forall|m: int| 0 <= m < k ==> !#[trigger] r[m],
        decreases n - k,
    {
        r.push(false);
        k += 1;
    }
    r
}

/// A triplet or a quad of the numeral `c + 1` of some suit.
pub open spec fn is_number_set(v: Seq<i8>, c: int) -> bool {
    is_kotsu(v) && !is_honor(face(v[0])) && (face(v[0]) - 1) % 9 == c
}

/// How many of the first `n` blocks are triplets or quads of the numeral `c + 1`.
pub open spec fn number_sets(p: Seq<Seq<i8>>, n: int, c: int) -> int
    decreases n,
{
    if n <= 0 {
        0
    } else {
        number_sets(p, n - 1, c) + if is_number_set(p[n - 1], c) {
            1int
        } else {
            0
        }
    }
}

/// Triplets of one numeral in all three suits.
pub open spec fn sanshoku_doukou(s: Situation) -> bool {
    exists|c: int| 0 <= c < 9 && #[trigger] number_sets(s.pattern, s.pattern.len() as int, c) == 3
}

/// Whether the hand shows the pattern.
fn yaku_check_sanshoku_doukou(i: &YakuCheckInput) -> (r: bool)
    requires
        proper(i.situation()),
    ensures
        r == sanshoku_doukou(i.situation()),
{
    let ghost p = views(i.current_pattern@);
    let mut res: Vec<usize> = Vec::new();
    let mut z: usize = 0;
    while z < 9
        invariant
            0 <= z <= 9,
            res.len() == z,
            forall|c: int| 0 <= c < z ==> #[trigger] res[c] == 0,
        decreases 9 - z,
    {
        res.push(0);
        z += 1;
    }
    let mut j: usize = 0;
    while j < i.current_pattern.len()
        invariant
            0 <= j <= i.current_pattern.len(),
            p == views(i.current_pattern@),
            proper_blocks(p),
            res.len() == 9,
            forall|c: int| 0 <= c < 9 ==> #[trigger] res[c] == number_sets(p, j as int, c),
            forall|c: int| 0 <= c < 9 ==> #[trigger] res[c] <= j,
        decreases i.current_pattern.len() - j,
    {
        let v = &i.current_pattern[j];
        assert(p[j as int] == v@);
        assert(proper_block(p[j as int]));
        assert(1 <= face(v@[0]) <= 34);
        let abs: i8 = face_of(v[0]);
        let ghost before = res@;
        if v.len() >= 3 && v[0] == v[1] && !TileSet::Honors.contains(abs) {
            let at: usize = ((abs - 1) % 9) as usize;
            res[at] = res[at] + 1;
        }
        j += 1;
        assert forall|c: int| 0 <= c < 9 implies #[trigger] res[c] == number_sets(p, j as int, c)
            && res[c] <= j by {
            assert(before[c] == number_sets(p, j - 1, c));
            assert(before[c] <= j - 1);
        }
    }
    let mut c: usize = 0;
    while c < 9
        invariant
            0 <= c <= 9,
            res.len() == 9,
            p == views(i.current_pattern@),
            forall|m: int|
                0 <= m < 9 ==> #[trigger] res[m] == number_sets(p, p.len() as int, m),
            forall|m: int| 0 <= m < c ==> #[trigger] number_sets(p, p.len() as int, m) != 3,
        decreases 9 - c,
    {
        if res[c] == 3 {
            assert(number_sets(p, p.len() as int, c as int) == 3);
            assert(i.situation().pattern == p);
            assert(sanshoku_doukou(i.situation()));
            return true;
        }
        c += 1;
    }
    false
}

/// Whether an open triplet of the kind that `t` names is among the declared melds.
pub open spec fn open_kotsu_of(furo: Seq<Seq<i8>>, t: i8) -> bool {
    exists|j: int|
        0 <= j < furo.len() && (#[trigger] furo[j])[0] > 0 && furo[j][0] == furo[j][1]
            && furo[j][0] == t
}

/// Whether a block was not declared: none of the declared melds packs into its number.
pub open spec fn concealed(furo: Seq<Seq<i8>>, v: Seq<i8>) -> bool {
    forall|j: int| 0 <= j < furo.len() ==> !same_digest(v, #[trigger] furo[j])
}

/// Whether the winning tile can be taken as part of a concealed run.
pub open spec fn completes_run(s: Situation) -> bool {
    exists|j: int|
        0 <= j < s.pattern.len() && concealed(s.furo, #[trigger] s.pattern[j]) && s.pattern[j][0]
            != s.pattern[j][1] && s.pattern[j].contains(s.taken_tile)
}

/// Whether a triplet counts as concealed: it was not declared open, and it was not
/// completed by another player's discard, unless that tile can be taken as part of a
/// concealed run as well.
pub open spec fn is_ankou(s: Situation, v: Seq<i8>) -> bool {
    &&& is_kotsu(v)
    &&& !open_kotsu_of(s.furo, v[0])
    &&& !(!s.is_tsumo && s.taken_tile != -1 && v.contains(s.taken_tile) && !(s.taken_tile
        == v[0] && completes_run(s)))
}

/// How many of the first `n` blocks are concealed triplets.
pub open spec fn ankou_count(s: Situation, n: int) -> int
    decreases n,
{
    if n <= 0 {
        0
    } else {
        ankou_count(s, n - 1) + if is_ankou(s, s.pattern[n - 1]) {
            1int
        } else {
            0
        }
    }
}

/// Three concealed triplets.
pub open spec fn sanankou(s: Situation) -> bool {
    ankou_count(s, s.pattern.len() as int) == 3
}

/// Whether an open triplet of the kind `t` is declared.
fn has_open_kotsu(furo: &Vec<Vec<i8>>, t: i8) -> (r: bool)
    requires
        proper_blocks(views(furo@)),
    ensures
        r == open_kotsu_of(views(furo@), t),
{
    let ghost f = views(furo@);
    let mut j: usize = 0;
    while j < furo.len()
        invariant
            0 <= j <= furo.len(),
            f == views(furo@),
            proper_blocks(f),
            forall|m: int|
                0 <= m < j ==> !((#[trigger] f[m])[0] > 0 && f[m][0] == f[m][1] && f[m][0] == t),
        decreases furo.len() - j,
    {
        let v = &furo[j];
        assert(f[j as int] == v@);
        assert(proper_block(f[j as int]));
        if v[0] > 0 && v[0] == v[1] && v[0] == t {
            return true;
        }
        j += 1;
    }
    false
}

/// Whether the block `v` was not declared.
fn is_concealed(furo: &Vec<Vec<i8>>, v: &Vec<i8>) -> (r: bool)
    ensures
        r == concealed(views(furo@), v@),
{
    let ghost f = views(furo@);
    let mut j: usize = 0;
    while j < furo.len()
        invariant
            0 <= j <= furo.len(),
            f == views(furo@),
            forall|m: int| 0 <= m < j ==> !same_digest(v@, #[trigger] f[m]),
        decreases furo.len() - j,
    {
        assert(f[j as int] == furo[j as int]@);
        if digests_agree(v, &furo[j]) {
            return false;
        }
        j += 1;
    }
    true
}

/// Whether the winning tile can be taken as part of a concealed run.
fn can_complete_run(i: &YakuCheckInput) -> (r: bool)
    requires
        proper(i.situation()),
    ensures
        r == completes_run(i.situation()),
{
    let ghost s = i.situation();
    let mut j: usize = 0;
    while j < i.current_pattern.len()
        invariant
            0 <= j <= i.current_pattern.len(),
            s == i.situation(),
            proper(s),
            forall|m: int|
                0 <= m < j ==> !(concealed(s.furo, #[trigger] s.pattern[m]) && s.pattern[m][0]
                    != s.pattern[m][1] && s.pattern[m].contains(s.taken_tile)),
        decreases i.current_pattern.len() - j,
    {
        let v = &i.current_pattern[j];
        assert(s.pattern[j as int] == v@);
        assert(proper_block(s.pattern[j as int]));
        if is_concealed(i.furo, v) && v[0] != v[1] && block_has(v, i.taken_tile) {
            return true;
        }
        j += 1;
    }
    false
}

/// Whether the hand shows the pattern.
fn yaku_check_sanankou(i: &YakuCheckInput) -> (r: bool)
    requires
        proper(i.situation()),
    ensures
        r == sanankou(i.situation()),
{
    let ghost s = i.situation();
    let by_run = can_complete_run(i);
    let mut kotsu: usize = 0;
    let mut j: usize = 0;
    while j < i.current_pattern.len()
        invariant
            0 <= j <= i.current_pattern.len(),
            s == i.situation(),
            proper(s),
            by_run == completes_run(s),
            kotsu == ankou_count(s, j as int),
            kotsu <= j,
        decreases i.current_pattern.len() - j,
    {
        let v = &i.current_pattern[j];
        assert(s.pattern[j as int] == v@);
        assert(proper_block(s.pattern[j as int]));
        let skip = has_open_kotsu(i.furo, v[0]) || (v.len() >= 3 && !i.is_tsumo && i.taken_tile
            != -1 && v[0] == v[1] && block_has(v, i.taken_tile) && !(i.taken_tile == v[0]
            && by_run));
        if !skip && v.len() >= 3 && v[0] == v[1] {
            kotsu += 1;
        }
        j += 1;
    }
    kotsu == 3
}

/// The third of a suit in which the second tile of a run lies: 0 for a run from 1 to 3,
/// 1 for one from 4 to 6, 2 for one from 7 to 9, and 3 where the tile is a 9.
pub open spec fn third_of(t: i8) -> int {
    if t < 1 {
        0
    } else if (t - 1) % 9 <= 1 {
        0
    } else if (t - 1) % 9 <= 4 {
        1
    } else if (t - 1) % 9 <= 7 {
        2
    } else {
        3
    }
}

/// A run that is the part `c` of a straight in suit `r`.
pub open spec fn is_straight_part(v: Seq<i8>, r: int, c: int) -> bool {
    v[0] != v[1] && is_chi_start(v[0] as int) && (v[0] - 1) / 9 == r && third_of(v[1]) == c
}

/// Whether the pattern holds the part `c` of a straight in suit `r`.
pub open spec fn has_straight_part(p: Seq<Seq<i8>>, n: int, r: int, c: int) -> bool {
    exists|j: int| 0 <= j < n && is_straight_part(#[trigger] p[j], r, c)
}

/// A straight: the runs 1-2-3, 4-5-6 and 7-8-9 of one suit.
pub open spec fn ittsu(s: Situation) -> bool {
    let p = s.pattern;
    let n = p.len() as int;
    exists|r: int|
        0 <= r < 3 && #[trigger] has_straight_part(p, n, r, 0) && has_straight_part(p, n, r, 1)
            && has_straight_part(p, n, r, 2)
}

/// Whether the hand shows the pattern.
fn yaku_check_ittsu(i: &YakuCheckInput) -> (r: bool)
    requires
        proper(i.situation()),
    ensures
        r == ittsu(i.situation()),
{
    let ghost p = views(i.current_pattern@);
    let mut res = unmarked(9);
    let mut j: usize = 0;
    while j < i.current_pattern.len()
        invariant
            0 <= j <= i.current_pattern.len(),
            p == views(i.current_pattern@),
            proper_blocks(p),
            res.len() == 9,
            forall|r: int, c: int|
                0 <= r < 3 && 0 <= c < 3 ==> res[3 * r + c] == #[trigger] has_straight_part(
                    p,
                    j as int,
                    r,
                    c,
                ),
        decreases i.current_pattern.len() - j,
    {
        let v = &i.current_pattern[j];
        assert(p[j as int] == v@);
        assert(proper_block(p[j as int]));
        let ghost before = res@;
        if v[0] != v[1] && TileSet::ChiStart.contains(v[0]) {
            let row: usize = ((v[0] - 1) / 9) as usize;
            let x: i8 = if v[1] < 1 {
                0
            } else {
                (v[1] - 1) % 9
            };
            let col: usize = if x <= 1 {
                0
            } else if x <= 4 {
                1
            } else if x <= 7 {
                2
            } else {
                3
            };
            if col < 3 {
                res[3 * row + col] = true;
            }
        }
        j += 1;
        assert forall|r: int, c: int| 0 <= r < 3 && 0 <= c < 3 implies res[3 * r + c]
            == #[trigger] has_straight_part(p, j as int, r, c) by {
            assert(before[3 * r + c] == has_straight_part(p, j - 1, r, c));
            if has_straight_part(p, j as int, r, c) {
                let m = choose|m: int| 0 <= m < j && is_straight_part(#[trigger] p[m], r, c);
                if m < j - 1 {
                    assert(has_straight_part(p, j - 1, r, c));
                }
            }
            if has_straight_part(p, j - 1, r, c) {
                let m = choose|m: int| 0 <= m < j - 1 && is_straight_part(#[trigger] p[m], r, c);
                assert(is_straight_part(p[m], r, c));
            }
            if is_straight_part(p[j - 1], r, c) {
                assert(has_straight_part(p, j as int, r, c));
            }
        }
    }
    let ghost n = p.len() as int;
    assert(res[0] == has_straight_part(p, n, 0, 0) && res[1] == has_straight_part(p, n, 0, 1)
        && res[2] == has_straight_part(p, n, 0, 2));
    assert(res[3] == has_straight_part(p, n, 1, 0) && res[4] == has_straight_part(p, n, 1, 1)
        && res[5] == has_straight_part(p, n, 1, 2));
    assert(res[6] == has_straight_part(p, n, 2, 0) && res[7] == has_straight_part(p, n, 2, 1)
        && res[8] == has_straight_part(p, n, 2, 2));
    (res[0] && res[1] && res[2]) || (res[3] && res[4] && res[5]) || (res[6] && res[7] && res[8])
}

/// The suit in which a run begins, by its first tile.
pub open spec fn row_of(t: i8) -> int {
    if t < 1 {
        0
    } else {
        (t - 1) / 9
    }
}

/// A run in suit `r` whose second tile is the numeral `c + 1`.
pub open spec fn is_run_at(v: Seq<i8>, r: int, c: int) -> bool {
    v[0] != v[1] && row_of(v[0]) == r && v[1] >= 1 && (v[1] - 1) % 9 == c
}

/// Whether the pattern holds a run in suit `r` whose second tile is the numeral `c + 1`.
pub open spec fn has_run_at(p: Seq<Seq<i8>>, n: int, r: int, c: int) -> bool {
    exists|j: int| 0 <= j < n && is_run_at(#[trigger] p[j], r, c)
}

/// The same run in all three suits.
pub open spec fn sanshoku(s: Situation) -> bool {
    let p = s.pattern;
    let n = p.len() as int;
    exists|c: int|
        0 <= c < 9 && #[trigger] has_run_at(p, n, 0, c) && has_run_at(p, n, 1, c) && has_run_at(
            p,
            n,
            2,
            c,
        )
}

/// Whether the hand shows the pattern.
fn yaku_check_sanshoku(i: &YakuCheckInput) -> (r: bool)
    requires
        proper(i.situation()),
    ensures
        r == sanshoku(i.situation()),
{
    let ghost p = views(i.current_pattern@);
    let mut res = unmarked(27);
    let mut j: usize = 0;
    while j < i.current_pattern.len()
        invariant
            0 <= j <= i.current_pattern.len(),
            p == views(i.current_pattern@),
            proper_blocks(p),
            res.len() == 27,
            forall|r: int, c: int|
                0 <= r < 3 && 0 <= c < 9 ==> res[9 * r + c] == #[trigger] has_run_at(
                    p,
                    j as int,
                    r,
                    c,
                ),
        decreases i.current_pattern.len() - j,
    {
        let v = &i.current_pattern[j];
        assert(p[j as int] == v@);
        assert(proper_block(p[j as int]));
        let ghost before = res@;
        if v[0] != v[1] && v[1] >= 1 {
            let row: usize = if v[0] < 1 {
                0
            } else {
                ((v[0] - 1) / 9) as usize
            };
            if row < 3 {
                let col: usize = ((v[1] - 1) % 9) as usize;
                res[9 * row + col] = true;
            }
        }
        j += 1;
        assert forall|r: int, c: int| 0 <= r < 3 && 0 <= c < 9 implies res[9 * r + c]
            == #[trigger] has_run_at(p, j as int, r, c) by {
            assert(before[9 * r + c] == has_run_at(p, j - 1, r, c));
            if has_run_at(p, j as int, r, c) {
                let m = choose|m: int| 0 <= m < j && is_run_at(#[trigger] p[m], r, c);
                if m < j - 1 {
                    assert(has_run_at(p, j - 1, r, c));
                }
            }
            if has_run_at(p, j - 1, r, c) {
                let m = choose|m: int| 0 <= m < j - 1 && is_run_at(#[trigger] p[m], r, c);
                assert(is_run_at(p[m], r, c));
            }
            if is_run_at(p[j - 1], r, c) {
                assert(has_run_at(p, j as int, r, c));
            }
        }
    }
    let ghost n = p.len() as int;
    let mut c: usize = 0;
    while c < 9
        invariant
            0 <= c <= 9,
            n == p.len(),
            p == views(i.current_pattern@),
            res.len() == 27,
            forall|r: int, m: int|
                0 <= r < 3 && 0 <= m < 9 ==> res[9 * r + m] == #[trigger] has_run_at(p, n, r, m),
            forall|m: int|
                0 <= m < c ==> !(#[trigger] has_run_at(p, n, 0, m) && has_run_at(p, n, 1, m)
                    && has_run_at(p, n, 2, m)),
        decreases 9 - c,
    {
        assert(res[9 * 0 + c] == has_run_at(p, n, 0, c as int));
        assert(res[9 * 1 + c] == has_run_at(p, n, 1, c as int));
        assert(res[9 * 2 + c] == has_run_at(p, n, 2, c as int));
        if res[c] && res[9 + c] && res[18 + c] {
            assert(has_run_at(p, n, 0, c as int) && has_run_at(p, n, 1, c as int) && has_run_at(
                p,
                n,
                2,
                c as int,
            ));
            assert(i.situation().pattern == p);
            assert(sanshoku(i.situation()));
            return true;
        }
        c += 1;
    }
    false
}

/// A hand of simples only; an open one where the rules allow it.
pub open spec fn tanyao(s: Situation) -> bool {
    !(any_open(s.furo) && !s.allow_kuitan) && all_allowed(s.haipai, s.furo, TileSet::SimpleTiles)
}

/// Whether the hand shows the pattern.
fn yaku_check_tanyao(i: &YakuCheckInput) -> (r: bool)
    requires
        proper(i.situation()),
    ensures
        r == tanyao(i.situation()),
{
    if has_open_meld(i.furo) && !i.allow_kuitan {
        return false;
    }
    check_allowed(i.haipai, i.furo, TileSet::SimpleTiles)
}

/// The minipoints that a block brings with it when the hand is looked at for pinfu: a
/// quad brings them, and so do a triplet and a pair of a kind that counts.
pub open spec fn block_fu(s: Situation, v: Seq<i8>) -> int {
    if v.len() == 4 {
        if is_orphan(face(v[0])) {
            if v[0] > 0 {
                16
            } else {
                32
            }
        } else {
            if v[0] > 0 {
                8
            } else {
                16
            }
        }
    } else if v.len() == 2 {
        if v[0] == s.bakaze || v[0] == s.jikaze || is_dragon(v[0] as int) {
            2
        } else {
            0
        }
    } else if v.len() == 3 && v[0] == v[1] {
        if is_orphan(v[0] as int) {
            4
        } else {
            2
        }
    } else {
        0
    }
}

/// The winning tile is the pair.
pub open spec fn waits_tanki(s: Situation) -> bool {
    exists|j: int|
        0 <= j < s.pattern.len() && (#[trigger] s.pattern[j]).len() == 2 && s.pattern[j][0]
            == s.taken_tile
}

/// The winning tile completes a triplet.
pub open spec fn waits_shanpon(s: Situation) -> bool {
    exists|j: int|
        0 <= j < s.pattern.len() && (#[trigger] s.pattern[j]).len() == 3 && s.pattern[j][0]
            == s.pattern[j][1] && s.pattern[j][0] == s.taken_tile
}

/// The winning tile completes a block of three at one of its ends, and the other end is
/// no terminal: the wait had two sides.
pub open spec fn two_sided(v: Seq<i8>, t: i8) -> bool {
    v.len() == 3 && ((v[0] == t && !is_orphan(v[2] as int)) || (v[2] == t && !is_orphan(
        v[0] as int,
    )))
}

/// The winning tile completes a run that was open at both ends.
pub open spec fn waits_ryanmen(s: Situation) -> bool {
    exists|j: int| 0 <= j < s.pattern.len() && two_sided(#[trigger] s.pattern[j], s.taken_tile)
}

/// A hand without minipoints: nothing is declared, no block brings any, and the wait was
/// two-sided.
pub open spec fn pinfu(s: Situation) -> bool {
    &&& s.furo.len() == 0
    &&& forall|j: int| 0 <= j < s.pattern.len() ==> block_fu(s, #[trigger] s.pattern[j]) == 0
    &&& s.taken_tile != -1 ==> waits_shanpon(s) || waits_ryanmen(s) || waits_tanki(s)
    &&& !(waits_tanki(s) && !(s.taken_tile != -1 && waits_ryanmen(s)))
}

/// Whether the hand shows the pattern.
fn yaku_check_pinfu(i: &YakuCheckInput) -> (r: bool)
    requires
        proper(i.situation()),
    ensures
        r == pinfu(i.situation()),
{
    if i.furo.len() > 0 {
        return false;
    }
    let ghost s = i.situation();
    let mut fu: i32 = 0;
    let mut has_pair_fu = false;
    let mut can_be_ryanmen = false;
    let mut can_be_shanpon = false;
    let mut can_be_tanki = false;
    let mut j: usize = 0;
    while j < i.current_pattern.len()
        invariant
            0 <= j <= i.current_pattern.len() <= 1000,
            s == i.situation(),
            proper(s),
            0 <= fu <= 32 * j,
            (fu == 0) == (forall|m: int| 0 <= m < j ==> block_fu(s, #[trigger] s.pattern[m]) == 0),
            has_pair_fu == exists|m: int|
                0 <= m < j && (#[trigger] s.pattern[m]).len() == 2 && s.pattern[m][0]
                    == s.taken_tile,
            can_be_tanki == has_pair_fu,
            can_be_shanpon == exists|m: int|
                0 <= m < j && (#[trigger] s.pattern[m]).len() == 3 && s.pattern[m][0]
                    == s.pattern[m][1] && s.pattern[m][0] == s.taken_tile,
            can_be_ryanmen == exists|m: int|
                0 <= m < j && two_sided(#[trigger] s.pattern[m], s.taken_tile),
        decreases i.current_pattern.len() - j,
    {
        let v = &i.current_pattern[j];
        assert(s.pattern[j as int] == v@);
        assert(proper_block(s.pattern[j as int]));
        assert(1 <= face(v@[0]) <= 34);
        let ghost before = fu;
        if v.len() == 4 {
            fu += if is19(face_of(v[0])) {
                if v[0] > 0 {
                    16
                } else {
                    32
                }
            } else {
                if v[0] > 0 {
                    8
                } else {
                    16
                }
            };
        } else if v.len() == 2 {
            if v[0] == i.bakaze || v[0] == i.jikaze || v[0] == 32 || v[0] == 34 || v[0] == 33 {
                fu += 2;
            }
            if v[0] == i.taken_tile {
                has_pair_fu = true;
                can_be_tanki = true;
            }
        } else if v.len() == 3 {
            if v[0] == v[1] {
                fu += if is19(v[0]) {
                    4
                } else {
                    2
                };
            }
            if v[0] == v[1] && v[0] == i.taken_tile {
                can_be_shanpon = true;
            }
            if (v[0] == i.taken_tile && !is19(v[2])) || (v[2] == i.taken_tile && !is19(v[0])) {
                can_be_ryanmen = true;
            }
        }
        assert(fu == before + block_fu(s, v@));
        j += 1;
    }
    if i.taken_tile != -1 {
        if !can_be_shanpon && !can_be_ryanmen && !can_be_tanki {
            fu += 2;
        }
    } else {
        can_be_ryanmen = false;
    }
    if has_pair_fu && !can_be_ryanmen {
        fu += 2;
    }
    fu == 0
}

/// Two equal runs: the hand is not two pairs of equal runs, and one of its first four
/// blocks is a run that comes again among the blocks up to the fifth.
pub open spec fn iipeikou(s: Situation) -> bool {
    &&& !ryanpeikou(s)
    &&& exists|a: int, b: int|
        0 <= a < b <= 4 && b < s.pattern.len() && (#[trigger] s.pattern[a]).len() == 3
            && s.pattern[a][0] != s.pattern[a][1] && s.pattern[a] == #[trigger] s.pattern[b]
}

/// Whether the hand shows the pattern.
fn yaku_check_iipeikou(i: &YakuCheckInput) -> (r: bool)
    requires
        proper(i.situation()),
    ensures
        r == iipeikou(i.situation()),
{
    if yaku_check_ryanpeikou(i) {
        return false;
    }
    let ghost p = views(i.current_pattern@);
    let mut idx: usize = 0;
    while idx < i.current_pattern.len()
        invariant
            0 <= idx <= i.current_pattern.len(),
            p == views(i.current_pattern@),
            proper_blocks(p),
            !ryanpeikou(i.situation()),
            forall|a: int, b: int|
                0 <= a < idx && a < b <= 4 && b < p.len() ==> !((#[trigger] p[a]).len() == 3
                    && p[a][0] != p[a][1] && p[a] == #[trigger] p[b]),
        decreases i.current_pattern.len() - idx,
    {
        let v = &i.current_pattern[idx];
        assert(p[idx as int] == v@);
        assert(proper_block(p[idx as int]));
        if v.len() == 3 && v[0] != v[1] {
            let mut idxc: usize = idx;
            while idxc < 4 && idxc + 1 < i.current_pattern.len()
                invariant
                    idx <= idxc < i.current_pattern.len(),
                    idxc <= 4 || idxc == idx,
                    p == views(i.current_pattern@),
                    p[idx as int] == v@,
                    v@.len() == 3 && v@[0] != v@[1],
                    !ryanpeikou(i.situation()),
                    forall|b: int| idx < b <= idxc ==> v@ != #[trigger] p[b],
                decreases i.current_pattern.len() - idxc,
            {
                idxc += 1;
                assert(p[idxc as int] == i.current_pattern[idxc as int]@);
                if same_block(v, &i.current_pattern[idxc]) {
                    assert(p[idx as int] == p[idxc as int]);
                    assert(i.situation().pattern == p);
                    assert(iipeikou(i.situation()));
                    return true;
                }
            }
        }
        idx += 1;
    }
    false
}

/// A self-drawn win. It counts for a concealed hand.
pub open spec fn menzentsumo(s: Situation) -> bool {
    s.is_tsumo
}

/// Whether the hand shows the pattern.
fn yaku_check_menzentsumo(i: &YakuCheckInput) -> (r: bool)
    ensures
        r == menzentsumo(i.situation()),
{
    i.is_tsumo
}

/// A ready hand declared, but not in the first turn.
pub open spec fn riichi(s: Situation) -> bool {
    s.riichi && !daburu_riichi(s)
}

/// Whether the hand shows the pattern.
fn yaku_check_riichi(i: &YakuCheckInput) -> (r: bool)
    ensures
        r == riichi(i.situation()),
{
    i.riichi && !yaku_check_daburu_riichi(i)
}

/// A win within one turn of declaring a ready hand.
pub open spec fn ippatsu(s: Situation) -> bool {
    s.ippatsu
}

/// Whether the hand shows the pattern.
fn yaku_check_ippatsu(i: &YakuCheckInput) -> (r: bool)
    ensures
        r == ippatsu(i.situation()),
{
    i.ippatsu
}

/// Whether a quad is among the declared melds.
pub open spec fn any_quad(furo: Seq<Seq<i8>>) -> bool {
    exists|j: int| 0 <= j < furo.len() && (#[trigger] furo[j]).len() == 4
}

/// A win by the tile drawn after declaring a quad.
pub open spec fn rinshan(s: Situation) -> bool {
    any_quad(s.furo) && s.after_kan && !s.last_tile && s.is_tsumo
}

/// Whether the hand shows the pattern.
fn yaku_check_rinshan(i: &YakuCheckInput) -> (r: bool)
    ensures
        r == rinshan(i.situation()),
{
    let ghost f = views(i.furo@);
    let mut has_kantsu = false;
    let mut j: usize = 0;
    while j < i.furo.len()
        invariant
            0 <= j <= i.furo.len(),
            f == views(i.furo@),
            has_kantsu == exists|m: int| 0 <= m < j && (#[trigger] f[m]).len() == 4,
        decreases i.furo.len() - j,
    {
        assert(f[j as int] == i.furo[j as int]@);
        if i.furo[j].len() == 4 {
            has_kantsu = true;
        }
        j += 1;
    }
    has_kantsu && i.after_kan && !i.last_tile && i.is_tsumo
}

/// A win by the tile with which another player extends a triplet to a quad.
pub open spec fn chankan(s: Situation) -> bool {
    s.after_kan && !s.last_tile && !s.is_tsumo
}

/// Whether the hand shows the pattern.
fn yaku_check_chankan(i: &YakuCheckInput) -> (r: bool)
    ensures
        r == chankan(i.situation()),
{
    i.after_kan && !i.last_tile && !i.is_tsumo
}

/// A self-drawn win by the last tile.
pub open spec fn haitei(s: Situation) -> bool {
    s.last_tile && s.is_tsumo
}

/// Whether the hand shows the pattern.
fn yaku_check_haitei(i: &YakuCheckInput) -> (r: bool)
    ensures
        r == haitei(i.situation()),
{
    i.last_tile && i.is_tsumo
}

/// A win by the last discard.
pub open spec fn houtei(s: Situation) -> bool {
    s.last_tile && !s.is_tsumo
}

/// Whether the hand shows the pattern.
fn yaku_check_houtei(i: &YakuCheckInput) -> (r: bool)
    ensures
        r == houtei(i.situation()),
{
    i.last_tile && !i.is_tsumo
}

/// A triplet of the wind `wind`, which is the wind of the round.
pub open spec fn round_wind(s: Situation, wind: i8) -> bool {
    s.bakaze == wind && yakuhai(s.pattern, s.jikaze, s.bakaze, wind)
}

/// A triplet of the wind `wind`, which is the wind of the seat.
pub open spec fn own_wind(s: Situation, wind: i8) -> bool {
    s.jikaze == wind && yakuhai(s.pattern, s.jikaze, s.bakaze, wind)
}

/// A triplet of the dragon `which`.
pub open spec fn dragon(s: Situation, which: i8) -> bool {
    yakuhai(s.pattern, s.jikaze, s.bakaze, which)
}

/// Whether the hand shows the pattern.
fn yaku_check_round_wind_east(i: &YakuCheckInput) -> (r: bool)
    requires
        proper(i.situation()),
    ensures
        r == round_wind(i.situation(), 28),
{
    i.bakaze == 28 && check_yakuhai(i.current_pattern, i.jikaze, i.bakaze, 28)
}

/// Whether the hand shows the pattern.
fn yaku_check_round_wind_south(i: &YakuCheckInput) -> (r: bool)
    requires
        proper(i.situation()),
    ensures
        r == round_wind(i.situation(), 29),
{
    i.bakaze == 29 && check_yakuhai(i.current_pattern, i.jikaze, i.bakaze, 29)
}

/// Whether the hand shows the pattern.
fn yaku_check_round_wind_west(i: &YakuCheckInput) -> (r: bool)
    requires
        proper(i.situation()),
    ensures
        r == round_wind(i.situation(), 30),
{
    i.bakaze == 30 && check_yakuhai(i.current_pattern, i.jikaze, i.bakaze, 30)
}

/// Whether the hand shows the pattern.
fn yaku_check_round_wind_north(i: &YakuCheckInput) -> (r: bool)
    requires
        proper(i.situation()),
    ensures
        r == round_wind(i.situation(), 31),
{
    i.bakaze == 31 && check_yakuhai(i.current_pattern, i.jikaze, i.bakaze, 31)
}

/// Whether the hand shows the pattern.
fn yaku_check_own_wind_east(i: &YakuCheckInput) -> (r: bool)
    requires
        proper(i.situation()),
    ensures
        r == own_wind(i.situation(), 28),
{
    i.jikaze == 28 && check_yakuhai(i.current_pattern, i.jikaze, i.bakaze, 28)
}

/// Whether the hand shows the pattern.
fn yaku_check_own_wind_south(i: &YakuCheckInput) -> (r: bool)
    requires
        proper(i.situation()),
    ensures
        r == own_wind(i.situation(), 29),
{
    i.jikaze == 29 && check_yakuhai(i.current_pattern, i.jikaze, i.bakaze, 29)
}

/// Whether the hand shows the pattern.
fn yaku_check_own_wind_west(i: &YakuCheckInput) -> (r: bool)
    requires
        proper(i.situation()),
    ensures
        r == own_wind(i.situation(), 30),
{
    i.jikaze == 30 && check_yakuhai(i.current_pattern, i.jikaze, i.bakaze, 30)
}

/// Whether the hand shows the pattern.
fn yaku_check_own_wind_north(i: &YakuCheckInput) -> (r: bool)
    requires
        proper(i.situation()),
    ensures
        r == own_wind(i.situation(), 31),
{
    i.jikaze == 31 && check_yakuhai(i.current_pattern, i.jikaze, i.bakaze, 31)
}

/// Whether the hand shows the pattern.
fn yaku_check_haku(i: &YakuCheckInput) -> (r: bool)
    requires
        proper(i.situation()),
    ensures
        r == dragon(i.situation(), 32),
{
    check_yakuhai(i.current_pattern, i.jikaze, i.bakaze, 32)
}

/// Whether the hand shows the pattern.
fn yaku_check_hatsu(i: &YakuCheckInput) -> (r: bool)
    requires
        proper(i.situation()),
    ensures
        r == dragon(i.situation(), 33),
{
    check_yakuhai(i.current_pattern, i.jikaze, i.bakaze, 33)
}

/// Whether the hand shows the pattern.
fn yaku_check_chun(i: &YakuCheckInput) -> (r: bool)
    requires
        proper(i.situation()),
    ensures
        r == dragon(i.situation(), 34),
{
    check_yakuhai(i.current_pattern, i.jikaze, i.bakaze, 34)
}

/// How many scoring patterns there are. They are numbered from 0, strongest first.
pub const YAKU_COUNT: usize = 53;

/// A pattern that is a yakuman, `times` over where double yakuman are allowed.
pub open spec fn yakuman_pattern(times: i8, concealed_only: bool, local: bool) -> YakuCheck {
    YakuCheck {
        is_local: local,
        yakuman: times,
        han: 0,
        is_menzen_only: concealed_only,
        is_furo_minus: false,
    }
}

/// A pattern that is worth `han`, one less in an open hand if it is `lowered` there.
pub open spec fn han_pattern(han: i8, concealed_only: bool, lowered: bool) -> YakuCheck {
    YakuCheck {
        is_local: false,
        yakuman: 0,
        han,
        is_menzen_only: concealed_only,
        is_furo_minus: lowered,
    }
}

/// A pattern that is a yakuman.
fn yakuman_of(times: i8, concealed_only: bool, local: bool) -> (r: YakuCheck)
    ensures
        r == yakuman_pattern(times, concealed_only, local),
{
    YakuCheck {
        is_local: local,
        yakuman: times,
        han: 0,
        is_menzen_only: concealed_only,
        is_furo_minus: false,
    }
}

/// A pattern that is worth `han`.
fn han_of(han: i8, concealed_only: bool, lowered: bool) -> (r: YakuCheck)
    ensures
        r == han_pattern(han, concealed_only, lowered),
{
    YakuCheck {
        is_local: false,
        yakuman: 0,
        han,
        is_menzen_only: concealed_only,
        is_furo_minus: lowered,
    }
}

/// What the pattern with the number `y` is worth and when it counts.
pub open spec fn settings_of(y: int) -> YakuCheck {
    if y == 0 || y == 2 || y == 4 {
        yakuman_pattern(2, true, false)
    } else if y == 1 || y == 3 || y == 5 || y == 13 || y == 14 {
        yakuman_pattern(1, true, false)
    } else if y == 6 {
        yakuman_pattern(2, false, false)
    } else if 7 <= y <= 12 {
        yakuman_pattern(1, false, false)
    } else if y == 15 || y == 16 {
        yakuman_pattern(1, true, true)
    } else if y == 17 {
        han_pattern(6, false, true)
    } else if y == 18 || y == 20 {
        han_pattern(3, false, true)
    } else if y == 19 {
        han_pattern(3, true, false)
    } else if y == 21 || y == 30 || y == 31 {
        han_pattern(2, false, true)
    } else if 22 <= y <= 27 {
        han_pattern(2, false, false)
    } else if y == 28 || y == 29 {
        han_pattern(2, true, false)
    } else if y == 32 || (38 <= y <= 52) {
        han_pattern(1, false, false)
    } else {
        han_pattern(1, true, false)
    }
}

/// What the pattern with the number `y` is worth and when it counts.
pub fn yaku_settings(y: usize) -> (r: YakuCheck)
    requires
        y < YAKU_COUNT,
    ensures
        r == settings_of(y as int),
{
    match y {
        0 | 2 | 4 => yakuman_of(2, true, false),
        1 | 3 | 5 | 13 | 14 => yakuman_of(1, true, false),
        6 => yakuman_of(2, false, false),
        7..=12 => yakuman_of(1, false, false),
        15 | 16 => yakuman_of(1, true, true),
        17 => han_of(6, false, true),
        18 | 20 => han_of(3, false, true),
        19 => han_of(3, true, false),
        21 | 30 | 31 => han_of(2, false, true),
        22..=27 => han_of(2, false, false),
        28 | 29 => han_of(2, true, false),
        32 | 38..=52 => han_of(1, false, false),
        _ => han_of(1, true, false),
    }
}

/// Whether the hand shows the pattern with the number `y`.
pub open spec fn shows(y: int, s: Situation) -> bool {
    if y == 0 {
        kokushimusou_13_sides(s)
    } else if y == 1 {
        kokushimusou(s)
    } else if y == 2 {
        chuurenpoto_9_sides(s)
    } else if y == 3 {
        chuurenpoto(s)
    } else if y == 4 {
        suuankou_tanki(s)
    } else if y == 5 {
        suuankou(s)
    } else if y == 6 {
        daisuushi(s)
    } else if y == 7 {
        shosuushi(s)
    } else if y == 8 {
        daisangen(s)
    } else if y == 9 {
        tsuuiisou(s)
    } else if y == 10 {
        ryuuiisou(s)
    } else if y == 11 {
        chinroutou(s)
    } else if y == 12 {
        suukantsu(s)
    } else if y == 13 {
        tenhou(s)
    } else if y == 14 {
        chihou(s)
    } else if y == 15 {
        renhou(s)
    } else if y == 16 {
        daisharin(s)
    } else if y == 17 {
        chinitsu(s)
    } else if y == 18 {
        honitsu(s)
    } else if y == 19 {
        ryanpeikou(s)
    } else if y == 20 {
        junchan(s)
    } else if y == 21 {
        chanta(s)
    } else if y == 22 {
        toitoi(s)
    } else if y == 23 {
        honroutou(s)
    } else if y == 24 {
        sankantsu(s)
    } else if y == 25 {
        shosangen(s)
    } else if y == 26 {
        sanshoku_doukou(s)
    } else if y == 27 {
        sanankou(s)
    } else if y == 28 {
        chiitoitsu(s)
    } else if y == 29 {
        daburu_riichi(s)
    } else if y == 30 {
        ittsu(s)
    } else if y == 31 {
        sanshoku(s)
    } else if y == 32 {
        tanyao(s)
    } else if y == 33 {
        pinfu(s)
    } else if y == 34 {
        iipeikou(s)
    } else if y == 35 {
        menzentsumo(s)
    } else if y == 36 {
        riichi(s)
    } else if y == 37 {
        ippatsu(s)
    } else if y == 38 {
        rinshan(s)
    } else if y == 39 {
        chankan(s)
    } else if y == 40 {
        haitei(s)
    } else if y == 41 {
        houtei(s)
    } else if y == 42 {
        round_wind(s, 28)
    } else if y == 43 {
        round_wind(s, 29)
    } else if y == 44 {
        round_wind(s, 30)
    } else if y == 45 {
        round_wind(s, 31)
    } else if y == 46 {
        own_wind(s, 28)
    } else if y == 47 {
        own_wind(s, 29)
    } else if y == 48 {
        own_wind(s, 30)
    } else if y == 49 {
        own_wind(s, 31)
    } else if y == 50 {
        dragon(s, 32)
    } else if y == 51 {
        dragon(s, 33)
    } else {
        dragon(s, 34)
    }
}

/// Whether the hand shows the pattern with the number `y`.
pub fn check_yaku(y: usize, i: &YakuCheckInput) -> (r: bool)
    requires
        y < YAKU_COUNT,
        proper(i.situation()),
    ensures
        r == shows(y as int, i.situation()),
{
    match y {
        0 => yaku_check_kokushimusou_13_sides(i),
        1 => yaku_check_kokusimusou(i),
        2 => yaku_check_chuurenpoto_9_sides(i),
        3 => yaku_check_chuurenpoto(i),
        4 => yaku_check_suuankou_tanki(i),
        5 => yaku_check_suuankou(i),
        6 => yaku_check_daisuushi(i),
        7 => yaku_check_shosuushi(i),
        8 => yaku_check_daisangen(i),
        9 => yaku_check_tsuuiisou(i),
        10 => yaku_check_ryuuiisou(i),
        11 => yaku_check_chinroutou(i),
        12 => yaku_check_suukantsu(i),
        13 => yaku_check_tenhou(i),
        14 => yaku_check_chihou(i),
        15 => yaku_check_renhou(i),
        16 => yaku_check_daisharin(i),
        17 => yaku_check_chinitsu(i),
        18 => yaku_check_honitsu(i),
        19 => yaku_check_ryanpeikou(i),
        20 => yaku_check_junchan(i),
        21 => yaku_check_chanta(i),
        22 => yaku_check_toitoi(i),
        23 => yaku_check_honroutou(i),
        24 => yaku_check_sankantsu(i),
        25 => yaku_check_shosangen(i),
        26 => yaku_check_sanshoku_doukou(i),
        27 => yaku_check_sanankou(i),
        28 => yaku_check_chiitoitsu(i),
        29 => yaku_check_daburu_riichi(i),
        30 => yaku_check_ittsu(i),
        31 => yaku_check_sanshoku(i),
        32 => yaku_check_tanyao(i),
        33 => yaku_check_pinfu(i),
        34 => yaku_check_iipeikou(i),
        35 => yaku_check_menzentsumo(i),
        36 => yaku_check_riichi(i),
        37 => yaku_check_ippatsu(i),
        38 => yaku_check_rinshan(i),
        39 => yaku_check_chankan(i),
        40 => yaku_check_haitei(i),
        41 => yaku_check_houtei(i),
        42 => yaku_check_round_wind_east(i),
        43 => yaku_check_round_wind_south(i),
        44 => yaku_check_round_wind_west(i),
        45 => yaku_check_round_wind_north(i),
        46 => yaku_check_own_wind_east(i),
        47 => yaku_check_own_wind_south(i),
        48 => yaku_check_own_wind_west(i),
        49 => yaku_check_own_wind_north(i),
        50 => yaku_check_haku(i),
        51 => yaku_check_hatsu(i),
        _ => yaku_check_chun(i),
    }
}

} // verus!
