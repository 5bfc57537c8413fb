use crate::hand::{ints, total};
use vstd::prelude::*;

verus! {

/// The three numeral suits and the honors, in the order in which a hand lists them.
#[derive(Clone, Copy, Debug, PartialEq, Eq)]
pub enum Suit {
    Man,
    Pin,
    Sou,
    Honor,
}

impl Suit {
    /// Position of the suit group in a hand.
    pub open spec fn number(self) -> int {
        match self {
            Suit::Man => 0,
            Suit::Pin => 1,
            Suit::Sou => 2,
            Suit::Honor => 3,
        }
    }

    /// Position of the suit group in a hand.
    pub fn id(self) -> (r: i8)
        ensures
            r == self.number(),
    {
        match self {
            Suit::Man => 0,
            Suit::Pin => 1,
            Suit::Sou => 2,
            Suit::Honor => 3,
        }
    }
}

/// The numeral printed on a suited tile.
#[derive(Clone, Copy, Debug, PartialEq, Eq)]
pub enum Val {
    N1,
    N2,
    N3,
    N4,
    N5,
    N6,
    N7,
    N8,
    N9,
}

impl Val {
    /// The numeral as a number from 1 to 9.
    pub open spec fn number(self) -> int {
        match self {
            Val::N1 => 1,
            Val::N2 => 2,
            Val::N3 => 3,
            Val::N4 => 4,
            Val::N5 => 5,
            Val::N6 => 6,
            Val::N7 => 7,
            Val::N8 => 8,
            Val::N9 => 9,
        }
    }

    /// The numeral as a number from 1 to 9.
    pub fn id(self) -> (r: i8)
        ensures
            r == self.number(),
    {
        match self {
            Val::N1 => 1,
            Val::N2 => 2,
            Val::N3 => 3,
            Val::N4 => 4,
            Val::N5 => 5,
            Val::N6 => 6,
            Val::N7 => 7,
            Val::N8 => 8,
            Val::N9 => 9,
        }
    }
}

/// The 34 tile kinds: three suits of nine numerals, four winds, three dragons.
#[derive(Clone, Copy, Debug, PartialEq, Eq)]
pub enum Tiles {
    M1,
    M2,
    M3,
    M4,
    M5,
    M6,
    M7,
    M8,
    M9,
    P1,
    P2,
    P3,
    P4,
    P5,
    P6,
    P7,
    P8,
    P9,
    S1,
    S2,
    S3,
    S4,
    S5,
    S6,
    S7,
    S8,
    S9,
    E,
    S,
    W,
    N,
    WD,
    GD,
    RD,
}

impl Tiles {
    /// The kind as a number from 1 to 34, as tile lists and blocks write it.
    pub open spec fn number(self) -> int {
        match self {
            Tiles::M1 => 1,
            Tiles::M2 => 2,
            Tiles::M3 => 3,
            Tiles::M4 => 4,
            Tiles::M5 => 5,
            Tiles::M6 => 6,
            Tiles::M7 => 7,
            Tiles::M8 => 8,
            Tiles::M9 => 9,
            Tiles::P1 => 10,
            Tiles::P2 => 11,
            Tiles::P3 => 12,
            Tiles::P4 => 13,
            Tiles::P5 => 14,
            Tiles::P6 => 15,
            Tiles::P7 => 16,
            Tiles::P8 => 17,
            Tiles::P9 => 18,
            Tiles::S1 => 19,
            Tiles::S2 => 20,
            Tiles::S3 => 21,
            Tiles::S4 => 22,
            Tiles::S5 => 23,
            Tiles::S6 => 24,
            Tiles::S7 => 25,
            Tiles::S8 => 26,
            Tiles::S9 => 27,
            Tiles::E => 28,
            Tiles::S => 29,
            Tiles::W => 30,
            Tiles::N => 31,
            Tiles::WD => 32,
            Tiles::GD => 33,
            Tiles::RD => 34,
        }
    }

    /// The kind as a number from 1 to 34, as tile lists and blocks write it.
    pub fn id(self) -> (r: i8)
        ensures
            r == self.number(),
    {
        match self {
            Tiles::M1 => 1,
            Tiles::M2 => 2,
            Tiles::M3 => 3,
            Tiles::M4 => 4,
            Tiles::M5 => 5,
            Tiles::M6 => 6,
            Tiles::M7 => 7,
            Tiles::M8 => 8,
            Tiles::M9 => 9,
            Tiles::P1 => 10,
            Tiles::P2 => 11,
            Tiles::P3 => 12,
            Tiles::P4 => 13,
            Tiles::P5 => 14,
            Tiles::P6 => 15,
            Tiles::P7 => 16,
            Tiles::P8 => 17,
            Tiles::P9 => 18,
            Tiles::S1 => 19,
            Tiles::S2 => 20,
            Tiles::S3 => 21,
            Tiles::S4 => 22,
            Tiles::S5 => 23,
            Tiles::S6 => 24,
            Tiles::S7 => 25,
            Tiles::S8 => 26,
            Tiles::S9 => 27,
            Tiles::E => 28,
            Tiles::S => 29,
            Tiles::W => 30,
            Tiles::N => 31,
            Tiles::WD => 32,
            Tiles::GD => 33,
            Tiles::RD => 34,
        }
    }
}

/// The scoring patterns, strongest first, followed by the three kinds of bonus tile.
#[derive(Clone, Copy, Debug, PartialEq, Eq)]
pub enum Yaku {
    Kokushimusou13Sides,
    Kokushimusou,
    Chuurenpoto9Sides,
    Chuurenpoto,
    SuuankouTanki,
    Suuankou,
    Daisuushi,
    Shosuushi,
    Daisangen,
    Tsuuiisou,
    Ryuuiisou,
    Chinroutou,
    Suukantsu,
    Tenhou,
    Chihou,
    Renhou,
    Daisharin,
    Chinitsu,
    Honitsu,
    Ryanpeikou,
    Junchan,
    Chanta,
    Toitoi,
    Honroutou,
    Sankantsu,
    Shosangen,
    SanshokuDoukou,
    Sanankou,
    Chiitoitsu,
    DaburuRiichi,
    Ittsu,
    Sanshoku,
    Tanyao,
    Pinfu,
    Iipeikou,
    Menzentsumo,
    Riichi,
    Ippatsu,
    Rinshan,
    Chankan,
    Haitei,
    Houtei,
    RoundWindEast,
    RoundWindSouth,
    RoundWindWest,
    RoundWindNorth,
    OwnWindEast,
    OwnWindSouth,
    OwnWindWest,
    OwnWindNorth,
    Haku,
    Hatsu,
    Chun,
    Dora,
    Uradora,
    Akadora,
}

impl Yaku {
    /// The number under which a result lists the pattern.
    pub open spec fn number(self) -> int {
        match self {
            Yaku::Kokushimusou13Sides => 0,
            Yaku::Kokushimusou => 1,
            Yaku::Chuurenpoto9Sides => 2,
            Yaku::Chuurenpoto => 3,
            Yaku::SuuankouTanki => 4,
            Yaku::Suuankou => 5,
            Yaku::Daisuushi => 6,
            Yaku::Shosuushi => 7,
            Yaku::Daisangen => 8,
            Yaku::Tsuuiisou => 9,
            Yaku::Ryuuiisou => 10,
            Yaku::Chinroutou => 11,
            Yaku::Suukantsu => 12,
            Yaku::Tenhou => 13,
            Yaku::Chihou => 14,
            Yaku::Renhou => 15,
            Yaku::Daisharin => 16,
            Yaku::Chinitsu => 17,
            Yaku::Honitsu => 18,
            Yaku::Ryanpeikou => 19,
            Yaku::Junchan => 20,
            Yaku::Chanta => 21,
            Yaku::Toitoi => 22,
            Yaku::Honroutou => 23,
            Yaku::Sankantsu => 24,
            Yaku::Shosangen => 25,
            Yaku::SanshokuDoukou => 26,
            Yaku::Sanankou => 27,
            Yaku::Chiitoitsu => 28,
            Yaku::DaburuRiichi => 29,
            Yaku::Ittsu => 30,
            Yaku::Sanshoku => 31,
            Yaku::Tanyao => 32,
            Yaku::Pinfu => 33,
            Yaku::Iipeikou => 34,
            Yaku::Menzentsumo => 35,
            Yaku::Riichi => 36,
            Yaku::Ippatsu => 37,
            Yaku::Rinshan => 38,
            Yaku::Chankan => 39,
            Yaku::Haitei => 40,
            Yaku::Houtei => 41,
            Yaku::RoundWindEast => 42,
            Yaku::RoundWindSouth => 43,
            Yaku::RoundWindWest => 44,
            Yaku::RoundWindNorth => 45,
            Yaku::OwnWindEast => 46,
            Yaku::OwnWindSouth => 47,
            Yaku::OwnWindWest => 48,
            Yaku::OwnWindNorth => 49,
            Yaku::Haku => 50,
            Yaku::Hatsu => 51,
            Yaku::Chun => 52,
            Yaku::Dora => 53,
            Yaku::Uradora => 54,
            Yaku::Akadora => 55,
        }
    }

    /// The number under which a result lists the pattern.
    pub fn id(self) -> (r: i8)
        ensures
            r == self.number(),
    {
        match self {
            Yaku::Kokushimusou13Sides => 0,
            Yaku::Kokushimusou => 1,
            Yaku::Chuurenpoto9Sides => 2,
            Yaku::Chuurenpoto => 3,
            Yaku::SuuankouTanki => 4,
            Yaku::Suuankou => 5,
            Yaku::Daisuushi => 6,
            Yaku::Shosuushi => 7,
            Yaku::Daisangen => 8,
            Yaku::Tsuuiisou => 9,
            Yaku::Ryuuiisou => 10,
            Yaku::Chinroutou => 11,
            Yaku::Suukantsu => 12,
            Yaku::Tenhou => 13,
            Yaku::Chihou => 14,
            Yaku::Renhou => 15,
            Yaku::Daisharin => 16,
            Yaku::Chinitsu => 17,
            Yaku::Honitsu => 18,
            Yaku::Ryanpeikou => 19,
            Yaku::Junchan => 20,
            Yaku::Chanta => 21,
            Yaku::Toitoi => 22,
            Yaku::Honroutou => 23,
            Yaku::Sankantsu => 24,
            Yaku::Shosangen => 25,
            Yaku::SanshokuDoukou => 26,
            Yaku::Sanankou => 27,
            Yaku::Chiitoitsu => 28,
            Yaku::DaburuRiichi => 29,
            Yaku::Ittsu => 30,
            Yaku::Sanshoku => 31,
            Yaku::Tanyao => 32,
            Yaku::Pinfu => 33,
            Yaku::Iipeikou => 34,
            Yaku::Menzentsumo => 35,
            Yaku::Riichi => 36,
            Yaku::Ippatsu => 37,
            Yaku::Rinshan => 38,
            Yaku::Chankan => 39,
            Yaku::Haitei => 40,
            Yaku::Houtei => 41,
            Yaku::RoundWindEast => 42,
            Yaku::RoundWindSouth => 43,
            Yaku::RoundWindWest => 44,
            Yaku::RoundWindNorth => 45,
            Yaku::OwnWindEast => 46,
            Yaku::OwnWindSouth => 47,
            Yaku::OwnWindWest => 48,
            Yaku::OwnWindNorth => 49,
            Yaku::Haku => 50,
            Yaku::Hatsu => 51,
            Yaku::Chun => 52,
            Yaku::Dora => 53,
            Yaku::Uradora => 54,
            Yaku::Akadora => 55,
        }
    }
}

/// The thirteen terminal and honor kinds, as tile numbers.
pub open spec fn orphan_tiles() -> Seq<i8> {
    seq![1i8, 9, 10, 18, 19, 27, 28, 29, 30, 31, 32, 33, 34]
}

/// Whether `tile` is the 1 or 9 of a suit, or an honor.
pub open spec fn is_orphan(tile: int) -> bool {
    tile == 1 || tile == 9 || tile == 10 || tile == 18 || tile == 19 || (27 <= tile <= 34)
}

/// Rounding up to a multiple of `unit`.
pub open spec fn round_up(val: int, unit: int) -> int
    recommends
        unit > 0,
{
    if val % unit == 0 {
        val
    } else {
        val - val % unit + unit
    }
}

/// How many different values occur in `s`.
pub open spec fn distinct_count(s: Seq<i8>) -> nat
    decreases s.len(),
{
    if s.len() == 0 {
        0
    } else {
        distinct_count(s.drop_last()) + if s.drop_last().contains(s.last()) {
            0nat
        } else {
            1nat
        }
    }
}

/// What a declared set must look like: two to four tiles that are all the same kind, or
/// that hold three different kinds of which the first three tiles ascend by one.
pub open spec fn proper_open_set(s: Seq<i8>) -> bool {
    &&& 2 <= s.len() <= 4
    &&& (distinct_count(s) == 1 || (distinct_count(s) == 3 && s[1] - s[0] == 1 && s[2] - s[1]
        == 1))
}

/// The thirteen terminal and honor kinds.
pub fn kokushi_idx() -> (r: [i8; 13])
    ensures
        r@ == orphan_tiles(),
{
    let r: [i8; 13] = [1, 9, 10, 18, 19, 27, 28, 29, 30, 31, 32, 33, 34];
    assert(r@ =~= orphan_tiles());
    r
}

/// Adds up the entries, in the width of an entry.
pub fn sum(haipai: &Vec<i8>) -> (r: i8)
    requires
        forall|n: int|
            0 <= n <= haipai.len() ==> -128 <= #[trigger] total(ints(haipai@).take(n)) <= 127,
    ensures
        r == total(ints(haipai@)),
{
    let mut acc: i8 = 0;
    let mut i: usize = 0;
    while i < haipai.len()
        invariant
            0 <= i <= haipai.len(),
            acc == total(ints(haipai@).take(i as int)),
            forall|n: int|
                0 <= n <= haipai.len() ==> -128 <= #[trigger] total(ints(haipai@).take(n)) <= 127,
        decreases haipai.len() - i,
    {
        proof {
            let next = ints(haipai@).take(i + 1);
            assert(next.drop_last() =~= ints(haipai@).take(i as int));
            assert(next.last() == haipai[i as int]);
            assert(-128 <= total(ints(haipai@).take(i + 1)) <= 127);
        }
        acc = acc + haipai[i];
        i += 1;
    }
    proof {
        assert(ints(haipai@).take(haipai.len() as int) =~= ints(haipai@));
    }
    acc
}

/// Adds up the entries without the limit of an entry's width.
pub(crate) fn tally(counts: &Vec<i8>) -> (r: i32)
    requires
        counts.len() <= 0x100_0000,
    ensures
        r == total(ints(counts@)),
{
    let mut acc: i32 = 0;
    let mut i: usize = 0;
    while i < counts.len()
        invariant
            0 <= i <= counts.len(),
            counts.len() <= 0x100_0000,
            acc == total(ints(counts@).take(i as int)),
            -128 * i <= acc <= 127 * i,
        decreases counts.len() - i,
    {
        proof {
            let next = ints(counts@).take(i + 1);
            assert(next.drop_last() =~= ints(counts@).take(i as int));
            assert(next.last() == counts[i as int]);
        }
        acc = acc + counts[i] as i32;
        i += 1;
    }
    proof {
        assert(ints(counts@).take(counts.len() as int) =~= ints(counts@));
    }
    acc
}

/// The least multiple of 100 that is not below `val`.
pub fn ceil100(val: i32) -> (r: i32)
    requires
        val <= 2_147_483_600,
    ensures
        r == round_up(val as int, 100),
{
    let rest: i32 = val % 100;
    if rest == 0 {
        val
    } else if rest > 0 {
        val - rest + 100
    } else {
        val - rest
    }
}

/// The least multiple of 10 that is not below `val`.
pub fn ceil10(val: i32) -> (r: i32)
    requires
        val <= 2_147_483_640,
    ensures
        r == round_up(val as int, 10),
{
    let rest: i32 = val % 10;
    if rest == 0 {
        val
    } else if rest > 0 {
        val - rest + 10
    } else {
        val - rest
    }
}

/// Copies `len` entries of `haipai` from `start` on.
fn copy_range(haipai: &Vec<i8>, start: usize, len: usize) -> (r: Vec<i8>)
    requires
        start + len <= haipai.len(),
    ensures
        r@ == haipai@.subrange(start as int, start + len),
{
    let mut r: Vec<i8> = Vec::new();
    let mut i: usize = 0;
    while i < len
        invariant
            0 <= i <= len,
            start + len <= haipai.len(),
            r@ == haipai@.subrange(start as int, start + i),
        decreases len - i,
    {
        r.push(haipai[start + i]);
        i += 1;
        assert(r@ =~= haipai@.subrange(start as int, start + i));
    }
    r
}

/// Splits a hand into its three suits of nine and its seven honors.
pub fn slice_by_suit(haipai: &Vec<i8>) -> (r: Vec<Vec<i8>>)
    requires
        haipai.len() >= 34,
    ensures
        r.len() == 4,
        r[0]@ == haipai@.subrange(0, 9),
        r[1]@ == haipai@.subrange(9, 18),
        r[2]@ == haipai@.subrange(18, 27),
        r[3]@ == haipai@.subrange(27, 34),
{
    let mut r: Vec<Vec<i8>> = Vec::new();
    r.push(copy_range(haipai, 0, 9));
    r.push(copy_range(haipai, 9, 9));
    r.push(copy_range(haipai, 18, 9));
    r.push(copy_range(haipai, 27, 7));
    r
}

/// Whether `tile` is a terminal or an honor.
pub fn is19(tile: i8) -> (r: bool)
    ensures
        r == is_orphan(tile as int),
{
    tile == 1 || tile == 9 || tile == 10 || tile == 18 || tile == 19 || (27 <= tile && tile <= 34)
}

/// Whether `arr` holds `v` among its first `n` entries.
fn seen_before(arr: &Vec<i8>, n: usize, v: i8) -> (r: bool)
    requires
        n <= arr.len(),
    ensures
        r == arr@.take(n as int).contains(v),
{
    let mut i: usize = 0;
    while i < n
        invariant
            0 <= i <= n <= arr.len(),
            forall|j: int| 0 <= j < i ==> arr[j] != v,
        decreases n - i,
    {
        if arr[i] == v {
            assert(arr@.take(n as int)[i as int] == v);
            return true;
        }
        i += 1;
    }
    false
}

/// Whether the tiles of a declared meld form a set that can be scored as one.
pub fn is_proper_open_set(arr: &Vec<i8>) -> (r: bool)
    ensures
        r == proper_open_set(arr@),
{
    if arr.len() > 4 || arr.len() < 2 {
        return false;
    }
    let mut kinds: usize = 0;
    let mut i: usize = 0;
    while i < arr.len()
        invariant
            0 <= i <= arr.len() <= 4,
            kinds == distinct_count(arr@.take(i as int)),
            kinds <= i,
        decreases arr.len() - i,
    {
        let seen = seen_before(arr, i, arr[i]);
        proof {
            let next = arr@.take(i + 1);
            assert(next.drop_last() =~= arr@.take(i as int));
            assert(next.last() == arr[i as int]);
        }
        if !seen {
            kinds += 1;
        }
        i += 1;
    }
    proof {
        assert(arr@.take(arr.len() as int) =~= arr@);
    }
    if kinds == 1 {
        true
    } else if kinds != 3 {
        false
    } else {
        let minus1: i32 = arr[1] as i32 - arr[0] as i32;
        let minus2: i32 = arr[2] as i32 - arr[1] as i32;
        !(minus1 != minus2 || minus1 != 1)
    }
}

/// The views of the vectors in `d`.
pub open spec fn views<T>(d: Seq<Vec<T>>) -> Seq<Seq<T>> {
    Seq::new(d.len(), |i: int| d[i]@)
}

/// The character of a decimal digit.
pub open spec fn digit_char(d: nat) -> char {
    ((48 + d) as u8) as char
}

/// The decimal digits of `n`, without leading zeros.
pub open spec fn digits(n: nat) -> Seq<char>
    decreases n,
{
    if n < 10 {
        seq![digit_char(n)]
    } else {
        digits(n / 10).push(digit_char(n % 10))
    }
}

/// A number as it is written: a minus sign if it is negative, then its digits.
pub open spec fn decimal(v: int) -> Seq<char> {
    if v < 0 {
        seq!['-'] + digits((-v) as nat)
    } else {
        digits(v as nat)
    }
}

/// The first `n` tiles of a block, written as numbers with commas between them.
pub open spec fn joined_tiles(b: Seq<i8>, n: int) -> Seq<char>
    decreases n,
{
    if n <= 0 {
        seq![]
    } else if n == 1 {
        decimal(b[0] as int)
    } else {
        joined_tiles(b, n - 1) + seq![','] + decimal(b[n - 1] as int)
    }
}

/// The signature of one block: its tiles between two bars.
pub open spec fn block_sig(b: Seq<i8>) -> Seq<char> {
    seq!['|'] + joined_tiles(b, b.len() as int) + seq!['|']
}

/// Whether `a` comes before `b`, or equals it, in the order of a dictionary.
pub open spec fn lex_le(a: Seq<char>, b: Seq<char>) -> bool
    decreases a.len(),
{
    if a.len() == 0 {
        true
    } else if b.len() == 0 {
        false
    } else if a[0] != b[0] {
        a[0] < b[0]
    } else {
        lex_le(a.skip(1), b.skip(1))
    }
}

/// Where `x` goes into the ordered list `t`: behind every entry that is not after it.
pub open spec fn place(t: Seq<Seq<char>>, x: Seq<char>) -> int
    decreases t.len(),
{
    if t.len() == 0 || !lex_le(t[0], x) {
        0
    } else {
        1 + place(t.skip(1), x)
    }
}

/// The signatures of the blocks of `d`, put in order one after the other.
pub open spec fn sorted_sigs(d: Seq<Seq<i8>>) -> Seq<Seq<char>>
    decreases d.len(),
{
    if d.len() == 0 {
        seq![]
    } else {
        let t = sorted_sigs(d.drop_last());
        let x = block_sig(d.last());
        t.insert(place(t, x), x)
    }
}

/// The entries of `t` with a hash sign between them.
pub open spec fn join_sigs(t: Seq<Seq<char>>) -> Seq<char>
    decreases t.len(),
{
    if t.len() == 0 {
        seq![]
    } else if t.len() == 1 {
        t[0]
    } else {
        join_sigs(t.drop_last()) + seq!['#'] + t.last()
    }
}

/// The canonical signature of a decomposition: the signatures of its blocks, ordered
/// and joined. It does not depend on the order in which the blocks were found.
pub open spec fn digest_of(d: Seq<Seq<i8>>) -> Seq<char> {
    join_sigs(sorted_sigs(d))
}

/// `String::push` of the standard library appends the character to the string: what the
/// string holds afterwards is what it held before with `c` behind it.
pub assume_specification[ String::push ](s: &mut String, c: char)
    ensures
        final(s)@ == old(s)@.push(c),
;

/// Writes a digit.
fn push_digit(out: &mut Vec<char>, d: u8)
    requires
        d < 10,
    ensures
        final(out)@ == old(out)@.push(digit_char(d as nat)),
{
    out.push((48u8 + d) as char);
}

/// Writes a number.
fn push_decimal(out: &mut Vec<char>, v: i8)
    ensures
        final(out)@ == old(out)@ + decimal(v as int),
{
    let ghost before = out@;
    let mut a: i32 = v as i32;
    if a < 0 {
        out.push('-');
        a = -a;
    }
    let ghost signed = out@;
    let n: u8 = a as u8;
    assert(n <= 128);
    proof {
        reveal_with_fuel(digits, 3);
    }
    if n >= 100 {
        push_digit(out, n / 100);
        push_digit(out, (n / 10) % 10);
        push_digit(out, n % 10);
        assert((n as nat / 10) / 10 == n as nat / 100);
        assert(out@ =~= signed + digits(n as nat));
    } else if n >= 10 {
        push_digit(out, n / 10);
        push_digit(out, n % 10);
        assert(out@ =~= signed + digits(n as nat));
    } else {
        push_digit(out, n);
        assert(out@ =~= signed + digits(n as nat));
    }
    assert(out@ =~= before + decimal(v as int));
}

/// The signature of a block.
fn signature(block: &Vec<i8>) -> (r: Vec<char>)
    ensures
        r@ == block_sig(block@),
{
    let mut r: Vec<char> = Vec::new();
    r.push('|');
    let mut i: usize = 0;
    while i < block.len()
        invariant
            0 <= i <= block.len(),
            r@ == seq!['|'] + joined_tiles(block@, i as int),
        decreases block.len() - i,
    {
        let ghost before = r@;
        if i > 0 {
            r.push(',');
        }
        push_decimal(&mut r, block[i]);
        i += 1;
        assert(r@ =~= seq!['|'] + joined_tiles(block@, i as int));
    }
    r.push('|');
    r
}

/// Whether `a` comes before `b`, or equals it, in the order of a dictionary.
fn not_after(a: &Vec<char>, b: &Vec<char>) -> (r: bool)
    ensures
        r == lex_le(a@, b@),
{
    let mut i: usize = 0;
    assert(a@.skip(0) =~= a@ && b@.skip(0) =~= b@);
    while i < a.len() && i < b.len()
        invariant
            0 <= i <= a.len(),
            i <= b.len(),
            lex_le(a@, b@) == lex_le(a@.skip(i as int), b@.skip(i as int)),
        decreases a.len() - i,
    {
        proof {
            assert(a@.skip(i as int).skip(1) =~= a@.skip(i + 1));
            assert(b@.skip(i as int).skip(1) =~= b@.skip(i + 1));
        }
        assert(a@.skip(i as int)[0] == a[i as int] && b@.skip(i as int)[0] == b[i as int]);
        if a[i] != b[i] {
            return a[i] < b[i];
        }
        i += 1;
    }
    i == a.len()
}

/// Puts `x` into the ordered list at its place.
fn insert_ordered(t: &mut Vec<Vec<char>>, x: Vec<char>)
    ensures
        views(final(t)@) == views(old(t)@).insert(place(views(old(t)@), x@), x@),
{
    let mut i: usize = 0;
    assert(views(t@).skip(0) =~= views(t@));
    while i < t.len() && not_after(&t[i], &x)
        invariant
            0 <= i <= t.len(),
            place(views(t@), x@) == i + place(views(t@).skip(i as int), x@),
        decreases t.len() - i,
    {
        proof {
            assert(views(t@).skip(i as int).skip(1) =~= views(t@).skip(i + 1));
        }
        i += 1;
    }
    let ghost before = t@;
    t.insert(i, x);
    assert(views(t@) =~= views(before).insert(i as int, x@));
}

/// The canonical signature of a decomposition.
pub fn digest(decomposition: &Vec<Vec<i8>>) -> (r: String)
    ensures
        r@ == digest_of(views(decomposition@)),
{
    let mut sigs: Vec<Vec<char>> = Vec::new();
    let mut i: usize = 0;
    assert(views(sigs@) =~= sorted_sigs(views(decomposition@).take(0)));
    while i < decomposition.len()
        invariant
            0 <= i <= decomposition.len(),
            views(sigs@) == sorted_sigs(views(decomposition@).take(i as int)),
        decreases decomposition.len() - i,
    {
        proof {
            let next = views(decomposition@).take(i + 1);
            assert(next.drop_last() =~= views(decomposition@).take(i as int));
            assert(next.last() == decomposition[i as int]@);
        }
        let sig = signature(&decomposition[i]);
        insert_ordered(&mut sigs, sig);
        i += 1;
    }
    assert(views(decomposition@).take(decomposition.len() as int) =~= views(decomposition@));
    let mut r = String::new();
    let mut j: usize = 0;
    assert(r@ =~= join_sigs(views(sigs@).take(0)));
    while j < sigs.len()
        invariant
            0 <= j <= sigs.len(),
            r@ == join_sigs(views(sigs@).take(j as int)),
        decreases sigs.len() - j,
    {
        proof {
            let next = views(sigs@).take(j + 1);
            assert(next.drop_last() =~= views(sigs@).take(j as int));
            assert(next.last() == sigs[j as int]@);
        }
        if j > 0 {
            r.push('#');
        }
        let ghost start = r@;
        let mut k: usize = 0;
        while k < sigs[j].len()
            invariant
                0 <= j < sigs.len(),
                0 <= k <= sigs[j as int].len(),
                r@ == start + sigs[j as int]@.take(k as int),
            decreases sigs[j as int].len() - k,
        {
            r.push(sigs[j][k]);
            k += 1;
            assert(r@ =~= start + sigs[j as int]@.take(k as int));
        }
        assert(sigs[j as int]@.take(k as int) =~= sigs[j as int]@);
        j += 1;
        assert(r@ =~= join_sigs(views(sigs@).take(j as int)));
    }
    assert(views(sigs@).take(sigs.len() as int) =~= views(sigs@));
    r
}

} // verus!
