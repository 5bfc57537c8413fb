use crate::hand::{group, lemma_total_update, less, total, within};
use crate::melds::{lemma_reduces_total, reduces};
use vstd::prelude::*;

verus! {

/// How many positions at the start of suit group `s` are numerals, among which runs fit.
pub open spec fn suited(s: int) -> int {
    if s == 3 {
        0
    } else {
        9
    }
}

/// The sum of the counts at the thirteen terminal and honor kinds.
pub open spec fn orphan_total(h: Seq<int>) -> int {
    h[0] + h[8] + h[9] + h[17] + h[18] + h[26] + h[27] + h[28] + h[29] + h[30] + h[31] + h[32]
        + h[33]
}

/// Whether each of the thirteen terminal and honor kinds is there.
pub open spec fn orphans_present(h: Seq<int>) -> bool {
    h[0] != 0 && h[8] != 0 && h[9] != 0 && h[17] != 0 && h[18] != 0 && h[26] != 0 && h[27] != 0
        && h[28] != 0 && h[29] != 0 && h[30] != 0 && h[31] != 0 && h[32] != 0 && h[33] != 0
}

/// Seven pairs: fourteen tiles, and every kind that is there is there exactly twice.
pub open spec fn is_complete_seven_pairs(h: Seq<int>) -> bool {
    &&& forall|k: int| 0 <= k < h.len() && #[trigger] h[k] > 0 ==> h[k] == 2
    &&& total(h) == 14
}

/// Thirteen orphans: each terminal and honor kind is there and together they are
/// fourteen tiles.
pub open spec fn is_complete_thirteen_orphans(h: Seq<int>) -> bool {
    orphans_present(h) && orphan_total(h) == 14
}

/// Whether every suit group of the hand can be used up by triplets and runs.
pub open spec fn all_melds(h: Seq<int>) -> bool {
    &&& reduces(group(h, 0), 0, 9)
    &&& reduces(group(h, 1), 0, 9)
    &&& reduces(group(h, 2), 0, 9)
    &&& reduces(group(h, 3), 0, 0)
}

/// The standard shape: one pair, and triplets and runs for everything else.
pub open spec fn is_complete_standard(h: Seq<int>) -> bool {
    exists|p: int| 0 <= p < 34 && #[trigger] h[p] >= 2 && all_melds(less(h, p, 2))
}

/// A complete hand in any of the three shapes.
pub open spec fn is_complete_any(h: Seq<int>) -> bool {
    is_complete_seven_pairs(h) || is_complete_thirteen_orphans(h) || is_complete_standard(h)
}

/// A suit group that is complete by itself: it holds the pair if its size leaves a
/// remainder of two, and melds besides.
pub open spec fn group_complete(g: Seq<int>, suited: int) -> bool {
    if total(g) % 3 == 2 {
        exists|p: int| 0 <= p < g.len() && #[trigger] g[p] >= 2 && reduces(less(g, p, 2), 0, suited)
    } else {
        reduces(g, 0, suited)
    }
}

/// How many of the four suit groups hold a number of tiles that leaves a remainder of two.
pub open spec fn pair_groups(h: Seq<int>) -> int {
    (if total(group(h, 0)) % 3 == 2 {
        1int
    } else {
        0
    }) + (if total(group(h, 1)) % 3 == 2 {
        1int
    } else {
        0
    }) + (if total(group(h, 2)) % 3 == 2 {
        1int
    } else {
        0
    }) + (if total(group(h, 3)) % 3 == 2 {
        1int
    } else {
        0
    })
}

/// The standard shape, read off the suit groups one by one.
pub open spec fn standard_by_groups(h: Seq<int>) -> bool {
    &&& pair_groups(h) == 1
    &&& forall|s: int| 0 <= s < 4 ==> total(#[trigger] group(h, s)) % 3 != 1
    &&& forall|s: int| 0 <= s < 4 ==> group_complete(#[trigger] group(h, s), suited(s))
}

/// The suit group in which position `p` lies.
pub open spec fn group_of(p: int) -> int {
    if p >= 27 {
        3
    } else {
        p / 9
    }
}

/// Taking tiles at one position changes the group of that position and no other.
pub proof fn lemma_group_less(h: Seq<int>, p: int, n: int, s: int)
    requires
        h.len() == 34,
        0 <= p < 34,
        0 <= s < 4,
    ensures
        group(less(h, p, n), s) == if s == group_of(p) {
            less(group(h, s), p - 9 * s, n)
        } else {
            group(h, s)
        },
{
    if s == group_of(p) {
        assert(group(less(h, p, n), s) =~= less(group(h, s), p - 9 * s, n));
    } else {
        assert(group(less(h, p, n), s) =~= group(h, s));
    }
}

/// A group of zeros reduces.
pub proof fn lemma_reduces_zeros(g: Seq<int>, k: int, suited: int)
    requires
        0 <= k,
        forall|j: int| 0 <= j < g.len() ==> g[j] == 0,
    ensures
        reduces(g, k, suited),
    decreases g.len() - k,
{
    if k < g.len() {
        lemma_reduces_zeros(g, k + 1, suited);
    }
}

/// A hand in the standard shape has a number of tiles that leaves a remainder of two.
pub proof fn lemma_standard_total(h: Seq<int>)
    requires
        h.len() == 34,
        is_complete_standard(h),
    ensures
        total(h) % 3 == 2,
{
    let p = choose|p: int| 0 <= p < 34 && #[trigger] h[p] >= 2 && all_melds(less(h, p, 2));
    let y = less(h, p, 2);
    lemma_reduces_total(group(y, 0), 0, 9);
    lemma_reduces_total(group(y, 1), 0, 9);
    lemma_reduces_total(group(y, 2), 0, 9);
    lemma_reduces_total(group(y, 3), 0, 0);
    crate::hand::lemma_total_groups(y);
    lemma_total_update(h, p, h[p] - 2);
}

/// The two ways of saying what the standard shape is agree.
pub proof fn lemma_standard_by_groups(h: Seq<int>)
    requires
        h.len() == 34,
    ensures
        is_complete_standard(h) == standard_by_groups(h),
{
    if is_complete_standard(h) {
        let p = choose|p: int| 0 <= p < 34 && #[trigger] h[p] >= 2 && all_melds(less(h, p, 2));
        let y = less(h, p, 2);
        let s0 = group_of(p);
        assert forall|s: int| 0 <= s < 4 implies (total(#[trigger] group(h, s)) % 3 == (if s
            == s0 {
            2int
        } else {
            0
        }) && group_complete(group(h, s), suited(s))) by {
            lemma_group_less(h, p, 2, s);
            lemma_reduces_total(group(y, s), 0, suited(s));
            if s == s0 {
                let q = p - 9 * s;
                lemma_total_update(group(h, s), q, group(h, s)[q] - 2);
                assert(group(h, s)[q] >= 2);
            }
        }
        assert(total(group(h, 0)) % 3 == (if 0 == s0 {
            2int
        } else {
            0
        }));
        assert(total(group(h, 1)) % 3 == (if 1 == s0 {
            2int
        } else {
            0
        }));
        assert(total(group(h, 2)) % 3 == (if 2 == s0 {
            2int
        } else {
            0
        }));
        assert(total(group(h, 3)) % 3 == (if 3 == s0 {
            2int
        } else {
            0
        }));
        assert(standard_by_groups(h));
    }
    if standard_by_groups(h) {
        let s0: int = if total(group(h, 0)) % 3 == 2 {
            0
        } else if total(group(h, 1)) % 3 == 2 {
            1
        } else if total(group(h, 2)) % 3 == 2 {
            2
        } else {
            3
        };
        let g = group(h, s0);
        assert(total(g) % 3 == 2);
        assert(group_complete(g, suited(s0)));
        let q = choose|q: int|
            0 <= q < g.len() && #[trigger] g[q] >= 2 && reduces(less(g, q, 2), 0, suited(s0));
        let p = q + 9 * s0;
        assert(h[p] == g[q]);
        let y = less(h, p, 2);
        assert forall|s: int| 0 <= s < 4 implies reduces(#[trigger] group(y, s), 0, suited(s)) by {
            lemma_group_less(h, p, 2, s);
            if s != s0 {
                assert(group_complete(group(h, s), suited(s)));
                assert(total(group(h, s)) % 3 != 2);
            }
        }
        assert(reduces(group(y, 0), 0, suited(0)));
        assert(reduces(group(y, 1), 0, suited(1)));
        assert(reduces(group(y, 2), 0, suited(2)));
        assert(reduces(group(y, 3), 0, suited(3)));
        assert(all_melds(y));
        assert(is_complete_standard(h));
    }
}

/// Seven pairs and thirteen orphans are hands of fourteen tiles.
pub proof fn lemma_orphans_total(h: Seq<int>)
    requires
        h.len() == 34,
        within(h, 0, 14),
        total(h) <= 14,
        is_complete_thirteen_orphans(h),
    ensures
        total(h) == 14,
        forall|k: int| 0 <= k < 34 && !crate::constants::is_orphan(k + 1) ==> h[k] == 0,
{
    let z = orphans_only(h);
    lemma_orphan_total(h);
    let rest = Seq::new(34, |k: int| h[k] - z[k]);
    lemma_total_minus(h, z, 34);
    assert(Seq::new(34, |k: int| h[k] - z[k]).take(34) =~= rest);
    assert(h.take(34) =~= h);
    assert(z.take(34) =~= z);
    crate::hand::lemma_total_nonneg(rest);
    crate::hand::lemma_total_zero(rest);
    assert forall|k: int| 0 <= k < 34 && !crate::constants::is_orphan(k + 1) implies h[k]
        == 0 by {
        assert(rest[k] == 0);
    }
}

/// The hand with everything but the terminal and honor kinds taken out.
pub open spec fn orphans_only(h: Seq<int>) -> Seq<int> {
    Seq::new(
        34,
        |k: int|
            if crate::constants::is_orphan(k + 1) {
                h[k]
            } else {
                0
            },
    )
}

/// The total of the terminal and honor kinds is the sum of their thirteen counts.
pub proof fn lemma_orphan_total(h: Seq<int>)
    requires
        h.len() == 34,
    ensures
        total(orphans_only(h)) == orphan_total(h),
{
    let z = orphans_only(h);
    reveal_with_fuel(total, 35);
    assert(z.len() == 34);
    lemma_total_prefix(z, 34);
    assert(z.take(34) =~= z);
}

/// The total of the first `n` entries, entry by entry.
pub open spec fn prefix_total(s: Seq<int>, n: int) -> int
    decreases n,
{
    if n <= 0 {
        0
    } else {
        prefix_total(s, n - 1) + s[n - 1]
    }
}

/// The total of the first `n` entries, said in both ways.
pub proof fn lemma_total_prefix(s: Seq<int>, n: int)
    requires
        0 <= n <= s.len(),
    ensures
        total(s.take(n)) == prefix_total(s, n),
    decreases n,
{
    if n > 0 {
        lemma_total_prefix(s, n - 1);
        assert(s.take(n).drop_last() =~= s.take(n - 1));
    }
}

/// The total of a difference is the difference of the totals.
pub proof fn lemma_total_minus(a: Seq<int>, b: Seq<int>, n: int)
    requires
        0 <= n <= a.len(),
        a.len() == b.len(),
    ensures
        total(Seq::new(a.len(), |k: int| a[k] - b[k]).take(n)) == total(a.take(n)) - total(
            b.take(n),
        ),
    decreases n,
{
    let d = Seq::new(a.len(), |k: int| a[k] - b[k]);
    if n > 0 {
        lemma_total_minus(a, b, n - 1);
        assert(d.take(n).drop_last() =~= d.take(n - 1));
        assert(a.take(n).drop_last() =~= a.take(n - 1));
        assert(b.take(n).drop_last() =~= b.take(n - 1));
    }
}

} // verus!
