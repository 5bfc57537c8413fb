use crate::blocks::patterns;
use crate::constants::{block_sig, digest_of, lex_le, place, sorted_sigs};
use crate::sound::lemma_patterns_distinct;
use vstd::prelude::*;
use vstd::relations::{sorted_by, total_ordering};
use vstd::seq_lib::{
    lemma_sorted_unique, to_multiset_build, to_multiset_contains, to_multiset_insert,
    to_multiset_len, to_multiset_remove,
};

verus! {

/// The order of a dictionary, as a relation.
pub open spec fn by_lex() -> spec_fn(Seq<char>, Seq<char>) -> bool {
    |a: Seq<char>, b: Seq<char>| lex_le(a, b)
}

/// The signatures of the blocks of `d`, in the order of the blocks.
pub open spec fn sigs(d: Seq<Seq<i8>>) -> Seq<Seq<char>> {
    Seq::new(d.len(), |i: int| block_sig(d[i]))
}

/// Nothing comes before itself.
pub proof fn lemma_lex_reflexive(a: Seq<char>)
    ensures
        lex_le(a, a),
    decreases a.len(),
{
    if a.len() > 0 {
        lemma_lex_reflexive(a.skip(1));
    }
}

/// Two texts of which neither comes after the other are the same.
pub proof fn lemma_lex_antisymmetric(a: Seq<char>, b: Seq<char>)
    requires
        lex_le(a, b),
        lex_le(b, a),
    ensures
        a == b,
    decreases a.len(),
{
    if a.len() > 0 && b.len() > 0 {
        lemma_lex_antisymmetric(a.skip(1), b.skip(1));
        assert(a =~= seq![a[0]] + a.skip(1));
        assert(b =~= seq![b[0]] + b.skip(1));
    } else {
        assert(a =~= b);
    }
}

/// What is not after a text that is not after a third is not after the third.
pub proof fn lemma_lex_transitive(a: Seq<char>, b: Seq<char>, c: Seq<char>)
    requires
        lex_le(a, b),
        lex_le(b, c),
    ensures
        lex_le(a, c),
    decreases a.len(),
{
    if a.len() > 0 && b.len() > 0 && c.len() > 0 {
        if a[0] == b[0] && b[0] == c[0] {
            lemma_lex_transitive(a.skip(1), b.skip(1), c.skip(1));
        }
    }
}

/// Of two texts one is not after the other.
pub proof fn lemma_lex_total(a: Seq<char>, b: Seq<char>)
    ensures
        lex_le(a, b) || lex_le(b, a),
    decreases a.len(),
{
    if a.len() > 0 && b.len() > 0 {
        if a[0] == b[0] {
            lemma_lex_total(a.skip(1), b.skip(1));
        }
    }
}

/// The order of a dictionary is a total order.
pub proof fn lemma_lex_order()
    ensures
        total_ordering(by_lex()),
{
    let r = by_lex();
    assert forall|x: Seq<char>| #[trigger] r(x, x) by {
        lemma_lex_reflexive(x);
    }
    assert forall|x: Seq<char>, y: Seq<char>| #[trigger] r(x, y) && #[trigger] r(y, x) implies x
        == y by {
        lemma_lex_antisymmetric(x, y);
    }
    assert forall|x: Seq<char>, y: Seq<char>, z: Seq<char>| #[trigger]
        r(x, y) && #[trigger] r(y, z) implies r(x, z) by {
        lemma_lex_transitive(x, y, z);
    }
    assert forall|x: Seq<char>, y: Seq<char>| #[trigger] r(x, y) || #[trigger] r(y, x) by {
        lemma_lex_total(x, y);
    }
}

/// Where a signature goes into an ordered list: behind the entries that are not after
/// it and before the first that is.
pub proof fn lemma_place(t: Seq<Seq<char>>, x: Seq<char>)
    ensures
        0 <= place(t, x) <= t.len(),
        forall|i: int| 0 <= i < place(t, x) ==> lex_le(#[trigger] t[i], x),
        place(t, x) < t.len() ==> !lex_le(t[place(t, x)], x),
    decreases t.len(),
{
    if t.len() > 0 && lex_le(t[0], x) {
        let rest = t.skip(1);
        lemma_place(rest, x);
        assert forall|i: int| 0 <= i < place(t, x) implies lex_le(#[trigger] t[i], x) by {
            if i > 0 {
                assert(t[i] == rest[i - 1]);
            }
        }
        if place(t, x) < t.len() {
            assert(t[place(t, x)] == rest[place(rest, x)]);
        }
    }
}

/// An ordered list with one signature put in at its place is ordered.
pub proof fn lemma_insert_ordered(t: Seq<Seq<char>>, x: Seq<char>)
    requires
        sorted_by(t, by_lex()),
    ensures
        sorted_by(t.insert(place(t, x), x), by_lex()),
        t.insert(place(t, x), x).to_multiset() == t.to_multiset().insert(x),
{
    let r = by_lex();
    let p = place(t, x);
    let u = t.insert(p, x);
    lemma_place(t, x);
    to_multiset_insert(t, p, x);
    assert forall|i: int, j: int| 0 <= i < j < u.len() implies #[trigger] r(u[i], u[j]) by {
        if j < p {
            assert(u[i] == t[i] && u[j] == t[j]);
            assert(r(t[i], t[j]));
        } else if j == p {
            assert(u[i] == t[i]);
            assert(lex_le(t[i], x));
        } else if i == p {
            assert(u[j] == t[j - 1]);
            lemma_lex_total(t[p], x);
            if j - 1 > p {
                assert(r(t[p], t[j - 1]));
                lemma_lex_transitive(x, t[p], t[j - 1]);
            }
        } else if i < p {
            assert(u[i] == t[i] && u[j] == t[j - 1]);
            assert(r(t[i], t[j - 1]));
        } else {
            assert(u[i] == t[i - 1] && u[j] == t[j - 1]);
            assert(r(t[i - 1], t[j - 1]));
        }
    }
}

/// The ordered signatures of a decomposition are ordered, and they are the signatures of
/// its blocks.
pub proof fn lemma_sorted_sigs(d: Seq<Seq<i8>>)
    ensures
        sorted_by(sorted_sigs(d), by_lex()),
        sorted_sigs(d).to_multiset() == sigs(d).to_multiset(),
    decreases d.len(),
{
    if d.len() == 0 {
        assert(sigs(d) =~= Seq::<Seq<char>>::empty());
        assert(sorted_sigs(d) =~= Seq::<Seq<char>>::empty());
    } else {
        let rest = d.drop_last();
        lemma_sorted_sigs(rest);
        let t = sorted_sigs(rest);
        let x = block_sig(d.last());
        lemma_insert_ordered(t, x);
        assert(sigs(d) =~= sigs(rest).push(x));
        to_multiset_build(sigs(rest), x);
    }
}

/// Decompositions that hold the same blocks have the same signatures of blocks.
pub proof fn lemma_sigs_multiset(a: Seq<Seq<i8>>, b: Seq<Seq<i8>>)
    requires
        a.to_multiset() == b.to_multiset(),
    ensures
        sigs(a).to_multiset() == sigs(b).to_multiset(),
    decreases a.len(),
{
    to_multiset_len(a);
    to_multiset_len(b);
    if a.len() == 0 {
        assert(sigs(a) =~= sigs(b));
    } else {
        let x = a.last();
        let a2 = a.drop_last();
        assert(a =~= a2.push(x));
        to_multiset_build(a2, x);
        to_multiset_contains(b, x);
        assert(a.to_multiset().count(x) > 0);
        let i = choose|i: int| 0 <= i < b.len() && b[i] == x;
        let b2 = b.remove(i);
        to_multiset_remove(b, i);
        assert(a2.to_multiset() =~= a.to_multiset().remove(x));
        lemma_sigs_multiset(a2, b2);
        assert(sigs(a) =~= sigs(a2).push(block_sig(x)));
        to_multiset_build(sigs(a2), block_sig(x));
        assert(sigs(b2) =~= sigs(b).remove(i));
        to_multiset_remove(sigs(b), i);
        to_multiset_contains(sigs(b), block_sig(x));
        assert(sigs(b)[i] == block_sig(x));
        assert(sigs(b).to_multiset() =~= sigs(b2).to_multiset().insert(block_sig(x)));
    }
}

/// The signature of a decomposition does not depend on the order of its blocks:
/// decompositions that hold the same blocks, each as often, have the same signature.
pub proof fn lemma_digest_order(a: Seq<Seq<i8>>, b: Seq<Seq<i8>>)
    requires
        a.to_multiset() == b.to_multiset(),
    ensures
        digest_of(a) == digest_of(b),
{
    lemma_sorted_sigs(a);
    lemma_sorted_sigs(b);
    lemma_sigs_multiset(a, b);
    lemma_lex_order();
    lemma_sorted_unique(sorted_sigs(a), sorted_sigs(b), by_lex());
}

/// De-duplication: no two decompositions that are returned for a hand hold the same
/// blocks, in whatever order.
pub proof fn lemma_patterns_differ(h: Seq<int>, i: int, j: int)
    requires
        0 <= i < j < patterns(h).len(),
    ensures
        patterns(h)[i].to_multiset() != patterns(h)[j].to_multiset(),
{
    lemma_patterns_distinct(h, i, j);
    if patterns(h)[i].to_multiset() == patterns(h)[j].to_multiset() {
        lemma_digest_order(patterns(h)[i], patterns(h)[j]);
    }
}

} // verus!
