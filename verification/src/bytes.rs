//! Byte strings: their lexicographic order and their concatenation.

use vstd::prelude::*;

verus! {

/// `a` comes no later than `b` in the lexicographic order of byte strings:
/// at the first place where the two differ `a` holds the smaller byte, or
/// there is no such place and `a` is no longer than `b`.
pub open spec fn lex_le(a: Seq<u8>, b: Seq<u8>) -> bool
    decreases a.len(),
{
    if a.len() == 0 {
        true
    } else if b.len() == 0 {
        false
    } else if a[0] != b[0] {
        a[0] < b[0]
    } else {
        lex_le(a.drop_first(), b.drop_first())
    }
}

/// Every byte string is in order with itself.
pub proof fn lemma_lex_le_reflexive(a: Seq<u8>)
    ensures
        lex_le(a, a),
    decreases a.len(),
{
    if a.len() > 0 {
        lemma_lex_le_reflexive(a.drop_first());
    }
}

/// Two byte strings that are in order both ways are equal.
pub proof fn lemma_lex_le_antisymmetric(a: Seq<u8>, b: Seq<u8>)
    requires
        lex_le(a, b),
        lex_le(b, a),
    ensures
        a == b,
    decreases a.len(),
{
    if a.len() == 0 {
        assert(a =~= b);
    } else {
        lemma_lex_le_antisymmetric(a.drop_first(), b.drop_first());
        assert(a =~= seq![a[0]] + a.drop_first());
        assert(b =~= seq![b[0]] + b.drop_first());
    }
}

/// The order passes along a chain.
pub proof fn lemma_lex_le_transitive(a: Seq<u8>, b: Seq<u8>, c: Seq<u8>)
    requires
        lex_le(a, b),
        lex_le(b, c),
    ensures
        lex_le(a, c),
    decreases a.len(),
{
    if a.len() > 0 && a[0] == b[0] && b[0] == c[0] {
        lemma_lex_le_transitive(a.drop_first(), b.drop_first(), c.drop_first());
    }
}

/// Any two byte strings are in order one way or the other.
pub proof fn lemma_lex_le_total(a: Seq<u8>, b: Seq<u8>)
    ensures
        lex_le(a, b) || lex_le(b, a),
    decreases a.len(),
{
    if a.len() > 0 && b.len() > 0 && a[0] == b[0] {
        lemma_lex_le_total(a.drop_first(), b.drop_first());
    }
}

/// Whether `a` comes no later than `b` in the lexicographic order.
pub fn le(a: &[u8], b: &[u8]) -> (r: bool)
    ensures
        r == lex_le(a@, b@),
{
    let mut i: usize = 0;
    proof {
        assert(a@.skip(0) =~= a@);
        assert(b@.skip(0) =~= b@);
    }
    while i < a.len() && i < b.len()
        invariant
            i <= a.len(),
            i <= b.len(),
            lex_le(a@, b@) == lex_le(a@.skip(i as int), b@.skip(i as int)),
        decreases a.len() - i,
    {
        if a[i] != b[i] {
            return a[i] < b[i];
        }
        proof {
            assert(a@.skip(i as int).drop_first() =~= a@.skip(i + 1));
            assert(b@.skip(i as int).drop_first() =~= b@.skip(i + 1));
        }
        i += 1;
    }
    i == a.len()
}

/// Two byte strings part ways: at some place that both have, they hold
/// different bytes, so that neither is the beginning of the other.
pub open spec fn part_ways(a: Seq<u8>, b: Seq<u8>) -> bool {
    exists|k: int| 0 <= k < a.len() && k < b.len() && a[k] != b[k]
}

/// Two byte strings of the same length that are not the same part ways.
pub proof fn lemma_same_length_part_ways(a: Seq<u8>, b: Seq<u8>)
    requires
        a.len() == b.len(),
        a != b,
    ensures
        part_ways(a, b),
{
    if !part_ways(a, b) {
        assert(a =~= b);
    }
}

/// Concatenation is positional: two rows of byte strings that are the same
/// up to some place, and part ways in that place, differ in their
/// concatenation.
pub proof fn lemma_flatten_positional(xs: Seq<Seq<u8>>, ys: Seq<Seq<u8>>, at: int)
    requires
        0 <= at < xs.len(),
        at < ys.len(),
        xs.take(at) == ys.take(at),
        part_ways(xs[at], ys[at]),
    ensures
        xs.flatten() != ys.flatten(),
{
    let before = xs.take(at).flatten();
    lemma_flatten_split(xs, at);
    lemma_flatten_split(ys, at);
    let k = choose|k: int| 0 <= k < xs[at].len() && k < ys[at].len() && xs[at][k] != ys[at][k];
    assert(xs.flatten()[before.len() + k] == xs[at][k]);
    assert(ys.flatten()[before.len() + k] == ys[at][k]);
}

/// The concatenation of a row, cut before and behind one of its places.
proof fn lemma_flatten_split(xs: Seq<Seq<u8>>, at: int)
    requires
        0 <= at < xs.len(),
    ensures
        xs.flatten() == xs.take(at).flatten() + xs[at] + xs.skip(at + 1).flatten(),
{
    assert(xs =~= xs.take(at).push(xs[at]) + xs.skip(at + 1));
    vstd::seq_lib::lemma_flatten_concat(xs.take(at).push(xs[at]), xs.skip(at + 1));
    xs.take(at).lemma_flatten_push(xs[at]);
}

} // verus!
