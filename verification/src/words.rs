//! Words: the order that makes a group of them canonical, the list they are
//! drawn from, and the draw.

use crate::bytes::{
    le, lemma_lex_le_antisymmetric, lemma_lex_le_reflexive, lemma_lex_le_total,
    lemma_lex_le_transitive, lex_le,
};
use rand::seq::SliceRandom;
use vstd::prelude::*;
use vstd::relations::{sorted_by, total_ordering};
use vstd::seq_lib::lemma_sorted_unique;
use vstd::utf8::{encode_utf8, encode_utf8_decode_utf8};

verus! {

/// The order of words: that of their UTF-8 bytes, lexicographically.
pub open spec fn word_le(a: Seq<char>, b: Seq<char>) -> bool {
    lex_le(encode_utf8(a), encode_utf8(b))
}

/// [`word_le`] as a relation.
pub open spec fn word_order() -> spec_fn(Seq<char>, Seq<char>) -> bool {
    |a: Seq<char>, b: Seq<char>| word_le(a, b)
}

/// The words in their canonical order: sorted by [`word_le`].
pub open spec fn canonical(words: Seq<Seq<char>>) -> Seq<Seq<char>> {
    words.sort_by(word_order())
}

/// The key material of a group of words: the UTF-8 bytes of the words in
/// their canonical order, one directly after the other.
pub open spec fn word_material(words: Seq<Seq<char>>) -> Seq<u8> {
    canonical(words).map_values(|word: Seq<char>| encode_utf8(word)).flatten()
}

/// The order of words is total: any two words are in order one way or the
/// other, and both ways only if they are the same word.
pub proof fn lemma_word_order_total()
    ensures
        total_ordering(word_order()),
{
    let order = word_order();
    assert forall|a: Seq<char>| #[trigger] order(a, a) by {
        lemma_lex_le_reflexive(encode_utf8(a));
    }
    assert forall|a: Seq<char>, b: Seq<char>| #[trigger]
        order(a, b) && #[trigger] order(b, a) implies a == b by {
        lemma_lex_le_antisymmetric(encode_utf8(a), encode_utf8(b));
        encode_utf8_decode_utf8(a);
        encode_utf8_decode_utf8(b);
    }
    assert forall|a: Seq<char>, b: Seq<char>, c: Seq<char>| #[trigger]
        order(a, b) && #[trigger] order(b, c) implies order(a, c) by {
        lemma_lex_le_transitive(encode_utf8(a), encode_utf8(b), encode_utf8(c));
    }
    assert forall|a: Seq<char>, b: Seq<char>| #[trigger] order(a, b) || #[trigger] order(b, a) by {
        lemma_lex_le_total(encode_utf8(a), encode_utf8(b));
    }
}

/// The canonical order is the only sorted order of the same words.
pub proof fn lemma_canonical_unique(words: Seq<Seq<char>>, sorted: Seq<Seq<char>>)
    requires
        sorted_by(sorted, word_order()),
        sorted.to_multiset() == words.to_multiset(),
    ensures
        sorted == canonical(words),
{
    lemma_word_order_total();
    words.lemma_sort_by_ensures(word_order());
    lemma_sorted_unique(sorted, canonical(words), word_order());
}

/// The canonical order of words does not depend on the order in which they
/// are given.
pub proof fn lemma_canonical_of_same_words(a: Seq<Seq<char>>, b: Seq<Seq<char>>)
    requires
        a.to_multiset() == b.to_multiset(),
    ensures
        canonical(a) == canonical(b),
{
    lemma_word_order_total();
    b.lemma_sort_by_ensures(word_order());
    lemma_canonical_unique(a, canonical(b));
}

/// Whether word `a` comes no later than word `b`.
pub fn in_order(a: &str, b: &str) -> (r: bool)
    ensures
        r == word_le(a@, b@),
{
    le(a.as_bytes(), b.as_bytes())
}

/// Where `word` goes into `sorted`: behind every word that comes no later.
fn insertion_point(sorted: &Vec<String>, word: &String) -> (at: usize)
    requires
        sorted_by(sorted.deep_view(), word_order()),
    ensures
        at <= sorted.len(),
        sorted_by(sorted.deep_view().insert(at as int, word@), word_order()),
{
    let mut at: usize = 0;
    while at < sorted.len() && in_order(sorted[at].as_str(), word.as_str())
        invariant
            at <= sorted.len(),
            forall|k: int| 0 <= k < at ==> word_le(#[trigger] sorted.deep_view()[k], word@),
        decreases sorted.len() - at,
    {
        at += 1;
    }
    proof {
        let order = word_order();
        let before = sorted.deep_view();
        let after = before.insert(at as int, word@);
        lemma_word_order_total();
        assert forall|k: int| at <= k < before.len() implies order(word@, #[trigger] before[k]) by {
            assert(order(before[at as int], word@) || order(word@, before[at as int]));
            if at < k {
                assert(order(before[at as int], before[k]));
            }
        }
        assert forall|i: int, j: int| 0 <= i < j < after.len() implies #[trigger] order(
            after[i],
            after[j],
        ) by {
            let from = if i < at { i } else { i - 1 };
            let to = if j < at { j } else { j - 1 };
            if i != at && j != at {
                assert(order(before[from], before[to]));
            }
        }
    }
    at
}

/// Sorts words into their canonical order.
pub fn sort_words(words: Vec<String>) -> (sorted: Vec<String>)
    ensures
        sorted.deep_view() == canonical(words.deep_view()),
{
    broadcast use {vstd::seq_lib::group_to_multiset_ensures, vstd::multiset::group_multiset_axioms};

    let ghost all = words.deep_view();
    let mut rest = words;
    let mut sorted: Vec<String> = Vec::new();
    proof {
        assert(sorted.deep_view() =~= Seq::empty());
        assert(sorted.deep_view().to_multiset().add(all.to_multiset()) =~= all.to_multiset());
    }
    while rest.len() > 0
        invariant
            sorted_by(sorted.deep_view(), word_order()),
            sorted.deep_view().to_multiset().add(rest.deep_view().to_multiset())
                == all.to_multiset(),
        decreases rest.len(),
    {
        let ghost rest_before = rest.deep_view();
        let ghost sorted_before = sorted.deep_view();
        let word = rest.pop().unwrap();
        let at = insertion_point(&sorted, &word);
        sorted.insert(at, word);
        proof {
            broadcast use {
                vstd::seq_lib::group_to_multiset_ensures,
                vstd::multiset::group_multiset_axioms,
            };
            // The word has left one multiset and entered the other.

            assert(rest_before =~= rest.deep_view().push(word@));
            assert(sorted.deep_view() =~= sorted_before.insert(at as int, word@));
            assert(sorted.deep_view().remove(at as int) =~= sorted_before);
            assert(sorted.deep_view().to_multiset() =~= sorted_before.to_multiset().insert(word@));
            assert(sorted.deep_view().to_multiset().add(rest.deep_view().to_multiset())
                =~= sorted_before.to_multiset().add(rest_before.to_multiset()));
        }
    }
    proof {
        assert(rest.deep_view() =~= Seq::empty());
        assert(sorted.deep_view().to_multiset() =~= all.to_multiset());
        lemma_canonical_unique(all, sorted.deep_view());
    }
    sorted
}

/// `picked` holds the words of `list` at `places`: as many places as `amount`
/// asks for, or all the places of the list if it has fewer, and no place
/// twice.
pub open spec fn is_draw_at(
    list: Seq<Seq<char>>,
    picked: Seq<Seq<char>>,
    amount: nat,
    places: Seq<int>,
) -> bool {
    &&& picked.len() == if amount <= list.len() { amount } else { list.len() }
    &&& places.len() == picked.len()
    &&& places.no_duplicates()
    &&& forall|i: int|
        0 <= i < places.len() ==> 0 <= #[trigger] places[i] < list.len() && picked[i]
            == list[places[i]]
}

/// `picked` is a draw of `amount` words from `list` without replacement.
pub open spec fn is_draw(list: Seq<Seq<char>>, picked: Seq<Seq<char>>, amount: nat) -> bool {
    exists|places: Seq<int>| is_draw_at(list, picked, amount, places)
}

/// A draw from a list that holds no word twice holds no word twice.
pub proof fn lemma_draw_distinct(list: Seq<Seq<char>>, picked: Seq<Seq<char>>, amount: nat)
    requires
        list.no_duplicates(),
        is_draw(list, picked, amount),
    ensures
        picked.no_duplicates(),
{
    let places = choose|places: Seq<int>| is_draw_at(list, picked, amount, places);
    assert forall|i: int, j: int|
        0 <= i < picked.len() && 0 <= j < picked.len() && i != j implies picked[i]
        != picked[j] by {
        assert(places[i] != places[j]);
    }
}

/// Calls `rand::seq::SliceRandom::choose_multiple` on the list, with the
/// generator of the thread (`rand::thread_rng`), and clones the words it
/// chose.
///
/// Not proved: that the outside function chooses places of the list, as many
/// as asked for or as the list has, none of them twice, and hands out the
/// words at those places. Which places it chooses is left open, and so is
/// their order. The generator gives up where the system has no entropy for
/// it; nothing in the arguments decides that.
#[verifier::external_body]
pub(crate) fn choose_multiple(list: &[String], amount: usize) -> (picked: Vec<String>)
    ensures
        is_draw(list.deep_view(), picked.deep_view(), amount as nat),
{
    list.choose_multiple(&mut rand::thread_rng(), amount).cloned().collect()
}

/// The lines of a text. The text is cut at each line feed, and the line feed
/// belongs to neither side: a text with n line feeds has n + 1 lines, the
/// last of them empty where the text ends in a line feed.
pub open spec fn lines(text: Seq<char>) -> Seq<Seq<char>>
    decreases text.len(),
{
    match text.index_of_first('\n') {
        Some(at) => {
            proof {
                text.index_of_first_ensures('\n');
            }
            seq![text.take(at)] + lines(text.skip(at + 1))
        },
        None => seq![text],
    }
}

/// A text without a line feed is one line.
pub proof fn lemma_lines_of_one(line: Seq<char>)
    requires
        !line.contains('\n'),
    ensures
        lines(line) == seq![line],
{
    line.index_of_first_ensures('\n');
}

/// The first line of a text ends at its first line feed, and the other
/// lines are those of the text behind it.
pub proof fn lemma_lines_of_more(line: Seq<char>, rest: Seq<char>)
    requires
        !line.contains('\n'),
    ensures
        lines(line + seq!['\n'] + rest) == seq![line] + lines(rest),
{
    let text = line + seq!['\n'] + rest;
    text.index_of_first_ensures('\n');
    assert(text[line.len() as int] == '\n');
    let at = text.index_of_first('\n').unwrap();
    if at < line.len() {
        assert(line[at] == '\n');
    }
    assert(text.take(at) =~= line);
    assert(text.skip(at + 1) =~= rest);
}

/// `String::push`, of std.
///
/// Not proved: that the character is added at the end of the string.
pub assume_specification[ String::push ](s: &mut String, ch: char)
    ensures
        final(s)@ == old(s)@.push(ch),
;

/// The list of words that a text holds, one word on each line.
pub fn word_list(text: &str) -> (words: Vec<String>)
    ensures
        words.deep_view() == lines(text@),
{
    let mut words: Vec<String> = Vec::new();
    let mut word = String::new();
    proof {
        assert(word@ + text@.skip(0) =~= text@);
        assert(words.deep_view() + lines(text@) =~= lines(text@));
    }
    for c in it: text.chars()
        invariant
            it.seq() == text@,
            !word@.contains('\n'),
            lines(text@) == words.deep_view() + lines(word@ + text@.skip(it.index() as int)),
    {
        let ghost rest = text@.skip(it.index() + 1);
        if c == '\n' {
            proof {
                assert(word@ + text@.skip(it.index() as int) =~= word@ + seq!['\n'] + rest);
                lemma_lines_of_more(word@, rest);
                assert(words.deep_view().push(word@) + lines(rest) =~= words.deep_view() + (
                seq![word@] + lines(rest)));
                assert(Seq::<char>::empty() + rest =~= rest);
            }
            let ghost before = words.deep_view();
            let ghost line = word@;
            words.push(word);
            word = String::new();
            proof {
                assert(words.deep_view() =~= before.push(line));
            }
        } else {
            proof {
                assert(word@ + text@.skip(it.index() as int) =~= word@.push(c) + rest);
            }
            word.push(c);
        }
    }
    proof {
        assert(word@ + text@.skip(text@.len() as int) =~= word@);
        lemma_lines_of_one(word@);
    }
    let ghost before = words.deep_view();
    let ghost line = word@;
    words.push(word);
    proof {
        assert(words.deep_view() =~= before.push(line));
        assert(before.push(line) =~= before + seq![line]);
    }
    words
}

} // verus!
