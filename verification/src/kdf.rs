//! Sources of key material, and the keys made from them.
//!
//! A source is any value that implements [`CKey`]: it can be consumed into
//! its canonical key material, and it has a salt. Texts are sources, a
//! [`WordKey`] is one, and so is a vector, an array or a slice of sources.

use crate::bytes::{lemma_flatten_positional, lemma_same_length_part_ways, part_ways};
use crate::stretch::{derived_key, DerivedKey};
use crate::words::{
    choose_multiple, is_draw, lemma_canonical_of_same_words, lemma_draw_distinct, sort_words,
    word_material,
};
use vstd::prelude::*;
use vstd::string::StrSliceExecFns;
use vstd::utf8::encode_utf8;

verus! {

/// The salt of a source that brings none of its own: the ASCII bytes of
/// `unsalted`.
pub open spec fn default_salt() -> Seq<u8> {
    seq![0x75u8, 0x6eu8, 0x73u8, 0x61u8, 0x6cu8, 0x74u8, 0x65u8, 0x64u8]
}

/// Anything that implements this trait can be used to derive a key.
///
/// An implementation says what the key material of a value is
/// ([`CKey::material`]), shows that a clone has the same material, and
/// produces the material ([`CKey::consume`]). It may bring a salt of its own
/// ([`CKey::salt`]).
pub trait CKey where Self: Clone {
    /// The canonical key material of this source. Values that mean the same
    /// have the same material.
    spec fn material(&self) -> Seq<u8>;

    /// A clone of a source has the material of the source.
    proof fn lemma_copy_keeps_material(&self, copy: &Self)
        requires
            cloned(*self, *copy),
        ensures
            copy.material() == self.material(),
    ;

    /// Consumes the source and gives its key material.
    fn consume(self) -> (bytes: Vec<u8>)
        ensures
            bytes@ == self.material(),
    ;

    /// The salt of this source, which can be asked for any number of times.
    ///
    /// Unless an implementation brings its own, the salt is
    /// [`default_salt`]. That salt is the same for every source: equal
    /// material then gives equal keys, whoever derives them. Where that must
    /// not be seen, bring a salt of the source's own.
    fn salt(&self) -> (salt: Vec<u8>)
        default_ensures
            salt@ == default_salt(),
    {
        let salt = "unsalted".as_bytes_vec();
        proof {
            reveal_strlit("unsalted");
            vstd::utf8::is_ascii_chars_encode_utf8("unsalted"@);
            assert(salt@ =~= default_salt());
        }
        salt
    }

    /// Derives the key of this source: its material, stretched with a salt
    /// that [`CKey::salt`] gives for it. See [`is_key_of`].
    fn make_key(self) -> (key: DerivedKey)
        ensures
            exists|salt: Vec<u8>| #[trigger]
                call_ensures(Self::salt, (&self,), salt) && key@ == derived_key(
                    self.material(),
                    salt@,
                ),
    {
        let salt = self.salt();
        let material = self.consume();
        crate::stretch::derive(material.as_slice(), salt.as_slice())
    }
}

impl CKey for &str {
    open spec fn material(&self) -> Seq<u8> {
        encode_utf8(self@)
    }

    proof fn lemma_copy_keeps_material(&self, copy: &Self) {
    }

    fn consume(self) -> (bytes: Vec<u8>) {
        self.as_bytes_vec()
    }
}

impl CKey for String {
    open spec fn material(&self) -> Seq<u8> {
        encode_utf8(self@)
    }

    proof fn lemma_copy_keeps_material(&self, copy: &Self) {
    }

    fn consume(self) -> (bytes: Vec<u8>) {
        self.as_str().as_bytes_vec()
    }
}

/// `key` is a key of `source`: its material, stretched with a salt that
/// `source.salt()` may give. This is what [`CKey::make_key`] returns.
pub open spec fn is_key_of<K: CKey>(source: K, key: Seq<u8>) -> bool {
    exists|salt: Vec<u8>| #[trigger]
        call_ensures(K::salt, (&source,), salt) && key == derived_key(source.material(), salt@)
}

/// The material of a collection: the material of each item, in the order of
/// the collection, one directly after the other.
pub open spec fn collection_material<T: CKey>(items: Seq<T>) -> Seq<u8> {
    items.map_values(|item: T| item.material()).flatten()
}

/// A collection with one more item has the material of that item after
/// the material of the rest.
pub proof fn lemma_collection_material_push<T: CKey>(items: Seq<T>, item: T)
    ensures
        collection_material(items.push(item)) == collection_material(items) + item.material(),
{
    let each = |item: T| item.material();
    assert(items.push(item).map_values(each) =~= items.map_values(each).push(item.material()));
    items.map_values(each).lemma_flatten_push(item.material());
}

/// A collection of clones has the material of the collection of their
/// sources.
pub proof fn lemma_copies_keep_material<T: CKey>(items: Seq<T>, copies: Seq<T>)
    requires
        copies.len() == items.len(),
        forall|i: int| 0 <= i < items.len() ==> cloned(#[trigger] items[i], copies[i]),
    ensures
        collection_material(copies) == collection_material(items),
{
    let each = |item: T| item.material();
    assert forall|i: int| 0 <= i < items.len() implies #[trigger] copies[i].material()
        == items[i].material() by {
        items[i].lemma_copy_keeps_material(&copies[i]);
    }
    assert(copies.map_values(each) =~= items.map_values(each));
}

impl<T> CKey for Vec<T> where T: CKey {
    open spec fn material(&self) -> Seq<u8> {
        collection_material(self@)
    }

    proof fn lemma_copy_keeps_material(&self, copy: &Self) {
        lemma_copies_keep_material(self@, copy@);
    }

    fn consume(self) -> (bytes: Vec<u8>) {
        let ghost items = self@;
        let mut result: Vec<u8> = Vec::new();
        for item in it: self
            invariant
                it.seq() == items,
                result@ == collection_material(items.take(it.index() as int)),
        {
            proof {
                let done = it.index() as int;
                assert(items.take(done + 1) =~= items.take(done).push(item));
                lemma_collection_material_push(items.take(done), item);
            }
            let mut part = item.consume();
            result.append(&mut part);
        }
        proof {
            assert(items.take(items.len() as int) =~= items);
        }
        result
    }
}

/// `Vec::from` for an array, of std.
///
/// Not proved: that the vector holds the items of the array, in its order.
pub assume_specification<T, const N: usize>[ <Vec<T> as From<[T; N]>>::from ](
    items: [T; N],
) -> (v: Vec<T>)
    ensures
        v@ == items@,
;

impl<T, const N: usize> CKey for [T; N] where T: CKey {
    open spec fn material(&self) -> Seq<u8> {
        collection_material(self@)
    }

    proof fn lemma_copy_keeps_material(&self, copy: &Self) {
        lemma_copies_keep_material(self@, copy@);
    }

    fn consume(self) -> (bytes: Vec<u8>) {
        Vec::from(self).consume()
    }
}

impl<T> CKey for &[T] where T: CKey {
    open spec fn material(&self) -> Seq<u8> {
        collection_material(self@)
    }

    proof fn lemma_copy_keeps_material(&self, copy: &Self) {
    }

    fn consume(self) -> (bytes: Vec<u8>) {
        let mut result: Vec<u8> = Vec::new();
        for done in 0..self.len()
            invariant
                result@ == collection_material(self@.take(done as int)),
        {
            let item = self[done].clone();
            proof {
                self@[done as int].lemma_copy_keeps_material(&item);
                assert(self@.take(done + 1) =~= self@.take(done as int).push(self@[done as int]));
                lemma_collection_material_push(self@.take(done as int), self@[done as int]);
            }
            let mut part = item.consume();
            result.append(&mut part);
        }
        proof {
            assert(self@.take(self@.len() as int) =~= self@);
        }
        result
    }
}

/// A group of words that serves as a key. The order of the words does not
/// matter: two groups of the same words give the same key.
#[derive(Debug, PartialEq, Eq, PartialOrd, Ord)]
pub struct WordKey(Vec<String>);

impl View for WordKey {
    type V = Seq<Seq<char>>;

    /// The words of the group, in the order in which they were given.
    closed spec fn view(&self) -> Seq<Seq<char>> {
        self.0.deep_view()
    }
}

impl Clone for WordKey {
    fn clone(&self) -> (copy: Self)
        ensures
            copy@ == self@,
    {
        let words = self.0.clone();
        proof {
            assert(words.deep_view() =~= self.0.deep_view());
        }
        WordKey(words)
    }
}

impl WordKey {
    /// Draws a key of 4 words from `list`, which must hold more than 4. Use
    /// [`WordKey::from_size`] to give a size.
    pub fn new(list: &[String]) -> (key: WordKey)
        requires
            4 < list.len(),
        ensures
            is_draw(list.deep_view(), key@, 4),
            key@.len() == 4,
            list.deep_view().no_duplicates() ==> key@.no_duplicates(),
    {
        Self::from_size(list, 4)
    }

    /// Draws a key from `list`.
    ///
    /// The size must be less than the number of words in the list: a size
    /// equal to it is not accepted. The key holds 4 words whatever the size,
    /// drawn without replacement, or every word of a list that holds fewer
    /// than 4. The words differ from each other where those of the list do.
    pub fn from_size(list: &[String], size: usize) -> (key: WordKey)
        requires
            size < list.len(),
        ensures
            is_draw(list.deep_view(), key@, 4),
            key@.len() == if list.len() < 4 { list.len() } else { 4 },
            list.deep_view().no_duplicates() ==> key@.no_duplicates(),
    {
        let words = choose_multiple(list, 4);
        proof {
            if list.deep_view().no_duplicates() {
                lemma_draw_distinct(list.deep_view(), words.deep_view(), 4);
            }
        }
        WordKey(words)
    }

    /// Draws a key from `list` as [`WordKey::from_size`] does, where the
    /// size is less than the number of words in the list, and gives none
    /// where it is not.
    pub fn try_from_size(list: &[String], size: usize) -> (drawn: Option<WordKey>)
        ensures
            drawn is Some <==> size < list.len(),
            drawn matches Some(key) ==> {
                &&& is_draw(list.deep_view(), key@, 4)
                &&& list.deep_view().no_duplicates() ==> key@.no_duplicates()
            },
    {
        if size < list.len() {
            Some(Self::from_size(list, size))
        } else {
            None
        }
    }

    /// The key of the given words.
    pub fn from_words(words: Vec<String>) -> (key: WordKey)
        ensures
            key@ == words.deep_view(),
    {
        WordKey(words)
    }

    /// The words of the key, in the order in which they were given or drawn.
    pub fn words(&self) -> (words: &Vec<String>)
        ensures
            words.deep_view() == self@,
    {
        &self.0
    }
}

impl CKey for WordKey {
    open spec fn material(&self) -> Seq<u8> {
        word_material(self@)
    }

    proof fn lemma_copy_keeps_material(&self, copy: &Self) {
    }

    fn consume(self) -> (bytes: Vec<u8>) {
        let sorted = sort_words(self.0);
        proof {
            assert(sorted@.map_values(|item: String| item.material())
                =~= sorted.deep_view().map_values(|word: Seq<char>| encode_utf8(word)));
        }
        sorted.consume()
    }
}

/// Two strings that hold the same text have the same key: the bytes of the
/// text, stretched with the default salt.
pub proof fn lemma_same_text_same_key(a: String, b: String, key_a: Seq<u8>, key_b: Seq<u8>)
    requires
        a@ == b@,
        is_key_of(a, key_a),
        is_key_of(b, key_b),
    ensures
        key_a == derived_key(encode_utf8(a@), default_salt()),
        key_a == key_b,
{
}

/// A string slice has the key of a string that holds the same text.
pub proof fn lemma_same_str_same_key(a: &str, b: String, key_a: Seq<u8>, key_b: Seq<u8>)
    requires
        a@ == b@,
        is_key_of(a, key_a),
        is_key_of(b, key_b),
    ensures
        key_a == derived_key(encode_utf8(a@), default_salt()),
        key_a == key_b,
{
}

/// The order of the words in a group does not matter: two groups that hold
/// the same words, each as often as the other, have the same material.
pub proof fn lemma_same_words_same_material(a: WordKey, b: WordKey)
    requires
        a@.to_multiset() == b@.to_multiset(),
    ensures
        a.material() == b.material(),
{
    lemma_canonical_of_same_words(a@, b@);
}

/// Two groups that hold the same words have the same key.
pub proof fn lemma_same_words_same_key(a: WordKey, b: WordKey, key_a: Seq<u8>, key_b: Seq<u8>)
    requires
        a@.to_multiset() == b@.to_multiset(),
        is_key_of(a, key_a),
        is_key_of(b, key_b),
    ensures
        key_a == key_b,
{
    lemma_same_words_same_material(a, b);
}

/// The order of a collection matters: two collections that hold the same
/// material up to some place, and in that place materials that part ways,
/// have different material.
pub proof fn lemma_collection_order_matters<T: CKey>(a: Seq<T>, b: Seq<T>, at: int)
    requires
        0 <= at < a.len(),
        at < b.len(),
        forall|i: int| 0 <= i < at ==> a[i].material() == b[i].material(),
        part_ways(a[at].material(), b[at].material()),
    ensures
        collection_material(a) != collection_material(b),
{
    let each = |item: T| item.material();
    assert(a.map_values(each).take(at) =~= b.map_values(each).take(at));
    lemma_flatten_positional(a.map_values(each), b.map_values(each), at);
}

/// Two items of a collection that change places change its material, where
/// their materials are of one length and not the same.
pub proof fn lemma_swap_changes_material<T: CKey>(items: Seq<T>, i: int, j: int)
    requires
        0 <= i < j < items.len(),
        items[i].material().len() == items[j].material().len(),
        items[i].material() != items[j].material(),
    ensures
        collection_material(items.update(i, items[j]).update(j, items[i])) != collection_material(
            items,
        ),
{
    let swapped = items.update(i, items[j]).update(j, items[i]);
    lemma_same_length_part_ways(swapped[i].material(), items[i].material());
    lemma_collection_order_matters(swapped, items, i);
}

} // verus!
