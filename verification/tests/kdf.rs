use crypto_once::kdf::{CKey, WordKey};
use crypto_once::stretch;

fn strings(words: &[&str]) -> Vec<String> {
    words.iter().map(|word| word.to_string()).collect()
}

#[test]
fn text_material_is_its_bytes() {
    assert_eq!("correct horse".consume(), b"correct horse".to_vec());
    assert_eq!(String::from("correct horse").consume(), b"correct horse".to_vec());
    assert_eq!("".consume(), Vec::<u8>::new());
}

#[test]
fn text_material_is_utf8() {
    assert_eq!("é".consume(), vec![0xc3, 0xa9]);
    assert_eq!(String::from("日本").consume(), vec![0xe6, 0x97, 0xa5, 0xe6, 0x9c, 0xac]);
    assert_eq!("😀".consume(), vec![0xf0, 0x9f, 0x98, 0x80]);
}

#[test]
fn word_key_material_is_sorted() {
    let key = WordKey::from_words(strings(&["zebra", "alpha", "mango", "delta"]));
    assert_eq!(key.consume(), b"alphadeltamangozebra".to_vec());
}

#[test]
fn word_key_order_does_not_matter() {
    let orders: [[&str; 4]; 5] = [
        ["alpha", "delta", "mango", "zebra"],
        ["zebra", "mango", "delta", "alpha"],
        ["mango", "zebra", "alpha", "delta"],
        ["delta", "alpha", "zebra", "mango"],
        ["alpha", "zebra", "delta", "mango"],
    ];
    for order in orders {
        let key = WordKey::from_words(strings(&order));
        assert_eq!(key.consume(), b"alphadeltamangozebra".to_vec());
    }
}

#[test]
fn word_key_order_does_not_change_the_key() {
    let one = WordKey::from_words(strings(&["zebra", "alpha", "mango", "delta"]));
    let other = WordKey::from_words(strings(&["delta", "mango", "alpha", "zebra"]));
    assert_eq!(one.make_key(), other.make_key());
}

#[test]
fn word_key_sorts_by_bytes() {
    let key = WordKey::from_words(strings(&["b", "a", "B", "ab", "", "é", "z"]));
    assert_eq!(key.consume(), "Baabbzé".as_bytes().to_vec());
}

#[test]
fn word_key_keeps_repeated_words() {
    let key = WordKey::from_words(strings(&["b", "a", "b", "a"]));
    assert_eq!(key.consume(), b"aabb".to_vec());
}

#[test]
fn word_key_of_no_words_is_empty() {
    let key = WordKey::from_words(Vec::new());
    assert_eq!(key.consume(), Vec::<u8>::new());
}

#[test]
fn word_key_keeps_its_words() {
    let key = WordKey::from_words(strings(&["zebra", "alpha"]));
    assert_eq!(key.words(), &strings(&["zebra", "alpha"]));
    let copy = key.clone();
    assert_eq!(copy, key);
    assert_eq!(copy.words(), key.words());
    assert_eq!(copy.consume(), key.consume());
}

#[test]
fn text_key_is_stable() {
    let first = "correct horse".make_key();
    let second = "correct horse".make_key();
    assert_eq!(first.len(), 32);
    assert_eq!(first, second);
}

#[test]
fn same_text_gives_the_same_key() {
    let owned = String::from("correct horse").make_key();
    let borrowed = "correct horse".make_key();
    assert_eq!(owned, borrowed);
}

#[test]
fn text_key_is_made_with_the_default_salt() {
    let key = String::from("correct horse").make_key();
    assert_eq!(key, stretch::derive(b"correct horse", b"unsalted"));
}

#[test]
fn collection_material_is_concatenated() {
    let material = vec!["a", "b"].consume();
    assert_eq!(material, vec![0x61, 0x62]);
    assert_eq!(material.len(), 2);
    assert_ne!(material, vec![0x62, 0x61]);
}

#[test]
fn collection_order_matters() {
    let one = vec!["alpha", "omega"].consume();
    let other = vec!["omega", "alpha"].consume();
    assert_eq!(one, b"alphaomega".to_vec());
    assert_eq!(other, b"omegaalpha".to_vec());
    assert_ne!(one, other);
}

#[test]
fn collection_order_matters_for_items_of_other_lengths() {
    assert_ne!(vec!["a", "bc"].consume(), vec!["bc", "a"].consume());
    assert_eq!(vec!["a", "bc"].consume(), vec!["ab", "c"].consume());
}

#[test]
fn collection_order_may_coincide() {
    assert_eq!(vec!["a", "aa"].consume(), vec!["aa", "a"].consume());
}

#[test]
fn collection_keeps_repeated_items() {
    assert_eq!(vec!["b", "a", "b"].consume(), b"bab".to_vec());
}

#[test]
fn empty_collection_has_empty_material() {
    let none: Vec<String> = Vec::new();
    assert_eq!(none.consume(), Vec::<u8>::new());
    let none: Vec<String> = Vec::new();
    assert_eq!(none.make_key(), stretch::derive(b"", b"unsalted"));
}

#[test]
fn array_material_is_concatenated() {
    assert_eq!(["a", "b", "c"].consume(), b"abc".to_vec());
    assert_eq!([String::from("x"), String::from("yz")].consume(), b"xyz".to_vec());
    let none: [&str; 0] = [];
    assert_eq!(none.consume(), Vec::<u8>::new());
}

#[test]
fn slice_material_is_concatenated() {
    let items = strings(&["a", "b", "c"]);
    assert_eq!(items.as_slice().consume(), b"abc".to_vec());
    assert_eq!(items[1..].consume(), b"bc".to_vec());
    assert_eq!(items, strings(&["a", "b", "c"]));
}

#[test]
fn nested_collections_are_flattened() {
    let nested = vec![vec!["a", "b"], vec![], vec!["c"]];
    assert_eq!(nested.consume(), b"abc".to_vec());
    let deep = vec![vec![["a", "b"], ["c", "d"]], vec![["e", "f"]]];
    assert_eq!(deep.consume(), b"abcdef".to_vec());
}

#[test]
fn collection_of_word_keys_sorts_each_group() {
    let groups = vec![
        WordKey::from_words(strings(&["d", "c"])),
        WordKey::from_words(strings(&["b", "a"])),
    ];
    assert_eq!(groups.consume(), b"cdab".to_vec());
}

#[test]
fn default_salt_is_unsalted() {
    assert_eq!("text".salt(), b"unsalted".to_vec());
    assert_eq!(String::from("text").salt(), b"unsalted".to_vec());
    assert_eq!(WordKey::from_words(strings(&["a"])).salt(), b"unsalted".to_vec());
    assert_eq!(vec!["a", "b"].salt(), b"unsalted".to_vec());
    assert_eq!(["a", "b"].salt(), b"unsalted".to_vec());
    assert_eq!(strings(&["a"]).as_slice().salt(), b"unsalted".to_vec());
}

#[test]
fn salt_can_be_asked_again() {
    let text = String::from("text");
    assert_eq!(text.salt(), text.salt());
    assert_eq!(text.consume(), b"text".to_vec());
}

#[test]
fn word_key_is_made_with_the_default_salt() {
    let key = WordKey::from_words(strings(&["zebra", "alpha", "mango", "delta"]));
    assert_eq!(key.make_key(), stretch::derive(b"alphadeltamangozebra", b"unsalted"));
}
