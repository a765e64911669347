//! Tests for the word encoder and letter-set display.

use wordle5::words::{assemble_dicts, five_letter, letterset_string};

const ABCDE: u32 = 0x1F;
const UVWXY: u32 = 0x1F0_0000;

#[test]
fn encodes_simple_word() {
    let r = five_letter("abcde");
    assert!(r.is_some());
    let (key, label) = r.unwrap();
    assert_eq!(key, ABCDE);
    assert_eq!(label, "abcde");
}

#[test]
fn encodes_last_letters() {
    let (key, _) = five_letter("uvwxy").unwrap();
    assert_eq!(key, UVWXY);
    let (zkey, _) = five_letter("vwxyz").unwrap();
    assert_eq!(zkey, 0x3E0_0000);
}

#[test]
fn rejects_wrong_length() {
    assert!(five_letter("abcd").is_none());
    assert!(five_letter("abcdef").is_none());
    assert!(five_letter("").is_none());
}

#[test]
fn rejects_repeated_letter() {
    assert!(five_letter("abcda").is_none());
    assert!(five_letter("aaaaa").is_none());
}

#[test]
fn anagrams_share_a_key() {
    let (k1, _) = five_letter("abcde").unwrap();
    let (k2, _) = five_letter("edcba").unwrap();
    assert_eq!(k1, k2);
}

#[test]
fn merges_anagram_labels() {
    let words = vec!["abcde".to_string(), "edcba".to_string()];
    let (map, keys) = assemble_dicts(&words);
    assert_eq!(keys.len(), 1);
    assert_eq!(map.len(), 1);
    assert_eq!(map[&keys[0]], "abcde/edcba");
}

#[test]
fn drops_invalid_lines() {
    let words = vec![
        "abcde".to_string(),
        "abcd".to_string(),
        "aabbc".to_string(),
        "fghij".to_string(),
    ];
    let (map, keys) = assemble_dicts(&words);
    assert_eq!(keys, vec![0x1F, 0x3E0]);
    assert_eq!(map[&0x1F], "abcde");
    assert_eq!(map[&0x3E0], "fghij");
}

#[test]
fn empty_dictionary() {
    let words: Vec<String> = Vec::new();
    let (map, keys) = assemble_dicts(&words);
    assert!(map.is_empty());
    assert!(keys.is_empty());
}

#[test]
fn letterset_strings() {
    assert_eq!(letterset_string(ABCDE), "abcde");
    assert_eq!(letterset_string(UVWXY), "uvwxy");
    assert_eq!(letterset_string(0), "");
    assert_eq!(letterset_string(1), "a");
    assert_eq!(letterset_string(1 << 25), "z");
    assert_eq!(letterset_string(0x3FF_FFFF).len(), 26);
}

#[test]
fn letterset_string_of_encoded_word() {
    let (key, _) = five_letter("fjord").unwrap();
    assert_eq!(letterset_string(key), "dfjor");
}
