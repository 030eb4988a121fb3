use string_analyzer::analyzer::{analyze_string, letter_frequencies};
use string_analyzer::text::{chars_of, content_address, hex_encode, is_mirror, split_words};

fn freq(s: &str) -> Vec<(char, usize)> {
    analyze_string(s).character_frequency_map
}

#[test]
fn hash_of_abc_is_its_sha256() {
    let p = analyze_string("abc");
    assert_eq!(
        p.sha256_hash,
        "ba7816bf8f01cfea414140de5dae2223b00361a396177a9cb410ff61f20015ad"
    );
}

#[test]
fn hash_of_empty_text() {
    assert_eq!(
        analyze_string("").sha256_hash,
        "e3b0c44298fc1c149afbf4c8996fb92427ae41e4649b934ca495991b7852b855"
    );
}

#[test]
fn hash_is_stable_across_calls() {
    let a = analyze_string("hello world");
    let b = analyze_string("hello world");
    assert_eq!(a.sha256_hash, b.sha256_hash);
    assert_eq!(a.sha256_hash, content_address("hello world"));
    assert_eq!(a.sha256_hash.len(), 64);
}

#[test]
fn length_counts_bytes_not_characters() {
    assert_eq!(analyze_string("abc").length, 3);
    assert_eq!(analyze_string("héllo").length, 6);
    assert_eq!(analyze_string("日本").length, 6);
    assert_eq!(analyze_string("").length, 0);
}

#[test]
fn palindrome_ignores_case_but_not_spaces() {
    assert!(analyze_string("Aba").is_palindrome);
    assert!(analyze_string("a b a").is_palindrome);
    assert!(!analyze_string("ab a").is_palindrome);
    assert!(!analyze_string("abc").is_palindrome);
    assert!(analyze_string("").is_palindrome);
    assert!(analyze_string("Racecar").is_palindrome);
}

#[test]
fn unique_characters_are_alphabetic_and_case_sensitive() {
    assert_eq!(analyze_string("AaBb!").unique_characters, 4);
    assert_eq!(analyze_string("hello").unique_characters, 4);
    assert_eq!(analyze_string("123 !?").unique_characters, 0);
}

#[test]
fn word_count_splits_on_whitespace_runs() {
    assert_eq!(analyze_string("  hello   world  ").word_count, 2);
    assert_eq!(analyze_string("").word_count, 0);
    assert_eq!(analyze_string("   ").word_count, 0);
    assert_eq!(analyze_string("one\ttwo\nthree").word_count, 3);
}

#[test]
fn frequency_map_counts_letters() {
    assert_eq!(freq("hello"), vec![('h', 1), ('e', 1), ('l', 2), ('o', 1)]);
    assert_eq!(freq("Aa1 a"), vec![('A', 1), ('a', 2)]);
    assert_eq!(freq("42"), vec![]);
    assert_eq!(letter_frequencies(&vec!['b', 'b', '-']), vec![('b', 2)]);
}

#[test]
fn hex_encoding_is_lowercase_two_digits_per_byte() {
    assert_eq!(hex_encode(&[0x00, 0x0f, 0xab, 0xff]), "000fabff");
    assert_eq!(hex_encode(&[]), "");
}

#[test]
fn words_are_split_on_whitespace() {
    let w = split_words(&chars_of(" ab  c "));
    assert_eq!(w, vec![vec!['a', 'b'], vec!['c']]);
}

#[test]
fn mirror_check() {
    assert!(is_mirror(&vec!['a', 'b', 'a']));
    assert!(!is_mirror(&vec!['a', 'b']));
    assert!(is_mirror(&vec![]));
}

#[test]
fn unicode_whitespace_separates_words() {
    assert_eq!(analyze_string("a\u{3000}b\u{a0}c").word_count, 3);
    assert_eq!(analyze_string("a\u{200b}b").word_count, 1);
}
