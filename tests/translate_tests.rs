use string_analyzer::filter::FilterQuery;
use string_analyzer::text::chars_of;
use string_analyzer::translate::{interpret_words, parse_decimal, parse_natural_language_query};

fn tr(s: &str) -> FilterQuery {
    parse_natural_language_query(s).ok().unwrap()
}

fn is_empty(f: &FilterQuery) -> bool {
    f.is_palindrome.is_none()
        && f.min_length.is_none()
        && f.max_length.is_none()
        && f.word_count.is_none()
        && f.contains_character.is_none()
}

#[test]
fn palindromic_phrase() {
    let f = tr("all palindromic strings");
    assert_eq!(f.is_palindrome, Some(true));
    assert!(f.min_length.is_none() && f.word_count.is_none() && f.contains_character.is_none());
}

#[test]
fn longer_than_phrase() {
    let f = tr("strings longer than 5");
    assert_eq!(f.min_length, Some(6));
    assert!(f.is_palindrome.is_none() && f.contains_character.is_none());
}

#[test]
fn containing_letter_phrase() {
    let f = tr("strings containing the letter z");
    assert_eq!(f.contains_character, Some("z".to_string()));
    assert!(f.is_palindrome.is_none() && f.min_length.is_none());
    assert_eq!(tr("contain the letter Q").contains_character, Some("Q".to_string()));
}

#[test]
fn non_palindrome_sets_nothing() {
    assert!(is_empty(&tr("non palindrome")));
    assert!(is_empty(&tr("NON Palindromic")));
}

#[test]
fn palindrome_as_first_word() {
    assert_eq!(tr("palindrome").is_palindrome, Some(true));
    assert_eq!(tr("Palindromic words").is_palindrome, Some(true));
}

#[test]
fn single_word_and_first_vowel() {
    let f = tr("single word strings with the first vowel");
    assert_eq!(f.word_count, Some(1));
    assert_eq!(f.contains_character, Some("a".to_string()));
}

#[test]
fn incomplete_patterns_are_skipped() {
    assert!(is_empty(&tr("longer than")));
    assert!(is_empty(&tr("longer than five")));
    assert!(is_empty(&tr("longer than -3")));
    assert!(is_empty(&tr("containing the letter ab")));
    assert!(is_empty(&tr("single")));
    assert!(is_empty(&tr("first")));
    assert!(is_empty(&tr("")));
    assert!(is_empty(&tr("longer than 18446744073709551615")));
}

#[test]
fn number_forms() {
    assert_eq!(tr("longer than +4").min_length, Some(5));
    assert_eq!(tr("LONGER THAN 0").min_length, Some(1));
}

#[test]
fn decimal_parsing() {
    assert_eq!(parse_decimal(&chars_of("42")), Some(42));
    assert_eq!(parse_decimal(&chars_of("+7")), Some(7));
    assert_eq!(parse_decimal(&chars_of("+")), None);
    assert_eq!(parse_decimal(&chars_of("")), None);
    assert_eq!(parse_decimal(&chars_of("4a")), None);
    assert_eq!(parse_decimal(&chars_of("18446744073709551615")), Some(usize::MAX));
    assert_eq!(parse_decimal(&chars_of("18446744073709551616")), None);
}

#[test]
fn interpret_uses_lowercase_forms_and_original_letters() {
    let words = vec![chars_of("Containing"), chars_of("THE"), chars_of("Letter"), chars_of("X")];
    let low = vec![chars_of("containing"), chars_of("the"), chars_of("letter"), chars_of("x")];
    let f = interpret_words(&words, &low);
    assert_eq!(f.contains_character, Some("X".to_string()));
}
