use string_analyzer::analyzer::analyze_string;
use string_analyzer::filter::FilterQuery;
use string_analyzer::record::Timestamp;
use string_analyzer::store::{StoreError, StringStore};

fn at(secs: i64) -> Timestamp {
    Timestamp { secs, nanos: 0 }
}

fn values(data: &[string_analyzer::record::StringData]) -> Vec<String> {
    let mut v: Vec<String> = data.iter().map(|d| d.value.clone()).collect();
    v.sort();
    v
}

#[test]
fn create_then_get_round_trip() {
    let mut store = StringStore::new();
    let created = store.create_string_at("hello world".to_string(), at(7)).ok().unwrap();
    assert_eq!(created.value, "hello world");
    assert_eq!(created.created_at, at(7));
    let found = store.get_string("hello world").ok().unwrap();
    assert_eq!(found.value, "hello world");
    assert_eq!(found.id, analyze_string("hello world").sha256_hash);
    assert_eq!(found.created_at, at(7));
    assert_eq!(found.properties.word_count, 2);
}

#[test]
fn create_with_current_time() {
    let mut store = StringStore::new();
    let created = store.create_string("now".to_string()).ok().unwrap();
    assert_eq!(created.id, analyze_string("now").sha256_hash);
    assert!(created.created_at.secs > 0);
}

#[test]
fn second_create_conflicts() {
    let mut store = StringStore::new();
    assert!(store.create_string_at("abc".to_string(), at(1)).is_ok());
    assert_eq!(
        store.create_string_at("abc".to_string(), at(2)).err(),
        Some(StoreError::Conflict)
    );
    assert_eq!(store.len(), 1);
    assert_eq!(store.get_string("abc").ok().unwrap().created_at, at(1));
}

#[test]
fn get_of_absent_text_is_not_found() {
    let store = StringStore::new();
    assert_eq!(store.get_string("missing").err(), Some(StoreError::NotFound));
}

#[test]
fn delete_succeeds_once() {
    let mut store = StringStore::new();
    store.create_string_at("bye".to_string(), at(1)).ok().unwrap();
    assert_eq!(store.delete_string("bye"), Ok(()));
    assert_eq!(store.delete_string("bye"), Err(StoreError::NotFound));
    assert_eq!(store.get_string("bye").err(), Some(StoreError::NotFound));
    assert_eq!(store.len(), 0);
}

#[test]
fn filters_combine_with_and() {
    let mut store = StringStore::new();
    store.create_string_at("abc".to_string(), at(1)).ok().unwrap();
    store.create_string_at("aba".to_string(), at(2)).ok().unwrap();
    let mut q = FilterQuery::empty();
    q.is_palindrome = Some(true);
    q.min_length = Some(3);
    let resp = store.get_all_strings(q).ok().unwrap();
    assert_eq!(values(&resp.data), vec!["aba".to_string()]);
    assert_eq!(resp.count, 1);
    assert_eq!(resp.filters_applied.is_palindrome, Some(true));
    assert_eq!(resp.filters_applied.min_length, Some(3));
}

#[test]
fn empty_filter_lists_everything() {
    let mut store = StringStore::new();
    store.create_string_at("x y".to_string(), at(1)).ok().unwrap();
    store.create_string_at("zz".to_string(), at(2)).ok().unwrap();
    let resp = store.get_all_strings(FilterQuery::empty()).ok().unwrap();
    assert_eq!(values(&resp.data), vec!["x y".to_string(), "zz".to_string()]);
    assert_eq!(resp.count, 2);
}

#[test]
fn length_word_and_character_filters() {
    let mut store = StringStore::new();
    for v in ["a", "hello world", "hi", "zebra"] {
        store.create_string_at(v.to_string(), at(1)).ok().unwrap();
    }
    let mut q = FilterQuery::empty();
    q.max_length = Some(2);
    assert_eq!(values(&store.get_all_strings(q).ok().unwrap().data), vec!["a", "hi"]);
    let mut q = FilterQuery::empty();
    q.word_count = Some(2);
    assert_eq!(values(&store.get_all_strings(q).ok().unwrap().data), vec!["hello world"]);
    let mut q = FilterQuery::empty();
    q.contains_character = Some(" ".to_string());
    assert_eq!(values(&store.get_all_strings(q).ok().unwrap().data), vec!["hello world"]);
    let mut q = FilterQuery::empty();
    q.contains_character = Some("z".to_string());
    assert_eq!(values(&store.get_all_strings(q).ok().unwrap().data), vec!["zebra"]);
}

#[test]
fn two_character_filter_is_invalid() {
    let empty = StringStore::new();
    let mut q = FilterQuery::empty();
    q.contains_character = Some("ab".to_string());
    assert_eq!(empty.get_all_strings(q).err(), Some(StoreError::InvalidArgument));
    let mut store = StringStore::new();
    store.create_string_at("abc".to_string(), at(1)).ok().unwrap();
    let mut q = FilterQuery::empty();
    q.contains_character = Some("ab".to_string());
    assert_eq!(store.get_all_strings(q).err(), Some(StoreError::InvalidArgument));
    let mut q = FilterQuery::empty();
    q.contains_character = Some(String::new());
    assert_eq!(store.get_all_strings(q).err(), Some(StoreError::InvalidArgument));
}

#[test]
fn phrase_query_lists_matching_records() {
    let mut store = StringStore::new();
    for v in ["level", "hello", "noon moon"] {
        store.create_string_at(v.to_string(), at(1)).ok().unwrap();
    }
    let resp = store
        .filter_by_natural_language(Some("all single word palindromic strings".to_string()))
        .ok()
        .unwrap();
    assert_eq!(values(&resp.data), vec!["level"]);
    assert_eq!(resp.count, 1);
    assert_eq!(resp.interpreted_query.original, "all single word palindromic strings");
    assert_eq!(resp.interpreted_query.parsed_filters.word_count, Some(1));
    assert_eq!(resp.interpreted_query.parsed_filters.is_palindrome, Some(true));
}

#[test]
fn phrase_query_without_phrase_is_bad_request() {
    let store = StringStore::new();
    assert_eq!(store.filter_by_natural_language(None).err(), Some(StoreError::BadRequest));
}

#[test]
fn character_filter_matches_any_character() {
    let mut store = StringStore::new();
    store.create_string_at("a1 b".to_string(), at(1)).ok().unwrap();
    store.create_string_at("ab".to_string(), at(1)).ok().unwrap();
    let mut q = FilterQuery::default();
    q.contains_character = Some("1".to_string());
    let resp = store.get_all_strings(q).ok().unwrap();
    assert_eq!(resp.count, 1);
    assert_eq!(resp.data[0].value, "a1 b");
}

#[test]
fn multibyte_single_character_filter_is_valid() {
    let mut store = StringStore::new();
    store.create_string_at("café".to_string(), at(1)).ok().unwrap();
    let mut q = FilterQuery::default();
    q.contains_character = Some("é".to_string());
    assert_eq!(values(&store.get_all_strings(q).ok().unwrap().data), vec!["café"]);
}

#[test]
fn length_bounds_are_inclusive() {
    let mut store = StringStore::new();
    store.create_string_at("abc".to_string(), at(1)).ok().unwrap();
    let mut q = FilterQuery::default();
    q.min_length = Some(3);
    q.max_length = Some(3);
    let resp = store.get_all_strings(q).ok().unwrap();
    assert_eq!(resp.count, 1);
    assert_eq!(resp.data[0].value, "abc");
}
