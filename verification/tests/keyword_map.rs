use keywords::KeywordMap;
use keywords::Match;

#[test]
fn test_keyword_map_insert_and_get() {
    let mut map = KeywordMap::new();
    map.insert("hello world", 1);
    map.insert("testing123", 2);

    assert_eq!(map.get(&"hello world"), Some(&1));
    assert_eq!(map.get(&"testing123"), Some(&2));
    assert_eq!(map.get(&"nonexistent"), None);
}

#[test]
fn test_keyword_map_remove() {
    let mut map = KeywordMap::new();
    map.insert("hello world", 1);
    map.insert("testing123", 2);

    assert_eq!(map.remove(&"hello world"), Some(1));
    assert_eq!(map.get(&"hello world"), None);
    assert_eq!(map.get(&"testing123"), Some(&2));
}

#[test]
fn test_keyword_map_find_by_keyword() {
    let mut map = KeywordMap::new();
    map.insert("hello world", 1);
    map.insert("testing123", 2);
    map.insert("hello testing", 3);
    map.insert("test", 4);

    let results: Vec<_> = map.find_by_partial_keyword("hello");
    assert_eq!(results, vec![Match::Prefix(&1), Match::Prefix(&3)]);

    let results: Vec<_> = map.find_by_partial_keyword("test");
    assert_eq!(
        results,
        vec![Match::Exact(&4), Match::Prefix(&2), Match::Prefix(&3)]
    );
}

#[test]
fn test_find_on_empty_map_is_empty() {
    let map: KeywordMap<i32> = KeywordMap::new();
    assert_eq!(map.find_by_partial_keyword("anything"), vec![]);
    assert_eq!(map.find_by_partial_keyword(""), vec![]);
    assert_eq!(map.find_by_partial_keyword("123"), vec![]);
}

#[test]
fn test_exact_match_not_repeated_as_prefix() {
    let mut map = KeywordMap::new();
    map.insert("test", 4);

    // The key "test" yields the token "test", which also starts with the
    // query; the entry must still be reported only once, as exact.
    let results = map.find_by_partial_keyword("test");
    assert_eq!(results, vec![Match::Exact(&4)]);
}

#[test]
fn test_duplicate_tokens_duplicate_emissions() {
    let mut map = KeywordMap::new();
    map.insert("hello hello", 1);

    let results = map.find_by_partial_keyword("hel");
    assert_eq!(results, vec![Match::Prefix(&1), Match::Prefix(&1)]);
}

#[test]
fn test_reinsert_overwrites_without_stale_entries() {
    let mut map = KeywordMap::new();
    map.insert("alpha beta", 1);
    map.insert("alpha beta", 2);

    assert_eq!(map.get(&"alpha beta"), Some(&2));
    // The superseded slot and its tokens are gone: one hit, not two.
    assert_eq!(map.find_by_partial_keyword("beta"), vec![Match::Prefix(&2)]);
}

#[test]
fn test_remove_keeps_other_keys_resolving() {
    let mut map = KeywordMap::new();
    map.insert("one red", 1);
    map.insert("two green", 2);
    map.insert("three blue", 3);

    assert_eq!(map.remove(&"two green"), Some(2));
    assert_eq!(map.remove(&"two green"), None);
    assert_eq!(map.get(&"one red"), Some(&1));
    assert_eq!(map.get(&"three blue"), Some(&3));
    // Positions were renumbered; prefix search still reaches both.
    assert_eq!(map.find_by_partial_keyword("red"), vec![Match::Prefix(&1)]);
    assert_eq!(map.find_by_partial_keyword("blue"), vec![Match::Prefix(&3)]);
    assert_eq!(map.find_by_partial_keyword("green"), vec![]);
}

#[test]
fn test_get_mut_updates_value_in_place() {
    let mut map = KeywordMap::new();
    map.insert("hello world", 10);
    map.insert("other key", 20);

    assert_eq!(map.get_mut(&"missing"), None);
    if let Some(v) = map.get_mut(&"hello world") {
        *v = 11;
    } else {
        panic!("key should be present");
    }
    assert_eq!(map.get(&"hello world"), Some(&11));
    assert_eq!(map.get(&"other key"), Some(&20));
    assert_eq!(
        map.find_by_partial_keyword("wor"),
        vec![Match::Prefix(&11)]
    );
}

#[test]
fn test_key_without_tokens() {
    let mut map = KeywordMap::new();
    map.insert("!!!", 9);

    assert_eq!(map.get(&"!!!"), Some(&9));
    assert_eq!(map.find_by_partial_keyword("x"), vec![]);
    // The key itself is still found exactly, though it produced no tokens.
    assert_eq!(map.find_by_partial_keyword("!!!"), vec![Match::Exact(&9)]);
}

#[test]
fn test_empty_query_matches_every_token() {
    let mut map = KeywordMap::new();
    map.insert("ab cd", 1);
    map.insert("ef", 2);

    assert_eq!(
        map.find_by_partial_keyword(""),
        vec![Match::Prefix(&1), Match::Prefix(&1), Match::Prefix(&2)]
    );
}

#[test]
fn test_match_into_inner() {
    assert_eq!(Match::Exact(5).into_inner(), 5);
    assert_eq!(Match::Prefix(6).into_inner(), 6);
}

#[test]
fn test_match_ordering() {
    assert!(Match::Exact(9) < Match::Prefix(0));
    assert!(Match::Prefix(0) > Match::Exact(9));
    assert!(Match::Exact(1) < Match::Exact(2));
    assert!(Match::Prefix(1) < Match::Prefix(2));
    assert_eq!(
        Match::Exact(1).partial_cmp(&Match::Exact(1)),
        Some(std::cmp::Ordering::Equal)
    );
    assert_eq!(
        Match::Exact(7).partial_cmp(&Match::Prefix(0)),
        Some(std::cmp::Ordering::Less)
    );
}

#[test]
fn test_default_is_empty() {
    let map: KeywordMap<u8> = KeywordMap::default();
    assert_eq!(map.get(&"anything"), None);
    assert_eq!(map.find_by_partial_keyword("a"), vec![]);
}

#[test]
fn test_entries_rebuild_equivalent_map() {
    let mut map = KeywordMap::new();
    map.insert("hello world", 1);
    map.insert("testing123", 2);
    map.insert("hello testing", 3);
    assert_eq!(map.remove(&"testing123"), Some(2));

    let mut rebuilt = KeywordMap::new();
    for (key, value) in map.into_entries() {
        rebuilt.insert(key.as_str(), value);
    }

    assert_eq!(rebuilt.get(&"hello world"), Some(&1));
    assert_eq!(rebuilt.get(&"hello testing"), Some(&3));
    assert_eq!(rebuilt.get(&"testing123"), None);
    assert_eq!(
        rebuilt.find_by_partial_keyword("hello"),
        vec![Match::Prefix(&1), Match::Prefix(&3)]
    );
}

#[test]
fn test_into_entries_position_order() {
    let mut map = KeywordMap::new();
    map.insert("first", 1);
    map.insert("second", 2);
    map.insert("third", 3);
    assert_eq!(map.remove(&"second"), Some(2));

    let entries = map.into_entries();
    assert_eq!(
        entries,
        vec![(String::from("first"), 1), (String::from("third"), 3)]
    );
}
