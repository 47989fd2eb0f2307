use keywords::Keywords;

#[test]
fn test_ascii_keywords_of_mixed_text() {
    let text = "hello_world, testing123!";
    let keywords = text.ascii_keywords();
    assert_eq!(keywords, vec!["hello", "world", "testing", "123"]);
}

#[test]
fn test_ascii_keywords_on_string() {
    let text = String::from("hello_world, testing123!");
    let keywords = text.ascii_keywords();
    assert_eq!(keywords, vec!["hello", "world", "testing", "123"]);
}

#[test]
fn test_ascii_keywords_no_tokens() {
    assert_eq!("".ascii_keywords(), Vec::<String>::new());
    assert_eq!("!@# ,.".ascii_keywords(), Vec::<String>::new());
}

#[test]
fn test_ascii_keywords_splits_at_class_boundary() {
    assert_eq!("abc123def".ascii_keywords(), vec!["abc", "123", "def"]);
    assert_eq!("42".ascii_keywords(), vec!["42"]);
    assert_eq!("a1b2".ascii_keywords(), vec!["a", "1", "b", "2"]);
}

#[test]
fn test_ascii_keywords_non_ascii_separates() {
    // Non-ASCII characters act as separators and never appear in a token.
    assert_eq!("caf\u{e9} bar".ascii_keywords(), vec!["caf", "bar"]);
}
