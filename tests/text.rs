use apollo::text::{has_number, tokenize};

#[test]
fn tokenize_splits_on_any_whitespace() {
    assert_eq!(tokenize("  a  b\tc\n"), vec!["a", "b", "c"]);
    assert_eq!(tokenize("connect to node 1"), vec!["connect", "to", "node", "1"]);
    assert!(tokenize("").is_empty());
    assert!(tokenize(" \t ").is_empty());
}

#[test]
fn has_number_finds_numeric_characters() {
    assert!(!has_number("abc"));
    assert!(has_number("a1"));
    assert!(has_number("404"));
    assert!(!has_number(""));
    assert!(has_number("\u{0663}"));
    assert!(!has_number("<*>"));
}
