use apollo::clean::{drop_blank, is_blank, parse_file, strip_line};

#[test]
fn parse_file_strips_timestamps_and_colors() {
    let content = "2024-01-02T03:04:05.1234567Z hello world\n\u{1b}[31mred\u{1b}[0m text\n   \n\nplain line\r\n".to_string();
    assert_eq!(parse_file(content), vec!["hello world", "red text", "plain line"]);
}

#[test]
fn parse_file_of_nothing() {
    assert!(parse_file(String::new()).is_empty());
    assert!(parse_file("\n \n\t\n".to_string()).is_empty());
}

#[test]
fn strip_line_cases() {
    assert_eq!(strip_line("2024-01-02T03:04:05.1234567Z x"), "x");
    assert_eq!(strip_line("2024-01-02T03:04:05.1234567Zy"), "y");
    assert_eq!(strip_line("no stamp here"), "no stamp here");
    assert_eq!(strip_line("[1;31mwarn[0m ing"), "warn ing");
    assert_eq!(strip_line("\u{1b}[32mok"), "ok");
}

#[test]
fn blank_lines() {
    assert!(is_blank(""));
    assert!(is_blank(" \t\u{3000}"));
    assert!(!is_blank(" a "));
    let kept = drop_blank(vec!["a".to_string(), "  ".to_string(), "b".to_string()]);
    assert_eq!(kept, vec!["a", "b"]);
}
