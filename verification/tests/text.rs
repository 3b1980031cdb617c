use browser_picker::text::{eq_ignore_ascii_case_str, is_blank, same_text, split_char};

#[test]
fn split_char_keeps_empty_pieces() {
    assert_eq!(split_char("a|b", '|'), vec!["a", "b"]);
    assert_eq!(split_char("", '|'), vec![""]);
    assert_eq!(split_char("|a||", '|'), vec!["", "a", "", ""]);
}

#[test]
fn blank_is_only_white_space() {
    assert!(is_blank(""));
    assert!(is_blank(" \t\n\u{3000}"));
    assert!(!is_blank(" x "));
}

#[test]
fn text_equality_helpers() {
    assert!(same_text("abc", "abc"));
    assert!(!same_text("abc", "abd"));
    assert!(eq_ignore_ascii_case_str("AbC", "aBc"));
    assert!(!eq_ignore_ascii_case_str("Ä", "ä"));
}
