use flightlive::text::{
    after_prefix, begins_with, chars_of, contains, decimal_text, first_chars, is_text_le,
    signed_decimal_text, trim, trim_slashes, unquote,
};

#[test]
fn white_space_is_trimmed() {
    for s in ["", "  ", "UAL215  ", "\t a b\n", "\u{3000}x\u{a0}", "\u{200b}x", "\u{2009}y\u{85}"] {
        assert_eq!(trim(s), s.trim());
    }
    assert_eq!(trim("UAL215  "), "UAL215");
}

#[test]
fn nothing_blank_is_left_at_the_ends() {
    let t = trim(" \u{1680} a  b \r\n");
    assert_eq!(t, "a  b");
    assert!(!t.starts_with(char::is_whitespace) && !t.ends_with(char::is_whitespace));
}

#[test]
fn marks_are_taken_off_both_ends() {
    for s in ["\"quoted\"", "'\"both\"'", "don't", "\"", "''", "a\"b"] {
        assert_eq!(unquote(s), s.trim_matches(|c| c == '"' || c == '\''));
    }
}

#[test]
fn slashes_are_taken_off_the_start() {
    assert_eq!(trim_slashes("/"), "");
    assert_eq!(trim_slashes("//a/b/"), "a/b/");
    assert_eq!(trim_slashes("a"), "a");
}

#[test]
fn parts_of_texts() {
    assert!(begins_with("N123", "N"));
    assert!(!begins_with("XN", "N"));
    assert!(!begins_with("", "N"));
    assert_eq!(after_prefix("Update: x", "Update:").as_deref(), Some(" x"));
    assert_eq!(after_prefix("update: x", "Update:"), None);
    assert!(contains("opensky http 429", "429"));
    assert!(contains("429", "429"));
    assert!(!contains("42 9", "429"));
    assert!(!contains("42", "429"));
    assert_eq!(first_chars("äöü", 2), "äö");
    assert_eq!(first_chars("ab", 80), "ab");
    assert_eq!(chars_of("aé—").len(), 3);
}

#[test]
fn texts_are_ordered_as_strings_are() {
    let samples = ["", "a", "ab", "abc", "b", "a1b2c3", "A", "é", "z", "\u{10000}"];
    for a in samples {
        for b in samples {
            assert_eq!(is_text_le(a, b), a <= b);
        }
    }
}

#[test]
fn numbers_are_written_in_decimal_digits() {
    for n in [0u64, 7, 10, 99, 36_000, u64::MAX] {
        assert_eq!(decimal_text(n), format!("{}", n));
    }
    for n in [0i64, -1, 42, -38_500, i64::MIN, i64::MAX] {
        assert_eq!(signed_decimal_text(n), format!("{}", n));
    }
}
