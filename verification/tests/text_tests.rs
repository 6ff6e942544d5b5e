use shell_core::enums::parse_usize;
use shell_core::text::{chars_of, push_decimal, push_joined, remove_pairs, string_of, trim_chars};

fn chars(s: &str) -> Vec<char> {
    s.chars().collect()
}

#[test]
fn trim_removes_unicode_whitespace_at_both_ends() {
    assert_eq!(trim_chars(&chars(" \t a b \n\r")), chars("a b"));
    assert_eq!(trim_chars(&chars("\u{3000}x\u{A0}")), chars("x"));
    assert_eq!(trim_chars(&chars("   ")), chars(""));
    for s in ["", "  x ", "\u{2028}y\u{85}", "a", " a\u{200B} "] {
        assert_eq!(string_of(&trim_chars(&chars(s))), s.trim());
    }
}

#[test]
fn pairs_are_removed_left_to_right() {
    assert_eq!(remove_pairs(&chars("a''b"), '\''), chars("ab"));
    assert_eq!(remove_pairs(&chars("'''"), '\''), chars("'"));
    assert_eq!(remove_pairs(&chars("''''"), '\''), chars(""));
    for s in ["x''y''z", "'", "''a'", "\"\"\"", "abc"] {
        assert_eq!(string_of(&remove_pairs(&chars(s), '\'')), s.replace("''", ""));
        assert_eq!(string_of(&remove_pairs(&chars(s), '"')), s.replace("\"\"", ""));
    }
}

#[test]
fn decimal_notation() {
    for n in [0usize, 7, 10, 99, 100, 12345, usize::MAX] {
        let mut s = String::new();
        push_decimal(&mut s, n);
        assert_eq!(s, n.to_string());
        assert_eq!(parse_usize(&s), Some(n));
    }
}

#[test]
fn joined_words() {
    let mut s = String::from(">");
    push_joined(&mut s, &["a".to_string(), "b c".to_string(), "".to_string()]);
    assert_eq!(s, ">a b c ");
}

#[test]
fn chars_round_trip() {
    for s in ["", "héllo", "a b\tc"] {
        assert_eq!(string_of(&chars_of(s)), s);
    }
}
