use axcli::number::{parse_isize, parse_u64, parse_usize, push_decimal, push_signed_decimal};
use axcli::pattern::{parse_slashed_pattern, some_match};
use axcli::text::{
    byte_len, char_count, join_texts, rfind_text, split_text, strip_prefix_text, trim_char_text,
    trim_text, without_char_text,
};

#[test]
fn numbers() {
    assert_eq!(parse_u64("18446744073709551615"), Some(u64::MAX));
    assert_eq!(parse_u64("18446744073709551616"), None);
    assert_eq!(parse_u64(""), None);
    assert_eq!(parse_u64("+"), None);
    assert_eq!(parse_usize("007"), Some(7));
    assert_eq!(parse_isize("-1"), Some(-1));
    assert_eq!(parse_isize("--1"), None);
    assert_eq!(parse_isize("-9223372036854775808"), Some(isize::MIN));
    assert_eq!(parse_isize("9223372036854775808"), None);
}

#[test]
fn numbers_read_back() {
    for n in [0, 9, 10, 12345, u64::MAX] {
        let mut s = String::new();
        push_decimal(&mut s, n);
        assert_eq!(s, n.to_string());
        assert_eq!(parse_u64(&s), Some(n));
    }
    for n in [i64::MIN, -1, 0, i64::MAX] {
        let mut s = String::new();
        push_signed_decimal(&mut s, n);
        assert_eq!(s, n.to_string());
    }
}

#[test]
fn white_space_is_that_of_unicode() {
    assert_eq!(trim_text(" \t\u{a0}\u{3000}a b\u{2003}\n"), "a b");
    assert_eq!(trim_text("\u{200b}a"), "\u{200b}a");
    for c in '\u{0}'..='\u{ffff}' {
        let s = c.to_string();
        assert_eq!(trim_text(&s).is_empty(), c.is_whitespace());
    }
}

#[test]
fn pieces() {
    assert_eq!(split_text("a >> b >> ", " >> "), vec!["a", "b", ""]);
    assert_eq!(split_text("aaa", "aa"), vec!["", "a"]);
    assert_eq!(rfind_text("\u{e9}a\u{e9}a", "a"), Some(3));
    assert_eq!(strip_prefix_text("AXa", "AX"), Some("a"));
    assert_eq!(trim_char_text("\"\"a\"", '"'), "a");
    assert_eq!(without_char_text("a\u{200b}b", '\u{200b}'), "ab");
    assert_eq!(byte_len("\u{e9}a"), 3);
    assert_eq!(char_count("\u{e9}a"), 2);
    assert_eq!(join_texts(&["a".to_string(), "b".to_string()], ", "), "a, b");
}

#[test]
fn patterns() {
    assert_eq!(parse_slashed_pattern("/a/b/gi").as_deref(), Some("(?i)a/b"));
    assert_eq!(parse_slashed_pattern("/a/").as_deref(), Some("a"));
    assert_eq!(parse_slashed_pattern("/a"), None);
    assert!(some_match(&vec![None, Some(false), Some(true)]));
    assert!(!some_match(&vec![None, Some(false)]));
}
