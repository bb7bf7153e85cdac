//! Tests of escapes in quoted scalars.
use std::borrow::Cow;
use styx::emit::strip_raw_delimiters;
use styx::escape::{find_invalid_escapes, unescape_quoted, unescape_text, ShortUnicode};
use styx::span::Span;

fn dropped(s: &str) -> String {
    unescape_text(s, ShortUnicode::Dropped).into_owned()
}

fn kept(s: &str) -> String {
    unescape_text(s, ShortUnicode::Kept).into_owned()
}

#[test]
fn text_without_backslash_is_borrowed() {
    assert!(matches!(unescape_text("plain ü", ShortUnicode::Kept), Cow::Borrowed("plain ü")));
    assert!(matches!(unescape_text("a\\nb", ShortUnicode::Kept), Cow::Owned(_)));
}

#[test]
fn simple_escapes() {
    assert_eq!(kept("a\\nb\\rc\\td\\\\e\\\"f"), "a\nb\rc\td\\e\"f");
    assert_eq!(kept("\\q\\"), "\\q\\");
    assert_eq!(dropped("\\ü"), "\\ü");
}

#[test]
fn braced_unicode_escapes() {
    for f in [dropped as fn(&str) -> String, kept] {
        assert_eq!(f("\\u{1F600}!"), "😀!");
        assert_eq!(f("\\u{+41}"), "A");
        assert_eq!(f("x\\u{}y"), "xy");
        assert_eq!(f("x\\u{D800}y"), "xy");
        assert_eq!(f("x\\u{110000}y"), "xy");
        assert_eq!(f("x\\u{1000000000}y"), "xy");
        assert_eq!(f("x\\u{zz}y"), "xy");
        assert_eq!(f("x\\u{41"), "xA");
    }
}

#[test]
fn four_digit_unicode_escapes() {
    assert_eq!(kept("\\u0041\\u00e9"), "Aé");
    assert_eq!(dropped("\\u0041\\u00E9"), "Aé");
    assert_eq!(kept("\\uD800x"), "x");
    assert_eq!(dropped("\\uD800x"), "x");
}

#[test]
fn short_unicode_escapes() {
    assert_eq!(kept("\\u41xyz"), "\\u41xyz");
    assert_eq!(kept("\\u"), "\\u");
    assert_eq!(dropped("\\u41xyz"), "z");
    assert_eq!(dropped("\\u41"), "A");
    assert_eq!(dropped("\\u+041z"), "Az");
    assert_eq!(dropped("\\u"), "");
}

#[test]
fn quoted_scalar_in_a_source() {
    let source = "k \"a\\tb\" z";
    assert_eq!(unescape_quoted(source, Span::new(2, 8), ShortUnicode::Kept), "a\tb");
    assert_eq!(unescape_quoted("\"\"", Span::new(0, 2), ShortUnicode::Kept), "");
}

#[test]
fn invalid_escapes_are_found() {
    assert_eq!(find_invalid_escapes(b"a\\nb\\rc\\td\\\\e\\\""), vec![]);
    assert_eq!(find_invalid_escapes(b"\\x ok \\q"), vec![(0, 2), (6, 2)]);
    assert_eq!(find_invalid_escapes(b"end\\"), vec![(3, 1)]);
    assert_eq!(find_invalid_escapes(b"\\u{12\\x}\\y"), vec![(8, 2)]);
    assert_eq!(find_invalid_escapes(b"\\u{12"), vec![]);
    assert_eq!(find_invalid_escapes(b"\\u00410\\z"), vec![(7, 2)]);
    assert_eq!(find_invalid_escapes(b"\\ug\\z"), vec![(3, 2)]);
    assert_eq!(find_invalid_escapes(b""), vec![]);
}

#[test]
fn escaped_text_says_itself() {
    let text = "a\\n \"q\"\n\r\tü\\";
    let mut written = String::new();
    for c in text.chars() {
        match c {
            '\\' => written.push_str("\\\\"),
            '"' => written.push_str("\\\""),
            '\n' => written.push_str("\\n"),
            '\r' => written.push_str("\\r"),
            '\t' => written.push_str("\\t"),
            c => written.push(c),
        }
    }
    assert_eq!(kept(&written), text);
    assert_eq!(dropped(&written), text);
}

#[test]
fn raw_scalars_say_what_they_enclose() {
    for (source, body) in [
        ("r\"\"", ""),
        ("r\"a\"", "a"),
        ("r#\"content\"#", "content"),
        ("r##\"a \"# b\\n ü\"##", "a \"# b\\n ü"),
    ] {
        let span = Span::new(0, source.len() as u32);
        assert_eq!(strip_raw_delimiters(source, span), body);
    }
    assert_eq!(strip_raw_delimiters("k r#\"x\"# y", Span::new(2, 8)), "x");
}
