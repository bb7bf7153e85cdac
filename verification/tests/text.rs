//! Tests of slices of text.
use styx::ascii;
use styx::span::Span;
use styx::text::{chars_of, equal, find_byte, slice, slice_at};

#[test]
fn slices() {
    assert_eq!(slice("äbc", 2, 4), "bc");
    assert_eq!(slice("äbc", 0, 0), "");
    assert_eq!(slice_at("äbc", Span::new(0, 2)), "ä");
}

#[test]
fn bytes_are_found() {
    assert_eq!(find_byte(b"a.b.c", ascii::DOT, 0, 5), 1);
    assert_eq!(find_byte(b"a.b.c", ascii::DOT, 2, 5), 3);
    assert_eq!(find_byte(b"a.b.c", ascii::DOT, 4, 5), 5);
}

#[test]
fn texts_are_compared() {
    assert!(equal("schema", "schema"));
    assert!(!equal("schema", "schemä"));
    assert!(!equal("a", "ab"));
    assert_eq!(chars_of("aä😀"), vec!['a', 'ä', '😀']);
}
