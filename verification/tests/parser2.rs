//! Tests of the parser with a queue of events.
use styx::event::{Event, ParseErrorKind, ScalarKind};
use styx::parser2::Parser2;

fn parse(source: &str) -> Vec<Event<'_>> {
    Parser2::new(source).parse_to_vec()
}

fn error_kind_name(kind: &ParseErrorKind) -> &'static str {
    match kind {
        ParseErrorKind::UnexpectedToken => "UnexpectedToken",
        ParseErrorKind::UnclosedObject => "UnclosedObject",
        ParseErrorKind::UnclosedSequence => "UnclosedSequence",
        ParseErrorKind::MixedSeparators => "MixedSeparators",
        ParseErrorKind::InvalidEscape(_) => "InvalidEscape",
        ParseErrorKind::ExpectedKey => "ExpectedKey",
        ParseErrorKind::ExpectedValue => "ExpectedValue",
        ParseErrorKind::UnexpectedEof => "UnexpectedEof",
        ParseErrorKind::DuplicateKey { .. } => "DuplicateKey",
        ParseErrorKind::InvalidTagName => "InvalidTagName",
        ParseErrorKind::InvalidKey => "InvalidKey",
        ParseErrorKind::DanglingDocComment => "DanglingDocComment",
        ParseErrorKind::TooManyAtoms => "TooManyAtoms",
        ParseErrorKind::ReopenedPath { .. } => "ReopenedPath",
        ParseErrorKind::NestIntoTerminal { .. } => "NestIntoTerminal",
        ParseErrorKind::CommaInSequence => "CommaInSequence",
        ParseErrorKind::MissingWhitespaceBeforeBlock => "MissingWhitespaceBeforeBlock",
    }
}


/// Holds the errors of `source`, with their kinds and places, against `expected`.
fn assert_errors(source: &str, expected: &[(&str, u32, u32)]) {
    let events = parse(source);
    let errors: Vec<(&str, u32, u32)> = events
        .iter()
        .filter_map(|e| match e {
            Event::Error { span, kind } => Some((error_kind_name(kind), span.start, span.end)),
            _ => None,
        })
        .collect();
    assert_eq!(errors, expected);
}

#[test]
fn test_empty_document() {
    let events = parse("");
    assert!(events.contains(&Event::DocumentStart));
    assert!(events.contains(&Event::DocumentEnd));
}

#[test]
fn test_simple_entry() {
    let events = parse("foo bar");
    assert!(
        events
            .iter()
            .any(|e| matches!(e, Event::Key { payload: Some(v), .. } if v == "foo"))
    );
    assert!(
        events
            .iter()
            .any(|e| matches!(e, Event::Scalar { value, .. } if value == "bar"))
    );
}

#[test]
fn test_key_only() {
    let events = parse("foo");
    assert!(
        events
            .iter()
            .any(|e| matches!(e, Event::Key { payload: Some(v), .. } if v == "foo"))
    );
    assert!(events.iter().any(|e| matches!(e, Event::Unit { .. })));
}

#[test]
fn test_multiple_entries() {
    let events = parse("foo bar\nbaz qux");
    let keys: Vec<_> = events
        .iter()
        .filter_map(|e| match e {
            Event::Key {
                payload: Some(v), ..
            } => Some(v.as_ref()),
            _ => None,
        })
        .collect();
    assert_eq!(keys, vec!["foo", "baz"]);
}

#[test]
fn test_quoted_string() {
    let events = parse(r#"name "hello world""#);
    assert!(events
        .iter()
        .any(|e| matches!(e, Event::Scalar { value, kind: ScalarKind::Quoted, .. } if value == "hello world")));
}

#[test]
fn test_quoted_escape() {
    let events = parse(r#"msg "hello\nworld""#);
    assert!(
        events
            .iter()
            .any(|e| matches!(e, Event::Scalar { value, .. } if value == "hello\nworld"))
    );
}

#[test]
fn test_too_many_atoms() {
    assert_errors("\na b c\n", &[("TooManyAtoms", 5, 6)]);
}

#[test]
fn test_too_many_atoms_in_object() {
    assert_errors("\n{label \": BIGINT\" line 4}\n", &[("TooManyAtoms", 19, 23)]);
}

#[test]
fn test_unit_value() {
    let events = parse("flag @");
    assert!(events.iter().any(|e| matches!(e, Event::Unit { .. })));
}

#[test]
fn test_unit_key() {
    let events = parse("@ value");
    assert!(events.iter().any(|e| matches!(
        e,
        Event::Key {
            payload: None,
            tag: None,
            ..
        }
    )));
}

#[test]
fn test_tag() {
    let events = parse("type @user");
    assert!(
        events
            .iter()
            .any(|e| matches!(e, Event::TagStart { name, .. } if *name == "user"))
    );
}

#[test]
fn test_comments() {
    let events = parse("// comment\nfoo bar");
    assert!(events.iter().any(|e| matches!(e, Event::Comment { .. })));
}

#[test]
fn test_doc_comments() {
    let events = parse("/// doc\nfoo bar");
    assert!(events.iter().any(|e| matches!(e, Event::DocComment { .. })));
}

#[test]
fn test_doc_comment_at_eof_error() {
    assert_errors("\nfoo bar\n/// dangling\n", &[("DanglingDocComment", 9, 21)]);
}

#[test]
fn test_nested_object() {
    let events = parse("outer {inner {x 1}}");
    let obj_starts = events
        .iter()
        .filter(|e| matches!(e, Event::ObjectStart { .. }))
        .count();
    assert!(obj_starts >= 2);
}

#[test]
fn test_sequence_elements() {
    let events = parse("items (a b c)");
    let scalars: Vec<_> = events
        .iter()
        .filter_map(|e| match e {
            Event::Scalar { value, .. } => Some(value.as_ref()),
            _ => None,
        })
        .collect();
    assert!(scalars.contains(&"a"));
    assert!(scalars.contains(&"b"));
    assert!(scalars.contains(&"c"));
}

#[test]
fn test_tagged_object() {
    let events = parse("result @err{message oops}");
    assert!(
        events
            .iter()
            .any(|e| matches!(e, Event::TagStart { name, .. } if *name == "err"))
    );
}

#[test]
fn test_tagged_explicit_unit() {
    let events = parse("nothing @empty@");
    assert!(
        events
            .iter()
            .any(|e| matches!(e, Event::TagStart { name, .. } if *name == "empty"))
    );
}

#[test]
fn test_simple_attribute() {
    let events = parse("server host>localhost");
    let keys: Vec<_> = events
        .iter()
        .filter_map(|e| match e {
            Event::Key {
                payload: Some(v), ..
            } => Some(v.as_ref()),
            _ => None,
        })
        .collect();
    assert!(keys.contains(&"server"));
    assert!(keys.contains(&"host"));
}

#[test]
fn test_multiple_attributes() {
    let events = parse("server host>localhost port>8080");
    let keys: Vec<_> = events
        .iter()
        .filter_map(|e| match e {
            Event::Key {
                payload: Some(v), ..
            } => Some(v.as_ref()),
            _ => None,
        })
        .collect();
    assert!(keys.contains(&"server"));
    assert!(keys.contains(&"host"));
    assert!(keys.contains(&"port"));
}

#[test]
fn test_attribute_with_object_value() {
    let events = parse("config opts>{x 1}");
    let keys: Vec<_> = events
        .iter()
        .filter_map(|e| match e {
            Event::Key {
                payload: Some(v), ..
            } => Some(v.as_ref()),
            _ => None,
        })
        .collect();
    assert!(keys.contains(&"config"));
    assert!(keys.contains(&"opts"));
    assert!(keys.contains(&"x"));
}

#[test]
fn test_attribute_with_sequence_value() {
    let events = parse("config tags>(a b c)");
    assert!(
        events
            .iter()
            .any(|e| matches!(e, Event::SequenceStart { .. }))
    );
}

#[test]
fn test_attribute_with_tag_value() {
    let events = parse("config status>@ok");
    assert!(
        events
            .iter()
            .any(|e| matches!(e, Event::TagStart { name, .. } if *name == "ok"))
    );
}

#[test]
fn test_tag_with_dot_invalid() {
    assert_errors("\n@Some.Type\n", &[("InvalidTagName", 2, 11)]);
}

#[test]
fn test_invalid_tag_name_starts_with_digit() {
    assert_errors("\nx @123\n", &[("InvalidTagName", 4, 7)]);
}

#[test]
fn test_unicode_escape_braces() {
    let events = parse(r#"x "\u{1F600}""#);
    assert!(
        events
            .iter()
            .any(|e| matches!(e, Event::Scalar { value, .. } if value == "😀"))
    );
}

#[test]
fn test_unicode_escape_4digit() {
    let events = parse(r#"x "\u0041""#);
    assert!(
        events
            .iter()
            .any(|e| matches!(e, Event::Scalar { value, .. } if value == "A"))
    );
}

#[test]
fn test_heredoc_key_rejected() {
    assert_errors("\n<<EOF\nkey\nEOF value\n", &[("InvalidKey", 1, 7)]);
}

#[test]
fn test_missing_comma_rejected() {
    assert_errors("\n{server {host localhost port 8080}}\n", &[("TooManyAtoms", 25, 29)]);
}

#[test]
fn test_bare_scalar_is_string() {
    let events = parse("port 8080");
    assert!(
        events
            .iter()
            .any(|e| matches!(e, Event::Scalar { value, .. } if value == "8080"))
    );
}

#[test]
fn test_bool_like_is_string() {
    let events = parse("enabled true");
    assert!(
        events
            .iter()
            .any(|e| matches!(e, Event::Scalar { value, .. } if value == "true"))
    );
}
