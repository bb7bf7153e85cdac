//! Tests of the parser that emits one event per call.
use styx::event::Event;
use styx::parser3::Parser3;
use styx::span::Span;

/// One line per event.
fn show(events: &[Event<'_>]) -> Vec<String> {
    let at = |s: &Span| format!("{}..{}", s.start, s.end);
    events
        .iter()
        .map(|e| match e {
            Event::DocumentStart => "document".to_string(),
            Event::DocumentEnd => "document end".to_string(),
            Event::ObjectStart { span, separator } => {
                format!("object {} {:?}", at(span), separator)
            }
            Event::ObjectEnd { span } => format!("object end {}", at(span)),
            Event::SequenceStart { span } => format!("sequence {}", at(span)),
            Event::SequenceEnd { span } => format!("sequence end {}", at(span)),
            Event::EntryStart => "entry".to_string(),
            Event::EntryEnd => "entry end".to_string(),
            Event::Key { span, tag, payload, kind } => {
                let text = match (tag, payload) {
                    (None, Some(p)) => format!("{:?} {:?}", kind, p),
                    (Some(t), None) => format!("@{}", t),
                    (None, None) => "@".to_string(),
                    (Some(_), Some(_)) => unreachable!(),
                };
                format!("key {} {}", at(span), text)
            }
            Event::Scalar { span, value, kind } => {
                format!("scalar {} {:?} {:?}", at(span), kind, value)
            }
            Event::Unit { span } => format!("unit {}", at(span)),
            Event::TagStart { span, name } => format!("tag {} {}", at(span), name),
            Event::TagEnd => "tag end".to_string(),
            Event::Comment { span, text } => format!("comment {} {:?}", at(span), text),
            Event::DocComment { span, text } => format!("doc {} {:?}", at(span), text),
            Event::Error { span, kind } => format!("error {} {:?}", at(span), kind),
        })
        .collect()
}

#[test]
fn parser3_empty_document() {
    assert_eq!(
        show(&Parser3::new("").parse_to_vec()),
        vec![
            "document",
            "object 0..0 Newline",
            "object end 0..0",
            "document end",
        ]
    );
}

#[test]
fn parser3_entry() {
    assert_eq!(
        show(&Parser3::new("a b\n").parse_to_vec()),
        vec![
            "document",
            "object 0..0 Newline",
            "entry",
            "key 0..1 Bare \"a\"",
            "scalar 2..3 Bare \"b\"",
            "entry end",
            "object end 4..4",
            "document end",
        ]
    );
}

#[test]
fn parser3_dotted_path() {
    assert_eq!(
        show(&Parser3::new("a.b c").parse_to_vec()),
        vec![
            "document",
            "object 0..0 Newline",
            "entry",
            "key 0..1 Bare \"a\"",
            "object 0..1 Newline",
            "entry",
            "key 2..3 Bare \"b\"",
            "scalar 4..5 Bare \"c\"",
            "object end 5..5",
            "entry end",
            "entry end",
            "entry end",
            "object end 5..5",
            "document end",
        ]
    );
}

#[test]
fn parser3_dotted_path_with_leading_dot() {
    assert_eq!(
        show(&Parser3::new(".a b").parse_to_vec()),
        vec![
            "document",
            "object 0..0 Newline",
            "error 0..2 InvalidKey",
            "entry end",
            "entry end",
            "entry",
            "key 3..4 Bare \"b\"",
            "unit 3..4",
            "entry end",
            "object end 4..4",
            "document end",
        ]
    );
}

#[test]
fn parser3_dotted_path_with_trailing_dot() {
    assert_eq!(
        show(&Parser3::new("a. b").parse_to_vec()),
        vec![
            "document",
            "object 0..0 Newline",
            "error 0..2 InvalidKey",
            "entry end",
            "entry end",
            "entry",
            "key 3..4 Bare \"b\"",
            "unit 3..4",
            "entry end",
            "object end 4..4",
            "document end",
        ]
    );
}

#[test]
fn parser3_invalid_escape_in_value() {
    assert_eq!(
        show(&Parser3::new("k \"\\q\"").parse_to_vec()),
        vec![
            "document",
            "object 0..0 Newline",
            "entry",
            "key 0..1 Bare \"k\"",
            "error 3..5 InvalidEscape(\"\\\\q\")",
            "scalar 2..6 Quoted \"\\\\q\"",
            "entry end",
            "object end 6..6",
            "document end",
        ]
    );
}

#[test]
fn parser3_invalid_escape_in_key() {
    assert_eq!(
        show(&Parser3::new("\"\\x\" v").parse_to_vec()),
        vec![
            "document",
            "object 0..0 Newline",
            "error 1..3 InvalidEscape(\"\\\\x\")",
            "entry",
            "key 0..4 Quoted \"\\\\x\"",
            "scalar 5..6 Bare \"v\"",
            "entry end",
            "object end 6..6",
            "document end",
        ]
    );
}

#[test]
fn parser3_sequence() {
    assert_eq!(
        show(&Parser3::new("k (a \"b\" @t (c))").parse_to_vec()),
        vec![
            "document",
            "object 0..0 Newline",
            "entry",
            "key 0..1 Bare \"k\"",
            "sequence 2..3",
            "scalar 3..4 Bare \"a\"",
            "scalar 5..8 Quoted \"b\"",
            "tag 9..11 t",
            "tag end",
            "sequence 12..13",
            "scalar 13..14 Bare \"c\"",
            "sequence end 14..15",
            "entry end",
            "sequence end 15..16",
            "entry end",
            "object end 16..16",
            "document end",
        ]
    );
}

#[test]
fn parser3_too_many_atoms() {
    assert_eq!(
        show(&Parser3::new("a b c").parse_to_vec()),
        vec![
            "document",
            "object 0..0 Newline",
            "entry",
            "key 0..1 Bare \"a\"",
            "scalar 2..3 Bare \"b\"",
            "error 4..5 TooManyAtoms",
            "entry end",
            "object end 5..5",
            "document end",
        ]
    );
}

#[test]
fn parser3_too_many_atoms_after_quoted() {
    assert_eq!(
        show(&Parser3::new("a \"b\" c").parse_to_vec()),
        vec![
            "document",
            "object 0..0 Newline",
            "entry",
            "key 0..1 Bare \"a\"",
            "scalar 2..5 Quoted \"b\"",
            "error 6..7 TooManyAtoms",
            "entry end",
            "object end 7..7",
            "document end",
        ]
    );
}

#[test]
fn parser3_attributes() {
    assert_eq!(
        show(&Parser3::new("s h>x p>y\n").parse_to_vec()),
        vec![
            "document",
            "object 0..0 Newline",
            "entry",
            "key 0..1 Bare \"s\"",
            "object 2..3 Comma",
            "entry",
            "key 2..3 Bare \"h\"",
            "scalar 4..5 Bare \"x\"",
            "entry end",
            "entry",
            "key 6..7 Bare \"p\"",
            "scalar 8..9 Bare \"y\"",
            "entry end",
            "object end 10..10",
            "entry end",
            "object end 10..10",
            "document end",
        ]
    );
}

#[test]
fn parser3_attribute_without_value() {
    assert_eq!(
        show(&Parser3::new("s h>\n").parse_to_vec()),
        vec![
            "document",
            "object 0..0 Newline",
            "entry",
            "key 0..1 Bare \"s\"",
            "object 2..3 Comma",
            "entry",
            "key 2..3 Bare \"h\"",
            "error 4..5 ExpectedValue",
            "object end 5..5",
            "entry end",
            "object end 5..5",
            "document end",
        ]
    );
}

#[test]
fn parser3_block_right_behind_key() {
    assert_eq!(
        show(&Parser3::new("x{}").parse_to_vec()),
        vec![
            "document",
            "object 0..0 Newline",
            "entry",
            "error 1..2 MissingWhitespaceBeforeBlock",
            "object 1..2 Comma",
            "object end 2..3",
            "entry end",
            "object end 3..3",
            "document end",
        ]
    );
}

#[test]
fn parser3_doc_comment_ends_the_events() {
    assert_eq!(
        show(&Parser3::new("/// d\nk v").parse_to_vec()),
        vec![
            "document",
            "object 0..0 Newline",
            "doc 0..5 \"/// d\"",
        ]
    );
}

#[test]
fn parser3_tag_in_the_place_of_a_key() {
    assert_eq!(
        show(&Parser3::new("@t\n").parse_to_vec()),
        vec![
            "document",
            "object 0..0 Newline",
            "entry",
            "tag 0..2 t",
            "tag end",
            "entry end",
            "object end 3..3",
            "document end",
        ]
    );
}

#[test]
fn parser3_invalid_tag_name() {
    assert_eq!(
        show(&Parser3::new("x @9").parse_to_vec()),
        vec![
            "document",
            "object 0..0 Newline",
            "entry",
            "key 0..1 Bare \"x\"",
            "error 3..4 InvalidTagName",
            "entry end",
            "object end 4..4",
            "document end",
        ]
    );
}

#[test]
fn parser3_tag_with_explicit_unit() {
    assert_eq!(
        show(&Parser3::new("k @e@").parse_to_vec()),
        vec![
            "document",
            "object 0..0 Newline",
            "entry",
            "key 0..1 Bare \"k\"",
            "tag 2..4 e",
            "unit 4..5",
            "tag end",
            "entry end",
            "object end 5..5",
            "document end",
        ]
    );
}

#[test]
fn parser3_stray_parenthesis() {
    assert_eq!(
        show(&Parser3::new("(").parse_to_vec()),
        vec![
            "document",
            "object 0..0 Newline",
            "error 0..1 UnexpectedToken",
        ]
    );
}

#[test]
fn parser3_unclosed_sequence() {
    assert_eq!(
        show(&Parser3::new("k (").parse_to_vec()),
        vec![
            "document",
            "object 0..0 Newline",
            "entry",
            "key 0..1 Bare \"k\"",
            "sequence 2..3",
            "error 3..3 UnclosedSequence",
        ]
    );
}

#[test]
fn parser3_arrow_after_space() {
    assert_eq!(
        show(&Parser3::new("k >").parse_to_vec()),
        vec![
            "document",
            "object 0..0 Newline",
            "entry",
            "key 0..1 Bare \"k\"",
            "unit 0..1",
            "error 2..3 UnexpectedToken",
            "entry end",
            "object end 3..3",
            "document end",
        ]
    );
}

#[test]
fn parser3_comments() {
    assert_eq!(
        show(&Parser3::new("// c\nk v // d\n").parse_to_vec()),
        vec![
            "document",
            "object 0..0 Newline",
            "comment 0..4 \"// c\"",
            "entry",
            "key 5..6 Bare \"k\"",
            "scalar 7..8 Bare \"v\"",
            "entry end",
            "object end 14..14",
            "document end",
        ]
    );
}

#[test]
fn parser3_explicit_root() {
    assert_eq!(
        show(&Parser3::new("{a 1}").parse_to_vec()),
        vec![
            "document",
            "object 0..0 Newline",
            "object 0..1 Comma",
            "entry",
            "key 1..2 Bare \"a\"",
            "scalar 3..4 Bare \"1\"",
            "entry end",
            "object end 4..5",
            "entry end",
            "document end",
        ]
    );
}

#[test]
fn parser3_unit_key() {
    assert_eq!(
        show(&Parser3::new("@ v").parse_to_vec()),
        vec![
            "document",
            "object 0..0 Newline",
            "entry",
            "key 0..1 @",
            "scalar 2..3 Bare \"v\"",
            "entry end",
            "object end 3..3",
            "document end",
        ]
    );
}

#[test]
fn parser3_unescapes_what_it_emits() {
    assert_eq!(
        show(&Parser3::new("k \"\\u{1F600}\\u0041\"").parse_to_vec()),
        vec![
            "document",
            "object 0..0 Newline",
            "entry",
            "key 0..1 Bare \"k\"",
            "scalar 2..19 Quoted \"😀A\"",
            "entry end",
            "object end 19..19",
            "document end",
        ]
    );
}

#[test]
fn parser3_stays_done() {
    let mut parser = Parser3::new("a b");
    let mut count = 0;
    while parser.next_event().is_some() {
        count += 1;
    }
    assert_eq!(count, 8);
    assert!(parser.next_event().is_none());
    assert!(parser.next_event().is_none());
}

#[test]
fn parser3_clone_goes_on_alike() {
    let mut parser = Parser3::new("k \"\\q\\z\" x");
    for _ in 0..5 {
        parser.next_event();
    }
    let copy = parser.clone();
    assert_eq!(show(&parser.parse_to_vec()), show(&copy.parse_to_vec()));
}

#[test]
fn parser3_spans_cut_no_character() {
    let source = "ä.ö \"ü\\q\" ß\n@é (ñ @x{å 1})\n";
    for e in Parser3::new(source).parse_to_vec() {
        if let Event::Scalar { span, .. } | Event::Key { span, .. } | Event::Error { span, .. } = e
        {
            assert!(source.is_char_boundary(span.start as usize));
            assert!(source.is_char_boundary(span.end as usize));
        }
    }
}

#[test]
fn escapes_before_wide_characters_are_told_apart() {
    let whole = |source: &str| Parser3::new(source).is_whole();
    assert!(whole(""));
    assert!(whole("k \"\\q\\u{1F600} 😀\\"));
    assert!(!whole("k \"\\😀\""));
    assert!(!whole("\"\\😀\" v"));
    assert!(!whole("a 1\nk \"\\q\\ä\""));
}

#[test]
fn wide_characters_after_backslashes_that_escape_nothing() {
    for source in ["// \\😀\n", "k r\"\\😀\"", "k \\😀", "k \"\\\\😀\"", "k (\"\\😀\")"] {
        assert!(Parser3::new(source).is_whole());
    }
    assert_eq!(
        show(&Parser3::new("k (\"\\😀\")").parse_to_vec())[2..8],
        [
            "entry",
            "key 0..1 Bare \"k\"",
            "sequence 2..3",
            "scalar 3..10 Quoted \"\\\\😀\"",
            "sequence end 10..11",
            "entry end",
        ]
    );
}

#[test]
fn a_parser_is_whole_from_where_it_is() {
    let mut parser = Parser3::new("k \"\\q\"\nl m");
    while let Some(e) = parser.next_event() {
        assert!(parser.is_whole());
        if e == Event::DocumentEnd {
            assert_eq!(parser.next_event(), None);
        }
    }
    assert!(parser.is_whole());
}
