//! Tests of the exact events of the parser with a queue.
use styx::event::Event;
use styx::parser2::Parser2;
use styx::span::Span;

/// One line per event.
fn show(events: &[Event<'_>]) -> Vec<String> {
    let at = |s: &Span| format!("{}..{}", s.start, s.end);
    events
        .iter()
        .map(|e| match e {
            Event::DocumentStart => "document".to_string(),
            Event::DocumentEnd => "document end".to_string(),
            Event::ObjectStart { span, separator } => {
                format!("object {} {:?}", at(span), separator)
            }
            Event::ObjectEnd { span } => format!("object end {}", at(span)),
            Event::SequenceStart { span } => format!("sequence {}", at(span)),
            Event::SequenceEnd { span } => format!("sequence end {}", at(span)),
            Event::EntryStart => "entry".to_string(),
            Event::EntryEnd => "entry end".to_string(),
            Event::Key { span, tag, payload, kind } => {
                let text = match (tag, payload) {
                    (None, Some(p)) => format!("{:?} {:?}", kind, p),
                    (Some(t), None) => format!("@{}", t),
                    (None, None) => "@".to_string(),
                    (Some(_), Some(_)) => unreachable!(),
                };
                format!("key {} {}", at(span), text)
            }
            Event::Scalar { span, value, kind } => {
                format!("scalar {} {:?} {:?}", at(span), kind, value)
            }
            Event::Unit { span } => format!("unit {}", at(span)),
            Event::TagStart { span, name } => format!("tag {} {}", at(span), name),
            Event::TagEnd => "tag end".to_string(),
            Event::Comment { span, text } => format!("comment {} {:?}", at(span), text),
            Event::DocComment { span, text } => format!("doc {} {:?}", at(span), text),
            Event::Error { span, kind } => format!("error {} {:?}", at(span), kind),
        })
        .collect()
}

#[test]
fn parser2_empty_document() {
    assert_eq!(
        show(&Parser2::new("").parse_to_vec()),
        vec![
            "document",
            "object 0..0 Newline",
            "object end 0..0",
            "document end",
        ]
    );
}

#[test]
fn parser2_empty_value() {
    assert_eq!(
        show(&Parser2::new_expr("").parse_to_vec()),
        vec![
            "document",
            "document end",
            "document end",
        ]
    );
}

#[test]
fn parser2_entry() {
    assert_eq!(
        show(&Parser2::new("a b").parse_to_vec()),
        vec![
            "document",
            "object 0..0 Newline",
            "entry",
            "key 0..1 Bare \"a\"",
            "scalar 2..3 Bare \"b\"",
            "entry end",
            "object end 3..3",
            "document end",
        ]
    );
}

#[test]
fn parser2_doc_comment() {
    assert_eq!(
        show(&Parser2::new("/// d\nk").parse_to_vec()),
        vec![
            "document",
            "object 0..0 Newline",
            "entry",
            "doc 0..5 \"/// d\"",
            "key 6..7 Bare \"k\"",
            "unit 6..7",
            "entry end",
            "object end 7..7",
            "document end",
        ]
    );
}

#[test]
fn parser2_raw_scalar() {
    assert_eq!(
        show(&Parser2::new("x r#\"a\"b\"#").parse_to_vec()),
        vec![
            "document",
            "object 0..0 Newline",
            "entry",
            "key 0..1 Bare \"x\"",
            "scalar 2..10 Raw \"a\\\"b\"",
            "entry end",
            "object end 10..10",
            "document end",
        ]
    );
}

#[test]
fn parser2_heredoc() {
    assert_eq!(
        show(&Parser2::new("x <<E\none\ntwo\nE\n").parse_to_vec()),
        vec![
            "document",
            "object 0..0 Newline",
            "entry",
            "key 0..1 Bare \"x\"",
            "scalar 2..15 Heredoc \"one\\ntwo\\n\"",
            "entry end",
            "object end 16..16",
            "document end",
        ]
    );
}

#[test]
fn parser2_schema_is_passed_over() {
    assert_eq!(
        show(&Parser2::new("@schema x\nk v").parse_to_vec()),
        vec![
            "document",
            "object 0..0 Newline",
            "entry",
            "key 10..11 Bare \"k\"",
            "scalar 12..13 Bare \"v\"",
            "entry end",
            "object end 13..13",
            "document end",
        ]
    );
}

#[test]
fn parser2_schema_block_is_passed_over() {
    assert_eq!(
        show(&Parser2::new("@schema {a (b)}\nk v").parse_to_vec()),
        vec![
            "document",
            "object 0..0 Newline",
            "entry",
            "key 16..17 Bare \"k\"",
            "scalar 18..19 Bare \"v\"",
            "entry end",
            "object end 19..19",
            "document end",
        ]
    );
}

#[test]
fn parser2_attributes_in_the_place_of_a_key() {
    assert_eq!(
        show(&Parser2::new("a>1 b>2").parse_to_vec()),
        vec![
            "document",
            "object 0..0 Newline",
            "entry",
            "key 0..1 Bare \"a\"",
            "object 0..1 Comma",
            "entry",
            "key 0..1 Bare \"a\"",
            "scalar 2..3 Bare \"1\"",
            "entry end",
            "entry",
            "key 4..5 Bare \"b\"",
            "scalar 6..7 Bare \"2\"",
            "entry end",
            "object end 0..0",
            "entry end",
            "object end 7..7",
            "document end",
        ]
    );
}

#[test]
fn parser2_block_right_behind_key() {
    assert_eq!(
        show(&Parser2::new("k{}").parse_to_vec()),
        vec![
            "document",
            "object 0..0 Newline",
            "entry",
            "key 0..1 Bare \"k\"",
            "object 1..2 Comma",
            "error 1..2 MissingWhitespaceBeforeBlock",
            "object end 2..3",
            "entry end",
            "object end 3..3",
            "document end",
        ]
    );
}

#[test]
fn parser2_explicit_root() {
    assert_eq!(
        show(&Parser2::new("{a 1, b 2}").parse_to_vec()),
        vec![
            "document",
            "object 0..1 Comma",
            "entry",
            "key 1..2 Bare \"a\"",
            "scalar 3..4 Bare \"1\"",
            "entry end",
            "entry",
            "key 6..7 Bare \"b\"",
            "scalar 8..9 Bare \"2\"",
            "entry end",
            "object end 9..10",
        ]
    );
}

#[test]
fn parser2_unclosed_sequence() {
    assert_eq!(
        show(&Parser2::new("k (a").parse_to_vec()),
        vec![
            "document",
            "object 0..0 Newline",
            "entry",
            "key 0..1 Bare \"k\"",
            "sequence 2..3",
            "scalar 3..4 Bare \"a\"",
            "sequence end 4..4",
            "error 4..4 UnclosedSequence",
            "error 0..0 UnclosedSequence",
            "object end 4..4",
            "error 4..4 UnclosedSequence",
            "document end",
        ]
    );
}

#[test]
fn parser2_unclosed_object() {
    assert_eq!(
        show(&Parser2::new("k {").parse_to_vec()),
        vec![
            "document",
            "object 0..0 Newline",
            "entry",
            "key 0..1 Bare \"k\"",
            "object 2..3 Comma",
            "object end 3..3",
            "error 0..0 UnclosedObject",
            "object end 3..3",
            "document end",
        ]
    );
}

#[test]
fn parser2_tag() {
    assert_eq!(
        show(&Parser2::new("k @t").parse_to_vec()),
        vec![
            "document",
            "object 0..0 Newline",
            "entry",
            "key 0..1 Bare \"k\"",
            "tag 2..4 t",
            "unit 4..4",
            "tag end",
            "entry end",
            "object end 4..4",
            "document end",
        ]
    );
}

#[test]
fn parser2_tag_with_quoted_payload() {
    assert_eq!(
        show(&Parser2::new("k @t\"x\"").parse_to_vec()),
        vec![
            "document",
            "object 0..0 Newline",
            "entry",
            "key 0..1 Bare \"k\"",
            "tag 2..4 t",
            "scalar 4..7 Quoted \"x\"",
            "tag end",
            "entry end",
            "object end 7..7",
            "document end",
        ]
    );
}

#[test]
fn parser2_tag_in_the_place_of_a_key() {
    assert_eq!(
        show(&Parser2::new("@t v").parse_to_vec()),
        vec![
            "document",
            "object 0..0 Newline",
            "entry",
            "key 0..2 @t",
            "scalar 3..4 Bare \"v\"",
            "entry end",
            "object end 4..4",
            "document end",
        ]
    );
}

#[test]
fn parser2_tag_key_with_payload() {
    assert_eq!(
        show(&Parser2::new("@t@ v").parse_to_vec()),
        vec![
            "document",
            "object 0..0 Newline",
            "error 0..3 InvalidKey",
            "entry",
            "key 4..5 Bare \"v\"",
            "unit 4..5",
            "entry end",
            "object end 5..5",
            "document end",
        ]
    );
}

#[test]
fn parser2_stray_brace() {
    assert_eq!(
        show(&Parser2::new("}").parse_to_vec()),
        vec![
            "document",
            "object 0..0 Newline",
            "error 0..1 UnexpectedToken",
            "object end 1..1",
            "document end",
        ]
    );
}

#[test]
fn parser2_stray_parenthesis() {
    assert_eq!(
        show(&Parser2::new(")").parse_to_vec()),
        vec![
            "document",
            "object 0..0 Newline",
            "error 0..1 UnexpectedToken",
            "object end 1..1",
            "document end",
        ]
    );
}

#[test]
fn parser2_no_key() {
    assert_eq!(
        show(&Parser2::new(">").parse_to_vec()),
        vec![
            "document",
            "object 0..0 Newline",
            "error 0..1 ExpectedKey",
            "object end 1..1",
            "document end",
        ]
    );
}

#[test]
fn parser2_no_attribute_value() {
    assert_eq!(
        show(&Parser2::new("a>").parse_to_vec()),
        vec![
            "document",
            "object 0..0 Newline",
            "entry",
            "key 0..1 Bare \"a\"",
            "error 2..2 ExpectedValue",
            "entry end",
            "object end 2..2",
            "document end",
        ]
    );
}

#[test]
fn parser2_attribute_in_the_place_of_a_value() {
    assert_eq!(
        show(&Parser2::new("s h>x\n").parse_to_vec()),
        vec![
            "document",
            "object 0..0 Newline",
            "entry",
            "key 0..1 Bare \"s\"",
            "object 2..3 Comma",
            "entry",
            "key 2..3 Bare \"h\"",
            "scalar 4..5 Bare \"x\"",
            "entry end",
            "object end 2..3",
            "entry end",
            "object end 6..6",
            "document end",
        ]
    );
}

#[test]
fn parser2_attribute_with_object() {
    assert_eq!(
        show(&Parser2::new("c o>{x 1}").parse_to_vec()),
        vec![
            "document",
            "object 0..0 Newline",
            "entry",
            "key 0..1 Bare \"c\"",
            "object 2..3 Comma",
            "entry",
            "key 2..3 Bare \"o\"",
            "object 4..5 Comma",
            "entry",
            "key 5..6 Bare \"x\"",
            "scalar 7..8 Bare \"1\"",
            "entry end",
            "object end 8..9",
            "entry end",
            "object end 0..0",
            "entry end",
            "object end 9..9",
            "document end",
        ]
    );
}

#[test]
fn parser2_attribute_with_sequence() {
    assert_eq!(
        show(&Parser2::new("c t>(a)").parse_to_vec()),
        vec![
            "document",
            "object 0..0 Newline",
            "entry",
            "key 0..1 Bare \"c\"",
            "object 2..3 Comma",
            "entry",
            "key 2..3 Bare \"t\"",
            "sequence 4..5",
            "scalar 5..6 Bare \"a\"",
            "sequence end 6..7",
            "entry end",
            "object end 0..0",
            "entry end",
            "object end 7..7",
            "document end",
        ]
    );
}

#[test]
fn parser2_attributes_after_an_object() {
    assert_eq!(
        show(&Parser2::new("c o>{} p>@t(1) q>2\nd 3").parse_to_vec()),
        vec![
            "document",
            "object 0..0 Newline",
            "entry",
            "key 0..1 Bare \"c\"",
            "object 2..3 Comma",
            "entry",
            "key 2..3 Bare \"o\"",
            "object 4..5 Comma",
            "object end 5..6",
            "entry end",
            "entry",
            "key 7..8 Bare \"p\"",
            "error 9..10 UnexpectedToken",
            "entry end",
            "error 10..11 TooManyAtoms",
            "object end 0..0",
            "entry end",
            "entry",
            "key 19..20 Bare \"d\"",
            "scalar 21..22 Bare \"3\"",
            "entry end",
            "object end 22..22",
            "document end",
        ]
    );
}

#[test]
fn parser2_attribute_with_tagged_object() {
    assert_eq!(
        show(&Parser2::new("c s>@ok{x 1}").parse_to_vec()),
        vec![
            "document",
            "object 0..0 Newline",
            "entry",
            "key 0..1 Bare \"c\"",
            "object 2..3 Comma",
            "entry",
            "key 2..3 Bare \"s\"",
            "tag 4..7 ok",
            "object 7..8 Comma",
            "entry",
            "key 8..9 Bare \"x\"",
            "scalar 10..11 Bare \"1\"",
            "entry end",
            "object end 11..12",
            "entry end",
            "object end 0..0",
            "entry end",
            "object end 12..12",
            "document end",
        ]
    );
}

#[test]
fn parser2_attribute_with_tag() {
    assert_eq!(
        show(&Parser2::new("c s>@ok").parse_to_vec()),
        vec![
            "document",
            "object 0..0 Newline",
            "entry",
            "key 0..1 Bare \"c\"",
            "object 2..3 Comma",
            "entry",
            "key 2..3 Bare \"s\"",
            "tag 4..7 ok",
            "unit 7..7",
            "tag end",
            "entry end",
            "object end 0..0",
            "entry end",
            "object end 7..7",
            "document end",
        ]
    );
}

#[test]
fn parser2_arrow_after_space() {
    assert_eq!(
        show(&Parser2::new("k > v").parse_to_vec()),
        vec![
            "document",
            "object 0..0 Newline",
            "entry",
            "key 0..1 Bare \"k\"",
            "error 2..3 UnexpectedToken",
            "unit 0..1",
            "entry end",
            "entry",
            "key 4..5 Bare \"v\"",
            "unit 4..5",
            "entry end",
            "object end 5..5",
            "document end",
        ]
    );
}

#[test]
fn parser2_comment_after_value() {
    assert_eq!(
        show(&Parser2::new("k v // c").parse_to_vec()),
        vec![
            "document",
            "object 0..0 Newline",
            "entry",
            "key 0..1 Bare \"k\"",
            "scalar 2..3 Bare \"v\"",
            "comment 4..8 \"// c\"",
            "entry end",
            "object end 8..8",
            "document end",
        ]
    );
}

#[test]
fn parser2_dangling_doc_comment() {
    assert_eq!(
        show(&Parser2::new("{a {/// d\n}}").parse_to_vec()),
        vec![
            "document",
            "object 0..1 Comma",
            "entry",
            "key 1..2 Bare \"a\"",
            "object 3..4 Comma",
            "object end 10..11",
            "error 4..9 DanglingDocComment",
            "entry end",
            "object end 11..12",
        ]
    );
}

#[test]
fn parser2_too_many_atoms_passes_over_blocks() {
    assert_eq!(
        show(&Parser2::new("a b c {d e} f\ng h").parse_to_vec()),
        vec![
            "document",
            "object 0..0 Newline",
            "entry",
            "key 0..1 Bare \"a\"",
            "scalar 2..3 Bare \"b\"",
            "error 4..5 TooManyAtoms",
            "entry end",
            "entry",
            "key 14..15 Bare \"g\"",
            "scalar 16..17 Bare \"h\"",
            "entry end",
            "object end 17..17",
            "document end",
        ]
    );
}

#[test]
fn parser2_stays_done() {
    let mut parser = Parser2::new("a b");
    let mut count = 0;
    while parser.next_event().is_some() {
        count += 1;
    }
    assert_eq!(count, 8);
    assert!(parser.next_event().is_none());
    assert!(parser.next_event().is_none());
    assert_eq!(parser.input(), "a b");
}

#[test]
fn parser2_keeps_short_unicode_escapes() {
    assert_eq!(
        show(&Parser2::new("k \"\\u41\"").parse_to_vec())[4],
        "scalar 2..8 Quoted \"\\\\u41\""
    );
}

#[test]
fn parser2_spans_cut_no_character() {
    let source = "ä \"ü\\q\" ß\n@é {ñ @x(å 1)}\nö>1 ø>2";
    for e in Parser2::new(source).parse_to_vec() {
        if let Event::Scalar { span, .. } | Event::Key { span, .. } | Event::Error { span, .. } = e
        {
            assert!(source.is_char_boundary(span.start as usize));
            assert!(source.is_char_boundary(span.end as usize));
        }
    }
}
