//! Tests of how events follow one another.
use styx::event::{Event, ScalarKind};
use styx::parser2::Parser2;
use styx::parser3::Parser3;

const SOURCES: [&str; 18] = [
    "",
    "a 1",
    "a {b 1}\nc (1 2)",
    "{a 1}",
    "}",
    ")",
    "a }",
    "a \"x\" }",
    "a \"x\")",
    "a.b.c 1",
    "a.b {c 1}",
    "a b>c }",
    "a b>1 c>2\nd 3",
    "a @t{b 1}",
    "a (@t {b 1} (2))",
    "a (1",
    "a {b 1",
    "k>{a 1}",
];

/// Whether some event closes an object or a sequence where none is open.
fn closes_unopened(events: &[Event<'_>]) -> bool {
    let mut open = 0i32;
    for e in events {
        match e {
            Event::ObjectStart { .. } | Event::SequenceStart { .. } => open += 1,
            Event::ObjectEnd { .. } | Event::SequenceEnd { .. } => open -= 1,
            _ => {}
        }
        if open < 0 {
            return true;
        }
    }
    false
}

fn starts(events: &[Event<'_>]) -> Vec<usize> {
    (0..events.len()).filter(|i| matches!(events[*i], Event::DocumentStart)).collect()
}

fn ends(events: &[Event<'_>]) -> Vec<usize> {
    (0..events.len()).filter(|i| matches!(events[*i], Event::DocumentEnd)).collect()
}

#[test]
fn nothing_is_closed_that_is_not_open() {
    for source in SOURCES {
        assert!(!closes_unopened(&Parser2::new(source).parse_to_vec()), "{}", source);
        assert!(!closes_unopened(&Parser2::new_expr(source).parse_to_vec()), "{}", source);
        assert!(!closes_unopened(&Parser3::new(source).parse_to_vec()), "{}", source);
    }
}

#[test]
fn parser2_marks_the_ends_of_the_document() {
    for source in SOURCES {
        let events = Parser2::new(source).parse_to_vec();
        assert_eq!(starts(&events), vec![0], "{}", source);
        if source == "{a 1}" {
            assert_eq!(ends(&events), Vec::<usize>::new());
        } else {
            assert_eq!(ends(&events), vec![events.len() - 1], "{}", source);
        }
    }
}

#[test]
fn parser3_marks_the_ends_of_the_document() {
    for source in SOURCES {
        let events = Parser3::new(source).parse_to_vec();
        assert_eq!(starts(&events), vec![0], "{}", source);
        match events[events.len() - 1] {
            Event::DocumentEnd => assert_eq!(ends(&events), vec![events.len() - 1], "{}", source),
            Event::Error { .. } => assert_eq!(ends(&events), Vec::<usize>::new(), "{}", source),
            _ => panic!("{}", source),
        }
    }
}

#[test]
fn an_empty_value_ends_twice() {
    let events = Parser2::new_expr("").parse_to_vec();
    assert_eq!(starts(&events), vec![0]);
    assert_eq!(ends(&events), vec![1, 2]);
    assert_eq!(events.len(), 3);
}

#[test]
fn plain_lines_give_the_same_events() {
    for source in ["a", "a b", "key value\nother\nx1 y2", "r s\nu\nabc def9"] {
        let queued = format!("{:?}", Parser2::new(source).parse_to_vec());
        let single = format!("{:?}", Parser3::new(source).parse_to_vec());
        assert_eq!(queued, single, "{}", source);
    }
}

#[test]
fn values_and_documents_give_the_same_events() {
    for source in SOURCES {
        let document = format!("{:?}", Parser2::new(source).parse_to_vec());
        let value = format!("{:?}", Parser2::new_expr(source).parse_to_vec());
        assert_eq!(document == value, !source.is_empty(), "{}", source);
    }
    let blank = " // nothing\n/// here\n";
    let document = format!("{:?}", Parser2::new(blank).parse_to_vec());
    let value = format!("{:?}", Parser2::new_expr(blank).parse_to_vec());
    assert_ne!(document, value);
}

#[test]
fn bare_texts_and_tags_read_as_the_source() {
    for source in SOURCES {
        for e in Parser3::new(source).parse_to_vec() {
            match e {
                Event::Scalar { span, value, kind: ScalarKind::Bare } => {
                    assert_eq!(value, &source[span.start as usize..span.end as usize]);
                }
                Event::Key { span, payload: Some(value), kind: ScalarKind::Bare, .. } => {
                    assert_eq!(value, &source[span.start as usize..span.end as usize]);
                }
                Event::TagStart { span, name } => {
                    let text = &source[span.start as usize..span.end as usize];
                    assert_eq!(text, format!("@{}", name));
                }
                _ => {}
            }
        }
    }
}
