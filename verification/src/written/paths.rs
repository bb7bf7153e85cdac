//! Documents of lines with dotted paths as keys, how they are written, and the
//! events that they are made of.
use crate::ascii;
use crate::event::{EventView, ScalarKind, Separator};
use crate::written::document;
use crate::written::document::{span_at, Layout, Scalar};
use vstd::prelude::*;
use vstd::utf8::*;

verus! {

/// The key of a line.
pub enum LineKey {
    /// Words with dots between them; one word is a key as it is.
    Path(Seq<Seq<char>>),
    /// A text in quotes.
    Quoted(Seq<char>),
}

/// The value of a line.
pub enum LineValue {
    /// A scalar, bare or in quotes.
    Scalar(Scalar),
    /// `@`
    Unit,
    /// `@name`
    Tag(Seq<char>),
    /// `@name"..."`
    TagQuoted(Seq<char>, Seq<char>),
    /// `@name(...)`
    TagSequence(Seq<char>, Layout, Seq<Scalar>),
    /// `@name{...}`
    TagObject(Seq<char>, Seq<Line>),
    /// `(...)`
    Sequence(Layout, Seq<Scalar>),
    /// `{...}`, with a line for each entry.
    Object(Seq<Line>),
}

/// An entry in a line of its own.
pub struct Line {
    /// The texts of the line comments before it.
    pub comments: Seq<Seq<char>>,
    /// Its key.
    pub key: LineKey,
    /// Its value, unless it is left out.
    pub value: Option<LineValue>,
}

// --- how they are written ---

/// Words with dots between them, from number `i` on.
pub open spec fn path_bytes(words: Seq<Seq<char>>, i: nat) -> Seq<u8>
    decreases words.len() - i,
{
    if i >= words.len() {
        Seq::empty()
    } else if i + 1 == words.len() {
        encode_utf8(words[i as int])
    } else {
        encode_utf8(words[i as int]) + seq![ascii::DOT] + path_bytes(words, i + 1)
    }
}

/// How a key is written.
pub open spec fn key_bytes(key: LineKey) -> Seq<u8> {
    match key {
        LineKey::Path(words) => path_bytes(words, 0),
        LineKey::Quoted(text) => document::scalar_bytes(Scalar::Quoted(text)),
    }
}

/// How the scalars of a sequence from number `i` on are written, and its end.
pub open spec fn scalars_bytes(layout: Layout, items: Seq<Scalar>, i: nat) -> Seq<u8>
    decreases items.len() - i,
{
    if i >= items.len() {
        document::trail(layout) + seq![ascii::RPAREN]
    } else {
        document::lead(layout, ascii::SPACE, i) + document::scalar_bytes(items[i as int])
            + scalars_bytes(layout, items, i + 1)
    }
}

/// How comments from number `i` on are written.
pub open spec fn comments_bytes(comments: Seq<Seq<char>>, i: nat) -> Seq<u8>
    decreases comments.len() - i,
{
    if i >= comments.len() {
        Seq::empty()
    } else {
        document::note_bytes(document::Note::Comment(comments[i as int])) + comments_bytes(
            comments,
            i + 1,
        )
    }
}

/// How a value is written.
pub open spec fn value_bytes(value: LineValue) -> Seq<u8>
    decreases value, 0nat,
{
    match value {
        LineValue::Scalar(s) => document::scalar_bytes(s),
        LineValue::Unit => seq![ascii::AT],
        LineValue::Tag(name) => document::tag_bytes(name),
        LineValue::TagQuoted(name, text) => document::tag_bytes(name) + document::scalar_bytes(
            Scalar::Quoted(text),
        ),
        LineValue::TagSequence(name, layout, items) => document::tag_bytes(name) + seq![
            ascii::LPAREN,
        ] + scalars_bytes(layout, items, 0),
        LineValue::TagObject(name, lines) => document::tag_bytes(name) + seq![ascii::LBRACE]
            + lines_bytes(lines, 0),
        LineValue::Sequence(layout, items) => seq![ascii::LPAREN] + scalars_bytes(
            layout,
            items,
            0,
        ),
        LineValue::Object(lines) => seq![ascii::LBRACE] + lines_bytes(lines, 0),
    }
}

/// How the lines of an object from number `i` on are written, and its end.
pub open spec fn lines_bytes(lines: Seq<Line>, i: nat) -> Seq<u8>
    decreases lines, lines.len() - i,
{
    if i >= lines.len() {
        seq![ascii::LF, ascii::RBRACE]
    } else {
        seq![ascii::LF] + line_bytes(lines[i as int]) + lines_bytes(lines, i + 1)
    }
}

/// How a line is written.
pub open spec fn line_bytes(line: Line) -> Seq<u8>
    decreases line, 0nat,
{
    comments_bytes(line.comments, 0) + key_bytes(line.key) + match line.value {
        Some(value) => seq![ascii::SPACE] + value_bytes(value),
        None => Seq::empty(),
    }
}

/// How the lines of a document from number `i` on are written, with a line break
/// before each but the first.
pub open spec fn document_bytes(lines: Seq<Line>, i: nat) -> Seq<u8>
    decreases lines.len() - i,
{
    if i >= lines.len() {
        Seq::empty()
    } else if i == 0 {
        line_bytes(lines[0]) + document_bytes(lines, 1)
    } else {
        seq![ascii::LF] + line_bytes(lines[i as int]) + document_bytes(lines, i + 1)
    }
}

// --- which can be written ---

/// A row of bytes with no dot in it.
pub open spec fn no_dot(b: Seq<u8>) -> bool {
    forall|i: int| 0 <= i < b.len() ==> #[trigger] b[i] != ascii::DOT
}

/// Words that make a path: together they can stand as they are, and none is empty
/// or holds a dot.
pub open spec fn path_ok(words: Seq<Seq<char>>) -> bool {
    &&& words.len() > 0
    &&& crate::written::tokens::is_plain(path_bytes(words, 0), 0, path_bytes(words, 0).len())
    &&& forall|i: int|
        0 <= i < words.len() ==> encode_utf8(#[trigger] words[i]).len() > 0 && no_dot(
            encode_utf8(words[i]),
        )
}

/// A scalar, bare or in quotes, that can be written.
pub open spec fn scalar_ok(s: Scalar) -> bool {
    !(s is Raw) && document::scalar_ok(s)
}

/// A comment that can be written.
pub open spec fn comment_ok(text: Seq<char>) -> bool {
    document::note_ok(document::Note::Comment(text))
}

/// A value that can be written.
pub open spec fn value_ok(value: LineValue) -> bool
    decreases value,
{
    match value {
        LineValue::Scalar(s) => scalar_ok(s),
        LineValue::Unit => true,
        LineValue::Tag(name) => document::is_name(name),
        LineValue::TagQuoted(name, _) => document::is_name(name) && encode_utf8(name) != seq![
            ascii::LOWER_R,
        ],
        LineValue::TagSequence(name, _, items) => document::is_name(name) && forall|i: int|
            0 <= i < items.len() ==> scalar_ok(#[trigger] items[i]),
        LineValue::TagObject(name, lines) => document::is_name(name) && forall|i: int|
            0 <= i < lines.len() ==> line_ok(#[trigger] lines[i]),
        LineValue::Sequence(_, items) => forall|i: int|
            0 <= i < items.len() ==> scalar_ok(#[trigger] items[i]),
        LineValue::Object(lines) => forall|i: int|
            0 <= i < lines.len() ==> line_ok(#[trigger] lines[i]),
    }
}

/// A line that can be written. What a path of several words leads to is a scalar.
pub open spec fn line_ok(line: Line) -> bool
    decreases line,
{
    &&& forall|i: int| 0 <= i < line.comments.len() ==> comment_ok(#[trigger] line.comments[i])
    &&& line.key matches LineKey::Path(words) ==> path_ok(words)
    &&& match line.value {
        Some(value) => value_ok(value) && (line.key matches LineKey::Path(words) ==> words.len()
            == 1 || value is Scalar),
        None => true,
    }
}

// --- the events that they are made of ---

/// The key that says `text` at `p`.
pub open spec fn word_event(text: Seq<char>, p: int) -> EventView {
    EventView::Key {
        span: span_at(p, encode_utf8(text).len() as int),
        tag: None,
        payload: Some(text),
        kind: ScalarKind::Bare,
    }
}

/// The words of a path from number `i` on, which are written at `p`: each is the
/// key of an entry, and each but the last has an object as its value that the next
/// word is in.
pub open spec fn path_events(words: Seq<Seq<char>>, i: nat, p: int) -> Seq<EventView>
    decreases words.len() - i,
{
    if i >= words.len() {
        Seq::empty()
    } else {
        let n = encode_utf8(words[i as int]).len() as int;
        let here = seq![EventView::EntryStart, word_event(words[i as int], p)];
        if i + 1 == words.len() {
            here
        } else {
            here + seq![
                EventView::ObjectStart { span: span_at(p, n), separator: Separator::Newline },
            ] + path_events(words, i + 1, p + n + 1)
        }
    }
}

/// The ends of `depth` objects that a path has opened, and of their entries. The
/// source has `len` bytes.
pub open spec fn closing_events(depth: nat, len: int) -> Seq<EventView>
    decreases depth,
{
    if depth == 0 {
        Seq::empty()
    } else {
        seq![EventView::ObjectEnd { span: span_at(len, 0) }, EventView::EntryEnd] + closing_events(
            (depth - 1) as nat,
            len,
        )
    }
}

/// The comments from number `i` on, which are written at `p`.
pub open spec fn comment_events(comments: Seq<Seq<char>>, i: nat, p: int) -> Seq<EventView>
    decreases comments.len() - i,
{
    if i >= comments.len() {
        Seq::empty()
    } else {
        let len = document::note_bytes(document::Note::Comment(comments[i as int])).len();
        seq![
            EventView::Comment {
                span: span_at(p, len - 1),
                text: seq!['/', '/'] + comments[i as int],
            },
        ] + comment_events(comments, i + 1, p + len)
    }
}

/// The scalars of a sequence from number `i` on, which are written at `p`, and its
/// end.
pub open spec fn scalars_events(
    layout: Layout,
    items: Seq<Scalar>,
    i: nat,
    p: int,
) -> Seq<EventView>
    decreases items.len() - i,
{
    if i >= items.len() {
        seq![EventView::SequenceEnd { span: span_at(p + document::trail(layout).len(), 1) }]
    } else {
        let start = p + document::lead(layout, ascii::SPACE, i).len();
        let end = start + document::scalar_bytes(items[i as int]).len();
        seq![document::scalar_event(items[i as int], start)] + scalars_events(
            layout,
            items,
            i + 1,
            end,
        )
    }
}

/// The events of the value that is written at `p`. The source has `len` bytes.
pub open spec fn value_events(value: LineValue, p: int, len: int) -> Seq<EventView>
    decreases value, 0nat,
{
    match value {
        LineValue::Scalar(s) => seq![document::scalar_event(s, p)],
        LineValue::Unit => seq![EventView::Unit { span: span_at(p, 1) }],
        LineValue::Tag(name) => seq![
            document::tag_event(name, p, document::tag_bytes(name).len() as int),
            EventView::TagEnd,
        ],
        LineValue::TagQuoted(name, text) => {
            let n = document::tag_bytes(name).len() as int;
            seq![
                document::tag_event(name, p, n),
                document::scalar_event(Scalar::Quoted(text), p + n),
                EventView::TagEnd,
            ]
        },
        LineValue::TagSequence(name, layout, items) => {
            let n = document::tag_bytes(name).len() as int;
            seq![
                document::tag_event(name, p, n),
                EventView::SequenceStart { span: span_at(p + n, 1) },
            ] + scalars_events(layout, items, 0, p + n + 1)
        },
        LineValue::TagObject(name, lines) => {
            let n = document::tag_bytes(name).len() as int;
            seq![
                document::tag_event(name, p, n),
                EventView::ObjectStart { span: span_at(p + n, 1), separator: Separator::Comma },
            ] + lines_events(lines, 0, p + n + 1, len)
        },
        LineValue::Sequence(layout, items) => seq![
            EventView::SequenceStart { span: span_at(p, 1) },
        ] + scalars_events(layout, items, 0, p + 1),
        LineValue::Object(lines) => seq![
            EventView::ObjectStart { span: span_at(p, 1), separator: Separator::Comma },
        ] + lines_events(lines, 0, p + 1, len),
    }
}

/// The events of the lines of an object from number `i` on, which are written at
/// `p`, and its end.
pub open spec fn lines_events(lines: Seq<Line>, i: nat, p: int, len: int) -> Seq<EventView>
    decreases lines, lines.len() - i,
{
    if i >= lines.len() {
        seq![EventView::ObjectEnd { span: span_at(p + 1, 1) }]
    } else {
        let end = p + 1 + line_bytes(lines[i as int]).len();
        line_events(lines[i as int], p + 1, len) + lines_events(lines, i + 1, end, len)
    }
}

/// The events of the line that is written at `p`. A path of several words ends the
/// objects that it opened, and ends its entry twice.
pub open spec fn line_events(line: Line, p: int, len: int) -> Seq<EventView>
    decreases line, 0nat,
{
    let k = p + comments_bytes(line.comments, 0).len();
    let n = key_bytes(line.key).len() as int;
    let value = match line.value {
        Some(value) => value_events(value, k + n + 1, len),
        None => seq![EventView::Unit { span: span_at(k, n) }],
    };
    comment_events(line.comments, 0, p) + match line.key {
        LineKey::Quoted(text) => seq![
            EventView::EntryStart,
            EventView::Key {
                span: span_at(k, n),
                tag: None,
                payload: Some(text),
                kind: ScalarKind::Quoted,
            },
        ] + value + seq![EventView::EntryEnd],
        LineKey::Path(words) => if words.len() == 1 {
            path_events(words, 0, k) + value + seq![EventView::EntryEnd]
        } else {
            path_events(words, 0, k) + value + closing_events((words.len() - 1) as nat, len)
                + seq![EventView::EntryEnd, EventView::EntryEnd]
        },
    }
}

/// The events of the lines of a document from number `i` on, which are written at
/// `p`.
pub open spec fn document_lines(lines: Seq<Line>, i: nat, p: int, len: int) -> Seq<EventView>
    decreases lines.len() - i,
{
    if i >= lines.len() {
        Seq::empty()
    } else {
        let start = if i == 0 {
            p
        } else {
            p + 1
        };
        let end = start + line_bytes(lines[i as int]).len();
        line_events(lines[i as int], start, len) + document_lines(lines, i + 1, end, len)
    }
}

/// The events of a document.
pub open spec fn document_events(lines: Seq<Line>) -> Seq<EventView> {
    let len = document_bytes(lines, 0).len() as int;
    seq![
        EventView::DocumentStart,
        EventView::ObjectStart { span: span_at(0, 0), separator: Separator::Newline },
    ] + document_lines(lines, 0, 0, len) + seq![
        EventView::ObjectEnd { span: span_at(len, 0) },
        EventView::DocumentEnd,
    ]
}

} // verus!
