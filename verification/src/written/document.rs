//! Documents, how they are written, and the events that they are made of.
use crate::ascii;
use crate::escape;
use crate::event::{EventView, ScalarKind, Separator};
use crate::span::Span;
use crate::written::tokens;
use vstd::prelude::*;
use vstd::utf8::*;

verus! {

/// A scalar that says a text.
pub enum Scalar {
    /// The text as it is.
    Bare(Seq<char>),
    /// The text in quotes, with escapes.
    Quoted(Seq<char>),
    /// The text in quotes, behind `r`, with this many hashes on either side.
    Raw(nat, Seq<char>),
}

/// How the elements of a sequence or the entries of an object are written.
pub enum Layout {
    /// In one line: elements with a space between them, entries with a comma.
    Tight,
    /// Each in a line of its own.
    Lines,
}

/// A value, as far as it can be written in any place.
pub enum Node {
    /// A scalar.
    Scalar(Scalar),
    /// `@`
    Unit,
    /// `@name`
    Tag(Seq<char>),
    /// `@name@`
    TagUnit(Seq<char>),
    /// `@name"..."`
    TagQuoted(Seq<char>, Seq<char>),
    /// `@name(...)`
    TagSequence(Seq<char>, Layout, Seq<Node>),
    /// `@name{...}`
    TagObject(Seq<char>, Layout, Seq<Entry>),
    /// `(...)`
    Sequence(Layout, Seq<Node>),
    /// `{...}`
    Object(Layout, Seq<Entry>),
    /// `key>value key>value`
    Attributes(Seq<Attribute>),
}

/// `key>value`
pub struct Attribute {
    /// The key, a bare scalar.
    pub key: Seq<char>,
    /// The value.
    pub value: Scalar,
}

/// A line before an entry.
pub enum Note {
    /// `//text`
    Comment(Seq<char>),
    /// `///text`
    Doc(Seq<char>),
}

/// The key of an entry.
pub enum Key {
    /// A scalar.
    Scalar(Scalar),
    /// `@`
    Unit,
    /// `@name`
    Tag(Seq<char>),
}

/// An entry of an object.
pub struct Entry {
    /// The lines before it.
    pub notes: Seq<Note>,
    /// Its key.
    pub key: Key,
    /// Its value, unless it is left out.
    pub value: Option<Node>,
}

// --- how they are written ---

/// This many hashes.
pub open spec fn hashes(n: nat) -> Seq<u8> {
    Seq::new(n, |i: int| ascii::HASH)
}

/// How a scalar is written.
pub open spec fn scalar_bytes(s: Scalar) -> Seq<u8> {
    match s {
        Scalar::Bare(text) => encode_utf8(text),
        Scalar::Quoted(text) => seq![ascii::QUOTE] + encode_utf8(escape::escaped(text, 0)) + seq![
            ascii::QUOTE,
        ],
        Scalar::Raw(n, text) => seq![ascii::LOWER_R] + hashes(n) + seq![ascii::QUOTE]
            + encode_utf8(text) + seq![ascii::QUOTE] + hashes(n),
    }
}

/// `@` and a name.
pub open spec fn tag_bytes(name: Seq<char>) -> Seq<u8> {
    seq![ascii::AT] + encode_utf8(name)
}

/// How a key is written.
pub open spec fn key_bytes(key: Key) -> Seq<u8> {
    match key {
        Key::Scalar(s) => scalar_bytes(s),
        Key::Unit => seq![ascii::AT],
        Key::Tag(name) => tag_bytes(name),
    }
}

/// How an attribute is written.
pub open spec fn attribute_bytes(a: Attribute) -> Seq<u8> {
    encode_utf8(a.key) + seq![ascii::GT] + scalar_bytes(a.value)
}

/// How the attributes from number `i` on are written, with a space before each
/// but the first.
pub open spec fn attributes_bytes(list: Seq<Attribute>, i: nat) -> Seq<u8>
    decreases list.len() - i,
{
    if i >= list.len() {
        Seq::empty()
    } else if i == 0 {
        attribute_bytes(list[0]) + attributes_bytes(list, 1)
    } else {
        seq![ascii::SPACE] + attribute_bytes(list[i as int]) + attributes_bytes(list, i + 1)
    }
}

/// How a line before an entry is written.
pub open spec fn note_bytes(note: Note) -> Seq<u8> {
    match note {
        Note::Comment(text) => seq![ascii::SLASH, ascii::SLASH] + encode_utf8(text) + seq![
            ascii::LF,
        ],
        Note::Doc(text) => seq![ascii::SLASH, ascii::SLASH, ascii::SLASH] + encode_utf8(text)
            + seq![ascii::LF],
    }
}

/// How the lines from number `i` on are written.
pub open spec fn notes_bytes(notes: Seq<Note>, i: nat) -> Seq<u8>
    decreases notes.len() - i,
{
    if i >= notes.len() {
        Seq::empty()
    } else {
        note_bytes(notes[i as int]) + notes_bytes(notes, i + 1)
    }
}

/// What is written before number `i` of a list, where `mark` stands between two
/// in one line.
pub open spec fn lead(layout: Layout, mark: u8, i: nat) -> Seq<u8> {
    match layout {
        Layout::Lines => seq![ascii::LF],
        Layout::Tight => if i == 0 {
            Seq::empty()
        } else {
            seq![mark]
        },
    }
}

/// What is written behind the last of a list.
pub open spec fn trail(layout: Layout) -> Seq<u8> {
    match layout {
        Layout::Lines => seq![ascii::LF],
        Layout::Tight => Seq::empty(),
    }
}

/// How a value is written.
pub open spec fn node_bytes(node: Node) -> Seq<u8>
    decreases node, 0nat,
{
    match node {
        Node::Scalar(s) => scalar_bytes(s),
        Node::Unit => seq![ascii::AT],
        Node::Tag(name) => tag_bytes(name),
        Node::TagUnit(name) => tag_bytes(name) + seq![ascii::AT],
        Node::TagQuoted(name, text) => tag_bytes(name) + scalar_bytes(Scalar::Quoted(text)),
        Node::TagSequence(name, layout, items) => tag_bytes(name) + seq![ascii::LPAREN]
            + items_bytes(layout, items, 0),
        Node::TagObject(name, layout, entries) => tag_bytes(name) + seq![ascii::LBRACE]
            + entries_bytes(layout, entries, 0),
        Node::Sequence(layout, items) => seq![ascii::LPAREN] + items_bytes(layout, items, 0),
        Node::Object(layout, entries) => seq![ascii::LBRACE] + entries_bytes(layout, entries, 0),
        Node::Attributes(list) => attributes_bytes(list, 0),
    }
}

/// How the elements from number `i` on are written, and the end of the sequence.
pub open spec fn items_bytes(layout: Layout, items: Seq<Node>, i: nat) -> Seq<u8>
    decreases items, items.len() - i,
{
    if i >= items.len() {
        trail(layout) + seq![ascii::RPAREN]
    } else {
        lead(layout, ascii::SPACE, i) + node_bytes(items[i as int]) + items_bytes(
            layout,
            items,
            i + 1,
        )
    }
}

/// How the entries from number `i` on are written, and the end of the object.
pub open spec fn entries_bytes(layout: Layout, entries: Seq<Entry>, i: nat) -> Seq<u8>
    decreases entries, entries.len() - i,
{
    if i >= entries.len() {
        trail(layout) + seq![ascii::RBRACE]
    } else {
        lead(layout, ascii::COMMA, i) + entry_bytes(entries[i as int]) + entries_bytes(
            layout,
            entries,
            i + 1,
        )
    }
}

/// How an entry is written.
pub open spec fn entry_bytes(entry: Entry) -> Seq<u8>
    decreases entry, 0nat,
{
    notes_bytes(entry.notes, 0) + key_bytes(entry.key) + match entry.value {
        Some(node) => seq![ascii::SPACE] + node_bytes(node),
        None => Seq::empty(),
    }
}

/// How the entries of a document from number `i` on are written: each but the
/// first in a line of its own.
pub open spec fn document_bytes(entries: Seq<Entry>, i: nat) -> Seq<u8>
    decreases entries.len() - i,
{
    if i >= entries.len() {
        Seq::empty()
    } else if i == 0 {
        entry_bytes(entries[0]) + document_bytes(entries, 1)
    } else {
        seq![ascii::LF] + entry_bytes(entries[i as int]) + document_bytes(entries, i + 1)
    }
}

// --- which can be written ---

/// A text that can stand as it is.
pub open spec fn is_word(text: Seq<char>) -> bool {
    tokens::is_plain(encode_utf8(text), 0, encode_utf8(text).len())
}

/// A letter or `_`.
pub open spec fn starts_name(b: u8) -> bool {
    ascii::LOWER_A <= b <= ascii::LOWER_Z || ascii::UPPER_A <= b <= ascii::UPPER_Z || b
        == ascii::UNDERSCORE
}

/// A text that can be the name of a tag: a letter or `_`, then letters, digits,
/// `_` and `-`.
pub open spec fn is_name(text: Seq<char>) -> bool {
    let b = encode_utf8(text);
    &&& b.len() > 0
    &&& starts_name(b[0])
    &&& forall|i: int|
        0 <= i < b.len() ==> starts_name(#[trigger] b[i]) || ascii::DIGIT_0 <= b[i]
            <= ascii::DIGIT_9 || b[i] == ascii::HYPHEN
}

/// A scalar that can be written: a bare one is a word, and the text of a raw one
/// does not hold the quote and the hashes that end it.
pub open spec fn scalar_ok(s: Scalar) -> bool {
    match s {
        Scalar::Bare(text) => is_word(text),
        Scalar::Quoted(text) => true,
        Scalar::Raw(n, text) => {
            let b = encode_utf8(text) + seq![ascii::QUOTE] + hashes(n);
            forall|i: int| 0 <= i < encode_utf8(text).len() ==> !#[trigger] tokens::closes(b, i, n)
        },
    }
}

/// A key that can be written. `@schema` in the place of an entry of the document
/// names its schema.
pub open spec fn key_ok(key: Key, outermost: bool) -> bool {
    match key {
        Key::Scalar(s) => scalar_ok(s),
        Key::Unit => true,
        Key::Tag(name) => is_name(name) && !(outermost && name == "schema"@),
    }
}

/// The text of a line before an entry.
pub open spec fn note_text(note: Note) -> Seq<char> {
    match note {
        Note::Comment(text) => text,
        Note::Doc(text) => text,
    }
}

/// A line that can be written: it holds no line break, and a comment does not
/// start like a doc comment.
pub open spec fn note_ok(note: Note) -> bool {
    let b = encode_utf8(note_text(note));
    &&& forall|i: int| 0 <= i < b.len() ==> #[trigger] b[i] != ascii::LF
    &&& b.len() > 0 ==> b.last() != ascii::CR
    &&& note is Comment && b.len() > 0 ==> b[0] != ascii::SLASH
}

/// A value that can be written, as an element of a sequence or as the value of an
/// entry. The payload of a tag can be a sequence or an object in a sequence, and
/// attributes can be the value of an entry.
pub open spec fn node_ok(node: Node, element: bool) -> bool
    decreases node,
{
    match node {
        Node::Scalar(s) => scalar_ok(s),
        Node::Unit => true,
        Node::Tag(name) => is_name(name),
        Node::TagUnit(name) => is_name(name),
        Node::TagQuoted(name, text) => is_name(name) && encode_utf8(name) != seq![ascii::LOWER_R],
        Node::TagSequence(name, _, items) => element && is_name(name) && forall|i: int|
            0 <= i < items.len() ==> node_ok(#[trigger] items[i], true),
        Node::TagObject(name, _, entries) => element && is_name(name) && forall|i: int|
            0 <= i < entries.len() ==> entry_ok(#[trigger] entries[i], false),
        Node::Sequence(_, items) => forall|i: int|
            0 <= i < items.len() ==> node_ok(#[trigger] items[i], true),
        Node::Object(_, entries) => forall|i: int|
            0 <= i < entries.len() ==> entry_ok(#[trigger] entries[i], false),
        Node::Attributes(list) => !element && list.len() > 0 && forall|i: int|
            0 <= i < list.len() ==> is_word((#[trigger] list[i]).key) && scalar_ok(list[i].value),
    }
}

/// An entry that can be written.
pub open spec fn entry_ok(entry: Entry, outermost: bool) -> bool
    decreases entry,
{
    &&& forall|i: int| 0 <= i < entry.notes.len() ==> note_ok(#[trigger] entry.notes[i])
    &&& key_ok(entry.key, outermost)
    &&& match entry.value {
        Some(node) => node_ok(node, false),
        None => true,
    }
}

// --- the events that they are made of ---

/// `len` bytes from `p` on.
pub open spec fn span_at(p: int, len: int) -> Span {
    Span { start: p as u32, end: (p + len) as u32 }
}

/// How a scalar is written.
pub open spec fn kind_of(s: Scalar) -> ScalarKind {
    match s {
        Scalar::Bare(_) => ScalarKind::Bare,
        Scalar::Quoted(_) => ScalarKind::Quoted,
        Scalar::Raw(_, _) => ScalarKind::Raw,
    }
}

/// What a scalar says.
pub open spec fn text_of(s: Scalar) -> Seq<char> {
    match s {
        Scalar::Bare(text) => text,
        Scalar::Quoted(text) => text,
        Scalar::Raw(_, text) => text,
    }
}

/// The scalar that is written at `p`.
pub open spec fn scalar_event(s: Scalar, p: int) -> EventView {
    EventView::Scalar {
        span: span_at(p, scalar_bytes(s).len() as int),
        value: text_of(s),
        kind: kind_of(s),
    }
}

/// The key that is written at `p`.
pub open spec fn key_event(key: Key, p: int) -> EventView {
    let span = span_at(p, key_bytes(key).len() as int);
    match key {
        Key::Scalar(s) => EventView::Key {
            span,
            tag: None,
            payload: Some(text_of(s)),
            kind: kind_of(s),
        },
        Key::Unit => EventView::Key { span, tag: None, payload: None, kind: ScalarKind::Bare },
        Key::Tag(name) => EventView::Key {
            span,
            tag: Some(name),
            payload: None,
            kind: ScalarKind::Bare,
        },
    }
}

/// The events of the attribute at `p`.
pub open spec fn attribute_events(a: Attribute, p: int) -> Seq<EventView> {
    let n = encode_utf8(a.key).len();
    seq![
        EventView::EntryStart,
        key_event(Key::Scalar(Scalar::Bare(a.key)), p),
        scalar_event(a.value, p + n + 1),
        EventView::EntryEnd,
    ]
}

/// The events of the attributes from number `i` on, which are written at `p`.
pub open spec fn attributes_events(list: Seq<Attribute>, i: nat, p: int) -> Seq<EventView>
    decreases list.len() - i,
{
    if i >= list.len() {
        Seq::empty()
    } else {
        let start = if i == 0 {
            p
        } else {
            p + 1
        };
        let end = start + attribute_bytes(list[i as int]).len();
        attribute_events(list[i as int], start) + attributes_events(list, i + 1, end)
    }
}

/// The comments among the lines from number `i` on, which are written at `p`.
pub open spec fn comment_events(notes: Seq<Note>, i: nat, p: int) -> Seq<EventView>
    decreases notes.len() - i,
{
    if i >= notes.len() {
        Seq::empty()
    } else {
        let len = note_bytes(notes[i as int]).len();
        let rest = comment_events(notes, i + 1, p + len);
        match notes[i as int] {
            Note::Comment(text) => seq![
                EventView::Comment { span: span_at(p, len - 1), text: seq!['/', '/'] + text },
            ] + rest,
            Note::Doc(_) => rest,
        }
    }
}

/// The doc comments among the lines from number `i` on, which are written at `p`.
pub open spec fn doc_events(notes: Seq<Note>, i: nat, p: int) -> Seq<EventView>
    decreases notes.len() - i,
{
    if i >= notes.len() {
        Seq::empty()
    } else {
        let len = note_bytes(notes[i as int]).len();
        let rest = doc_events(notes, i + 1, p + len);
        match notes[i as int] {
            Note::Comment(_) => rest,
            Note::Doc(text) => seq![
                EventView::DocComment {
                    span: span_at(p, len - 1),
                    text: seq!['/', '/', '/'] + text,
                },
            ] + rest,
        }
    }
}

/// The tag that is written at `p`, in `len` bytes.
pub open spec fn tag_event(name: Seq<char>, p: int, len: int) -> EventView {
    EventView::TagStart { span: span_at(p, len), name }
}

/// The events of the value that is written at `p`.
pub open spec fn node_events(node: Node, p: int) -> Seq<EventView>
    decreases node, 0nat,
{
    match node {
        Node::Scalar(s) => seq![scalar_event(s, p)],
        Node::Unit => seq![EventView::Unit { span: span_at(p, 1) }],
        Node::Tag(name) => {
            let n = tag_bytes(name).len() as int;
            seq![
                tag_event(name, p, n),
                EventView::Unit { span: span_at(p + n, 0) },
                EventView::TagEnd,
            ]
        },
        Node::TagUnit(name) => {
            let n = tag_bytes(name).len() as int;
            seq![
                tag_event(name, p, n + 1),
                EventView::Unit { span: span_at(p + n, 1) },
                EventView::TagEnd,
            ]
        },
        Node::TagQuoted(name, text) => {
            let n = tag_bytes(name).len() as int;
            seq![
                tag_event(name, p, n),
                scalar_event(Scalar::Quoted(text), p + n),
                EventView::TagEnd,
            ]
        },
        Node::TagSequence(name, layout, items) => {
            let n = tag_bytes(name).len() as int;
            seq![
                tag_event(name, p, n),
                EventView::SequenceStart { span: span_at(p + n, 1) },
            ] + items_events(layout, items, 0, p + n + 1)
        },
        Node::TagObject(name, layout, entries) => {
            let n = tag_bytes(name).len() as int;
            seq![
                tag_event(name, p, n),
                EventView::ObjectStart { span: span_at(p + n, 1), separator: Separator::Comma },
            ] + entries_events(layout, entries, 0, p + n + 1)
        },
        Node::Sequence(layout, items) => seq![
            EventView::SequenceStart { span: span_at(p, 1) },
        ] + items_events(layout, items, 0, p + 1),
        Node::Object(layout, entries) => seq![
            EventView::ObjectStart { span: span_at(p, 1), separator: Separator::Comma },
        ] + entries_events(layout, entries, 0, p + 1),
        Node::Attributes(list) => {
            let first = span_at(p, encode_utf8(list[0].key).len() as int);
            seq![EventView::ObjectStart { span: first, separator: Separator::Comma }]
                + attributes_events(list, 0, p) + seq![
                EventView::ObjectEnd {
                    span: if list.len() == 1 {
                        first
                    } else {
                        span_at(0, 0)
                    },
                },
            ]
        },
    }
}

/// The events of the elements from number `i` on, which are written at `p`, and
/// the end of the sequence.
pub open spec fn items_events(layout: Layout, items: Seq<Node>, i: nat, p: int) -> Seq<EventView>
    decreases items, items.len() - i,
{
    if i >= items.len() {
        seq![EventView::SequenceEnd { span: span_at(p + trail(layout).len(), 1) }]
    } else {
        let start = p + lead(layout, ascii::SPACE, i).len();
        let end = start + node_bytes(items[i as int]).len();
        node_events(items[i as int], start) + items_events(layout, items, i + 1, end)
    }
}

/// The events of the entries from number `i` on, which are written at `p`, and
/// the end of the object.
pub open spec fn entries_events(
    layout: Layout,
    entries: Seq<Entry>,
    i: nat,
    p: int,
) -> Seq<EventView>
    decreases entries, entries.len() - i,
{
    if i >= entries.len() {
        seq![EventView::ObjectEnd { span: span_at(p + trail(layout).len(), 1) }]
    } else {
        let start = p + lead(layout, ascii::COMMA, i).len();
        let end = start + entry_bytes(entries[i as int]).len();
        entry_events(entries[i as int], start) + entries_events(layout, entries, i + 1, end)
    }
}

/// The events of the entry that is written at `p`: its comments, and inside of
/// the entry its doc comments, its key and its value. A value that is left out is
/// unit.
pub open spec fn entry_events(entry: Entry, p: int) -> Seq<EventView>
    decreases entry, 0nat,
{
    let k = p + notes_bytes(entry.notes, 0).len();
    let n = key_bytes(entry.key).len();
    comment_events(entry.notes, 0, p) + seq![EventView::EntryStart] + doc_events(entry.notes, 0, p)
        + seq![key_event(entry.key, k)] + match entry.value {
        Some(node) => node_events(node, k + n + 1),
        None => seq![EventView::Unit { span: span_at(k, n as int) }],
    } + seq![EventView::EntryEnd]
}

/// The events of the entries of a document from number `i` on, which are written
/// at `p`.
pub open spec fn document_entries(entries: Seq<Entry>, i: nat, p: int) -> Seq<EventView>
    decreases entries.len() - i,
{
    if i >= entries.len() {
        Seq::empty()
    } else {
        let start = if i == 0 {
            p
        } else {
            p + 1
        };
        let end = start + entry_bytes(entries[i as int]).len();
        entry_events(entries[i as int], start) + document_entries(entries, i + 1, end)
    }
}

/// The events of a document.
pub open spec fn document_events(entries: Seq<Entry>) -> Seq<EventView> {
    let len = document_bytes(entries, 0).len() as int;
    seq![
        EventView::DocumentStart,
        EventView::ObjectStart { span: span_at(0, 0), separator: Separator::Newline },
    ] + document_entries(entries, 0, 0) + seq![
        EventView::ObjectEnd { span: span_at(len, 0) },
        EventView::DocumentEnd,
    ]
}

} // verus!
