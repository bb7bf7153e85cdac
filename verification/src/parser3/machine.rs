//! The states of [`Parser3`](crate::parser3::Parser3) and the moves between them.
use crate::ascii;
use crate::emit;
use crate::escape;
use crate::escape::ShortUnicode;
use crate::event::{EventView, ParseErrorKindView, ScalarKind};
use crate::lexer;
use crate::lexer::{LexState, Skip};
use crate::span::Span;
use crate::text;
use crate::token::{Token, TokenKind};
use vstd::prelude::*;
use vstd::utf8::*;

verus! {

/// What the parser does next.
///
/// `Emit..` states emit an event without reading a token first; `Expect..` and
/// `After..` states read tokens to decide what to emit.
#[derive(Debug, Clone, Copy, PartialEq, Eq, Structural)]
pub enum State {
    /// Emit the start of the document.
    Start,
    /// Emit the start of the implicit root object.
    EmitRootObjectStart,
    /// Inside an object, before an entry.
    ExpectEntry,
    /// Emit the start of an entry, then its key.
    EmitEntryStart { key_span: Span, key_kind: ScalarKind },
    /// After the start of an entry whose key starts with `@`.
    EmitUnitKeyValue { at_span: Span },
    /// Emit a key and read on to its value.
    EmitKey { key_span: Span, key_kind: ScalarKind },
    /// Emit a scalar as the value of an entry.
    EmitScalarValue { span: Span, kind: ScalarKind },
    /// A bare scalar was read in the place of a value; `>` makes it the key of
    /// an attribute.
    AfterBareScalarValue { value_span: Span },
    /// Emit a unit value, then the end of the entry.
    EmitUnitValue { span: Span },
    /// Emit a unit value, then an error.
    EmitUnitThenError { unit_span: Span, error_span: Span },
    /// Emit an error, then the end of the entry.
    EmitErrorThenEntryEnd { error_span: Span },
    /// Emit that there are too many atoms, then the end of the entry.
    EmitTooManyAtomsThenEntryEnd { error_span: Span },
    /// Emit a unit value, then the ends of the entry and of the object.
    EmitUnitThenEntryEndThenObjectEnd { unit_span: Span, rbrace_span: Span },
    /// Emit the end of an entry after a unit value, then the end of the object.
    EmitEntryEndAfterUnitThenObjectEnd { rbrace_span: Span },
    /// Emit a bare scalar, then that there are too many atoms.
    EmitScalarThenTooManyAtoms { value_span: Span, error_span: Span },
    /// A quoted scalar was emitted as the value of an entry.
    AfterQuotedScalarValue { value_span: Span },
    /// Emit the invalid escapes of a value from the one at `error_index` on,
    /// then the value.
    EmitInvalidEscapes { span: Span, kind: ScalarKind, error_index: usize },
    /// Emit the invalid escapes of a key from the one at `error_index` on, then
    /// the start of the entry.
    EmitInvalidEscapesInKey { key_span: Span, key_kind: ScalarKind, error_index: usize },
    /// Emit the end of an entry and go on with what surrounds it.
    EmitEntryEnd,
    /// Emit the end of an entry, then the end of the object.
    EmitEntryEndThenObjectEnd { rbrace_span: Span },
    /// Emit the end of an object whose last entry has ended.
    EmitObjectEndAfterEntry { rbrace_span: Span },
    /// Emit the end of an entry, then the end of the sequence.
    EmitEntryEndThenSeqEnd { rparen_span: Span },
    /// Emit the end of a sequence after the end of an entry.
    EmitSeqEndAfterEntry { rparen_span: Span },
    /// Emit the start of an object that is a value.
    EmitObjectStartValue { span: Span },
    /// Emit the start of a sequence that is a value.
    EmitSequenceStartValue { span: Span },
    /// Inside a sequence, before an element.
    ExpectSeqElem,
    /// `@` was read in the place of a value.
    EmitTagStart { tag_span: Span },
    /// The start of a tag was emitted; its payload may follow.
    AfterTagStart { tag_span: Span },
    /// Emit the end of a tag.
    EmitTagEnd,
    /// Emit the unit payload of a tag, then the end of the tag.
    EmitTagEndWithUnit { unit_span: Span },
    /// The end of a tag was emitted; emit the end of the sequence.
    EmitTagEndThenSeqEnd { rparen_span: Span },
    /// The end of a tag was emitted; emit the end of the object.
    EmitTagEndThenObjEnd { rbrace_span: Span },
    /// Emit the start of the entry of an attribute.
    EmitAttrEntryStart { attr_key_span: Span },
    /// Emit the key of an attribute.
    EmitAttrKey { attr_key_span: Span },
    /// Before the value of an attribute.
    ExpectAttrValue { attr_key_span: Span },
    /// A bare scalar was read as the value of an attribute; `>` makes it the
    /// key of another one.
    AfterAttrBareValue { value_span: Span },
    /// Emit a scalar as the value of an attribute.
    EmitAttrScalarValue { span: Span, kind: ScalarKind },
    /// Emit the end of the entry of an attribute.
    EmitAttrEntryEnd,
    /// The entry of an attribute has ended; another attribute may follow.
    AfterAttrEntryEnd,
    /// Emit the segments of a dotted path from `offset` on; `depth` objects are
    /// open for the segments before.
    EmitDottedPath { full_span: Span, offset: u32, depth: u32 },
    /// Emit the last segment of a dotted path as a key.
    EmitDottedPathKey { key_span: Span, full_span: Span, depth: u32 },
    /// Emit a segment of a dotted path as a key, then an object.
    EmitDottedPathKeyThenObject { key_span: Span, full_span: Span, next_offset: u32, depth: u32 },
    /// Emit the start of the object below a segment of a dotted path.
    EmitDottedPathObject { key_span: Span, full_span: Span, next_offset: u32, depth: u32 },
    /// The last segment of a dotted path was emitted; its value follows.
    AfterDottedPathKey { full_span: Span, depth: u32 },
    /// A bare scalar was read as the value at a dotted path; `>` makes it the
    /// key of an attribute.
    AfterDottedPathBareValue { value_span: Span, depth: u32 },
    /// Emit a scalar as the value at a dotted path.
    EmitDottedPathScalarValue { span: Span, kind: ScalarKind, depth: u32 },
    /// Close the objects of a dotted path.
    CloseDottedPath { depth: u32 },
    /// Emit the end of an entry, then close the other objects of a dotted path.
    EmitEntryEndThenCloseDotted { depth: u32 },
    /// `@` was read as the value of an attribute.
    EmitTagStartInAttr { tag_span: Span },
    /// The start of a tag was emitted as the value of an attribute.
    AfterTagStartInAttr { tag_span: Span },
    /// Emit the end of a tag that is the value of an attribute.
    EmitTagEndInAttr,
    /// Emit the unit payload of a tag that is the value of an attribute.
    EmitUnitThenTagEndInAttr { unit_span: Span },
    /// Emit the end of the object that holds attributes.
    EmitAttrObjectEnd,
    /// Emit the end of the object that holds attributes; a key follows.
    EmitAttrObjectEndThenNewEntry { next_key_span: Span, next_key_kind: ScalarKind },
    /// Emit the end of the entry that held attributes; a key follows.
    EmitEntryEndThenNewEntry { next_key_span: Span, next_key_kind: ScalarKind },
    /// Emit the end of the object that holds attributes; `}` follows.
    EmitAttrObjectEndThenClose { rbrace_span: Span },
    /// Emit the end of the object around the one that held attributes.
    EmitParentObjectEnd { rbrace_span: Span },
    /// Emit the end of the document.
    EmitDocumentEnd,
    /// Nothing is left to emit.
    Done,
}

/// What surrounds the place where the parser stands.
#[derive(Debug, Clone, Copy, PartialEq, Eq, Structural)]
pub enum Context {
    /// An object; `implicit` for a root object without braces.
    Object { implicit: bool },
    /// A sequence.
    Sequence,
    /// The object that holds the attributes of a key.
    AttrObject,
}

/// All that the parser knows besides its source.
#[verifier::ext_equal]
pub struct Machine {
    /// Where the lexer stands.
    pub lex: LexState,
    /// What to do next.
    pub state: State,
    /// What surrounds the place, from the outside in.
    pub stack: Seq<Context>,
}

/// What one move of the machine emits, if anything, and the machine after it.
pub type Move = (Option<EventView>, Machine);

// --- building blocks ---

/// Emit `event` and go on in `state`.
pub open spec fn emit_to(m: Machine, event: EventView, state: State) -> Move {
    (Some(event), Machine { lex: m.lex, state, stack: m.stack })
}

/// Emit nothing and go on in `state`.
pub open spec fn go_to(m: Machine, state: State) -> Move {
    (None, Machine { lex: m.lex, state, stack: m.stack })
}

/// `m` inside one more context.
pub open spec fn push(m: Machine, context: Context) -> Machine {
    Machine { lex: m.lex, state: m.state, stack: m.stack.push(context) }
}

/// `m` with the innermost context left, if there is one.
pub open spec fn pop(m: Machine) -> Machine {
    Machine {
        lex: m.lex,
        state: m.state,
        stack: if m.stack.len() > 0 {
            m.stack.drop_last()
        } else {
            m.stack
        },
    }
}

/// The innermost context.
pub open spec fn top(m: Machine) -> Option<Context> {
    if m.stack.len() > 0 {
        Some(m.stack.last())
    } else {
        None
    }
}

/// The next token that is not passed over, and the machine after it was read.
pub open spec fn read(src: Seq<u8>, m: Machine, skip: Skip) -> (Token, Machine) {
    let (t, lex) = lexer::lex_past(src, m.lex, skip);
    (t, Machine { lex, state: m.state, stack: m.stack })
}

/// The empty span at the end of the source.
pub open spec fn eof_span(src: Seq<u8>) -> Span {
    Span { start: src.len() as u32, end: src.len() as u32 }
}

/// The span at the start of the source.
pub open spec fn root_span() -> Span {
    Span { start: 0, end: 0 }
}

/// The bare scalar at `span`.
pub open spec fn bare(src: Seq<u8>, span: Span) -> EventView {
    emit::scalar(src, span, ScalarKind::Bare, ShortUnicode::Dropped)
}

/// The scalar at `span`.
pub open spec fn scalar(src: Seq<u8>, span: Span, kind: ScalarKind) -> EventView {
    emit::scalar(src, span, kind, ShortUnicode::Dropped)
}

/// The key at `span`.
pub open spec fn key(src: Seq<u8>, span: Span, kind: ScalarKind) -> EventView {
    emit::key(src, span, kind, ShortUnicode::Dropped)
}

/// A token that cannot stand where it does.
pub open spec fn unexpected(span: Span) -> EventView {
    emit::error(span, ParseErrorKindView::UnexpectedToken)
}

/// `t` stands right behind `span`.
pub open spec fn adjoins(t: Token, span: Span) -> bool {
    t.span.start == span.end
}

/// Whether the text at `span` is the name of a tag: it is not empty, has no
/// dot, and starts with neither a digit nor a hyphen.
pub open spec fn is_tag_name(src: Seq<u8>, span: Span) -> bool {
    let first = src[span.start as int];
    &&& span.start < span.end
    &&& !(ascii::DIGIT_0 <= first <= ascii::DIGIT_9)
    &&& first != ascii::HYPHEN
    &&& text::byte_offset(src, ascii::DOT, span.start as nat, span.end as nat) == span.end
}

// --- invalid escapes ---

/// The invalid escapes in the quoted scalar at `span`, counted from its inside.
pub open spec fn escapes(src: Seq<u8>, span: Span) -> Seq<(int, int)> {
    escape::invalid_escapes(src.subrange(span.start + 1, span.end - 1), 0)
}

/// How many invalid escapes a scalar has; only quoted ones have any.
pub open spec fn escape_count(src: Seq<u8>, span: Span, kind: ScalarKind) -> int {
    if kind == ScalarKind::Quoted {
        escapes(src, span).len() as int
    } else {
        0
    }
}

/// Where the invalid escape number `index` of the quoted scalar at `span` stands.
pub open spec fn escape_span(src: Seq<u8>, span: Span, index: int) -> Span {
    let (at, len) = escapes(src, span)[index];
    Span { start: (span.start + 1 + at) as u32, end: (span.start + 1 + at + len) as u32 }
}

/// The error for the invalid escape number `index`.
pub open spec fn escape_error(src: Seq<u8>, span: Span, index: int) -> EventView {
    let at = escape_span(src, span, index);
    emit::error(at, ParseErrorKindView::InvalidEscape(text::chars_at(src, at)))
}

// --- moves that read tokens ---

/// The move from [`State::ExpectEntry`].
#[verifier::opaque]
pub open spec fn expect_entry(src: Seq<u8>, m0: Machine) -> Move {
    let (t, m) = read(src, m0, Skip::Lines);
    match t.kind {
        TokenKind::LineComment => emit_to(m, emit::comment(src, t.span), State::ExpectEntry),
        TokenKind::Eof => emit_to(
            pop(m),
            EventView::ObjectEnd { span: eof_span(src) },
            State::EmitDocumentEnd,
        ),
        TokenKind::RBrace => match top(m) {
            Some(Context::Object { implicit: false }) => emit_to(
                pop(m),
                EventView::ObjectEnd { span: t.span },
                State::EmitEntryEnd,
            ),
            Some(Context::Object { implicit: true }) => emit_to(
                m,
                unexpected(t.span),
                State::ExpectEntry,
            ),
            _ => emit_to(pop(m), unexpected(t.span), State::ExpectEntry),
        },
        TokenKind::BareScalar => if text::byte_offset(
            src,
            ascii::DOT,
            t.span.start as nat,
            t.span.end as nat,
        ) < t.span.end {
            go_to(m, State::EmitDottedPath { full_span: t.span, offset: 0, depth: 0 })
        } else {
            go_to(m, State::EmitEntryStart { key_span: t.span, key_kind: ScalarKind::Bare })
        },
        TokenKind::QuotedScalar => go_to(
            m,
            State::EmitEntryStart { key_span: t.span, key_kind: ScalarKind::Quoted },
        ),
        TokenKind::LBrace => if top(m) == Some(Context::Object { implicit: true }) {
            emit_to(
                push(pop(m), Context::Object { implicit: false }),
                emit::object_start(t.span),
                State::ExpectEntry,
            )
        } else {
            emit_to(m, unexpected(t.span), State::Done)
        },
        TokenKind::At => emit_to(
            m,
            EventView::EntryStart,
            State::EmitUnitKeyValue { at_span: t.span },
        ),
        TokenKind::DocComment => emit_to(m, emit::doc_comment(src, t.span), State::Done),
        _ => emit_to(m, unexpected(t.span), State::Done),
    }
}

/// The move from [`State::EmitEntryStart`].
#[verifier::opaque]
pub open spec fn emit_entry_start(
    src: Seq<u8>,
    m: Machine,
    key_span: Span,
    key_kind: ScalarKind,
) -> Move {
    if escape_count(src, key_span, key_kind) > 0 {
        go_to(m, State::EmitInvalidEscapesInKey { key_span, key_kind, error_index: 0 })
    } else {
        emit_to(m, EventView::EntryStart, State::EmitKey { key_span, key_kind })
    }
}

/// Where the value of a unit key goes on, once its token was read.
pub open spec fn unit_key_value(t: Token, at_span: Span) -> Option<State> {
    match t.kind {
        TokenKind::BareScalar => Some(State::AfterBareScalarValue { value_span: t.span }),
        TokenKind::QuotedScalar => Some(
            State::EmitScalarValue { span: t.span, kind: ScalarKind::Quoted },
        ),
        TokenKind::Newline | TokenKind::Eof => Some(State::EmitUnitValue { span: at_span }),
        TokenKind::LBrace => Some(State::EmitObjectStartValue { span: t.span }),
        TokenKind::LParen => Some(State::EmitSequenceStartValue { span: t.span }),
        TokenKind::At => Some(State::EmitTagStart { tag_span: t.span }),
        _ => None,
    }
}

/// The move from [`State::EmitUnitKeyValue`].
#[verifier::opaque]
pub open spec fn emit_unit_key_value(src: Seq<u8>, m0: Machine, at_span: Span) -> Move {
    let (first, m1) = read(src, m0, Skip::Nothing);
    if first.kind == TokenKind::BareScalar && adjoins(first, at_span) {
        if is_tag_name(src, first.span) {
            emit_to(
                m1,
                emit::tag_start(
                    src,
                    Span { start: at_span.start, end: first.span.end },
                    first.span,
                ),
                State::AfterTagStart { tag_span: first.span },
            )
        } else {
            emit_to(
                read(src, m1, Skip::RestOfLine).1,
                emit::error(first.span, ParseErrorKindView::InvalidTagName),
                State::ExpectEntry,
            )
        }
    } else {
        let (t, m) = read(src, m0, Skip::Blanks);
        match unit_key_value(t, at_span) {
            Some(state) => emit_to(m, emit::unit_key(at_span), state),
            None => emit_to(m, unexpected(t.span), State::EmitEntryEnd),
        }
    }
}

/// Where the value of a key goes on, once its token was read.
pub open spec fn key_value(t: Token, key_span: Span) -> Option<State> {
    match t.kind {
        TokenKind::BareScalar => Some(State::AfterBareScalarValue { value_span: t.span }),
        TokenKind::QuotedScalar => Some(
            State::EmitScalarValue { span: t.span, kind: ScalarKind::Quoted },
        ),
        TokenKind::Newline | TokenKind::Eof => Some(State::EmitUnitValue { span: key_span }),
        TokenKind::RBrace => Some(
            State::EmitUnitThenEntryEndThenObjectEnd { unit_span: key_span, rbrace_span: t.span },
        ),
        TokenKind::LBrace => Some(State::EmitObjectStartValue { span: t.span }),
        TokenKind::LParen => Some(State::EmitSequenceStartValue { span: t.span }),
        TokenKind::At => Some(State::EmitTagStart { tag_span: t.span }),
        TokenKind::Gt => Some(
            State::EmitUnitThenError { unit_span: key_span, error_span: t.span },
        ),
        _ => None,
    }
}

/// The move from [`State::EmitKey`]. A block right behind a bare key is an
/// error that takes the place of the key.
#[verifier::opaque]
pub open spec fn emit_key(src: Seq<u8>, m0: Machine, key_span: Span, key_kind: ScalarKind) -> Move {
    let spaced = read(src, m0, Skip::Nothing).0.kind == TokenKind::Whitespace;
    let (t, m) = read(src, m0, Skip::Blanks);
    let block = t.kind == TokenKind::LBrace || t.kind == TokenKind::LParen;
    match key_value(t, key_span) {
        Some(state) => if block && !spaced && key_kind == ScalarKind::Bare {
            emit_to(
                m,
                emit::error(t.span, ParseErrorKindView::MissingWhitespaceBeforeBlock),
                state,
            )
        } else {
            emit_to(m, key(src, key_span, key_kind), state)
        },
        None => emit_to(m, unexpected(t.span), State::EmitEntryEnd),
    }
}

/// The move from [`State::EmitScalarValue`].
#[verifier::opaque]
pub open spec fn emit_scalar_value(src: Seq<u8>, m: Machine, span: Span, kind: ScalarKind) -> Move {
    if escape_count(src, span, kind) > 0 {
        go_to(m, State::EmitInvalidEscapes { span, kind, error_index: 0 })
    } else {
        emit_to(m, scalar(src, span, kind), State::AfterQuotedScalarValue { value_span: span })
    }
}

/// The move from [`State::AfterBareScalarValue`].
#[verifier::opaque]
pub open spec fn after_bare_scalar_value(src: Seq<u8>, m0: Machine, value_span: Span) -> Move {
    let (t, m) = read(src, m0, Skip::Nothing);
    let value = bare(src, value_span);
    match t.kind {
        TokenKind::Gt if adjoins(t, value_span) => emit_to(
            push(m, Context::AttrObject),
            emit::object_start(value_span),
            State::EmitAttrEntryStart { attr_key_span: value_span },
        ),
        TokenKind::RBrace => emit_to(
            m,
            value,
            State::EmitEntryEndThenObjectEnd { rbrace_span: t.span },
        ),
        TokenKind::RParen => emit_to(
            m,
            value,
            State::EmitEntryEndThenSeqEnd { rparen_span: t.span },
        ),
        TokenKind::Newline | TokenKind::Eof | TokenKind::Comma => emit_to(
            m,
            value,
            State::EmitEntryEnd,
        ),
        TokenKind::Whitespace => {
            let (next, m2) = read(src, m, Skip::Blanks);
            match next.kind {
                TokenKind::BareScalar | TokenKind::QuotedScalar => go_to(
                    m2,
                    State::EmitScalarThenTooManyAtoms { value_span, error_span: next.span },
                ),
                _ => emit_to(m2, value, State::EmitEntryEnd),
            }
        },
        _ => emit_to(
            m,
            emit::error(t.span, ParseErrorKindView::TooManyAtoms),
            State::EmitEntryEnd,
        ),
    }
}

/// The move from [`State::EmitTooManyAtomsThenEntryEnd`]: the rest of the entry
/// is passed over, and a brace that ends it closes its object without an event.
#[verifier::opaque]
pub open spec fn emit_too_many_atoms(src: Seq<u8>, m0: Machine, error_span: Span) -> Move {
    let (t, m) = read(src, m0, Skip::RestOfEntry);
    let closes = t.kind == TokenKind::RBrace && top(m) == Some(
        Context::Object { implicit: false },
    );
    emit_to(
        if closes {
            pop(m)
        } else {
            m
        },
        emit::error(error_span, ParseErrorKindView::TooManyAtoms),
        State::EmitEntryEnd,
    )
}

/// The move from [`State::EmitInvalidEscapesInKey`].
#[verifier::opaque]
pub open spec fn emit_invalid_escapes_in_key(
    src: Seq<u8>,
    m: Machine,
    key_span: Span,
    key_kind: ScalarKind,
    error_index: usize,
) -> Move {
    if error_index < escapes(src, key_span).len() {
        emit_to(
            m,
            escape_error(src, key_span, error_index as int),
            State::EmitInvalidEscapesInKey {
                key_span,
                key_kind,
                error_index: (error_index + 1) as usize,
            },
        )
    } else {
        emit_to(m, EventView::EntryStart, State::EmitKey { key_span, key_kind })
    }
}

/// The move from [`State::EmitInvalidEscapes`].
#[verifier::opaque]
pub open spec fn emit_invalid_escapes(
    src: Seq<u8>,
    m: Machine,
    span: Span,
    kind: ScalarKind,
    error_index: usize,
) -> Move {
    if error_index < escapes(src, span).len() {
        emit_to(
            m,
            escape_error(src, span, error_index as int),
            State::EmitInvalidEscapes { span, kind, error_index: (error_index + 1) as usize },
        )
    } else {
        emit_to(m, scalar(src, span, kind), State::AfterQuotedScalarValue { value_span: span })
    }
}

/// The move from [`State::AfterQuotedScalarValue`].
#[verifier::opaque]
pub open spec fn after_quoted_scalar_value(src: Seq<u8>, m0: Machine) -> Move {
    let spaced = read(src, m0, Skip::Nothing).0.kind == TokenKind::Whitespace;
    let (t, m) = read(src, m0, Skip::Blanks);
    match t.kind {
        TokenKind::Newline | TokenKind::Eof | TokenKind::Comma => go_to(m, State::EmitEntryEnd),
        TokenKind::LineComment if spaced => go_to(m, State::EmitEntryEnd),
        TokenKind::RBrace => emit_to(
            pop(m),
            EventView::ObjectEnd { span: t.span },
            State::EmitEntryEnd,
        ),
        TokenKind::RParen => emit_to(
            pop(m),
            EventView::SequenceEnd { span: t.span },
            State::EmitEntryEnd,
        ),
        TokenKind::BareScalar if spaced => go_to(
            m,
            State::EmitTooManyAtomsThenEntryEnd { error_span: t.span },
        ),
        TokenKind::QuotedScalar if spaced => go_to(
            m,
            State::EmitTooManyAtomsThenEntryEnd { error_span: t.span },
        ),
        _ => emit_to(m, unexpected(t.span), State::EmitEntryEnd),
    }
}

/// The state in which the parser goes on after an entry.
pub open spec fn after_entry(m: Machine) -> State {
    match top(m) {
        Some(Context::Object { .. }) => State::ExpectEntry,
        Some(Context::Sequence) => State::ExpectSeqElem,
        Some(Context::AttrObject) => State::AfterAttrEntryEnd,
        None => State::EmitDocumentEnd,
    }
}

/// The state in which the parser goes on after a tag.
pub open spec fn after_tag(m: Machine) -> State {
    match top(m) {
        Some(Context::Object { .. }) => State::EmitEntryEnd,
        Some(Context::Sequence) => State::ExpectSeqElem,
        Some(Context::AttrObject) => State::EmitEntryEnd,
        None => State::EmitDocumentEnd,
    }
}

/// The move from [`State::EmitTagStart`].
#[verifier::opaque]
pub open spec fn emit_tag_start(src: Seq<u8>, m0: Machine, tag_span: Span) -> Move {
    let (t, m) = read(src, m0, Skip::Nothing);
    if t.kind == TokenKind::BareScalar && adjoins(t, tag_span) {
        let end = emit::name_end(src, t.span);
        let name = Span { start: t.span.start, end };
        let tag = emit::tag_start(src, Span { start: tag_span.start, end }, name);
        if !is_tag_name(src, name) {
            emit_to(
                read(src, m, Skip::RestOfLine).1,
                emit::error(t.span, ParseErrorKindView::InvalidTagName),
                State::EmitEntryEnd,
            )
        } else if end < t.span.end {
            let unit_span = Span { start: end, end: (end + 1) as u32 };
            emit_to(m, tag, State::EmitTagEndWithUnit { unit_span })
        } else {
            emit_to(m, tag, State::AfterTagStart { tag_span: name })
        }
    } else {
        emit_to(m, EventView::Unit { span: tag_span }, State::EmitEntryEnd)
    }
}

/// The move from [`State::AfterTagStart`].
#[verifier::opaque]
pub open spec fn after_tag_start(src: Seq<u8>, m0: Machine, tag_span: Span) -> Move {
    let (t, m) = read(src, m0, Skip::Nothing);
    match t.kind {
        TokenKind::LBrace if adjoins(t, tag_span) => emit_to(
            push(m, Context::Object { implicit: false }),
            emit::object_start(t.span),
            State::ExpectEntry,
        ),
        TokenKind::LParen if adjoins(t, tag_span) => emit_to(
            push(m, Context::Sequence),
            EventView::SequenceStart { span: t.span },
            State::ExpectSeqElem,
        ),
        TokenKind::BareScalar if adjoins(t, tag_span) => emit_to(
            m,
            bare(src, t.span),
            State::EmitTagEnd,
        ),
        TokenKind::QuotedScalar if adjoins(t, tag_span) => emit_to(
            m,
            scalar(src, t.span, ScalarKind::Quoted),
            State::EmitTagEnd,
        ),
        TokenKind::At if adjoins(t, tag_span) => emit_to(
            m,
            EventView::Unit { span: t.span },
            State::EmitTagEnd,
        ),
        TokenKind::RParen => emit_to(
            m,
            EventView::TagEnd,
            State::EmitTagEndThenSeqEnd { rparen_span: t.span },
        ),
        TokenKind::RBrace => emit_to(
            m,
            EventView::TagEnd,
            State::EmitTagEndThenObjEnd { rbrace_span: t.span },
        ),
        _ => emit_to(m, EventView::TagEnd, after_tag(m)),
    }
}

/// The move from [`State::ExpectAttrValue`].
#[verifier::opaque]
pub open spec fn expect_attr_value(src: Seq<u8>, m0: Machine) -> Move {
    let (t, m) = read(src, m0, Skip::Nothing);
    match t.kind {
        TokenKind::BareScalar => go_to(m, State::AfterAttrBareValue { value_span: t.span }),
        TokenKind::QuotedScalar => go_to(
            m,
            State::EmitAttrScalarValue { span: t.span, kind: ScalarKind::Quoted },
        ),
        TokenKind::LParen => emit_to(
            push(m, Context::Sequence),
            EventView::SequenceStart { span: t.span },
            State::ExpectSeqElem,
        ),
        TokenKind::LBrace => emit_to(
            push(m, Context::Object { implicit: false }),
            emit::object_start(t.span),
            State::ExpectEntry,
        ),
        TokenKind::At => go_to(m, State::EmitTagStartInAttr { tag_span: t.span }),
        _ => emit_to(
            m,
            emit::error(t.span, ParseErrorKindView::ExpectedValue),
            State::EmitAttrObjectEnd,
        ),
    }
}

/// The move from [`State::AfterAttrBareValue`].
#[verifier::opaque]
pub open spec fn after_attr_bare_value(src: Seq<u8>, m0: Machine, value_span: Span) -> Move {
    let (t, m) = read(src, m0, Skip::Nothing);
    if t.kind == TokenKind::Gt && adjoins(t, value_span) {
        emit_to(
            m,
            EventView::Unit { span: value_span },
            State::EmitAttrEntryStart { attr_key_span: value_span },
        )
    } else {
        emit_to(m, bare(src, value_span), State::EmitAttrEntryEnd)
    }
}

/// The move from [`State::AfterAttrEntryEnd`].
#[verifier::opaque]
pub open spec fn after_attr_entry_end(src: Seq<u8>, m0: Machine) -> Move {
    let (t, m) = read(src, m0, Skip::Blanks);
    match t.kind {
        TokenKind::BareScalar => {
            let (next, m2) = read(src, m, Skip::Nothing);
            if next.kind == TokenKind::Gt && adjoins(next, t.span) {
                go_to(m2, State::EmitAttrEntryStart { attr_key_span: t.span })
            } else {
                go_to(
                    m2,
                    State::EmitAttrObjectEndThenNewEntry {
                        next_key_span: t.span,
                        next_key_kind: ScalarKind::Bare,
                    },
                )
            }
        },
        TokenKind::Newline | TokenKind::Eof => go_to(m, State::EmitAttrObjectEnd),
        TokenKind::RBrace => go_to(m, State::EmitAttrObjectEndThenClose { rbrace_span: t.span }),
        _ => emit_to(m, unexpected(t.span), State::EmitAttrObjectEnd),
    }
}

/// The move from [`State::EmitDottedPath`]. A path that is empty from `offset`
/// on, goes on with a dot, or ends with one is no key.
#[verifier::opaque]
pub open spec fn emit_dotted_path(
    src: Seq<u8>,
    m: Machine,
    full_span: Span,
    offset: u32,
    depth: u32,
) -> Move {
    let start = full_span.start + offset;
    let dot = text::byte_offset(src, ascii::DOT, start as nat, full_span.end as nat);
    let key_span = Span { start: start as u32, end: dot as u32 };
    if dot == start || dot + 1 == full_span.end {
        emit_to(
            m,
            emit::error(full_span, ParseErrorKindView::InvalidKey),
            State::CloseDottedPath { depth },
        )
    } else if dot == full_span.end {
        emit_to(
            m,
            EventView::EntryStart,
            State::EmitDottedPathKey { key_span, full_span, depth },
        )
    } else {
        let next_offset = (dot + 1 - full_span.start) as u32;
        emit_to(
            m,
            EventView::EntryStart,
            State::EmitDottedPathKeyThenObject { key_span, full_span, next_offset, depth },
        )
    }
}

/// The move from [`State::AfterDottedPathKey`].
#[verifier::opaque]
pub open spec fn after_dotted_path_key(
    src: Seq<u8>,
    m0: Machine,
    full_span: Span,
    depth: u32,
) -> Move {
    let (t, m) = read(src, m0, Skip::Blanks);
    match t.kind {
        TokenKind::BareScalar => go_to(
            m,
            State::AfterDottedPathBareValue { value_span: t.span, depth },
        ),
        TokenKind::QuotedScalar => go_to(
            m,
            State::EmitDottedPathScalarValue { span: t.span, kind: ScalarKind::Quoted, depth },
        ),
        TokenKind::Newline | TokenKind::Eof => emit_to(
            m,
            EventView::Unit { span: full_span },
            State::CloseDottedPath { depth },
        ),
        TokenKind::LBrace => emit_to(
            push(m, Context::Object { implicit: false }),
            emit::object_start(t.span),
            State::ExpectEntry,
        ),
        TokenKind::LParen => emit_to(
            push(m, Context::Sequence),
            EventView::SequenceStart { span: t.span },
            State::ExpectSeqElem,
        ),
        TokenKind::At => go_to(m, State::EmitTagStart { tag_span: t.span }),
        _ => emit_to(m, unexpected(t.span), State::CloseDottedPath { depth }),
    }
}

/// The move from [`State::AfterDottedPathBareValue`].
#[verifier::opaque]
pub open spec fn after_dotted_path_bare_value(
    src: Seq<u8>,
    m0: Machine,
    value_span: Span,
    depth: u32,
) -> Move {
    let (t, m) = read(src, m0, Skip::Nothing);
    if t.kind == TokenKind::Gt && adjoins(t, value_span) {
        emit_to(
            push(m, Context::AttrObject),
            emit::object_start(value_span),
            State::EmitAttrEntryStart { attr_key_span: value_span },
        )
    } else {
        emit_to(m, bare(src, value_span), State::CloseDottedPath { depth })
    }
}

/// The move from [`State::CloseDottedPath`].
#[verifier::opaque]
pub open spec fn close_dotted_path(src: Seq<u8>, m: Machine, depth: u32) -> Move {
    if depth == 0 {
        emit_to(m, EventView::EntryEnd, State::EmitEntryEnd)
    } else {
        emit_to(
            pop(m),
            EventView::ObjectEnd { span: eof_span(src) },
            State::EmitEntryEndThenCloseDotted { depth: (depth - 1) as u32 },
        )
    }
}

/// The move from [`State::EmitTagStartInAttr`].
#[verifier::opaque]
pub open spec fn emit_tag_start_in_attr(src: Seq<u8>, m0: Machine, tag_span: Span) -> Move {
    let (t, m) = read(src, m0, Skip::Nothing);
    if t.kind == TokenKind::BareScalar && adjoins(t, tag_span) {
        let end = emit::name_end(src, t.span);
        let name = Span { start: t.span.start, end };
        let tag = emit::tag_start(src, Span { start: tag_span.start, end }, name);
        if end < t.span.end {
            let unit_span = Span { start: end, end: (end + 1) as u32 };
            emit_to(m, tag, State::EmitUnitThenTagEndInAttr { unit_span })
        } else {
            emit_to(m, tag, State::AfterTagStartInAttr { tag_span: name })
        }
    } else {
        emit_to(m, EventView::Unit { span: tag_span }, State::EmitAttrEntryEnd)
    }
}

/// The move from [`State::AfterTagStartInAttr`].
#[verifier::opaque]
pub open spec fn after_tag_start_in_attr(src: Seq<u8>, m0: Machine, tag_span: Span) -> Move {
    let (t, m) = read(src, m0, Skip::Nothing);
    match t.kind {
        TokenKind::LBrace if adjoins(t, tag_span) => emit_to(
            push(m, Context::Object { implicit: false }),
            emit::object_start(t.span),
            State::ExpectEntry,
        ),
        TokenKind::LParen if adjoins(t, tag_span) => emit_to(
            push(m, Context::Sequence),
            EventView::SequenceStart { span: t.span },
            State::ExpectSeqElem,
        ),
        TokenKind::BareScalar if adjoins(t, tag_span) => emit_to(
            m,
            bare(src, t.span),
            State::EmitTagEndInAttr,
        ),
        TokenKind::QuotedScalar if adjoins(t, tag_span) => emit_to(
            m,
            scalar(src, t.span, ScalarKind::Quoted),
            State::EmitTagEndInAttr,
        ),
        _ => emit_to(m, EventView::TagEnd, State::AfterAttrEntryEnd),
    }
}

/// The move from [`State::ExpectSeqElem`].
#[verifier::opaque]
pub open spec fn expect_seq_elem(src: Seq<u8>, m0: Machine) -> Move {
    let (t, m) = read(src, m0, Skip::Lines);
    match t.kind {
        TokenKind::LineComment => emit_to(m, emit::comment(src, t.span), State::ExpectSeqElem),
        TokenKind::RParen => emit_to(
            pop(m),
            EventView::SequenceEnd { span: t.span },
            State::EmitEntryEnd,
        ),
        TokenKind::Eof => emit_to(
            m,
            emit::error(eof_span(src), ParseErrorKindView::UnclosedSequence),
            State::Done,
        ),
        TokenKind::BareScalar => emit_to(m, bare(src, t.span), State::ExpectSeqElem),
        TokenKind::QuotedScalar => emit_to(
            m,
            scalar(src, t.span, ScalarKind::Quoted),
            State::ExpectSeqElem,
        ),
        TokenKind::LBrace => emit_to(
            push(m, Context::Object { implicit: false }),
            emit::object_start(t.span),
            State::ExpectEntry,
        ),
        TokenKind::LParen => emit_to(
            push(m, Context::Sequence),
            EventView::SequenceStart { span: t.span },
            State::ExpectSeqElem,
        ),
        TokenKind::At => go_to(m, State::EmitTagStart { tag_span: t.span }),
        _ => emit_to(m, unexpected(t.span), State::Done),
    }
}

// --- moves that depend on the state alone ---

/// A state outside attributes and dotted paths whose move depends on nothing else.
pub open spec fn is_plain(state: State) -> bool {
    match state {
        State::Start
        | State::EmitRootObjectStart
        | State::EmitUnitValue { .. }
        | State::EmitUnitThenError { .. }
        | State::EmitErrorThenEntryEnd { .. }
        | State::EmitUnitThenEntryEndThenObjectEnd { .. }
        | State::EmitEntryEndAfterUnitThenObjectEnd { .. }
        | State::EmitScalarThenTooManyAtoms { .. }
        | State::EmitEntryEnd
        | State::EmitEntryEndThenObjectEnd { .. }
        | State::EmitObjectEndAfterEntry { .. }
        | State::EmitEntryEndThenSeqEnd { .. }
        | State::EmitSeqEndAfterEntry { .. }
        | State::EmitObjectStartValue { .. }
        | State::EmitSequenceStartValue { .. }
        | State::EmitTagEnd
        | State::EmitTagEndWithUnit { .. }
        | State::EmitTagEndThenSeqEnd { .. }
        | State::EmitTagEndThenObjEnd { .. }
        | State::EmitDocumentEnd
        | State::Done => true,
        _ => false,
    }
}

/// A state in attributes or in a dotted path whose move depends on nothing else.
pub open spec fn is_nested(state: State) -> bool {
    match state {
        State::EmitAttrEntryStart { .. }
        | State::EmitAttrKey { .. }
        | State::EmitAttrScalarValue { .. }
        | State::EmitAttrEntryEnd
        | State::EmitDottedPathKey { .. }
        | State::EmitDottedPathKeyThenObject { .. }
        | State::EmitDottedPathObject { .. }
        | State::EmitDottedPathScalarValue { .. }
        | State::EmitEntryEndThenCloseDotted { .. }
        | State::EmitTagEndInAttr
        | State::EmitUnitThenTagEndInAttr { .. }
        | State::EmitAttrObjectEnd
        | State::EmitAttrObjectEndThenNewEntry { .. }
        | State::EmitEntryEndThenNewEntry { .. }
        | State::EmitAttrObjectEndThenClose { .. }
        | State::EmitParentObjectEnd { .. } => true,
        _ => false,
    }
}

// --- the machine ---

/// One move of the machine. It stands still when it is done.
pub open spec fn step(src: Seq<u8>, m: Machine) -> Move {
    match m.state {
        State::Start => emit_to(m, EventView::DocumentStart, State::EmitRootObjectStart),
        State::EmitRootObjectStart => emit_to(
            push(m, Context::Object { implicit: true }),
            emit::open_object_start(root_span()),
            State::ExpectEntry,
        ),
        State::ExpectEntry => expect_entry(src, m),
        State::EmitEntryStart { key_span, key_kind } => emit_entry_start(src, m, key_span, key_kind),
        State::EmitUnitKeyValue { at_span } => emit_unit_key_value(src, m, at_span),
        State::EmitKey { key_span, key_kind } => emit_key(src, m, key_span, key_kind),
        State::EmitScalarValue { span, kind } => emit_scalar_value(src, m, span, kind),
        State::AfterBareScalarValue { value_span } => after_bare_scalar_value(src, m, value_span),
        State::EmitUnitValue { span } => emit_to(m, EventView::Unit { span }, State::EmitEntryEnd),
        State::EmitUnitThenError { unit_span, error_span } => emit_to(
            m,
            EventView::Unit { span: unit_span },
            State::EmitErrorThenEntryEnd { error_span },
        ),
        State::EmitErrorThenEntryEnd { error_span } => emit_to(
            m,
            unexpected(error_span),
            State::EmitEntryEnd,
        ),
        State::EmitTooManyAtomsThenEntryEnd { error_span } => emit_too_many_atoms(
            src,
            m,
            error_span,
        ),
        State::EmitUnitThenEntryEndThenObjectEnd { unit_span, rbrace_span } => emit_to(
            m,
            EventView::Unit { span: unit_span },
            State::EmitEntryEndAfterUnitThenObjectEnd { rbrace_span },
        ),
        State::EmitEntryEndAfterUnitThenObjectEnd { rbrace_span } => emit_to(
            m,
            EventView::EntryEnd,
            State::EmitObjectEndAfterEntry { rbrace_span },
        ),
        State::EmitScalarThenTooManyAtoms { value_span, error_span } => emit_to(
            m,
            bare(src, value_span),
            State::EmitTooManyAtomsThenEntryEnd { error_span },
        ),
        State::AfterQuotedScalarValue { .. } => after_quoted_scalar_value(src, m),
        State::EmitInvalidEscapes { span, kind, error_index } => emit_invalid_escapes(
            src,
            m,
            span,
            kind,
            error_index,
        ),
        State::EmitInvalidEscapesInKey { key_span, key_kind, error_index } => {
            emit_invalid_escapes_in_key(src, m, key_span, key_kind, error_index)
        },
        State::EmitEntryEnd => emit_to(m, EventView::EntryEnd, after_entry(m)),
        State::EmitEntryEndThenObjectEnd { rbrace_span } => emit_to(
            m,
            EventView::EntryEnd,
            State::EmitObjectEndAfterEntry { rbrace_span },
        ),
        State::EmitObjectEndAfterEntry { rbrace_span } => emit_to(
            pop(m),
            EventView::ObjectEnd { span: rbrace_span },
            State::EmitEntryEnd,
        ),
        State::EmitEntryEndThenSeqEnd { rparen_span } => emit_to(
            m,
            EventView::EntryEnd,
            State::EmitSeqEndAfterEntry { rparen_span },
        ),
        State::EmitSeqEndAfterEntry { rparen_span } => emit_to(
            pop(m),
            EventView::SequenceEnd { span: rparen_span },
            State::EmitEntryEnd,
        ),
        State::EmitObjectStartValue { span } => emit_to(
            push(m, Context::Object { implicit: false }),
            emit::object_start(span),
            State::ExpectEntry,
        ),
        State::EmitSequenceStartValue { span } => emit_to(
            push(m, Context::Sequence),
            EventView::SequenceStart { span },
            State::ExpectSeqElem,
        ),
        State::ExpectSeqElem => expect_seq_elem(src, m),
        State::EmitTagStart { tag_span } => emit_tag_start(src, m, tag_span),
        State::AfterTagStart { tag_span } => after_tag_start(src, m, tag_span),
        State::EmitTagEnd => emit_to(m, EventView::TagEnd, after_tag(m)),
        State::EmitTagEndWithUnit { unit_span } => emit_to(
            m,
            EventView::Unit { span: unit_span },
            State::EmitTagEnd,
        ),
        State::EmitTagEndThenSeqEnd { rparen_span } => emit_to(
            pop(m),
            EventView::SequenceEnd { span: rparen_span },
            State::EmitEntryEnd,
        ),
        State::EmitTagEndThenObjEnd { rbrace_span } => emit_to(
            pop(m),
            EventView::ObjectEnd { span: rbrace_span },
            State::EmitEntryEnd,
        ),
        State::EmitAttrEntryStart { attr_key_span } => emit_to(
            m,
            EventView::EntryStart,
            State::EmitAttrKey { attr_key_span },
        ),
        State::EmitAttrKey { attr_key_span } => emit_to(
            m,
            key(src, attr_key_span, ScalarKind::Bare),
            State::ExpectAttrValue { attr_key_span },
        ),
        State::ExpectAttrValue { .. } => expect_attr_value(src, m),
        State::AfterAttrBareValue { value_span } => after_attr_bare_value(src, m, value_span),
        State::EmitAttrScalarValue { span, kind } => emit_to(
            m,
            scalar(src, span, kind),
            State::EmitAttrEntryEnd,
        ),
        State::EmitAttrEntryEnd => emit_to(m, EventView::EntryEnd, State::AfterAttrEntryEnd),
        State::AfterAttrEntryEnd => after_attr_entry_end(src, m),
        State::EmitDottedPath { full_span, offset, depth } => emit_dotted_path(
            src,
            m,
            full_span,
            offset,
            depth,
        ),
        State::EmitDottedPathKey { key_span, full_span, depth } => emit_to(
            m,
            key(src, key_span, ScalarKind::Bare),
            State::AfterDottedPathKey { full_span, depth },
        ),
        State::EmitDottedPathKeyThenObject { key_span, full_span, next_offset, depth } => emit_to(
            m,
            key(src, key_span, ScalarKind::Bare),
            State::EmitDottedPathObject { key_span, full_span, next_offset, depth },
        ),
        State::EmitDottedPathObject { key_span, full_span, next_offset, depth } => emit_to(
            push(m, Context::Object { implicit: false }),
            emit::open_object_start(key_span),
            State::EmitDottedPath { full_span, offset: next_offset, depth: (depth + 1) as u32 },
        ),
        State::AfterDottedPathKey { full_span, depth } => after_dotted_path_key(
            src,
            m,
            full_span,
            depth,
        ),
        State::AfterDottedPathBareValue { value_span, depth } => after_dotted_path_bare_value(
            src,
            m,
            value_span,
            depth,
        ),
        State::EmitDottedPathScalarValue { span, kind, depth } => emit_to(
            m,
            scalar(src, span, kind),
            State::CloseDottedPath { depth },
        ),
        State::CloseDottedPath { depth } => close_dotted_path(src, m, depth),
        State::EmitEntryEndThenCloseDotted { depth } => emit_to(
            m,
            EventView::EntryEnd,
            State::CloseDottedPath { depth },
        ),
        State::EmitTagStartInAttr { tag_span } => emit_tag_start_in_attr(src, m, tag_span),
        State::AfterTagStartInAttr { tag_span } => after_tag_start_in_attr(src, m, tag_span),
        State::EmitTagEndInAttr => emit_to(m, EventView::TagEnd, State::AfterAttrEntryEnd),
        State::EmitUnitThenTagEndInAttr { unit_span } => emit_to(
            m,
            EventView::Unit { span: unit_span },
            State::EmitTagEndInAttr,
        ),
        State::EmitAttrObjectEnd => emit_to(
            pop(m),
            EventView::ObjectEnd { span: eof_span(src) },
            State::EmitEntryEnd,
        ),
        State::EmitAttrObjectEndThenNewEntry { next_key_span, next_key_kind } => emit_to(
            pop(m),
            EventView::ObjectEnd { span: eof_span(src) },
            State::EmitEntryEndThenNewEntry { next_key_span, next_key_kind },
        ),
        State::EmitEntryEndThenNewEntry { next_key_span, next_key_kind } => emit_to(
            m,
            EventView::EntryEnd,
            State::EmitEntryStart { key_span: next_key_span, key_kind: next_key_kind },
        ),
        State::EmitAttrObjectEndThenClose { rbrace_span } => emit_to(
            pop(m),
            EventView::ObjectEnd { span: eof_span(src) },
            State::EmitParentObjectEnd { rbrace_span },
        ),
        State::EmitParentObjectEnd { rbrace_span } => emit_to(
            pop(m),
            EventView::ObjectEnd { span: rbrace_span },
            State::EmitEntryEnd,
        ),
        State::EmitDocumentEnd => emit_to(m, EventView::DocumentEnd, State::Done),
        State::Done => go_to(m, State::Done),
    }
}

} // verus!
