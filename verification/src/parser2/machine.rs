//! The states of [`Parser2`](crate::parser2::Parser2) and the moves between them.
use crate::ascii;
use crate::emit;
use crate::escape::ShortUnicode;
use crate::event::{EventView, ParseErrorKindView, ScalarKind};
use crate::lexer;
use crate::lexer::{LexState, Skip};
use crate::span::Span;
use crate::text;
use crate::token::{Token, TokenKind};
use vstd::prelude::*;

verus! {

/// What the parser does next.
#[derive(Debug, Clone, Copy, PartialEq, Eq, Structural)]
pub enum State {
    /// At the start of the document.
    Start,
    /// Before the root object or value.
    BeforeRoot,
    /// Inside an object, before an entry.
    ExpectingEntry,
    /// After a bare key; `>` makes it the key of an attribute.
    AfterBareKey { key_span: Span },
    /// After a key, before its value.
    AfterKey { key_span: Span },
    /// After the value of an entry.
    AfterValue,
    /// After an attribute; another one may follow.
    InAttributeChain { obj_start_span: Span },
    /// Inside a sequence, before an element.
    ExpectingSequenceElement,
    /// Nothing is left to read.
    Done,
}

/// What surrounds the place where the parser stands.
#[derive(Debug, Clone, Copy, PartialEq, Eq, Structural)]
pub enum Context {
    /// An object; `implicit` for a root object without braces.
    Object { implicit: bool },
    /// A sequence.
    Sequence,
    /// The object that holds the attributes of a key.
    AttributeObject,
}

/// All that the parser knows besides its source.
#[verifier::ext_equal]
pub struct Machine {
    /// Where the lexer stands.
    pub lex: LexState,
    /// What to do next.
    pub state: State,
    /// What surrounds the place, from the outside in.
    pub stack: Seq<Context>,
    /// The events that are emitted before anything else happens.
    pub queue: Seq<EventView>,
    /// The doc comments that wait for an entry.
    pub docs: Seq<Span>,
    /// Whether the source is a single value rather than a document.
    pub expr: bool,
    /// The tokens that were put back, the next one first.
    pub buffer: Seq<Token>,
}

/// What one move of the machine emits, if anything, and the machine after it.
pub type Move = (Option<EventView>, Machine);

// --- building blocks ---

/// `m` in another state.
pub open spec fn to(m: Machine, state: State) -> Machine {
    Machine { state, ..m }
}

/// `m` with `events` to be emitted.
pub open spec fn queued(m: Machine, events: Seq<EventView>) -> Machine {
    Machine { queue: m.queue + events, ..m }
}

/// `m` inside one more context.
pub open spec fn push(m: Machine, context: Context) -> Machine {
    Machine { stack: m.stack.push(context), ..m }
}

/// `m` with the innermost context left, if there is one.
pub open spec fn pop(m: Machine) -> Machine {
    Machine {
        stack: if m.stack.len() > 0 {
            m.stack.drop_last()
        } else {
            m.stack
        },
        ..m
    }
}

/// The innermost context.
pub open spec fn top(m: Machine) -> Option<Context> {
    if m.stack.len() > 0 {
        Some(m.stack.last())
    } else {
        None
    }
}

/// `m` with one more doc comment that waits for an entry.
pub open spec fn documented(m: Machine, span: Span) -> Machine {
    Machine { docs: m.docs.push(span), ..m }
}

/// `m` with no doc comment that waits for an entry.
pub open spec fn undocumented(m: Machine) -> Machine {
    Machine { docs: Seq::empty(), ..m }
}

/// `m` with the token `t` put back.
pub open spec fn unread(m: Machine, t: Token) -> Machine {
    Machine { buffer: seq![t] + m.buffer, ..m }
}

/// `m` with its lexer at another place.
pub open spec fn at(m: Machine, lex: LexState) -> Machine {
    Machine { lex, ..m }
}

/// The next token that is no blank, and the machine after it was read.
pub open spec fn take(src: Seq<u8>, m: Machine) -> (Token, Machine) {
    if m.buffer.len() > 0 {
        (m.buffer[0], Machine { buffer: m.buffer.drop_first(), ..m })
    } else {
        let (t, lex) = lexer::lex_past(src, m.lex, Skip::Blanks);
        (t, at(m, lex))
    }
}

/// The next token that is neither a blank nor a line break, and the machine
/// after it was read.
pub open spec fn take_line(src: Seq<u8>, m: Machine) -> (Token, Machine)
    decreases lexer::budget(src, m.lex) + m.buffer.len(),
{
    let (t, next) = take(src, m);
    if t.kind == TokenKind::Newline {
        proof {
            lexer::lemma_past_budget(src, m.lex, Skip::Blanks);
        }
        take_line(src, next)
    } else {
        (t, next)
    }
}

/// The empty span at the end of the source.
pub open spec fn eof_span(src: Seq<u8>) -> Span {
    Span { start: src.len() as u32, end: src.len() as u32 }
}

/// The span at the start of the source.
pub open spec fn root_span() -> Span {
    Span { start: 0, end: 0 }
}

/// The scalar at `span`.
pub open spec fn scalar(src: Seq<u8>, span: Span, kind: ScalarKind) -> EventView {
    emit::scalar(src, span, kind, ShortUnicode::Kept)
}

/// The key at `span`.
pub open spec fn key(src: Seq<u8>, span: Span, kind: ScalarKind) -> EventView {
    emit::key(src, span, kind, ShortUnicode::Kept)
}

/// A token that cannot stand where it does.
pub open spec fn unexpected(span: Span) -> EventView {
    emit::error(span, ParseErrorKindView::UnexpectedToken)
}

/// `t` is a `>` right behind `span`.
pub open spec fn is_arrow(t: Token, span: Span) -> bool {
    t.kind == TokenKind::Gt && t.span.start == span.end
}

/// An entry ends before a token of this kind.
pub open spec fn ends_entry(kind: TokenKind) -> bool {
    kind == TokenKind::Newline || kind == TokenKind::Eof || kind == TokenKind::RBrace || kind
        == TokenKind::RParen || kind == TokenKind::Comma
}

/// The kind of the scalar that a token of this kind is.
pub open spec fn scalar_kind(kind: TokenKind) -> Option<ScalarKind> {
    match kind {
        TokenKind::BareScalar => Some(ScalarKind::Bare),
        TokenKind::QuotedScalar => Some(ScalarKind::Quoted),
        TokenKind::RawScalar => Some(ScalarKind::Raw),
        _ => None,
    }
}

/// A byte that may start the name of a tag.
pub open spec fn starts_tag_name(b: u8) -> bool {
    ascii::LOWER_A <= b <= ascii::LOWER_Z || ascii::UPPER_A <= b <= ascii::UPPER_Z || b
        == ascii::UNDERSCORE
}

/// A byte that may stand in the name of a tag.
pub open spec fn in_tag_name(b: u8) -> bool {
    starts_tag_name(b) || ascii::DIGIT_0 <= b <= ascii::DIGIT_9 || b == ascii::HYPHEN
}

/// Whether the text at `span` is the name of a tag: a letter or `_`, then
/// letters, digits, `_` and `-`.
pub open spec fn is_tag_name(src: Seq<u8>, span: Span) -> bool {
    &&& span.start < span.end
    &&& starts_tag_name(src[span.start as int])
    &&& forall|i: int| span.start < i < span.end ==> in_tag_name(#[trigger] src[i])
}

/// The events for the doc comments at `docs`.
pub open spec fn doc_events(src: Seq<u8>, docs: Seq<Span>) -> Seq<EventView> {
    docs.map_values(|span: Span| emit::doc_comment(src, span))
}

/// `m` with the doc comments that wait for an entry to be emitted.
pub open spec fn with_docs(src: Seq<u8>, m: Machine) -> Machine {
    undocumented(queued(m, doc_events(src, m.docs)))
}

/// `m` with an error for the first doc comment that waits in vain.
pub open spec fn with_dangling_docs(m: Machine) -> Machine {
    if m.docs.len() > 0 {
        undocumented(
            queued(m, seq![emit::error(m.docs[0], ParseErrorKindView::DanglingDocComment)]),
        )
    } else {
        m
    }
}

// --- heredocs ---

/// The text of the lines of a heredoc from `lex` on.
pub open spec fn heredoc_text(src: Seq<u8>, lex: LexState) -> Seq<char>
    decreases lexer::budget(src, lex),
{
    let (t, next) = lexer::lex(src, lex);
    if t.kind == TokenKind::HeredocContent {
        proof {
            lexer::lemma_budget(src, lex);
        }
        text::chars_at(src, t.span) + heredoc_text(src, next)
    } else {
        Seq::empty()
    }
}

/// The heredoc that starts at `start_span`, and the machine after it.
pub open spec fn heredoc(src: Seq<u8>, m: Machine, start_span: Span) -> (EventView, Machine) {
    let (t, lex) = lexer::lex_past(src, m.lex, Skip::Heredoc);
    let end = if t.kind == TokenKind::HeredocEnd {
        t.span.end
    } else {
        start_span.end
    };
    (
        EventView::Scalar {
            span: Span { start: start_span.start, end },
            value: heredoc_text(src, m.lex),
            kind: ScalarKind::Heredoc,
        },
        at(m, lex),
    )
}

/// `t` as a scalar, and the machine after it.
pub open spec fn token_to_scalar(src: Seq<u8>, m: Machine, t: Token) -> (EventView, Machine) {
    match scalar_kind(t.kind) {
        Some(kind) => (scalar(src, t.span, kind), m),
        None => if t.kind == TokenKind::HeredocStart {
            heredoc(src, m, t.span)
        } else {
            (unexpected(t.span), m)
        },
    }
}

// --- passing over ---

/// The lexer after `depth` brackets were closed by tokens of kind `closing`.
/// Brackets of either kind open another one.
pub open spec fn skip_nested(
    src: Seq<u8>,
    lex: LexState,
    closing: TokenKind,
    depth: nat,
) -> LexState
    decreases lexer::budget(src, lex),
{
    if depth == 0 {
        lex
    } else {
        let (t, next) = lexer::lex(src, lex);
        if t.kind == TokenKind::Eof {
            next
        } else {
            proof {
                lexer::lemma_budget(src, lex);
            }
            if t.kind == TokenKind::LBrace || t.kind == TokenKind::LParen {
                skip_nested(src, next, closing, depth + 1)
            } else if t.kind == closing {
                skip_nested(src, next, closing, (depth - 1) as nat)
            } else {
                skip_nested(src, next, closing, depth)
            }
        }
    }
}

/// What of the reading of `m` is left: it bounds how far tokens can be passed
/// over.
pub open spec fn unread_len(src: Seq<u8>, m: Machine) -> nat {
    lexer::budget(src, m.lex) + m.buffer.len()
}

/// Taking a token that is not the end of input leaves less to read.
pub proof fn lemma_take_shrinks(src: Seq<u8>, m: Machine)
    ensures
        take(src, m).0.kind != TokenKind::Eof ==> unread_len(src, take(src, m).1) < unread_len(
            src,
            m,
        ),
{
    lexer::lemma_past_budget(src, m.lex, Skip::Blanks);
}

/// Passing over brackets leaves no more to read.
pub proof fn lemma_skip_nested(src: Seq<u8>, lex: LexState, closing: TokenKind, depth: nat)
    ensures
        lexer::budget(src, skip_nested(src, lex, closing, depth)) <= lexer::budget(src, lex),
        lexer::lex_fits(src, lex) ==> {
            &&& lexer::lex_fits(src, skip_nested(src, lex, closing, depth))
            &&& lex.pos <= skip_nested(src, lex, closing, depth).pos
        },
    decreases lexer::budget(src, lex),
{
    if depth > 0 {
        lexer::lemma_budget(src, lex);
        if lexer::lex_fits(src, lex) {
            lexer::lemma_lex(src, lex);
        }
        let (t, next) = lexer::lex(src, lex);
        if t.kind != TokenKind::Eof {
            lemma_skip_nested(src, next, closing, depth + 1);
            lemma_skip_nested(src, next, closing, (depth - 1) as nat);
            lemma_skip_nested(src, next, closing, depth);
        }
    }
}

/// The machine before the token that ends the entry. Brackets are passed over
/// with what they hold.
pub open spec fn skip_to_entry_boundary(src: Seq<u8>, m: Machine) -> Machine
    decreases unread_len(src, m),
{
    let (t, next) = take(src, m);
    if ends_entry(t.kind) {
        unread(next, t)
    } else {
        proof {
            lemma_take_shrinks(src, m);
            lemma_skip_nested(src, next.lex, TokenKind::RBrace, 1);
            lemma_skip_nested(src, next.lex, TokenKind::RParen, 1);
        }
        if t.kind == TokenKind::LBrace {
            skip_to_entry_boundary(
                src,
                at(next, skip_nested(src, next.lex, TokenKind::RBrace, 1)),
            )
        } else if t.kind == TokenKind::LParen {
            skip_to_entry_boundary(
                src,
                at(next, skip_nested(src, next.lex, TokenKind::RParen, 1)),
            )
        } else {
            skip_to_entry_boundary(src, next)
        }
    }
}

/// The machine after a value, inside `depth` brackets of it: after a token
/// outside all brackets, or before a bracket that closes none of the value.
pub open spec fn skip_value(src: Seq<u8>, m: Machine, depth: nat) -> Machine
    decreases unread_len(src, m),
{
    let (t, next) = take(src, m);
    if t.kind == TokenKind::Eof {
        next
    } else {
        proof {
            lemma_take_shrinks(src, m);
        }
        if t.kind == TokenKind::LBrace || t.kind == TokenKind::LParen {
            skip_value(src, next, depth + 1)
        } else if t.kind == TokenKind::RBrace || t.kind == TokenKind::RParen {
            if depth == 0 {
                unread(next, t)
            } else {
                skip_value(src, next, (depth - 1) as nat)
            }
        } else if depth == 0 {
            next
        } else {
            skip_value(src, next, depth)
        }
    }
}

// --- closing ---

/// The state after an object or a sequence was closed.
pub open spec fn after_close(m: Machine) -> State {
    match top(m) {
        Some(Context::Object { .. }) => State::AfterValue,
        Some(Context::Sequence) => State::ExpectingSequenceElement,
        Some(Context::AttributeObject) => State::InAttributeChain { obj_start_span: root_span() },
        None => State::Done,
    }
}

/// `m` after its innermost context was closed. Where that was the value of an
/// attribute, the entry of the attribute ends too.
pub open spec fn closed(m: Machine) -> Machine {
    let outer = pop(m);
    if top(outer) == Some(Context::AttributeObject) {
        to(queued(outer, seq![EventView::EntryEnd]), after_close(outer))
    } else {
        to(outer, after_close(outer))
    }
}

/// `m` at the end of the document, if no context is open any more.
pub open spec fn ended_if_closed(m: Machine) -> Machine {
    if m.stack.len() == 0 {
        to(queued(m, seq![EventView::DocumentEnd]), State::Done)
    } else {
        m
    }
}

/// The move at the end of input: it closes the innermost context.
pub open spec fn close_at_eof(src: Seq<u8>, m0: Machine) -> Move
    decreases m0.stack.len(),
{
    let m = with_dangling_docs(m0);
    match top(m) {
        Some(Context::Object { implicit }) => {
            let errors = if implicit {
                Seq::empty()
            } else {
                seq![emit::error(root_span(), ParseErrorKindView::UnclosedObject)]
            };
            (
                Some(EventView::ObjectEnd { span: eof_span(src) }),
                ended_if_closed(queued(pop(m), errors)),
            )
        },
        Some(Context::Sequence) => {
            let errors = seq![emit::error(root_span(), ParseErrorKindView::UnclosedSequence)];
            (
                Some(EventView::SequenceEnd { span: eof_span(src) }),
                ended_if_closed(queued(pop(m), errors)),
            )
        },
        Some(Context::AttributeObject) => close_at_eof(
            src,
            queued(
                pop(m),
                seq![EventView::ObjectEnd { span: eof_span(src) }, EventView::EntryEnd],
            ),
        ),
        None => (Some(EventView::DocumentEnd), to(m, State::Done)),
    }
}

/// The move at `}` in the place of an entry.
pub open spec fn close_brace(m0: Machine, span: Span) -> Move {
    let m = with_dangling_docs(m0);
    if top(m) == Some(Context::Object { implicit: false }) {
        (Some(EventView::ObjectEnd { span }), closed(m))
    } else {
        (Some(unexpected(span)), m)
    }
}

/// `m` after the attributes of a key.
pub open spec fn chain_closed(m: Machine) -> Machine {
    to(
        queued(
            pop(m),
            seq![EventView::ObjectEnd { span: root_span() }, EventView::EntryEnd],
        ),
        State::ExpectingEntry,
    )
}

// --- tags ---

/// The tag that is written at `name`, behind the `@` at `at_span`.
pub open spec fn tag(src: Seq<u8>, at_span: Span, name: Span, end: u32) -> EventView {
    emit::tag_start(src, Span { start: at_span.start, end }, name)
}

/// `m` with an error for `name`, unless it is the name of a tag.
pub open spec fn with_checked_name(src: Seq<u8>, m: Machine, name: Span) -> Machine {
    if is_tag_name(src, name) {
        m
    } else {
        queued(m, seq![emit::error(name, ParseErrorKindView::InvalidTagName)])
    }
}

/// The machine after a tag whose name ends right before the machine: what
/// adjoins it is its payload.
#[verifier::opaque]
pub open spec fn tag_payload(src: Seq<u8>, m: Machine, name: Span) -> Machine {
    let (next, m1) = take(src, m);
    let adjoins = next.span.start == name.end;
    if adjoins && next.kind == TokenKind::LBrace {
        to(
            push(
                queued(m1, seq![emit::object_start(next.span)]),
                Context::Object { implicit: false },
            ),
            State::ExpectingEntry,
        )
    } else if adjoins && next.kind == TokenKind::LParen {
        to(
            push(
                queued(m1, seq![EventView::SequenceStart { span: next.span }]),
                Context::Sequence,
            ),
            State::ExpectingSequenceElement,
        )
    } else if adjoins && next.kind == TokenKind::QuotedScalar {
        queued(m1, seq![scalar(src, next.span, ScalarKind::Quoted), EventView::TagEnd])
    } else if adjoins && next.kind == TokenKind::RawScalar {
        queued(m1, seq![scalar(src, next.span, ScalarKind::Raw), EventView::TagEnd])
    } else {
        let unit = EventView::Unit { span: Span { start: name.end, end: name.end } };
        queued(unread(m1, next), seq![unit, EventView::TagEnd])
    }
}

/// The value that starts with the `@` at `at_span`: its first event, and the
/// machine after it.
#[verifier::opaque]
pub open spec fn tag_value(src: Seq<u8>, m: Machine, at_span: Span) -> (EventView, Machine) {
    let (t, m1) = take(src, m);
    if t.kind == TokenKind::BareScalar && t.span.start == at_span.end {
        let end = emit::name_end(src, t.span);
        let name = Span { start: t.span.start, end };
        let m2 = with_checked_name(src, m1, name);
        if end < t.span.end {
            let past = (end + 1) as u32;
            let unit = EventView::Unit { span: Span { start: end, end: past } };
            (tag(src, at_span, name, past), queued(m2, seq![unit, EventView::TagEnd]))
        } else {
            (tag(src, at_span, name, end), tag_payload(src, m2, name))
        }
    } else {
        (EventView::Unit { span: at_span }, unread(m1, t))
    }
}

/// The key that starts with the `@` at `at_span`.
#[verifier::opaque]
pub open spec fn at_key(src: Seq<u8>, m: Machine, at_span: Span) -> Move {
    let (t, m1) = take(src, m);
    if t.kind == TokenKind::BareScalar && t.span.start == at_span.end {
        let end = emit::name_end(src, t.span);
        let name = Span { start: t.span.start, end };
        let key_span = Span { start: at_span.start, end };
        let (next, m2) = take(src, m1);
        let m3 = unread(m2, next);
        let block = next.kind == TokenKind::LBrace || next.kind == TokenKind::LParen || next.kind
            == TokenKind::At;
        if end < t.span.end {
            let span = Span { start: at_span.start, end: (end + 1) as u32 };
            (Some(emit::error(span, ParseErrorKindView::InvalidKey)), m1)
        } else if block && next.span.start == end {
            (Some(emit::error(key_span, ParseErrorKindView::InvalidKey)), m3)
        } else if text::chars_at(src, name) == "schema"@ && top(m3) == Some(
            Context::Object { implicit: true },
        ) {
            (None, undocumented(skip_value(src, m3, 0)))
        } else {
            let key_event = EventView::Key {
                span: key_span,
                tag: Some(text::chars_at(src, name)),
                payload: None,
                kind: ScalarKind::Bare,
            };
            let m4 = with_docs(src, with_checked_name(src, m3, name));
            (
                Some(EventView::EntryStart),
                to(queued(m4, seq![key_event]), State::AfterKey { key_span }),
            )
        }
    } else {
        let m2 = with_docs(src, unread(m1, t));
        (
            Some(EventView::EntryStart),
            to(queued(m2, seq![emit::unit_key(at_span)]), State::AfterKey { key_span: at_span }),
        )
    }
}

// --- attributes ---

/// An entry with a bare key at `key_span` and the value `value`.
pub open spec fn entry(src: Seq<u8>, key_span: Span, value: EventView) -> Seq<EventView> {
    seq![
        EventView::EntryStart,
        key(src, key_span, ScalarKind::Bare),
        value,
        EventView::EntryEnd,
    ]
}

/// The machine after the first attribute of a chain, `key_span>value`, and
/// whether another attribute follows it: then the machine stands after that one.
#[verifier::opaque]
pub open spec fn more_attributes(
    src: Seq<u8>,
    m: Machine,
    key_span: Span,
    value: EventView,
) -> (bool, Machine) {
    let (next, m1) = take(src, m);
    if next.kind == TokenKind::BareScalar {
        let (after, m2) = take(src, m1);
        if is_arrow(after, next.span) {
            let m3 = push(queued(m2, entry(src, key_span, value)), Context::AttributeObject);
            let (t, m4) = take(src, m3);
            let (value2, m5) = token_to_scalar(src, m4, t);
            (
                true,
                to(
                    queued(m5, entry(src, next.span, value2)),
                    State::InAttributeChain { obj_start_span: key_span },
                ),
            )
        } else {
            (false, unread(unread(m2, after), next))
        }
    } else {
        (false, unread(m1, next))
    }
}

/// The move after `key>` where a key is expected.
#[verifier::opaque]
pub open spec fn attribute_value(src: Seq<u8>, m: Machine, key_span: Span) -> Move {
    let (t, m1) = take(src, m);
    let opening = seq![EventView::EntryStart, key(src, key_span, ScalarKind::Bare)];
    let closing = seq![EventView::ObjectEnd { span: key_span }, EventView::EntryEnd];
    let object = Some(emit::object_start(key_span));
    match t.kind {
        TokenKind::BareScalar | TokenKind::QuotedScalar | TokenKind::RawScalar => {
            let (value, m2) = token_to_scalar(src, m1, t);
            let (more, m3) = more_attributes(src, m2, key_span, value);
            if more {
                (object, m3)
            } else {
                (
                    object,
                    to(
                        queued(m3, entry(src, key_span, value) + closing),
                        State::ExpectingEntry,
                    ),
                )
            }
        },
        TokenKind::LBrace => (
            object,
            to(
                push(
                    queued(m1, opening + seq![emit::object_start(t.span)]),
                    Context::Object { implicit: false },
                ),
                State::ExpectingEntry,
            ),
        ),
        TokenKind::LParen => (
            object,
            to(
                push(
                    queued(m1, opening + seq![EventView::SequenceStart { span: t.span }]),
                    Context::Sequence,
                ),
                State::ExpectingSequenceElement,
            ),
        ),
        TokenKind::At => {
            let (value, m2) = tag_value(src, m1, t.span);
            (
                object,
                to(queued(m2, entry(src, key_span, value) + closing), State::ExpectingEntry),
            )
        },
        _ => (
            None,
            to(
                queued(
                    m1,
                    seq![
                        emit::error(t.span, ParseErrorKindView::ExpectedValue),
                        EventView::EntryEnd,
                    ],
                ),
                State::ExpectingEntry,
            ),
        ),
    }
}

/// The machine after the `@` at `at_span` as the value of an attribute whose key
/// was emitted: its events come in order, and the entry of the attribute ends
/// unless the payload is an object or a sequence, which the machine then enters.
#[verifier::opaque]
pub open spec fn attribute_tag(
    src: Seq<u8>,
    m: Machine,
    key_span: Span,
    at_span: Span,
) -> Machine {
    let (value, m1) = tag_value(src, m, at_span);
    let m2 = Machine { queue: m1.queue.insert(m.queue.len() as int, value), ..m1 };
    if m2.stack.len() > m.stack.len() {
        m2
    } else {
        to(
            queued(m2, seq![EventView::EntryEnd]),
            State::InAttributeChain { obj_start_span: key_span },
        )
    }
}

/// The machine after `t`, the first token of a value that is no scalar, behind
/// `key>`.
#[verifier::opaque]
pub open spec fn nested_attribute(src: Seq<u8>, m: Machine, key_span: Span, t: Token) -> Machine {
    let opening = seq![EventView::EntryStart, key(src, key_span, ScalarKind::Bare)];
    let m1 = push(queued(m, opening), Context::AttributeObject);
    if t.kind == TokenKind::LBrace {
        to(
            push(
                queued(m1, seq![emit::object_start(t.span)]),
                Context::Object { implicit: false },
            ),
            State::ExpectingEntry,
        )
    } else if t.kind == TokenKind::LParen {
        to(
            push(queued(m1, seq![EventView::SequenceStart { span: t.span }]), Context::Sequence),
            State::ExpectingSequenceElement,
        )
    } else {
        attribute_tag(src, m1, key_span, t.span)
    }
}

/// The move after `key>` where a value is expected.
#[verifier::opaque]
pub open spec fn attribute_chain(src: Seq<u8>, m: Machine, key_span: Span) -> Move {
    let (t, m1) = take(src, m);
    let nested = t.kind == TokenKind::LBrace || t.kind == TokenKind::LParen || t.kind
        == TokenKind::At;
    if nested {
        (Some(emit::object_start(key_span)), nested_attribute(src, m1, key_span, t))
    } else {
        let (value, m2) = token_to_scalar(src, m1, t);
        let (more, m3) = more_attributes(src, m2, key_span, value);
        let object = Some(emit::object_start(key_span));
        if more {
            (object, m3)
        } else {
            (
                object,
                to(
                    queued(
                        m3,
                        entry(src, key_span, value) + seq![EventView::ObjectEnd { span: key_span }],
                    ),
                    State::AfterValue,
                ),
            )
        }
    }
}

// --- moves ---

/// The move from [`State::BeforeRoot`].
pub open spec fn before_root(src: Seq<u8>, m0: Machine) -> Move {
    let (t, m) = take(src, m0);
    let root = Some(emit::open_object_start(root_span()));
    match t.kind {
        TokenKind::Eof => if m.expr {
            (
                Some(EventView::DocumentEnd),
                to(queued(m, seq![EventView::DocumentEnd]), State::Done),
            )
        } else {
            let rest = seq![EventView::ObjectEnd { span: root_span() }, EventView::DocumentEnd];
            (root, to(queued(push(m, Context::Object { implicit: true }), rest), State::Done))
        },
        TokenKind::LineComment => (Some(emit::comment(src, t.span)), m),
        TokenKind::DocComment => (None, documented(m, t.span)),
        TokenKind::Newline => (None, m),
        TokenKind::LBrace => (
            Some(emit::object_start(t.span)),
            to(push(m, Context::Object { implicit: false }), State::ExpectingEntry),
        ),
        _ => (
            root,
            to(unread(push(m, Context::Object { implicit: true }), t), State::ExpectingEntry),
        ),
    }
}

/// The move at a key of kind `kind` at `span`.
pub open spec fn key_read(src: Seq<u8>, m: Machine, span: Span, kind: ScalarKind) -> Move {
    let state = if kind == ScalarKind::Bare {
        State::AfterBareKey { key_span: span }
    } else {
        State::AfterKey { key_span: span }
    };
    (
        Some(EventView::EntryStart),
        to(queued(with_docs(src, m), seq![key(src, span, kind)]), state),
    )
}

/// The move from [`State::ExpectingEntry`].
pub open spec fn expecting_entry(src: Seq<u8>, m0: Machine) -> Move {
    let (t, m) = take_line(src, m0);
    match t.kind {
        TokenKind::Eof => close_at_eof(src, m),
        TokenKind::RBrace => close_brace(m, t.span),
        TokenKind::RParen => (Some(unexpected(t.span)), m),
        TokenKind::Comma => (None, m),
        TokenKind::LineComment => (Some(emit::comment(src, t.span)), m),
        TokenKind::DocComment => (None, documented(m, t.span)),
        TokenKind::BareScalar => key_read(src, m, t.span, ScalarKind::Bare),
        TokenKind::QuotedScalar => key_read(src, m, t.span, ScalarKind::Quoted),
        TokenKind::RawScalar => key_read(src, m, t.span, ScalarKind::Raw),
        TokenKind::At => at_key(src, m, t.span),
        TokenKind::HeredocStart => (
            Some(emit::error(t.span, ParseErrorKindView::InvalidKey)),
            at(m, lexer::lex_past(src, m.lex, Skip::Heredoc).1),
        ),
        _ => (Some(emit::error(t.span, ParseErrorKindView::ExpectedKey)), m),
    }
}

/// The move from [`State::AfterBareKey`].
pub open spec fn after_bare_key(src: Seq<u8>, m0: Machine, key_span: Span) -> Move {
    let (t, m) = take(src, m0);
    if is_arrow(t, key_span) {
        attribute_value(src, m, key_span)
    } else {
        (None, to(unread(m, t), State::AfterKey { key_span }))
    }
}

/// `m` with a unit value for the key at `key_span`, and the end of its entry.
pub open spec fn unit_entry(m: Machine, key_span: Span) -> Machine {
    to(
        queued(m, seq![EventView::Unit { span: key_span }, EventView::EntryEnd]),
        State::ExpectingEntry,
    )
}

/// `m` with an error for a block at `span` right behind the key at `key_span`.
pub open spec fn with_spacing(m: Machine, key_span: Span, span: Span) -> Machine {
    if span.start == key_span.end {
        queued(m, seq![emit::error(span, ParseErrorKindView::MissingWhitespaceBeforeBlock)])
    } else {
        m
    }
}

/// The move from [`State::AfterKey`].
pub open spec fn after_key(src: Seq<u8>, m0: Machine, key_span: Span) -> Move {
    let (t, m) = take(src, m0);
    match t.kind {
        TokenKind::Newline
        | TokenKind::Eof
        | TokenKind::RBrace
        | TokenKind::RParen
        | TokenKind::Comma => (None, unit_entry(unread(m, t), key_span)),
        TokenKind::LBrace => (
            Some(emit::object_start(t.span)),
            to(
                push(with_spacing(m, key_span, t.span), Context::Object { implicit: false }),
                State::ExpectingEntry,
            ),
        ),
        TokenKind::LParen => (
            Some(EventView::SequenceStart { span: t.span }),
            to(
                push(with_spacing(m, key_span, t.span), Context::Sequence),
                State::ExpectingSequenceElement,
            ),
        ),
        TokenKind::At => {
            let (event, m1) = tag_value(src, m, t.span);
            (Some(event), to(m1, State::AfterValue))
        },
        TokenKind::BareScalar => {
            let (next, m1) = take(src, m);
            if is_arrow(next, t.span) {
                attribute_chain(src, m1, t.span)
            } else {
                (
                    Some(scalar(src, t.span, ScalarKind::Bare)),
                    to(unread(m1, next), State::AfterValue),
                )
            }
        },
        TokenKind::QuotedScalar => (
            Some(scalar(src, t.span, ScalarKind::Quoted)),
            to(m, State::AfterValue),
        ),
        TokenKind::RawScalar => (
            Some(scalar(src, t.span, ScalarKind::Raw)),
            to(m, State::AfterValue),
        ),
        TokenKind::HeredocStart => {
            let (event, m1) = heredoc(src, m, t.span);
            (Some(event), to(m1, State::AfterValue))
        },
        TokenKind::LineComment => (Some(emit::comment(src, t.span)), unit_entry(m, key_span)),
        _ => (Some(unexpected(t.span)), unit_entry(m, key_span)),
    }
}

/// An atom starts with a token of this kind.
pub open spec fn starts_atom(kind: TokenKind) -> bool {
    scalar_kind(kind) is Some || kind == TokenKind::LBrace || kind == TokenKind::LParen || kind
        == TokenKind::At || kind == TokenKind::HeredocStart
}

/// `m` after the end of an entry.
pub open spec fn entry_ended(m: Machine) -> Machine {
    to(queued(m, seq![EventView::EntryEnd]), State::ExpectingEntry)
}

/// The move from [`State::AfterValue`].
pub open spec fn after_value(src: Seq<u8>, m0: Machine) -> Move {
    let (t, m) = take(src, m0);
    if ends_entry(t.kind) {
        (None, entry_ended(unread(m, t)))
    } else if t.kind == TokenKind::LineComment {
        (Some(emit::comment(src, t.span)), entry_ended(m))
    } else if starts_atom(t.kind) {
        let m1 = queued(m, seq![emit::error(t.span, ParseErrorKindView::TooManyAtoms)]);
        (None, entry_ended(skip_to_entry_boundary(src, m1)))
    } else {
        (None, entry_ended(m))
    }
}

/// The move from [`State::InAttributeChain`].
pub open spec fn in_attribute_chain(src: Seq<u8>, m0: Machine, obj_start_span: Span) -> Move {
    let (t, m) = take(src, m0);
    if t.kind == TokenKind::BareScalar {
        let (next, m1) = take(src, m);
        if is_arrow(next, t.span) {
            let (t2, m2) = take(src, m1);
            let (value, m3) = token_to_scalar(src, m2, t2);
            (
                None,
                to(
                    queued(m3, entry(src, t.span, value)),
                    State::InAttributeChain { obj_start_span },
                ),
            )
        } else {
            let m2 = queued(
                unread(m1, next),
                seq![emit::error(t.span, ParseErrorKindView::TooManyAtoms)],
            );
            (None, chain_closed(skip_to_entry_boundary(src, m2)))
        }
    } else if t.kind == TokenKind::LineComment {
        (Some(emit::comment(src, t.span)), chain_closed(m))
    } else {
        (None, chain_closed(unread(m, t)))
    }
}

/// The move from [`State::ExpectingSequenceElement`].
pub open spec fn expecting_sequence_element(src: Seq<u8>, m0: Machine) -> Move {
    let (t, m) = take_line(src, m0);
    match t.kind {
        TokenKind::RParen => (Some(EventView::SequenceEnd { span: t.span }), closed(m)),
        TokenKind::Eof => close_at_eof(
            src,
            queued(m, seq![emit::error(t.span, ParseErrorKindView::UnclosedSequence)]),
        ),
        TokenKind::RBrace => (Some(unexpected(t.span)), m),
        TokenKind::BareScalar => (Some(scalar(src, t.span, ScalarKind::Bare)), m),
        TokenKind::QuotedScalar => (Some(scalar(src, t.span, ScalarKind::Quoted)), m),
        TokenKind::RawScalar => (Some(scalar(src, t.span, ScalarKind::Raw)), m),
        TokenKind::HeredocStart => {
            let (event, m1) = heredoc(src, m, t.span);
            (Some(event), m1)
        },
        TokenKind::LBrace => (
            Some(emit::object_start(t.span)),
            to(push(m, Context::Object { implicit: false }), State::ExpectingEntry),
        ),
        TokenKind::LParen => (
            Some(EventView::SequenceStart { span: t.span }),
            push(m, Context::Sequence),
        ),
        TokenKind::At => {
            let (event, m1) = tag_value(src, m, t.span);
            (Some(event), m1)
        },
        TokenKind::LineComment => (Some(emit::comment(src, t.span)), m),
        _ => (None, m),
    }
}

/// One move of the machine. It stands still when it is done.
pub open spec fn step(src: Seq<u8>, m: Machine) -> Move {
    match m.state {
        State::Start => (Some(EventView::DocumentStart), to(m, State::BeforeRoot)),
        State::BeforeRoot => before_root(src, m),
        State::ExpectingEntry => expecting_entry(src, m),
        State::AfterBareKey { key_span } => after_bare_key(src, m, key_span),
        State::AfterKey { key_span } => after_key(src, m, key_span),
        State::AfterValue => after_value(src, m),
        State::InAttributeChain { obj_start_span } => in_attribute_chain(src, m, obj_start_span),
        State::ExpectingSequenceElement => expecting_sequence_element(src, m),
        State::Done => (None, m),
    }
}

} // verus!
