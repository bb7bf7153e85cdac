//! What holds of every move of the machine: it stays within the source, and it
//! comes closer to the end.
use crate::ascii;
use crate::emit;
use crate::escape;
use crate::escape::ShortUnicode;
use crate::event;
use crate::event::{EventView, ScalarKind};
use crate::lexer;
use crate::lexer::{LexState, Skip};
use crate::parser2::machine;
use crate::parser2::machine::{Context, Machine, Move, State};
use crate::span::Span;
use crate::text;
use crate::token::{Token, TokenKind};
use vstd::prelude::*;
use vstd::utf8::*;

verus! {

// --- within the source ---

/// What stands at `span` is a scalar of this kind that says `said`: in quotes it
/// starts and ends with a quote, a raw one has its quotes behind `r`, and a bare
/// one is the text as it stands there, which starts with neither a quote nor `@`.
pub open spec fn says(src: Seq<u8>, span: Span, kind: ScalarKind, said: Seq<char>) -> bool {
    match kind {
        ScalarKind::Bare => lexer::bare_form(src, span) && said == text::chars_at(src, span),
        ScalarKind::Quoted => lexer::quoted_form(src, span) && said == escape::quoted_text(
            src,
            span,
            ShortUnicode::Kept,
        ),
        ScalarKind::Raw => lexer::raw_form(src, span) && said == text::chars_between(
            src,
            emit::raw_start(src, span),
            emit::raw_stop(src, span),
        ),
        ScalarKind::Heredoc => true,
    }
}

/// What an event speaks of is a range of the source that cuts no character, what a
/// key, a scalar or a comment says is written there, a tag is written with `@`, and
/// a sequence with round brackets.
pub open spec fn event_fits(src: Seq<u8>, e: EventView) -> bool {
    &&& match event::event_span(e) {
        Some(span) => text::span_fits(src, span),
        None => true,
    }
    &&& match e {
        EventView::Scalar { span, value, kind } => says(src, span, kind, value),
        EventView::Key { span, payload: Some(value), kind, .. } => says(src, span, kind, value),
        EventView::TagStart { span, .. } => span.start < span.end && src[span.start as int]
            == ascii::AT,
        EventView::SequenceStart { span } => lexer::mark_form(src, span, ascii::LPAREN),
        EventView::SequenceEnd { span } => span.start == span.end == src.len() || lexer::mark_form(
            src,
            span,
            ascii::RPAREN,
        ),
        EventView::Comment { span, text } => text == text::chars_at(src, span),
        EventView::DocComment { span, text } => text == text::chars_at(src, span),
        _ => true,
    }
}

/// What every one of `events` speaks of is a range of the source.
pub open spec fn events_fit(src: Seq<u8>, events: Seq<EventView>) -> bool {
    forall|i: int| 0 <= i < events.len() ==> event_fits(src, #[trigger] events[i])
}

/// The spans in `state` are ranges of the source.
pub open spec fn state_fits(src: Seq<u8>, state: State) -> bool {
    match state {
        State::AfterBareKey { key_span } => text::span_fits(src, key_span) && lexer::bare_form(
            src,
            key_span,
        ),
        State::AfterKey { key_span } => text::span_fits(src, key_span),
        State::InAttributeChain { obj_start_span } => text::span_fits(src, obj_start_span),
        _ => true,
    }
}

/// A token that the lexer can have read before it came to stand at `lex`.
pub open spec fn token_behind(src: Seq<u8>, lex: LexState, t: Token) -> bool {
    lexer::token_fits(src, t) && t.span.end <= lex.pos
}

/// The events, comments and tokens that wait in a machine are of the source.
#[verifier::opaque]
pub open spec fn lists_fit(
    src: Seq<u8>,
    lex: LexState,
    queue: Seq<EventView>,
    docs: Seq<Span>,
    buffer: Seq<Token>,
) -> bool {
    &&& events_fit(src, queue)
    &&& forall|i: int| 0 <= i < docs.len() ==> text::span_fits(src, #[trigger] docs[i])
    &&& forall|i: int| 0 <= i < buffer.len() ==> token_behind(src, lex, #[trigger] buffer[i])
}

/// A machine that can come up on `src`.
pub open spec fn fits(src: Seq<u8>, m: Machine) -> bool {
    &&& lexer::lex_fits(src, m.lex)
    &&& state_fits(src, m.state)
    &&& lists_fit(src, m.lex, m.queue, m.docs, m.buffer)
}

// --- towards the end ---

/// How many of `tokens` are not the end of input.
pub open spec fn live(tokens: Seq<Token>) -> nat
    decreases tokens.len(),
{
    if tokens.len() == 0 {
        0
    } else {
        let rest = live(tokens.drop_first());
        if tokens[0].kind == TokenKind::Eof {
            rest
        } else {
            rest + 1
        }
    }
}

/// How much is left to read.
pub open spec fn left(src: Seq<u8>, m: Machine) -> int {
    lexer::budget(src, m.lex) + live(m.buffer) as int
}

/// How far a state is from reading or closing something.
pub open spec fn rank(state: State) -> int {
    match state {
        State::Start => 21,
        State::BeforeRoot => 20,
        State::ExpectingEntry => 2,
        State::AfterBareKey { .. } => 7,
        State::AfterKey { .. } => 6,
        State::AfterValue => 5,
        State::InAttributeChain { .. } => 6,
        State::ExpectingSequenceElement => 3,
        State::Done => 0,
    }
}

/// How much the machine has before it, whatever its state.
pub open spec fn weight(src: Seq<u8>, m: Machine) -> int {
    100 * left(src, m) + 10 * m.stack.len() + 2 * m.docs.len() + m.queue.len()
}

/// How much the machine has before it. Every move takes from it.
pub open spec fn distance(src: Seq<u8>, m: Machine) -> int {
    weight(src, m) + rank(m.state)
}

/// The move `mv` from `m` stays within the source and comes closer to the end.
#[verifier::opaque]
pub open spec fn advances(src: Seq<u8>, m: Machine, mv: Move) -> bool {
    &&& fits(src, mv.1)
    &&& 0 <= distance(src, mv.1) < distance(src, m)
    &&& mv.0 matches Some(e) ==> event_fits(src, e)
}

// --- building blocks ---

/// The ends of the source cut no character.
pub proof fn lemma_ends_fit(src: Seq<u8>)
    requires
        lexer::source_fits(src),
    ensures
        text::span_fits(src, machine::eof_span(src)),
        text::span_fits(src, machine::root_span()),
{
    text::lemma_boundary(src, 0);
    text::lemma_boundary(src, src.len() as int);
}

/// A token goes back in front of the others.
proof fn lemma_live(t: Token, tokens: Seq<Token>)
    ensures
        live(seq![t] + tokens) == live(tokens) + if t.kind == TokenKind::Eof {
            0int
        } else {
            1int
        },
{
    assert((seq![t] + tokens).drop_first() =~= tokens);
}

/// Passing over tokens moves the lexer on.
pub proof fn lemma_past_moves_on(src: Seq<u8>, lex: LexState, skip: Skip)
    requires
        lexer::lex_fits(src, lex),
    ensures
        lexer::lex_fits(src, lexer::lex_past(src, lex, skip).1),
        lexer::token_fits(src, lexer::lex_past(src, lex, skip).0),
        lex.pos <= lexer::lex_past(src, lex, skip).0.span.start,
        lexer::lex_past(src, lex, skip).0.span.end == lexer::lex_past(src, lex, skip).1.pos,
    decreases lexer::budget(src, lex),
{
    lexer::lemma_lex(src, lex);
    lexer::lemma_budget(src, lex);
    let (t, next) = lexer::lex(src, lex);
    if lexer::skips(skip, t.kind) {
        lemma_past_moves_on(src, next, skip);
    }
}

/// Taking a token keeps all else; there is less to read unless the input has
/// ended.
pub proof fn lemma_take(src: Seq<u8>, m: Machine)
    requires
        fits(src, m),
    ensures
        ({
            let (t, next) = machine::take(src, m);
            &&& fits(src, next)
            &&& token_behind(src, next.lex, t)
            &&& t.kind == TokenKind::Eof ==> left(src, next) <= left(src, m)
            &&& t.kind != TokenKind::Eof ==> left(src, next) < left(src, m)
            &&& m.lex.pos <= next.lex.pos
            &&& next == (Machine { lex: next.lex, buffer: next.buffer, ..m })
        }),
{
    reveal(lists_fit);
    lemma_past_moves_on(src, m.lex, Skip::Blanks);
    lexer::lemma_past_budget(src, m.lex, Skip::Blanks);
}

/// Putting a token back keeps all else.
pub proof fn lemma_unread(src: Seq<u8>, m: Machine, t: Token)
    requires
        fits(src, m),
        token_behind(src, m.lex, t),
    ensures
        fits(src, machine::unread(m, t)),
        left(src, machine::unread(m, t)) == left(src, m) + if t.kind == TokenKind::Eof {
            0int
        } else {
            1int
        },
{
    reveal(lists_fit);
    lemma_live(t, m.buffer);
}

/// Taking a token past line breaks keeps all else.
pub proof fn lemma_take_line(src: Seq<u8>, m: Machine)
    requires
        fits(src, m),
    ensures
        ({
            let (t, next) = machine::take_line(src, m);
            &&& fits(src, next)
            &&& token_behind(src, next.lex, t)
            &&& t.kind == TokenKind::Eof ==> left(src, next) <= left(src, m)
            &&& t.kind != TokenKind::Eof ==> left(src, next) < left(src, m)
            &&& next == (Machine { lex: next.lex, buffer: next.buffer, ..m })
        }),
    decreases lexer::budget(src, m.lex) + m.buffer.len(),
{
    lemma_take(src, m);
    machine::lemma_take_shrinks(src, m);
    let (t, next) = machine::take(src, m);
    if t.kind == TokenKind::Newline {
        lemma_take_line(src, next);
    }
}

/// Queueing events that fit keeps all else.
pub proof fn lemma_queued(src: Seq<u8>, m: Machine, events: Seq<EventView>)
    requires
        fits(src, m),
        events_fit(src, events),
    ensures
        fits(src, machine::queued(m, events)),
        weight(src, machine::queued(m, events)) == weight(src, m) + events.len(),
{
    reveal(lists_fit);
    let all = m.queue + events;
    assert forall|i: int| 0 <= i < all.len() implies event_fits(src, #[trigger] all[i]) by {
        if i < m.queue.len() {
            assert(all[i] == m.queue[i]);
        } else {
            assert(all[i] == events[i - m.queue.len()]);
        }
    }
}

/// The events for doc comments fit where the comments do.
pub proof fn lemma_with_docs(src: Seq<u8>, m: Machine)
    requires
        fits(src, m),
    ensures
        fits(src, machine::with_docs(src, m)),
        weight(src, machine::with_docs(src, m)) <= weight(src, m),
{
    reveal(lists_fit);
    let events = machine::doc_events(src, m.docs);
    assert forall|i: int| 0 <= i < events.len() implies event_fits(src, #[trigger] events[i]) by {
        assert(text::span_fits(src, m.docs[i]));
    }
    lemma_queued(src, m, events);
}

/// An error for a doc comment that waits in vain takes the comments' place.
pub proof fn lemma_dangling(src: Seq<u8>, m: Machine)
    requires
        fits(src, m),
    ensures
        fits(src, machine::with_dangling_docs(m)),
        weight(src, machine::with_dangling_docs(m)) <= weight(src, m),
{
    reveal(lists_fit);
    if m.docs.len() > 0 {
        assert(text::span_fits(src, m.docs[0]));
        lemma_queued(
            src,
            m,
            seq![emit::error(m.docs[0], event::ParseErrorKindView::DanglingDocComment)],
        );
    }
}

/// A doc comment starts to wait.
proof fn lemma_documented(src: Seq<u8>, m: Machine, span: Span)
    requires
        fits(src, m),
        text::span_fits(src, span),
    ensures
        fits(src, machine::documented(m, span)),
        weight(src, machine::documented(m, span)) == weight(src, m) + 2,
{
    reveal(lists_fit);
}

/// Dropping the doc comments that wait keeps all else.
proof fn lemma_undocumented(src: Seq<u8>, m: Machine)
    requires
        fits(src, m),
    ensures
        fits(src, machine::undocumented(m)),
        weight(src, machine::undocumented(m)) <= weight(src, m),
{
    reveal(lists_fit);
}

/// Moving the lexer on keeps all else.
proof fn lemma_at(src: Seq<u8>, m: Machine, lex: LexState)
    requires
        fits(src, m),
        lexer::lex_fits(src, lex),
        m.lex.pos <= lex.pos,
        lexer::budget(src, lex) <= lexer::budget(src, m.lex),
    ensures
        fits(src, machine::at(m, lex)),
        weight(src, machine::at(m, lex)) <= weight(src, m),
{
    reveal(lists_fit);
    let next = machine::at(m, lex);
    assert forall|i: int| 0 <= i < next.buffer.len() implies token_behind(
        src,
        next.lex,
        #[trigger] next.buffer[i],
    ) by {
        assert(token_behind(src, m.lex, m.buffer[i]));
    }
}

/// Reading a heredoc keeps all else.
pub proof fn lemma_heredoc(src: Seq<u8>, m: Machine, start_span: Span)
    requires
        fits(src, m),
        text::span_fits(src, start_span),
        start_span.end <= m.lex.pos,
    ensures
        ({
            let (event, next) = machine::heredoc(src, m, start_span);
            &&& fits(src, next)
            &&& weight(src, next) <= weight(src, m)
            &&& next.state == m.state
            &&& event_fits(src, event)
        }),
{
    lemma_past_moves_on(src, m.lex, Skip::Heredoc);
    lexer::lemma_past_budget(src, m.lex, Skip::Heredoc);
    lemma_at(src, m, lexer::lex_past(src, m.lex, Skip::Heredoc).1);
}

/// Reading a token as a scalar keeps all else.
pub proof fn lemma_token_to_scalar(src: Seq<u8>, m: Machine, t: Token)
    requires
        fits(src, m),
        token_behind(src, m.lex, t),
    ensures
        ({
            let (event, next) = machine::token_to_scalar(src, m, t);
            &&& fits(src, next)
            &&& weight(src, next) <= weight(src, m)
            &&& next.state == m.state
            &&& event_fits(src, event)
        }),
{
    if t.kind == TokenKind::HeredocStart {
        lemma_heredoc(src, m, t.span);
    }
}

/// Passing over the rest of an entry keeps all else.
pub proof fn lemma_skip_to_entry_boundary(src: Seq<u8>, m: Machine)
    requires
        fits(src, m),
    ensures
        fits(src, machine::skip_to_entry_boundary(src, m)),
        weight(src, machine::skip_to_entry_boundary(src, m)) <= weight(src, m),
    decreases machine::unread_len(src, m),
{
    lemma_take(src, m);
    machine::lemma_take_shrinks(src, m);
    let (t, next) = machine::take(src, m);
    if machine::ends_entry(t.kind) {
        lemma_unread(src, next, t);
    } else if t.kind == TokenKind::LBrace || t.kind == TokenKind::LParen {
        let closing = if t.kind == TokenKind::LBrace {
            TokenKind::RBrace
        } else {
            TokenKind::RParen
        };
        machine::lemma_skip_nested(src, next.lex, closing, 1);
        let lex = machine::skip_nested(src, next.lex, closing, 1);
        lemma_at(src, next, lex);
        lemma_skip_to_entry_boundary(src, machine::at(next, lex));
    } else {
        lemma_skip_to_entry_boundary(src, next);
    }
}

/// Passing over a value keeps all else.
pub proof fn lemma_skip_value(src: Seq<u8>, m: Machine, depth: nat)
    requires
        fits(src, m),
    ensures
        fits(src, machine::skip_value(src, m, depth)),
        weight(src, machine::skip_value(src, m, depth)) <= weight(src, m),
        machine::skip_value(src, m, depth).state == m.state,
    decreases machine::unread_len(src, m),
{
    lemma_take(src, m);
    machine::lemma_take_shrinks(src, m);
    let (t, next) = machine::take(src, m);
    if t.kind != TokenKind::Eof {
        lemma_unread(src, next, t);
        if t.kind == TokenKind::LBrace || t.kind == TokenKind::LParen {
            lemma_skip_value(src, next, depth + 1);
        } else if t.kind == TokenKind::RBrace || t.kind == TokenKind::RParen {
            if depth > 0 {
                lemma_skip_value(src, next, (depth - 1) as nat);
            }
        } else if depth > 0 {
            lemma_skip_value(src, next, depth);
        }
    }
}

/// Closing the innermost context takes from the weight of the machine.
proof fn lemma_closed(src: Seq<u8>, m: Machine)
    requires
        fits(src, m),
    ensures
        fits(src, machine::closed(m)),
        weight(src, machine::closed(m)) <= weight(src, m) + 1,
{
    lemma_ends_fit(src);
    lemma_queued(src, machine::pop(m), seq![EventView::EntryEnd]);
}

/// Closing contexts at the end of input takes from the weight of the machine,
/// or ends the document.
pub proof fn lemma_close_at_eof(src: Seq<u8>, m: Machine)
    requires
        fits(src, m),
    ensures
        ({
            let (event, next) = machine::close_at_eof(src, m);
            &&& fits(src, next)
            &&& event matches Some(e) && event_fits(src, e)
            &&& m.stack.len() == 0 ==> distance(src, next) <= weight(src, m)
            &&& m.stack.len() > 0 ==> distance(src, next) <= distance(src, m) - 7
        }),
    decreases m.stack.len(),
{
    lemma_ends_fit(src);
    lemma_dangling(src, m);
    let m1 = machine::with_dangling_docs(m);
    match machine::top(m1) {
        Some(Context::Object { implicit }) => {
            let errors: Seq<EventView> = if implicit {
                Seq::empty()
            } else {
                seq![emit::error(machine::root_span(), event::ParseErrorKindView::UnclosedObject)]
            };
            lemma_queued(src, machine::pop(m1), errors);
            let m2 = machine::queued(machine::pop(m1), errors);
            lemma_queued(src, m2, seq![EventView::DocumentEnd]);
        },
        Some(Context::Sequence) => {
            let errors = seq![
                emit::error(machine::root_span(), event::ParseErrorKindView::UnclosedSequence),
            ];
            lemma_queued(src, machine::pop(m1), errors);
            let m2 = machine::queued(machine::pop(m1), errors);
            lemma_queued(src, m2, seq![EventView::DocumentEnd]);
        },
        Some(Context::AttributeObject) => {
            let events = seq![
                EventView::ObjectEnd { span: machine::eof_span(src) },
                EventView::EntryEnd,
            ];
            lemma_queued(src, machine::pop(m1), events);
            lemma_close_at_eof(src, machine::queued(machine::pop(m1), events));
        },
        None => {},
    }
}

/// What of the text at `span` is the name of a tag, and what follows it.
proof fn lemma_name(src: Seq<u8>, span: Span)
    requires
        lexer::source_fits(src),
        text::span_fits(src, span),
    ensures
        ({
            let end = emit::name_end(src, span);
            &&& span.start <= end <= span.end
            &&& text::span_fits(src, (Span { start: span.start, end }))
            &&& text::span_fits(src, (Span { start: end, end }))
            &&& end < span.end ==> text::span_fits(src, (Span { start: end, end: (end + 1) as u32 }))
        }),
{
    emit::lemma_name_end(src, span);
}

/// An error for a name keeps all else.
proof fn lemma_checked_name(src: Seq<u8>, m: Machine, name: Span)
    requires
        fits(src, m),
        text::span_fits(src, name),
    ensures
        fits(src, machine::with_checked_name(src, m, name)),
        weight(src, machine::with_checked_name(src, m, name)) <= weight(src, m) + 1,
{
    lemma_queued(
        src,
        m,
        seq![emit::error(name, event::ParseErrorKindView::InvalidTagName)],
    );
}

/// The payload of a tag.
proof fn lemma_tag_payload(src: Seq<u8>, m: Machine, name: Span)
    requires
        fits(src, m),
        text::span_fits(src, name),
    ensures
        fits(src, machine::tag_payload(src, m, name)),
        weight(src, machine::tag_payload(src, m, name)) <= weight(src, m) + 2,
{
    reveal(machine::tag_payload);
    lemma_take(src, m);
    let (next, m1) = machine::take(src, m);
    lemma_unread(src, m1, next);
    lemma_queued(src, m1, seq![emit::object_start(next.span)]);
    if next.kind == TokenKind::LParen {
        lemma_queued(src, m1, seq![EventView::SequenceStart { span: next.span }]);
    }
    if next.kind == TokenKind::QuotedScalar {
        lemma_queued(
            src,
            m1,
            seq![machine::scalar(src, next.span, ScalarKind::Quoted), EventView::TagEnd],
        );
    }
    if next.kind == TokenKind::RawScalar {
        lemma_queued(
            src,
            m1,
            seq![machine::scalar(src, next.span, ScalarKind::Raw), EventView::TagEnd],
        );
    }
    let unit = EventView::Unit { span: Span { start: name.end, end: name.end } };
    lemma_queued(src, machine::unread(m1, next), seq![unit, EventView::TagEnd]);
}

/// A value that starts with `@`.
pub proof fn lemma_tag_value(src: Seq<u8>, m: Machine, at_span: Span)
    requires
        fits(src, m),
        text::span_fits(src, at_span),
        lexer::mark_form(src, at_span, ascii::AT),
    ensures
        ({
            let (event, next) = machine::tag_value(src, m, at_span);
            &&& fits(src, next)
            &&& weight(src, next) <= weight(src, m)
            &&& event_fits(src, event)
        }),
{
    reveal(machine::tag_value);
    lemma_take(src, m);
    let (t, m1) = machine::take(src, m);
    lemma_unread(src, m1, t);
    lemma_name(src, t.span);
    let end = emit::name_end(src, t.span);
    let name = Span { start: t.span.start, end };
    lemma_checked_name(src, m1, name);
    let m2 = machine::with_checked_name(src, m1, name);
    lemma_tag_payload(src, m2, name);
    if end < t.span.end {
        let unit = EventView::Unit { span: Span { start: end, end: (end + 1) as u32 } };
        lemma_queued(src, m2, seq![unit, EventView::TagEnd]);
    }
}

/// The entry of an attribute.
proof fn lemma_entry(src: Seq<u8>, m: Machine, key_span: Span, value: EventView)
    requires
        fits(src, m),
        text::span_fits(src, key_span),
        lexer::bare_form(src, key_span),
        event_fits(src, value),
    ensures
        fits(src, machine::queued(m, machine::entry(src, key_span, value))),
        weight(src, machine::queued(m, machine::entry(src, key_span, value))) == weight(src, m) + 4,
        events_fit(src, machine::entry(src, key_span, value)),
{
    lemma_queued(src, m, machine::entry(src, key_span, value));
}

/// What follows the first attribute of a chain.
proof fn lemma_more_attributes(src: Seq<u8>, m: Machine, key_span: Span, value: EventView)
    requires
        fits(src, m),
        text::span_fits(src, key_span),
        lexer::bare_form(src, key_span),
        event_fits(src, value),
    ensures
        ({
            let (more, next) = machine::more_attributes(src, m, key_span, value);
            &&& fits(src, next)
            &&& weight(src, next) <= weight(src, m)
        }),
{
    reveal(machine::more_attributes);
    lemma_take(src, m);
    let (next, m1) = machine::take(src, m);
    lemma_unread(src, m1, next);
    if next.kind == TokenKind::BareScalar {
        lemma_take(src, m1);
        let (after, m2) = machine::take(src, m1);
        if machine::is_arrow(after, next.span) {
            lemma_entry(src, m2, key_span, value);
            let m3 = machine::push(
                machine::queued(m2, machine::entry(src, key_span, value)),
                Context::AttributeObject,
            );
            lemma_take(src, m3);
            let (t, m4) = machine::take(src, m3);
            lemma_token_to_scalar(src, m4, t);
            let (value2, m5) = machine::token_to_scalar(src, m4, t);
            lemma_entry(src, m5, next.span, value2);
        } else {
            lemma_unread(src, m2, after);
            lemma_unread(src, machine::unread(m2, after), next);
        }
    }
}

/// What follows `key>` where a key is expected.
pub proof fn lemma_attribute_value(src: Seq<u8>, m: Machine, key_span: Span)
    requires
        fits(src, m),
        text::span_fits(src, key_span),
        lexer::bare_form(src, key_span),
    ensures
        ({
            let (event, next) = machine::attribute_value(src, m, key_span);
            &&& fits(src, next)
            &&& weight(src, next) <= weight(src, m) + 20
            &&& event matches Some(e) ==> event_fits(src, e)
        }),
{
    reveal(machine::attribute_value);
    lemma_take(src, m);
    let (t, m1) = machine::take(src, m);
    let opening = seq![EventView::EntryStart, machine::key(src, key_span, ScalarKind::Bare)];
    let closing = seq![EventView::ObjectEnd { span: key_span }, EventView::EntryEnd];
    match t.kind {
        TokenKind::BareScalar | TokenKind::QuotedScalar | TokenKind::RawScalar => {
            lemma_token_to_scalar(src, m1, t);
            let (value, m2) = machine::token_to_scalar(src, m1, t);
            lemma_more_attributes(src, m2, key_span, value);
            let (more, m3) = machine::more_attributes(src, m2, key_span, value);
            lemma_entry(src, m3, key_span, value);
            lemma_queued(src, m3, machine::entry(src, key_span, value) + closing);
        },
        TokenKind::LBrace => {
            lemma_queued(src, m1, opening + seq![emit::object_start(t.span)]);
        },
        TokenKind::LParen => {
            lemma_queued(src, m1, opening + seq![EventView::SequenceStart { span: t.span }]);
        },
        TokenKind::At => {
            lemma_tag_value(src, m1, t.span);
            let (value, m2) = machine::tag_value(src, m1, t.span);
            lemma_entry(src, m2, key_span, value);
            lemma_queued(src, m2, machine::entry(src, key_span, value) + closing);
        },
        _ => {
            lemma_queued(
                src,
                m1,
                seq![
                    emit::error(t.span, event::ParseErrorKindView::ExpectedValue),
                    EventView::EntryEnd,
                ],
            );
        },
    }
}

/// A value that starts with `@` queues its events behind those that wait.
pub proof fn lemma_tag_appends(src: Seq<u8>, m: Machine, at_span: Span)
    ensures
        m.queue.len() <= machine::tag_value(src, m, at_span).1.queue.len(),
{
    reveal(machine::tag_value);
    reveal(machine::tag_payload);
}

/// A value that starts with `@`, as the value of an attribute.
proof fn lemma_attribute_tag(src: Seq<u8>, m: Machine, key_span: Span, at_span: Span)
    requires
        fits(src, m),
        text::span_fits(src, key_span),
        text::span_fits(src, at_span),
        lexer::mark_form(src, at_span, ascii::AT),
    ensures
        fits(src, machine::attribute_tag(src, m, key_span, at_span)),
        weight(src, machine::attribute_tag(src, m, key_span, at_span)) <= weight(src, m) + 2,
{
    reveal(machine::attribute_tag);
    lemma_tag_value(src, m, at_span);
    lemma_tag_appends(src, m, at_span);
    let (value, m1) = machine::tag_value(src, m, at_span);
    let m2 = Machine { queue: m1.queue.insert(m.queue.len() as int, value), ..m1 };
    assert(fits(src, m2)) by {
        reveal(lists_fit);
        assert forall|i: int| 0 <= i < m2.queue.len() implies event_fits(
            src,
            #[trigger] m2.queue[i],
        ) by {
            if i < m.queue.len() {
                assert(m2.queue[i] == m1.queue[i]);
            } else if i > m.queue.len() {
                assert(m2.queue[i] == m1.queue[i - 1]);
            }
        }
    }
    lemma_queued(src, m2, seq![EventView::EntryEnd]);
}

/// A value that is no scalar, as the value of an attribute.
proof fn lemma_nested_attribute(src: Seq<u8>, m: Machine, key_span: Span, t: Token)
    requires
        fits(src, m),
        text::span_fits(src, key_span),
        lexer::bare_form(src, key_span),
        lexer::token_fits(src, t),
        t.kind == TokenKind::LBrace || t.kind == TokenKind::LParen || t.kind == TokenKind::At,
    ensures
        fits(src, machine::nested_attribute(src, m, key_span, t)),
        weight(src, machine::nested_attribute(src, m, key_span, t)) <= weight(src, m) + 23,
{
    reveal(machine::nested_attribute);
    let opening = seq![EventView::EntryStart, machine::key(src, key_span, ScalarKind::Bare)];
    lemma_queued(src, m, opening);
    let m1 = machine::push(machine::queued(m, opening), Context::AttributeObject);
    assert(fits(src, m1));
    lemma_queued(src, m1, seq![emit::object_start(t.span)]);
    if t.kind == TokenKind::LParen {
        lemma_queued(src, m1, seq![EventView::SequenceStart { span: t.span }]);
    }
    if t.kind == TokenKind::At {
        lemma_attribute_tag(src, m1, key_span, t.span);
    }
}

/// What follows `key>` where a value is expected.
pub proof fn lemma_attribute_chain(src: Seq<u8>, m: Machine, key_span: Span)
    requires
        fits(src, m),
        text::span_fits(src, key_span),
        lexer::bare_form(src, key_span),
    ensures
        ({
            let (event, next) = machine::attribute_chain(src, m, key_span);
            &&& fits(src, next)
            &&& weight(src, next) <= weight(src, m) + 20
            &&& event matches Some(e) ==> event_fits(src, e)
        }),
{
    reveal(machine::attribute_chain);
    lemma_take(src, m);
    let (t, m1) = machine::take(src, m);
    if t.kind == TokenKind::LBrace || t.kind == TokenKind::LParen || t.kind == TokenKind::At {
        lemma_nested_attribute(src, m1, key_span, t);
    } else {
        lemma_token_to_scalar(src, m1, t);
        let (value, m2) = machine::token_to_scalar(src, m1, t);
        lemma_more_attributes(src, m2, key_span, value);
        let (more, m3) = machine::more_attributes(src, m2, key_span, value);
        lemma_entry(src, m3, key_span, value);
        lemma_queued(
            src,
            m3,
            machine::entry(src, key_span, value) + seq![EventView::ObjectEnd { span: key_span }],
        );
    }
}

// --- every move ---

/// A key that starts with `@`.
proof fn lemma_at_key(src: Seq<u8>, m: Machine, at_span: Span)
    requires
        fits(src, m),
        text::span_fits(src, at_span),
    ensures
        ({
            let (event, next) = machine::at_key(src, m, at_span);
            &&& fits(src, next)
            &&& weight(src, next) <= weight(src, m) + 2
            &&& event matches Some(e) ==> event_fits(src, e)
        }),
{
    reveal(machine::at_key);
    lemma_take(src, m);
    let (t, m1) = machine::take(src, m);
    if t.kind == TokenKind::BareScalar && t.span.start == at_span.end {
        lemma_name(src, t.span);
        let end = emit::name_end(src, t.span);
        let name = Span { start: t.span.start, end };
        let key_span = Span { start: at_span.start, end };
        lemma_take(src, m1);
        let (next, m2) = machine::take(src, m1);
        lemma_unread(src, m2, next);
        let m3 = machine::unread(m2, next);
        lemma_skip_value(src, m3, 0);
        lemma_undocumented(src, machine::skip_value(src, m3, 0));
        lemma_checked_name(src, m3, name);
        let m4 = machine::with_checked_name(src, m3, name);
        lemma_with_docs(src, m4);
        let key_event = EventView::Key {
            span: key_span,
            tag: Some(text::chars_at(src, name)),
            payload: None,
            kind: ScalarKind::Bare,
        };
        lemma_queued(src, machine::with_docs(src, m4), seq![key_event]);
    } else {
        lemma_unread(src, m1, t);
        let m2 = machine::unread(m1, t);
        lemma_with_docs(src, m2);
        lemma_queued(src, machine::with_docs(src, m2), seq![emit::unit_key(at_span)]);
    }
}

/// See [`advances`].
proof fn lemma_before_root(src: Seq<u8>, m: Machine)
    requires
        fits(src, m),
        m.state == State::BeforeRoot,
    ensures
        advances(src, m, machine::before_root(src, m)),
{
    reveal(advances);
    lemma_ends_fit(src);
    lemma_take(src, m);
    let (t, m1) = machine::take(src, m);
    lemma_queued(src, m1, seq![EventView::DocumentEnd]);
    lemma_documented(src, m1, t.span);
    let m2 = machine::push(m1, Context::Object { implicit: true });
    lemma_queued(
        src,
        m2,
        seq![EventView::ObjectEnd { span: machine::root_span() }, EventView::DocumentEnd],
    );
    lemma_unread(src, m2, t);
}

/// See [`advances`].
proof fn lemma_expecting_entry(src: Seq<u8>, m: Machine)
    requires
        fits(src, m),
        m.state == State::ExpectingEntry,
    ensures
        advances(src, m, machine::expecting_entry(src, m)),
{
    reveal(advances);
    lemma_ends_fit(src);
    lemma_take_line(src, m);
    let (t, m1) = machine::take_line(src, m);
    match t.kind {
        TokenKind::Eof => lemma_close_at_eof(src, m1),
        TokenKind::RBrace => {
            lemma_dangling(src, m1);
            lemma_closed(src, machine::with_dangling_docs(m1));
        },
        TokenKind::DocComment => lemma_documented(src, m1, t.span),
        TokenKind::BareScalar => {
            lemma_with_docs(src, m1);
            lemma_queued(
                src,
                machine::with_docs(src, m1),
                seq![machine::key(src, t.span, ScalarKind::Bare)],
            );
        },
        TokenKind::QuotedScalar => {
            lemma_with_docs(src, m1);
            lemma_queued(
                src,
                machine::with_docs(src, m1),
                seq![machine::key(src, t.span, ScalarKind::Quoted)],
            );
        },
        TokenKind::RawScalar => {
            lemma_with_docs(src, m1);
            lemma_queued(
                src,
                machine::with_docs(src, m1),
                seq![machine::key(src, t.span, ScalarKind::Raw)],
            );
        },
        TokenKind::At => lemma_at_key(src, m1, t.span),
        TokenKind::HeredocStart => lemma_heredoc(src, m1, t.span),
        _ => {},
    }
}

/// See [`advances`].
proof fn lemma_after_bare_key(src: Seq<u8>, m: Machine, key_span: Span)
    requires
        fits(src, m),
        m.state == (State::AfterBareKey { key_span }),
    ensures
        advances(src, m, machine::after_bare_key(src, m, key_span)),
{
    reveal(advances);
    lemma_take(src, m);
    let (t, m1) = machine::take(src, m);
    if machine::is_arrow(t, key_span) {
        lemma_attribute_value(src, m1, key_span);
    } else {
        lemma_unread(src, m1, t);
    }
}

/// See [`advances`].
proof fn lemma_after_key(src: Seq<u8>, m: Machine, key_span: Span)
    requires
        fits(src, m),
        m.state == (State::AfterKey { key_span }),
    ensures
        advances(src, m, machine::after_key(src, m, key_span)),
{
    reveal(advances);
    lemma_take(src, m);
    let (t, m1) = machine::take(src, m);
    let unit = seq![EventView::Unit { span: key_span }, EventView::EntryEnd];
    lemma_unread(src, m1, t);
    match t.kind {
        TokenKind::LBrace | TokenKind::LParen => {
            lemma_queued(
                src,
                m1,
                seq![
                    emit::error(t.span, event::ParseErrorKindView::MissingWhitespaceBeforeBlock),
                ],
            );
        },
        TokenKind::At => lemma_tag_value(src, m1, t.span),
        TokenKind::BareScalar => {
            lemma_take(src, m1);
            let (next, m2) = machine::take(src, m1);
            if machine::is_arrow(next, t.span) {
                lemma_attribute_chain(src, m2, t.span);
            } else {
                lemma_unread(src, m2, next);
            }
        },
        TokenKind::HeredocStart => lemma_heredoc(src, m1, t.span),
        _ => {
            lemma_queued(src, m1, unit);
            lemma_queued(src, machine::unread(m1, t), unit);
        },
    }
}

/// See [`advances`].
proof fn lemma_after_value(src: Seq<u8>, m: Machine)
    requires
        fits(src, m),
        m.state == State::AfterValue,
    ensures
        advances(src, m, machine::after_value(src, m)),
{
    reveal(advances);
    lemma_take(src, m);
    let (t, m1) = machine::take(src, m);
    let end = seq![EventView::EntryEnd];
    lemma_unread(src, m1, t);
    lemma_queued(src, machine::unread(m1, t), end);
    lemma_queued(src, m1, end);
    let error = seq![emit::error(t.span, event::ParseErrorKindView::TooManyAtoms)];
    lemma_queued(src, m1, error);
    let m2 = machine::queued(m1, error);
    lemma_skip_to_entry_boundary(src, m2);
    lemma_queued(src, machine::skip_to_entry_boundary(src, m2), end);
}

/// The end of a chain of attributes.
proof fn lemma_chain_closed(src: Seq<u8>, m: Machine)
    requires
        fits(src, m),
    ensures
        fits(src, machine::chain_closed(m)),
        weight(src, machine::chain_closed(m)) <= weight(src, m) + 2,
{
    lemma_ends_fit(src);
    lemma_queued(
        src,
        machine::pop(m),
        seq![EventView::ObjectEnd { span: machine::root_span() }, EventView::EntryEnd],
    );
}

/// See [`advances`].
proof fn lemma_in_attribute_chain(src: Seq<u8>, m: Machine, obj_start_span: Span)
    requires
        fits(src, m),
        m.state == (State::InAttributeChain { obj_start_span }),
    ensures
        advances(src, m, machine::in_attribute_chain(src, m, obj_start_span)),
{
    reveal(advances);
    lemma_take(src, m);
    let (t, m1) = machine::take(src, m);
    if t.kind == TokenKind::BareScalar {
        lemma_take(src, m1);
        let (next, m2) = machine::take(src, m1);
        if machine::is_arrow(next, t.span) {
            lemma_take(src, m2);
            let (t2, m3) = machine::take(src, m2);
            lemma_token_to_scalar(src, m3, t2);
            let (value, m4) = machine::token_to_scalar(src, m3, t2);
            lemma_entry(src, m4, t.span, value);
        } else {
            lemma_unread(src, m2, next);
            let m3 = machine::unread(m2, next);
            let error = seq![emit::error(t.span, event::ParseErrorKindView::TooManyAtoms)];
            lemma_queued(src, m3, error);
            lemma_skip_to_entry_boundary(src, machine::queued(m3, error));
            lemma_chain_closed(
                src,
                machine::skip_to_entry_boundary(src, machine::queued(m3, error)),
            );
        }
    } else {
        lemma_chain_closed(src, m1);
        lemma_unread(src, m1, t);
        lemma_chain_closed(src, machine::unread(m1, t));
    }
}

/// See [`advances`].
proof fn lemma_expecting_sequence_element(src: Seq<u8>, m: Machine)
    requires
        fits(src, m),
        m.state == State::ExpectingSequenceElement,
    ensures
        advances(src, m, machine::expecting_sequence_element(src, m)),
{
    reveal(advances);
    lemma_ends_fit(src);
    lemma_take_line(src, m);
    let (t, m1) = machine::take_line(src, m);
    match t.kind {
        TokenKind::Eof => {
            let error = seq![emit::error(t.span, event::ParseErrorKindView::UnclosedSequence)];
            lemma_queued(src, m1, error);
            lemma_close_at_eof(src, machine::queued(m1, error));
        },
        TokenKind::RParen => lemma_closed(src, m1),
        TokenKind::HeredocStart => lemma_heredoc(src, m1, t.span),
        TokenKind::At => lemma_tag_value(src, m1, t.span),
        _ => {},
    }
}

/// Every move but the last stays within the source and comes closer to the end.
pub proof fn lemma_step(src: Seq<u8>, m: Machine)
    requires
        fits(src, m),
        m.state != State::Done,
    ensures
        advances(src, m, machine::step(src, m)),
{
    match m.state {
        State::Start => {
            reveal(advances);
        },
        State::BeforeRoot => lemma_before_root(src, m),
        State::ExpectingEntry => lemma_expecting_entry(src, m),
        State::AfterBareKey { key_span } => lemma_after_bare_key(src, m, key_span),
        State::AfterKey { key_span } => lemma_after_key(src, m, key_span),
        State::AfterValue => lemma_after_value(src, m),
        State::InAttributeChain { obj_start_span } => lemma_in_attribute_chain(
            src,
            m,
            obj_start_span,
        ),
        State::ExpectingSequenceElement => lemma_expecting_sequence_element(src, m),
        State::Done => {},
    }
}

} // verus!
