//! What the machine does whether its source is a document or a single value.
use crate::emit;
use crate::event::{EventView, ParseErrorKindView, ScalarKind};
use crate::lexer;
use crate::lexer::{LexState, Skip};
use crate::nesting::change;
use crate::parser2::machine;
use crate::parser2::machine::{Context, Machine, Move, State};
use crate::parser2::nesting;
use crate::parser2::progress;
use crate::parser2::run;
use crate::span::Span;
use crate::token::TokenKind;
use vstd::prelude::*;

verus! {

/// `m` with a source that is a single value, or is not.
pub open spec fn with_mode(m: Machine, expr: bool) -> Machine {
    Machine { expr, ..m }
}

/// The move `mv` with a source that is a single value, or is not.
pub open spec fn move_with_mode(mv: Move, expr: bool) -> Move {
    (mv.0, with_mode(mv.1, expr))
}

/// See [`lemma_step`].
proof fn lemma_take(src: Seq<u8>, m: Machine, expr: bool)
    ensures
        machine::take(src, with_mode(m, expr)).0 == machine::take(src, m).0,
        machine::take(src, with_mode(m, expr)).1 == with_mode(machine::take(src, m).1, expr),
{
}

/// See [`lemma_step`].
proof fn lemma_take_line(src: Seq<u8>, m: Machine, expr: bool)
    ensures
        machine::take_line(src, with_mode(m, expr)).0 == machine::take_line(src, m).0,
        machine::take_line(src, with_mode(m, expr)).1 == with_mode(
            machine::take_line(src, m).1,
            expr,
        ),
    decreases lexer::budget(src, m.lex) + m.buffer.len(),
{
    machine::lemma_take_shrinks(src, m);
    if machine::take(src, m).0.kind == TokenKind::Newline {
        lemma_take_line(src, machine::take(src, m).1, expr);
    }
}

/// See [`lemma_step`].
proof fn lemma_skip_to_entry_boundary(src: Seq<u8>, m: Machine, expr: bool)
    ensures
        machine::skip_to_entry_boundary(src, with_mode(m, expr)) == with_mode(
            machine::skip_to_entry_boundary(src, m),
            expr,
        ),
    decreases machine::unread_len(src, m),
{
    machine::lemma_take_shrinks(src, m);
    let (t, next) = machine::take(src, m);
    if !machine::ends_entry(t.kind) {
        machine::lemma_skip_nested(src, next.lex, TokenKind::RBrace, 1);
        machine::lemma_skip_nested(src, next.lex, TokenKind::RParen, 1);
        if t.kind == TokenKind::LBrace {
            let lex = machine::skip_nested(src, next.lex, TokenKind::RBrace, 1);
            lemma_skip_to_entry_boundary(src, machine::at(next, lex), expr);
        } else if t.kind == TokenKind::LParen {
            let lex = machine::skip_nested(src, next.lex, TokenKind::RParen, 1);
            lemma_skip_to_entry_boundary(src, machine::at(next, lex), expr);
        } else {
            lemma_skip_to_entry_boundary(src, next, expr);
        }
    }
}

/// See [`lemma_step`].
proof fn lemma_skip_value(src: Seq<u8>, m: Machine, depth: nat, expr: bool)
    ensures
        machine::skip_value(src, with_mode(m, expr), depth) == with_mode(
            machine::skip_value(src, m, depth),
            expr,
        ),
    decreases machine::unread_len(src, m),
{
    machine::lemma_take_shrinks(src, m);
    let (t, next) = machine::take(src, m);
    if t.kind != TokenKind::Eof {
        if t.kind == TokenKind::LBrace || t.kind == TokenKind::LParen {
            lemma_skip_value(src, next, depth + 1, expr);
        } else if t.kind == TokenKind::RBrace || t.kind == TokenKind::RParen {
            if depth > 0 {
                lemma_skip_value(src, next, (depth - 1) as nat, expr);
            }
        } else if depth > 0 {
            lemma_skip_value(src, next, depth, expr);
        }
    }
}

/// See [`lemma_step`].
proof fn lemma_close_at_eof(src: Seq<u8>, m: Machine, expr: bool)
    ensures
        machine::close_at_eof(src, with_mode(m, expr)) == move_with_mode(
            machine::close_at_eof(src, m),
            expr,
        ),
    decreases m.stack.len(),
{
    let m1 = machine::with_dangling_docs(m);
    if machine::top(m1) == Some(Context::AttributeObject) {
        let events = seq![
            EventView::ObjectEnd { span: machine::eof_span(src) },
            EventView::EntryEnd,
        ];
        lemma_close_at_eof(src, machine::queued(machine::pop(m1), events), expr);
    }
}

/// See [`lemma_step`].
proof fn lemma_tag_value(src: Seq<u8>, m: Machine, at_span: Span, expr: bool)
    ensures
        machine::tag_value(src, with_mode(m, expr), at_span).0 == machine::tag_value(
            src,
            m,
            at_span,
        ).0,
        machine::tag_value(src, with_mode(m, expr), at_span).1 == with_mode(
            machine::tag_value(src, m, at_span).1,
            expr,
        ),
{
    reveal(machine::tag_value);
    reveal(machine::tag_payload);
}

/// See [`lemma_step`].
proof fn lemma_at_key(src: Seq<u8>, m: Machine, at_span: Span, expr: bool)
    ensures
        machine::at_key(src, with_mode(m, expr), at_span) == move_with_mode(
            machine::at_key(src, m, at_span),
            expr,
        ),
{
    reveal(machine::at_key);
    let (t, m1) = machine::take(src, m);
    let (next, m2) = machine::take(src, m1);
    lemma_skip_value(src, machine::unread(m2, next), 0, expr);
}

/// See [`lemma_step`].
proof fn lemma_more_attributes(
    src: Seq<u8>,
    m: Machine,
    key_span: Span,
    value: EventView,
    expr: bool,
)
    ensures
        machine::more_attributes(src, with_mode(m, expr), key_span, value).0
            == machine::more_attributes(src, m, key_span, value).0,
        machine::more_attributes(src, with_mode(m, expr), key_span, value).1 == with_mode(
            machine::more_attributes(src, m, key_span, value).1,
            expr,
        ),
{
    reveal(machine::more_attributes);
}

/// See [`lemma_step`].
proof fn lemma_attribute_value(src: Seq<u8>, m: Machine, key_span: Span, expr: bool)
    ensures
        machine::attribute_value(src, with_mode(m, expr), key_span) == move_with_mode(
            machine::attribute_value(src, m, key_span),
            expr,
        ),
{
    reveal(machine::attribute_value);
    let (t, m1) = machine::take(src, m);
    let (value, m2) = machine::token_to_scalar(src, m1, t);
    lemma_more_attributes(src, m2, key_span, value, expr);
    lemma_tag_value(src, m1, t.span, expr);
}

/// See [`lemma_step`].
proof fn lemma_attribute_chain(src: Seq<u8>, m: Machine, key_span: Span, expr: bool)
    ensures
        machine::attribute_chain(src, with_mode(m, expr), key_span) == move_with_mode(
            machine::attribute_chain(src, m, key_span),
            expr,
        ),
{
    reveal(machine::attribute_chain);
    reveal(machine::nested_attribute);
    reveal(machine::attribute_tag);
    let (t, m1) = machine::take(src, m);
    let (value, m2) = machine::token_to_scalar(src, m1, t);
    lemma_more_attributes(src, m2, key_span, value, expr);
    let opening = seq![EventView::EntryStart, machine::key(src, key_span, ScalarKind::Bare)];
    let inside = machine::push(machine::queued(m1, opening), Context::AttributeObject);
    lemma_tag_value(src, inside, t.span, expr);
}

/// See [`lemma_step`].
proof fn lemma_expecting_entry(src: Seq<u8>, m: Machine, expr: bool)
    ensures
        machine::expecting_entry(src, with_mode(m, expr)) == move_with_mode(
            machine::expecting_entry(src, m),
            expr,
        ),
{
    lemma_take_line(src, m, expr);
    let (t, m1) = machine::take_line(src, m);
    lemma_close_at_eof(src, m1, expr);
    lemma_at_key(src, m1, t.span, expr);
}

/// See [`lemma_step`].
proof fn lemma_after_key(src: Seq<u8>, m: Machine, key_span: Span, expr: bool)
    ensures
        machine::after_key(src, with_mode(m, expr), key_span) == move_with_mode(
            machine::after_key(src, m, key_span),
            expr,
        ),
{
    let (t, m1) = machine::take(src, m);
    let (next, m2) = machine::take(src, m1);
    lemma_tag_value(src, m1, t.span, expr);
    lemma_attribute_chain(src, m2, t.span, expr);
}

/// See [`lemma_step`].
proof fn lemma_after_value(src: Seq<u8>, m: Machine, expr: bool)
    ensures
        machine::after_value(src, with_mode(m, expr)) == move_with_mode(
            machine::after_value(src, m),
            expr,
        ),
{
    let (t, m1) = machine::take(src, m);
    let errors = seq![emit::error(t.span, ParseErrorKindView::TooManyAtoms)];
    lemma_skip_to_entry_boundary(src, machine::queued(m1, errors), expr);
}

/// See [`lemma_step`].
proof fn lemma_in_attribute_chain(src: Seq<u8>, m: Machine, span: Span, expr: bool)
    ensures
        machine::in_attribute_chain(src, with_mode(m, expr), span) == move_with_mode(
            machine::in_attribute_chain(src, m, span),
            expr,
        ),
{
    let (t, m1) = machine::take(src, m);
    let (next, m2) = machine::take(src, m1);
    let errors = seq![emit::error(t.span, ParseErrorKindView::TooManyAtoms)];
    let m3 = machine::queued(machine::unread(m2, next), errors);
    lemma_skip_to_entry_boundary(src, m3, expr);
}

/// See [`lemma_step`].
proof fn lemma_expecting_sequence_element(src: Seq<u8>, m: Machine, expr: bool)
    ensures
        machine::expecting_sequence_element(src, with_mode(m, expr)) == move_with_mode(
            machine::expecting_sequence_element(src, m),
            expr,
        ),
{
    lemma_take_line(src, m, expr);
    let (t, m1) = machine::take_line(src, m);
    let errors = seq![emit::error(t.span, ParseErrorKindView::UnclosedSequence)];
    lemma_close_at_eof(src, machine::queued(m1, errors), expr);
    lemma_tag_value(src, m1, t.span, expr);
}

/// Behind the start of the root, a move does not depend on the mode.
pub proof fn lemma_step(src: Seq<u8>, m: Machine, expr: bool)
    requires
        m.state != State::BeforeRoot,
    ensures
        machine::step(src, with_mode(m, expr)) == move_with_mode(machine::step(src, m), expr),
{
    match m.state {
        State::ExpectingEntry => lemma_expecting_entry(src, m, expr),
        State::AfterBareKey { key_span } => {
            lemma_attribute_value(src, machine::take(src, m).1, key_span, expr);
        },
        State::AfterKey { key_span } => lemma_after_key(src, m, key_span, expr),
        State::AfterValue => lemma_after_value(src, m, expr),
        State::InAttributeChain { obj_start_span } => lemma_in_attribute_chain(
            src,
            m,
            obj_start_span,
            expr,
        ),
        State::ExpectingSequenceElement => lemma_expecting_sequence_element(src, m, expr),
        _ => {},
    }
}

/// A machine in another mode can come up where it can.
proof fn lemma_fits(src: Seq<u8>, m: Machine, expr: bool)
    requires
        progress::fits(src, m),
    ensures
        progress::fits(src, with_mode(m, expr)),
        progress::distance(src, with_mode(m, expr)) == progress::distance(src, m),
{
}

/// Inside of the root object, the events do not depend on the mode.
proof fn lemma_run(src: Seq<u8>, open: int, root: Context, m: Machine, expr: bool)
    requires
        progress::fits(src, m),
        nesting::sound(src, open, root, m),
        nesting::placed(src, m),
    ensures
        run::run(src, with_mode(m, expr)) == run::run(src, m),
    decreases progress::distance(src, m),
{
    let other = with_mode(m, expr);
    lemma_fits(src, m, expr);
    if m.queue.len() > 0 {
        run::lemma_dequeued(src, m);
        nesting::lemma_dequeued(src, open, root, m);
        lemma_run(src, open + change(m.queue[0]), root, run::dequeued(m), expr);
        assert(run::dequeued(other) == with_mode(run::dequeued(m), expr));
    } else {
        lemma_step(src, m, expr);
        nesting::lemma_step(src, open, root, m);
        nesting::lemma_run_step(src, m);
        nesting::lemma_run_step(src, other);
        let (event, after) = machine::step(src, m);
        if nesting::goes_on(src, open, root, (event, after)) {
            reveal(nesting::goes_on);
            match event {
                Some(e) => lemma_run(src, open + change(e), root, after, expr),
                None => lemma_run(src, open, root, after, expr),
            }
        } else {
            reveal(nesting::ends);
            nesting::lemma_done(src, after);
            nesting::lemma_done(src, with_mode(after, expr));
        }
    }
}

/// Something stands in the source from `lex` on that is neither a blank, a line
/// break nor a comment.
pub open spec fn has_content(src: Seq<u8>, lex: LexState) -> bool
    decreases lexer::budget(src, lex),
{
    let (t, next) = lexer::lex_past(src, lex, Skip::Blanks);
    match t.kind {
        TokenKind::Eof => false,
        TokenKind::Newline | TokenKind::LineComment | TokenKind::DocComment => {
            proof {
                lexer::lemma_past_budget(src, lex, Skip::Blanks);
            }
            has_content(src, next)
        },
        _ => true,
    }
}

/// See [`law_modes`].
proof fn lemma_before_root(src: Seq<u8>, m: Machine, expr: bool)
    requires
        progress::fits(src, m),
        m.state == State::BeforeRoot,
        m.queue.len() == 0,
        m.stack.len() == 0,
        m.buffer.len() == 0,
        has_content(src, m.lex),
    ensures
        run::run(src, with_mode(m, expr)) == run::run(src, m),
    decreases progress::distance(src, m),
{
    let other = with_mode(m, expr);
    lemma_fits(src, m, expr);
    nesting::lemma_run_step(src, m);
    nesting::lemma_run_step(src, other);
    let (event, after) = machine::step(src, m);
    let t = machine::take(src, m).0;
    assert(machine::step(src, other) == move_with_mode((event, after), expr));
    match t.kind {
        TokenKind::Newline | TokenKind::LineComment | TokenKind::DocComment => {
            lemma_before_root(src, after, expr);
        },
        _ => {
            let root = nesting::lemma_root(src, m);
            lemma_run(src, 1, root, after, expr);
        },
    }
}

/// A source in which something stands besides blanks, line breaks and comments
/// gives the same events as a document and as a single value.
pub proof fn law_modes(src: Seq<u8>)
    requires
        lexer::source_fits(src),
        has_content(src, (LexState { pos: 0, heredoc: None })),
    ensures
        run::run(src, run::start(true)) == run::run(src, run::start(false)),
{
    run::lemma_start(src, false);
    run::lemma_start(src, true);
    nesting::lemma_run_step(src, run::start(false));
    nesting::lemma_run_step(src, run::start(true));
    let after = machine::step(src, run::start(false)).1;
    assert(machine::step(src, run::start(true)).1 == with_mode(after, true));
    lemma_before_root(src, after, true);
}

} // verus!
