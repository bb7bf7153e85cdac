//! What holds of the events that the machine emits one after the other.
use crate::emit;
use crate::event::{EventView, ParseErrorKindView, ScalarKind, Separator};
use crate::lexer;
use crate::lexer::{LexState, Skip};
use crate::nesting;
use crate::parser2::machine;
use crate::parser2::machine::{Context, Machine, Move, State};
use crate::parser2::progress;
use crate::parser2::run;
use crate::span::Span;
use crate::token::{Token, TokenKind};
use vstd::prelude::*;

verus! {

// --- what waits in a machine ---

/// An event that neither marks an end of the document nor starts its root
/// object where that has no braces.
pub open spec fn plain(e: EventView) -> bool {
    &&& e != EventView::DocumentStart
    &&& e != EventView::DocumentEnd
    &&& e matches EventView::ObjectStart { separator, .. } ==> separator == Separator::Comma
}

/// Events that are plain and open or close nothing.
pub open spec fn flat(events: Seq<EventView>) -> bool {
    forall|i: int|
        0 <= i < events.len() ==> plain(#[trigger] events[i]) && nesting::change(events[i]) == 0
}

/// Only ends of input are left to read.
pub open spec fn at_end(src: Seq<u8>, lex: LexState, buffer: Seq<Token>) -> bool {
    &&& lex.pos >= src.len()
    &&& forall|i: int| 0 <= i < buffer.len() ==> (#[trigger] buffer[i]).kind == TokenKind::Eof
}

/// Nothing but ends of input comes after an end of input.
pub open spec fn eof_last(src: Seq<u8>, lex: LexState, buffer: Seq<Token>) -> bool {
    forall|i: int, j: int|
        0 <= i <= j < buffer.len() && (#[trigger] buffer[i]).kind == TokenKind::Eof ==> {
            &&& (#[trigger] buffer[j]).kind == TokenKind::Eof
            &&& lex.pos >= src.len()
        }
}

/// Where `open` objects and sequences are open, what waits in a machine with
/// the outermost context `root` leaves at least its contexts open.
#[verifier::opaque]
pub open spec fn within(
    src: Seq<u8>,
    open: int,
    root: Context,
    lex: LexState,
    stack: Seq<Context>,
    queue: Seq<EventView>,
    buffer: Seq<Token>,
) -> bool {
    &&& nesting::closes_opened(open, queue)
    &&& stack.len() <= open + nesting::depth(queue)
    &&& forall|i: int| 0 <= i < queue.len() ==> plain(#[trigger] queue[i])
    &&& eof_last(src, lex, buffer)
    &&& stack.len() > 0
    &&& stack[0] == root
    &&& root is Object
}

/// See [`within`].
pub open spec fn sound(src: Seq<u8>, open: int, root: Context, m: Machine) -> bool {
    within(src, open, root, m.lex, m.stack, m.queue, m.buffer)
}

/// The innermost context is the one that the state is about.
pub open spec fn placed(src: Seq<u8>, m: Machine) -> bool {
    match m.state {
        State::Start | State::BeforeRoot | State::Done => false,
        State::ExpectingSequenceElement => machine::top(m) == Some(Context::Sequence) || at_end(
            src,
            m.lex,
            m.buffer,
        ),
        State::InAttributeChain { .. } => machine::top(m) == Some(Context::AttributeObject),
        _ => true,
    }
}

// --- building blocks ---

/// A lexer that has read the end of input stays there.
proof fn lemma_past_end(src: Seq<u8>, lex: LexState, skip: Skip)
    ensures
        lex.pos >= src.len() ==> {
            &&& lexer::lex_past(src, lex, skip).0.kind == TokenKind::Eof
            &&& lexer::lex_past(src, lex, skip).1.pos >= src.len()
        },
        lexer::lex_past(src, lex, skip).0.kind == TokenKind::Eof ==> lexer::lex_past(
            src,
            lex,
            skip,
        ).1.pos >= src.len(),
    decreases lexer::budget(src, lex),
{
    lexer::lemma_budget(src, lex);
    let (t, next) = lexer::lex(src, lex);
    if lexer::skips(skip, t.kind) {
        lemma_past_end(src, next, skip);
    }
}

/// Nothing but ends of input comes after an end of input that is taken.
pub proof fn lemma_take_tokens(src: Seq<u8>, m: Machine)
    requires
        eof_last(src, m.lex, m.buffer),
    ensures
        ({
            let (t, next) = machine::take(src, m);
            &&& eof_last(src, next.lex, next.buffer)
            &&& t.kind == TokenKind::Eof ==> at_end(src, next.lex, next.buffer)
            &&& at_end(src, m.lex, m.buffer) ==> t.kind == TokenKind::Eof
            &&& next == (Machine { lex: next.lex, buffer: next.buffer, ..m })
        }),
{
    lemma_past_end(src, m.lex, Skip::Blanks);
    let (t, next) = machine::take(src, m);
    if m.buffer.len() > 0 {
        assert forall|i: int| 0 <= i < next.buffer.len() implies #[trigger] next.buffer[i]
            == m.buffer[i + 1] by {}
    }
}

/// Taking a token keeps what waits.
proof fn lemma_take(src: Seq<u8>, open: int, root: Context, m: Machine)
    requires
        sound(src, open, root, m),
    ensures
        ({
            let (t, next) = machine::take(src, m);
            &&& sound(src, open, root, next)
            &&& t.kind == TokenKind::Eof ==> at_end(src, next.lex, next.buffer)
            &&& at_end(src, m.lex, m.buffer) ==> t.kind == TokenKind::Eof
            &&& next == (Machine { lex: next.lex, buffer: next.buffer, ..m })
        }),
{
    reveal(within);
    lemma_take_tokens(src, m);
}

/// Taking a token past line breaks keeps what waits.
proof fn lemma_take_line(src: Seq<u8>, open: int, root: Context, m: Machine)
    requires
        sound(src, open, root, m),
    ensures
        ({
            let (t, next) = machine::take_line(src, m);
            &&& sound(src, open, root, next)
            &&& t.kind == TokenKind::Eof ==> at_end(src, next.lex, next.buffer)
            &&& at_end(src, m.lex, m.buffer) ==> t.kind == TokenKind::Eof
            &&& next == (Machine { lex: next.lex, buffer: next.buffer, ..m })
        }),
    decreases lexer::budget(src, m.lex) + m.buffer.len(),
{
    lemma_take(src, open, root, m);
    machine::lemma_take_shrinks(src, m);
    let (t, next) = machine::take(src, m);
    if t.kind == TokenKind::Newline {
        lemma_take_line(src, open, root, next);
    }
}

/// Putting a token back keeps what waits.
proof fn lemma_unread(src: Seq<u8>, open: int, root: Context, m: Machine, t: Token)
    requires
        sound(src, open, root, m),
        t.kind == TokenKind::Eof ==> at_end(src, m.lex, m.buffer),
    ensures
        sound(src, open, root, machine::unread(m, t)),
{
    reveal(within);
    let all = seq![t] + m.buffer;
    assert forall|i: int| 1 <= i < all.len() implies #[trigger] all[i] == m.buffer[i - 1] by {}
}

/// Moving the lexer on keeps what waits, if it stays at the end of input.
proof fn lemma_at(src: Seq<u8>, open: int, root: Context, m: Machine, lex: LexState)
    requires
        sound(src, open, root, m),
        m.lex.pos >= src.len() ==> lex.pos >= src.len(),
    ensures
        sound(src, open, root, machine::at(m, lex)),
{
    reveal(within);
}

/// Flat events leave as much open as before.
proof fn lemma_flat(open: int, events: Seq<EventView>)
    requires
        flat(events),
        open >= 0,
    ensures
        nesting::depth(events) == 0,
        nesting::closes_opened(open, events),
    decreases events.len(),
{
    if events.len() > 0 {
        let rest = events.drop_last();
        lemma_flat(open, rest);
        nesting::lemma_closes_opened_one(open, events.last());
        nesting::lemma_closes_opened_add(open, rest, seq![events.last()]);
        assert(events =~= rest + seq![events.last()]);
    } else {
        assert forall|k: int| 0 <= k <= 0 implies open + nesting::depth(#[trigger] events.take(k))
            >= 0 by {
            assert(events.take(k) =~= events);
        }
    }
}

/// Queueing plain events that leave enough open.
proof fn lemma_queued(
    src: Seq<u8>,
    open: int,
    root: Context,
    m: Machine,
    stack: Seq<Context>,
    events: Seq<EventView>,
)
    requires
        sound(src, open, root, m),
        nesting::closes_opened(open + nesting::depth(m.queue), events),
        forall|i: int| 0 <= i < events.len() ==> plain(#[trigger] events[i]),
        stack.len() <= open + nesting::depth(m.queue) + nesting::depth(events),
        stack.len() > 0,
        stack[0] == root,
    ensures
        within(src, open, root, m.lex, stack, m.queue + events, m.buffer),
{
    reveal(within);
    nesting::lemma_closes_opened_add(open, m.queue, events);
    let all = m.queue + events;
    assert forall|i: int| 0 <= i < all.len() implies plain(#[trigger] all[i]) by {
        if i < m.queue.len() {
            assert(all[i] == m.queue[i]);
        } else {
            assert(all[i] == events[i - m.queue.len()]);
        }
    }
}

/// Queueing flat events keeps what waits.
proof fn lemma_queued_flat(
    src: Seq<u8>,
    open: int,
    root: Context,
    m: Machine,
    events: Seq<EventView>,
)
    requires
        sound(src, open, root, m),
        flat(events),
    ensures
        sound(src, open, root, machine::queued(m, events)),
{
    reveal(within);
    lemma_flat(open + nesting::depth(m.queue), events);
    lemma_queued(src, open, root, m, m.stack, events);
}

/// Queueing the start of a context inside of which the machine then stands.
proof fn lemma_queued_start(
    src: Seq<u8>,
    open: int,
    root: Context,
    m: Machine,
    e: EventView,
    context: Context,
)
    requires
        sound(src, open, root, m),
        plain(e),
        nesting::change(e) == 1,
    ensures
        sound(src, open, root, machine::push(machine::queued(m, seq![e]), context)),
{
    reveal(within);
    nesting::lemma_closes_opened_one(open + nesting::depth(m.queue), e);
    lemma_queued(src, open, root, m, m.stack.push(context), seq![e]);
}

/// Queueing the end of the innermost context, which is left.
proof fn lemma_queued_end(src: Seq<u8>, open: int, root: Context, m: Machine, e: EventView)
    requires
        sound(src, open, root, m),
        m.stack.len() > 1,
        plain(e),
        nesting::change(e) == -1,
    ensures
        sound(src, open, root, machine::queued(machine::pop(m), seq![e])),
{
    reveal(within);
    nesting::lemma_closes_opened_one(open + nesting::depth(m.queue), e);
    lemma_queued(src, open, root, m, m.stack.drop_last(), seq![e]);
}

/// Queueing the end of an object that is open besides the contexts.
proof fn lemma_queued_surplus_end(
    src: Seq<u8>,
    open: int,
    root: Context,
    m: Machine,
    e: EventView,
)
    requires
        sound(src, open, root, m),
        plain(e),
        nesting::change(e) == -1,
    ensures
        sound(src, open + 1, root, machine::queued(m, seq![e])),
{
    reveal(within);
    lemma_more_open(src, open, root, m);
    nesting::lemma_closes_opened_one(open + 1 + nesting::depth(m.queue), e);
    lemma_queued(src, open + 1, root, m, m.stack, seq![e]);
}

/// What leaves enough open leaves enough open where more is.
proof fn lemma_more_open(src: Seq<u8>, open: int, root: Context, m: Machine)
    requires
        sound(src, open, root, m),
    ensures
        sound(src, open + 1, root, m),
{
    reveal(within);
    nesting::lemma_closes_opened_more(open, open + 1, m.queue);
}

/// A context that an event opens before the others.
proof fn lemma_push(src: Seq<u8>, open: int, root: Context, m: Machine, context: Context)
    requires
        sound(src, open, root, m),
    ensures
        sound(src, open + 1, root, machine::push(m, context)),
{
    reveal(within);
    nesting::lemma_closes_opened_more(open, open + 1, m.queue);
}

/// Emitting doc comments keeps what waits.
proof fn lemma_with_docs(src: Seq<u8>, open: int, root: Context, m: Machine)
    requires
        sound(src, open, root, m),
    ensures
        sound(src, open, root, machine::with_docs(src, m)),
{
    lemma_queued_flat(src, open, root, m, machine::doc_events(src, m.docs));
}

/// An error for a doc comment keeps what waits.
proof fn lemma_dangling(src: Seq<u8>, open: int, root: Context, m: Machine)
    requires
        sound(src, open, root, m),
    ensures
        sound(src, open, root, machine::with_dangling_docs(m)),
{
    if m.docs.len() > 0 {
        lemma_queued_flat(
            src,
            open,
            root,
            m,
            seq![emit::error(m.docs[0], ParseErrorKindView::DanglingDocComment)],
        );
    }
}

/// An error for a name keeps what waits.
proof fn lemma_checked_name(src: Seq<u8>, open: int, root: Context, m: Machine, name: Span)
    requires
        sound(src, open, root, m),
    ensures
        sound(src, open, root, machine::with_checked_name(src, m, name)),
{
    lemma_queued_flat(
        src,
        open,
        root,
        m,
        seq![emit::error(name, ParseErrorKindView::InvalidTagName)],
    );
}

/// Reading a heredoc keeps what waits.
proof fn lemma_heredoc(src: Seq<u8>, open: int, root: Context, m: Machine)
    requires
        sound(src, open, root, m),
    ensures
        sound(
            src,
            open,
            root,
            machine::at(m, lexer::lex_past(src, m.lex, Skip::Heredoc).1),
        ),
{
    lemma_past_end(src, m.lex, Skip::Heredoc);
    lemma_at(src, open, root, m, lexer::lex_past(src, m.lex, Skip::Heredoc).1);
}

/// Reading a token as a scalar keeps what waits.
proof fn lemma_token_to_scalar(src: Seq<u8>, open: int, root: Context, m: Machine, t: Token)
    requires
        sound(src, open, root, m),
    ensures
        ({
            let (event, next) = machine::token_to_scalar(src, m, t);
            &&& sound(src, open, root, next)
            &&& next == (Machine { lex: next.lex, ..m })
            &&& flat(seq![event])
        }),
{
    lemma_heredoc(src, open, root, m);
}

/// Passing over brackets stays at the end of input.
proof fn lemma_skip_nested_end(src: Seq<u8>, lex: LexState, closing: TokenKind, depth: nat)
    requires
        lex.pos >= src.len(),
    ensures
        machine::skip_nested(src, lex, closing, depth).pos >= src.len(),
{
    lexer::lemma_budget(src, lex);
}

/// Passing over the rest of an entry keeps what waits.
proof fn lemma_skip_to_entry_boundary(src: Seq<u8>, open: int, root: Context, m: Machine)
    requires
        sound(src, open, root, m),
    ensures
        ({
            let next = machine::skip_to_entry_boundary(src, m);
            &&& sound(src, open, root, next)
            &&& next == (Machine { lex: next.lex, buffer: next.buffer, ..m })
        }),
    decreases machine::unread_len(src, m),
{
    lemma_take(src, open, root, m);
    machine::lemma_take_shrinks(src, m);
    let (t, next) = machine::take(src, m);
    if machine::ends_entry(t.kind) {
        lemma_unread(src, open, root, next, t);
    } else if t.kind == TokenKind::LBrace || t.kind == TokenKind::LParen {
        let closing = if t.kind == TokenKind::LBrace {
            TokenKind::RBrace
        } else {
            TokenKind::RParen
        };
        machine::lemma_skip_nested(src, next.lex, closing, 1);
        if next.lex.pos >= src.len() {
            lemma_skip_nested_end(src, next.lex, closing, 1);
        }
        let lex = machine::skip_nested(src, next.lex, closing, 1);
        lemma_at(src, open, root, next, lex);
        lemma_skip_to_entry_boundary(src, open, root, machine::at(next, lex));
    } else {
        lemma_skip_to_entry_boundary(src, open, root, next);
    }
}

/// Passing over a value keeps what waits.
proof fn lemma_skip_value(src: Seq<u8>, open: int, root: Context, m: Machine, depth: nat)
    requires
        sound(src, open, root, m),
    ensures
        ({
            let next = machine::skip_value(src, m, depth);
            &&& sound(src, open, root, next)
            &&& next == (Machine { lex: next.lex, buffer: next.buffer, ..m })
        }),
    decreases machine::unread_len(src, m),
{
    lemma_take(src, open, root, m);
    machine::lemma_take_shrinks(src, m);
    let (t, next) = machine::take(src, m);
    if t.kind != TokenKind::Eof {
        lemma_unread(src, open, root, next, t);
        if t.kind == TokenKind::LBrace || t.kind == TokenKind::LParen {
            lemma_skip_value(src, open, root, next, depth + 1);
        } else if t.kind == TokenKind::RBrace || t.kind == TokenKind::RParen {
            if depth > 0 {
                lemma_skip_value(src, open, root, next, (depth - 1) as nat);
            }
        } else if depth > 0 {
            lemma_skip_value(src, open, root, next, depth);
        }
    }
}

// --- the end of input ---

/// Events that open nothing.
pub open spec fn falling(events: Seq<EventView>) -> bool {
    forall|i: int| 0 <= i < events.len() ==> nesting::change(#[trigger] events[i]) <= 0
}

/// Where nothing is opened, as much is open at least as in the end.
proof fn lemma_falling(open: int, events: Seq<EventView>)
    requires
        falling(events),
        open + nesting::depth(events) >= 0,
    ensures
        nesting::closes_opened(open, events),
    decreases events.len(),
{
    if events.len() > 0 {
        let rest = events.drop_last();
        lemma_falling(open, rest);
        assert forall|k: int| 0 <= k <= events.len() implies open + nesting::depth(
            #[trigger] events.take(k),
        ) >= 0 by {
            if k < events.len() {
                assert(events.take(k) =~= rest.take(k));
            } else {
                assert(events.take(k) =~= events);
            }
        }
    } else {
        assert forall|k: int| 0 <= k <= 0 implies open + nesting::depth(#[trigger] events.take(k))
            >= 0 by {
            assert(events.take(k) =~= events);
        }
    }
}

/// Every event but the last is plain, and the last one ends the document.
pub open spec fn ends_document(events: Seq<EventView>) -> bool {
    &&& events.len() > 0
    &&& events.last() == EventView::DocumentEnd
    &&& forall|i: int| 0 <= i < events.len() - 1 ==> plain(#[trigger] events[i])
}

/// The end of input closes the innermost context, or ends the document.
proof fn lemma_close_at_eof(src: Seq<u8>, open: int, root: Context, m: Machine)
    requires
        sound(src, open, root, m),
        falling(m.queue),
    ensures
        ({
            let (event, next) = machine::close_at_eof(src, m);
            &&& event matches Some(e) && plain(e) && nesting::change(e) == -1
            &&& if next.stack.len() > 0 {
                &&& sound(src, open - 1, root, next)
                &&& next.lex == m.lex
                &&& next.buffer == m.buffer
                &&& next.state == m.state
            } else {
                &&& next.state == State::Done
                &&& ends_document(next.queue)
                &&& nesting::closes_opened(open - 1, next.queue)
            }
        }),
    decreases m.stack.len(),
{
    lemma_dangling(src, open, root, m);
    let m1 = machine::with_dangling_docs(m);
    assert(falling(m1.queue));
    assert(m1.stack.len() <= open + nesting::depth(m1.queue) && m1.stack.len() > 0 && m1.stack[0]
        == root && root is Object) by {
        reveal(within);
    }
    if machine::top(m1) == Some(Context::AttributeObject) {
        let end = EventView::ObjectEnd { span: machine::eof_span(src) };
        lemma_queued_end(src, open, root, m1, end);
        let m2 = machine::queued(machine::pop(m1), seq![end]);
        lemma_queued_flat(src, open, root, m2, seq![EventView::EntryEnd]);
        let m3 = machine::queued(machine::pop(m1), seq![end, EventView::EntryEnd]);
        assert(m3.queue =~= machine::queued(m2, seq![EventView::EntryEnd]).queue);
        lemma_close_at_eof(src, open, root, m3);
    } else {
        let errors: Seq<EventView> = match machine::top(m1) {
            Some(Context::Object { implicit: true }) => Seq::empty(),
            Some(Context::Object { implicit: false }) => seq![
                emit::error(machine::root_span(), ParseErrorKindView::UnclosedObject),
            ],
            _ => seq![emit::error(machine::root_span(), ParseErrorKindView::UnclosedSequence)],
        };
        lemma_queued_flat(src, open, root, m1, errors);
        let m2 = machine::queued(m1, errors);
        assert(m2.stack.len() <= open + nesting::depth(m2.queue)) by {
            reveal(within);
        }
        assert(falling(m2.queue));
        if m1.stack.len() > 1 {
            lemma_falling(open - 1, m2.queue);
            reveal(within);
        } else {
            let last = seq![EventView::DocumentEnd];
            nesting::lemma_depth_one(EventView::DocumentEnd);
            nesting::lemma_depth_add(m2.queue, last);
            lemma_falling(open - 1, m2.queue + last);
            assert(forall|i: int| 0 <= i < m2.queue.len() ==> plain(#[trigger] m2.queue[i])) by {
                reveal(within);
            }
        }
    }
}

// --- tags ---

/// The machine `next` stands where `m` does, or inside of one more context,
/// before its first entry or element.
pub open spec fn stays_or_enters(m: Machine, next: Machine) -> bool {
    ||| next.state == m.state && next.stack == m.stack
    ||| next.state == State::ExpectingEntry
    ||| next.state == State::ExpectingSequenceElement && machine::top(next) == Some(
        Context::Sequence,
    )
}

/// The payload of a tag keeps what waits.
proof fn lemma_tag_payload(src: Seq<u8>, open: int, root: Context, m: Machine, name: Span)
    requires
        sound(src, open, root, m),
    ensures
        sound(src, open, root, machine::tag_payload(src, m, name)),
        stays_or_enters(m, machine::tag_payload(src, m, name)),
{
    reveal(machine::tag_payload);
    lemma_take(src, open, root, m);
    let (next, m1) = machine::take(src, m);
    let adjoins = next.span.start == name.end;
    if adjoins && next.kind == TokenKind::LBrace {
        lemma_queued_start(
            src,
            open,
            root,
            m1,
            emit::object_start(next.span),
            Context::Object { implicit: false },
        );
    } else if adjoins && next.kind == TokenKind::LParen {
        lemma_queued_start(
            src,
            open,
            root,
            m1,
            EventView::SequenceStart { span: next.span },
            Context::Sequence,
        );
    } else if adjoins && next.kind == TokenKind::QuotedScalar {
        lemma_queued_flat(
            src,
            open,
            root,
            m1,
            seq![machine::scalar(src, next.span, ScalarKind::Quoted), EventView::TagEnd],
        );
    } else if adjoins && next.kind == TokenKind::RawScalar {
        lemma_queued_flat(
            src,
            open,
            root,
            m1,
            seq![machine::scalar(src, next.span, ScalarKind::Raw), EventView::TagEnd],
        );
    } else {
        let unit = EventView::Unit { span: Span { start: name.end, end: name.end } };
        lemma_unread(src, open, root, m1, next);
        lemma_queued_flat(
            src,
            open,
            root,
            machine::unread(m1, next),
            seq![unit, EventView::TagEnd],
        );
    }
}

/// A value that starts with `@` keeps what waits.
proof fn lemma_tag_value(src: Seq<u8>, open: int, root: Context, m: Machine, at_span: Span)
    requires
        sound(src, open, root, m),
    ensures
        ({
            let (event, next) = machine::tag_value(src, m, at_span);
            &&& flat(seq![event])
            &&& sound(src, open, root, next)
            &&& stays_or_enters(m, next)
        }),
{
    reveal(machine::tag_value);
    lemma_take(src, open, root, m);
    let (t, m1) = machine::take(src, m);
    if t.kind == TokenKind::BareScalar && t.span.start == at_span.end {
        let end = emit::name_end(src, t.span);
        let name = Span { start: t.span.start, end };
        lemma_checked_name(src, open, root, m1, name);
        let m2 = machine::with_checked_name(src, m1, name);
        if end < t.span.end {
            let unit = EventView::Unit { span: Span { start: end, end: (end + 1) as u32 } };
            lemma_queued_flat(src, open, root, m2, seq![unit, EventView::TagEnd]);
        } else {
            lemma_tag_payload(src, open, root, m2, name);
        }
    } else {
        lemma_unread(src, open, root, m1, t);
    }
}

// --- moves ---

/// After the move `mv` the machine stands inside of its root object, and what
/// was emitted and waits leaves at least its contexts open.
#[verifier::opaque]
pub open spec fn goes_on(src: Seq<u8>, open: int, root: Context, mv: Move) -> bool {
    &&& placed(src, mv.1)
    &&& match mv.0 {
        Some(e) => plain(e) && sound(src, open + nesting::change(e), root, mv.1),
        None => sound(src, open, root, mv.1),
    }
}

/// The move `mv` is the last one. It ends the document, unless it closes the
/// braces around it.
#[verifier::opaque]
pub open spec fn ends(open: int, root: Context, mv: Move) -> bool {
    &&& mv.1.state == State::Done
    &&& mv.0 matches Some(e) && {
        let events = seq![e] + mv.1.queue;
        &&& nesting::closes_opened(open, events)
        &&& forall|i: int| 0 <= i < events.len() - 1 ==> plain(#[trigger] events[i])
        &&& events.last() == EventView::DocumentEnd || plain(events.last())
        &&& root == Context::Object { implicit: true } ==> events.last() == EventView::DocumentEnd
    }
}

/// See [`lemma_step`].
proof fn lemma_at_key(src: Seq<u8>, open: int, root: Context, m: Machine, at_span: Span)
    requires
        sound(src, open, root, m),
        m.state == State::ExpectingEntry,
    ensures
        goes_on(src, open, root, machine::at_key(src, m, at_span)),
{
    reveal(machine::at_key);
    reveal(goes_on);
    lemma_take(src, open, root, m);
    let (t, m1) = machine::take(src, m);
    if t.kind == TokenKind::BareScalar && t.span.start == at_span.end {
        let end = emit::name_end(src, t.span);
        let name = Span { start: t.span.start, end };
        let key_span = Span { start: at_span.start, end };
        lemma_take(src, open, root, m1);
        let (next, m2) = machine::take(src, m1);
        lemma_unread(src, open, root, m2, next);
        let m3 = machine::unread(m2, next);
        lemma_skip_value(src, open, root, m3, 0);
        lemma_checked_name(src, open, root, m3, name);
        let m4 = machine::with_checked_name(src, m3, name);
        lemma_with_docs(src, open, root, m4);
        let key_event = EventView::Key {
            span: key_span,
            tag: Some(crate::text::chars_at(src, name)),
            payload: None,
            kind: ScalarKind::Bare,
        };
        lemma_queued_flat(src, open, root, machine::with_docs(src, m4), seq![key_event]);
    } else {
        lemma_unread(src, open, root, m1, t);
        let m2 = machine::unread(m1, t);
        lemma_with_docs(src, open, root, m2);
        lemma_queued_flat(
            src,
            open,
            root,
            machine::with_docs(src, m2),
            seq![emit::unit_key(at_span)],
        );
    }
}

/// More attributes stand in one more object, which is open.
proof fn lemma_more_attributes(
    src: Seq<u8>,
    open: int,
    root: Context,
    m: Machine,
    key_span: Span,
    value: EventView,
)
    requires
        sound(src, open, root, m),
        flat(seq![value]),
    ensures
        ({
            let (more, next) = machine::more_attributes(src, m, key_span, value);
            &&& more ==> sound(src, open + 1, root, next) && placed(src, next)
            &&& !more ==> sound(src, open, root, next) && next.stack == m.stack
        }),
{
    reveal(machine::more_attributes);
    lemma_take(src, open, root, m);
    let (next, m1) = machine::take(src, m);
    if next.kind == TokenKind::BareScalar {
        lemma_take(src, open, root, m1);
        let (after, m2) = machine::take(src, m1);
        if machine::is_arrow(after, next.span) {
            assert(value == seq![value][0]);
            lemma_queued_flat(src, open, root, m2, machine::entry(src, key_span, value));
            let m3 = machine::queued(m2, machine::entry(src, key_span, value));
            lemma_push(src, open, root, m3, Context::AttributeObject);
            let m4 = machine::push(m3, Context::AttributeObject);
            lemma_take(src, open + 1, root, m4);
            let (t, m5) = machine::take(src, m4);
            lemma_token_to_scalar(src, open + 1, root, m5, t);
            let (value2, m6) = machine::token_to_scalar(src, m5, t);
            assert(value2 == seq![value2][0]);
            lemma_queued_flat(src, open + 1, root, m6, machine::entry(src, next.span, value2));
        } else {
            lemma_unread(src, open, root, m2, after);
            lemma_unread(src, open, root, machine::unread(m2, after), next);
        }
    } else {
        lemma_unread(src, open, root, m1, next);
    }
}

/// The entry of an attribute and the end of its object, which is open.
proof fn lemma_attribute_closed(
    src: Seq<u8>,
    open: int,
    root: Context,
    m: Machine,
    key_span: Span,
    value: EventView,
)
    requires
        sound(src, open, root, m),
        flat(seq![value]),
    ensures
        ({
            let entry = machine::entry(src, key_span, value);
            let end = EventView::ObjectEnd { span: key_span };
            &&& sound(src, open + 1, root, machine::queued(m, entry + seq![end]))
            &&& sound(
                src,
                open + 1,
                root,
                machine::queued(m, entry + seq![end, EventView::EntryEnd]),
            )
        }),
{
    let entry = machine::entry(src, key_span, value);
    let end = EventView::ObjectEnd { span: key_span };
    assert(value == seq![value][0]);
    lemma_queued_flat(src, open, root, m, entry);
    let m1 = machine::queued(m, entry);
    lemma_queued_surplus_end(src, open, root, m1, end);
    let m2 = machine::queued(m1, seq![end]);
    lemma_queued_flat(src, open + 1, root, m2, seq![EventView::EntryEnd]);
    assert(m2.queue =~= m.queue + (entry + seq![end]));
    assert(machine::queued(m2, seq![EventView::EntryEnd]).queue =~= m.queue + (entry + seq![
        end,
        EventView::EntryEnd,
    ]));
}

/// See [`lemma_step`].
proof fn lemma_attribute_value(
    src: Seq<u8>,
    open: int,
    root: Context,
    m: Machine,
    key_span: Span,
)
    requires
        sound(src, open, root, m),
    ensures
        goes_on(src, open, root, machine::attribute_value(src, m, key_span)),
{
    reveal(machine::attribute_value);
    reveal(goes_on);
    lemma_take(src, open, root, m);
    let (t, m1) = machine::take(src, m);
    let opening = seq![
        EventView::EntryStart,
        machine::key(src, key_span, ScalarKind::Bare),
    ];
    match t.kind {
        TokenKind::BareScalar | TokenKind::QuotedScalar | TokenKind::RawScalar => {
            lemma_token_to_scalar(src, open, root, m1, t);
            let (value, m2) = machine::token_to_scalar(src, m1, t);
            lemma_more_attributes(src, open, root, m2, key_span, value);
            let (more, m3) = machine::more_attributes(src, m2, key_span, value);
            if !more {
                lemma_attribute_closed(src, open, root, m3, key_span, value);
            }
        },
        TokenKind::LBrace => {
            let start = emit::object_start(t.span);
            lemma_more_open(src, open, root, m1);
            lemma_queued_flat(src, open + 1, root, m1, opening);
            let m2 = machine::queued(m1, opening);
            lemma_queued_start(
                src,
                open + 1,
                root,
                m2,
                start,
                Context::Object { implicit: false },
            );
            assert(m2.queue + seq![start] =~= m1.queue + (opening + seq![start]));
        },
        TokenKind::LParen => {
            let start = EventView::SequenceStart { span: t.span };
            lemma_more_open(src, open, root, m1);
            lemma_queued_flat(src, open + 1, root, m1, opening);
            let m2 = machine::queued(m1, opening);
            lemma_queued_start(src, open + 1, root, m2, start, Context::Sequence);
            assert(m2.queue + seq![start] =~= m1.queue + (opening + seq![start]));
        },
        TokenKind::At => {
            lemma_tag_value(src, open, root, m1, t.span);
            let (value, m2) = machine::tag_value(src, m1, t.span);
            lemma_attribute_closed(src, open, root, m2, key_span, value);
        },
        _ => {
            lemma_queued_flat(
                src,
                open,
                root,
                m1,
                seq![
                    emit::error(t.span, ParseErrorKindView::ExpectedValue),
                    EventView::EntryEnd,
                ],
            );
        },
    }
}

/// One more event that opens and closes nothing.
proof fn lemma_inserted(open: int, events: Seq<EventView>, at: int, e: EventView)
    requires
        0 <= at <= events.len(),
        nesting::change(e) == 0,
        nesting::closes_opened(open, events),
    ensures
        nesting::depth(events.insert(at, e)) == nesting::depth(events),
        nesting::closes_opened(open, events.insert(at, e)),
{
    let before = events.take(at);
    let after = events.skip(at);
    let all = events.insert(at, e);
    nesting::lemma_depth_one(e);
    nesting::lemma_depth_add(before, after);
    nesting::lemma_depth_add(before, seq![e]);
    nesting::lemma_depth_add(before + seq![e], after);
    assert(events =~= before + after);
    assert(all =~= before + seq![e] + after);
    assert forall|k: int| 0 <= k <= all.len() implies open + nesting::depth(#[trigger] all.take(k))
        >= 0 by {
        if k <= at {
            assert(all.take(k) =~= events.take(k));
        } else {
            assert(all.take(k) =~= before + seq![e] + after.take(k - at - 1));
            assert(events.take(k - 1) =~= before + after.take(k - at - 1));
            nesting::lemma_depth_add(before, after.take(k - at - 1));
            nesting::lemma_depth_add(before + seq![e], after.take(k - at - 1));
        }
    }
}

/// A tag as the value of an attribute keeps what waits.
proof fn lemma_attribute_tag(
    src: Seq<u8>,
    open: int,
    root: Context,
    m: Machine,
    key_span: Span,
    at_span: Span,
)
    requires
        sound(src, open, root, m),
        machine::top(m) == Some(Context::AttributeObject),
    ensures
        sound(src, open, root, machine::attribute_tag(src, m, key_span, at_span)),
        placed(src, machine::attribute_tag(src, m, key_span, at_span)),
{
    reveal(machine::attribute_tag);
    lemma_tag_value(src, open, root, m, at_span);
    progress::lemma_tag_appends(src, m, at_span);
    let (value, m1) = machine::tag_value(src, m, at_span);
    assert(value == seq![value][0]);
    let at = m.queue.len() as int;
    let m2 = Machine { queue: m1.queue.insert(at, value), ..m1 };
    assert(sound(src, open, root, m2)) by {
        reveal(within);
        lemma_inserted(open, m1.queue, at, value);
        assert forall|i: int| 0 <= i < m2.queue.len() implies plain(#[trigger] m2.queue[i]) by {
            if i < at {
                assert(m2.queue[i] == m1.queue[i]);
            } else if i > at {
                assert(m2.queue[i] == m1.queue[i - 1]);
            }
        }
    }
    lemma_queued_flat(src, open, root, m2, seq![EventView::EntryEnd]);
    assert(m1.stack.len() > m.stack.len() || m1.stack == m.stack) by {
        reveal(machine::tag_value);
        reveal(machine::tag_payload);
    }
    assert(m1.stack.len() > m.stack.len() ==> m1.state == State::ExpectingEntry || m1.state
        == State::ExpectingSequenceElement) by {
        reveal(machine::tag_value);
        reveal(machine::tag_payload);
    }
}

/// A value that is no scalar, as the value of an attribute, keeps what waits.
proof fn lemma_nested_attribute(
    src: Seq<u8>,
    open: int,
    root: Context,
    m: Machine,
    key_span: Span,
    t: Token,
)
    requires
        sound(src, open, root, m),
    ensures
        sound(src, open + 1, root, machine::nested_attribute(src, m, key_span, t)),
        placed(src, machine::nested_attribute(src, m, key_span, t)),
{
    reveal(machine::nested_attribute);
    let opening = seq![EventView::EntryStart, machine::key(src, key_span, ScalarKind::Bare)];
    lemma_queued_flat(src, open, root, m, opening);
    lemma_push(src, open, root, machine::queued(m, opening), Context::AttributeObject);
    let m1 = machine::push(machine::queued(m, opening), Context::AttributeObject);
    if t.kind == TokenKind::LBrace {
        lemma_queued_start(
            src,
            open + 1,
            root,
            m1,
            emit::object_start(t.span),
            Context::Object { implicit: false },
        );
    } else if t.kind == TokenKind::LParen {
        lemma_queued_start(
            src,
            open + 1,
            root,
            m1,
            EventView::SequenceStart { span: t.span },
            Context::Sequence,
        );
    } else {
        lemma_attribute_tag(src, open + 1, root, m1, key_span, t.span);
    }
}

/// See [`lemma_step`].
proof fn lemma_attribute_chain(
    src: Seq<u8>,
    open: int,
    root: Context,
    m: Machine,
    key_span: Span,
)
    requires
        sound(src, open, root, m),
    ensures
        goes_on(src, open, root, machine::attribute_chain(src, m, key_span)),
{
    reveal(machine::attribute_chain);
    lemma_take(src, open, root, m);
    let (t, m1) = machine::take(src, m);
    let nested = t.kind == TokenKind::LBrace || t.kind == TokenKind::LParen || t.kind
        == TokenKind::At;
    if nested {
        lemma_nested_attribute(src, open, root, m1, key_span, t);
        reveal(goes_on);
    } else {
        reveal(goes_on);
        lemma_token_to_scalar(src, open, root, m1, t);
        let (value, m2) = machine::token_to_scalar(src, m1, t);
        lemma_more_attributes(src, open, root, m2, key_span, value);
        let (more, m3) = machine::more_attributes(src, m2, key_span, value);
        if !more {
            lemma_attribute_closed(src, open, root, m3, key_span, value);
        }
    }
}

/// Leaving the innermost context, whose end is emitted before the others.
proof fn lemma_pop(src: Seq<u8>, open: int, root: Context, m: Machine)
    requires
        sound(src, open, root, m),
        falling(m.queue),
        m.stack.len() > 1,
    ensures
        sound(src, open - 1, root, machine::pop(m)),
{
    reveal(within);
    lemma_falling(open - 1, m.queue);
}

/// Closing the innermost context, whose end is emitted before the others.
proof fn lemma_closed(src: Seq<u8>, open: int, root: Context, m: Machine)
    requires
        sound(src, open, root, m),
        falling(m.queue),
        m.stack.len() > 1,
    ensures
        sound(src, open - 1, root, machine::closed(m)),
        placed(src, machine::closed(m)),
{
    lemma_pop(src, open, root, m);
    lemma_queued_flat(src, open - 1, root, machine::pop(m), seq![EventView::EntryEnd]);
}

/// What is open is at least what the machine stands in.
proof fn lemma_open(src: Seq<u8>, open: int, root: Context, m: Machine)
    requires
        sound(src, open, root, m),
        m.queue.len() == 0,
    ensures
        open >= m.stack.len() > 0,
        m.stack[0] == root,
        root is Object,
        falling(m.queue),
{
    reveal(within);
}

/// See [`lemma_step`].
proof fn lemma_closed_at_eof(src: Seq<u8>, open: int, root: Context, m: Machine)
    requires
        sound(src, open, root, m),
        falling(m.queue),
        open > 0,
        at_end(src, m.lex, m.buffer),
        m.state == State::ExpectingEntry || m.state == State::ExpectingSequenceElement,
    ensures
        ({
            let mv = machine::close_at_eof(src, m);
            goes_on(src, open, root, mv) || ends(open, root, mv)
        }),
{
    lemma_close_at_eof(src, open, root, m);
    let (event, next) = machine::close_at_eof(src, m);
    let e = event->0;
    if next.stack.len() > 0 {
        reveal(goes_on);
    } else {
        reveal(ends);
        nesting::lemma_closes_opened_one(open, e);
        nesting::lemma_closes_opened_add(open, seq![e], next.queue);
        let events = seq![e] + next.queue;
        assert forall|i: int| 0 <= i < events.len() - 1 implies plain(#[trigger] events[i]) by {
            if i > 0 {
                assert(events[i] == next.queue[i - 1]);
            }
        }
    }
}

/// See [`lemma_step`].
proof fn lemma_close_brace(src: Seq<u8>, open: int, root: Context, m: Machine, span: Span)
    requires
        sound(src, open, root, m),
        m.queue.len() == 0,
        m.state == State::ExpectingEntry,
    ensures
        ({
            let mv = machine::close_brace(m, span);
            goes_on(src, open, root, mv) || ends(open, root, mv)
        }),
{
    lemma_open(src, open, root, m);
    lemma_dangling(src, open, root, m);
    let m1 = machine::with_dangling_docs(m);
    let e = EventView::ObjectEnd { span };
    if machine::top(m1) == Some(Context::Object { implicit: false }) {
        if m1.stack.len() > 1 {
            lemma_closed(src, open, root, m1);
            reveal(goes_on);
        } else {
            reveal(ends);
            lemma_flat(open - 1, m1.queue);
            nesting::lemma_closes_opened_one(open, e);
            nesting::lemma_closes_opened_add(open, seq![e], m1.queue);
        }
    } else {
        reveal(goes_on);
    }
}

/// See [`lemma_step`].
proof fn lemma_key_read(
    src: Seq<u8>,
    open: int,
    root: Context,
    m: Machine,
    span: Span,
    kind: ScalarKind,
)
    requires
        sound(src, open, root, m),
    ensures
        goes_on(src, open, root, machine::key_read(src, m, span, kind)),
{
    reveal(goes_on);
    lemma_with_docs(src, open, root, m);
    lemma_queued_flat(
        src,
        open,
        root,
        machine::with_docs(src, m),
        seq![machine::key(src, span, kind)],
    );
}

/// See [`lemma_step`].
proof fn lemma_expecting_entry(src: Seq<u8>, open: int, root: Context, m0: Machine)
    requires
        sound(src, open, root, m0),
        m0.queue.len() == 0,
        m0.state == State::ExpectingEntry,
    ensures
        ({
            let mv = machine::expecting_entry(src, m0);
            goes_on(src, open, root, mv) || ends(open, root, mv)
        }),
{
    lemma_take_line(src, open, root, m0);
    let (t, m) = machine::take_line(src, m0);
    lemma_open(src, open, root, m);
    match t.kind {
        TokenKind::Eof => lemma_closed_at_eof(src, open, root, m),
        TokenKind::RBrace => lemma_close_brace(src, open, root, m, t.span),
        TokenKind::BareScalar => lemma_key_read(src, open, root, m, t.span, ScalarKind::Bare),
        TokenKind::QuotedScalar => lemma_key_read(src, open, root, m, t.span, ScalarKind::Quoted),
        TokenKind::RawScalar => lemma_key_read(src, open, root, m, t.span, ScalarKind::Raw),
        TokenKind::At => lemma_at_key(src, open, root, m, t.span),
        TokenKind::HeredocStart => {
            lemma_heredoc(src, open, root, m);
            reveal(goes_on);
        },
        _ => {
            reveal(goes_on);
        },
    }
}

/// See [`lemma_step`].
proof fn lemma_after_key(src: Seq<u8>, open: int, root: Context, m0: Machine, key_span: Span)
    requires
        sound(src, open, root, m0),
    ensures
        goes_on(src, open, root, machine::after_key(src, m0, key_span)),
{
    lemma_take(src, open, root, m0);
    let (t, m) = machine::take(src, m0);
    let unit = seq![EventView::Unit { span: key_span }, EventView::EntryEnd];
    let spacing = seq![
        emit::error(t.span, ParseErrorKindView::MissingWhitespaceBeforeBlock),
    ];
    match t.kind {
        TokenKind::Newline
        | TokenKind::Eof
        | TokenKind::RBrace
        | TokenKind::RParen
        | TokenKind::Comma => {
            lemma_unread(src, open, root, m, t);
            lemma_queued_flat(src, open, root, machine::unread(m, t), unit);
            reveal(goes_on);
        },
        TokenKind::LBrace => {
            lemma_queued_flat(src, open, root, m, spacing);
            let m1 = machine::with_spacing(m, key_span, t.span);
            lemma_push(src, open, root, m1, Context::Object { implicit: false });
            reveal(goes_on);
        },
        TokenKind::LParen => {
            lemma_queued_flat(src, open, root, m, spacing);
            let m1 = machine::with_spacing(m, key_span, t.span);
            lemma_push(src, open, root, m1, Context::Sequence);
            reveal(goes_on);
        },
        TokenKind::At => {
            lemma_tag_value(src, open, root, m, t.span);
            let event = machine::tag_value(src, m, t.span).0;
            assert(event == seq![event][0]);
            reveal(goes_on);
        },
        TokenKind::BareScalar => {
            lemma_take(src, open, root, m);
            let (next, m1) = machine::take(src, m);
            if machine::is_arrow(next, t.span) {
                lemma_attribute_chain(src, open, root, m1, t.span);
            } else {
                lemma_unread(src, open, root, m1, next);
                reveal(goes_on);
            }
        },
        TokenKind::HeredocStart => {
            lemma_heredoc(src, open, root, m);
            reveal(goes_on);
        },
        _ => {
            lemma_queued_flat(src, open, root, m, unit);
            reveal(goes_on);
        },
    }
}

/// See [`lemma_step`].
proof fn lemma_after_value(src: Seq<u8>, open: int, root: Context, m0: Machine)
    requires
        sound(src, open, root, m0),
    ensures
        goes_on(src, open, root, machine::after_value(src, m0)),
{
    reveal(goes_on);
    lemma_take(src, open, root, m0);
    let (t, m) = machine::take(src, m0);
    let end = seq![EventView::EntryEnd];
    if machine::ends_entry(t.kind) {
        lemma_unread(src, open, root, m, t);
        lemma_queued_flat(src, open, root, machine::unread(m, t), end);
    } else if machine::starts_atom(t.kind) && t.kind != TokenKind::LineComment {
        let errors = seq![emit::error(t.span, ParseErrorKindView::TooManyAtoms)];
        lemma_queued_flat(src, open, root, m, errors);
        let m1 = machine::queued(m, errors);
        lemma_skip_to_entry_boundary(src, open, root, m1);
        lemma_queued_flat(src, open, root, machine::skip_to_entry_boundary(src, m1), end);
    } else {
        lemma_queued_flat(src, open, root, m, end);
    }
}

/// The end of the attributes of a key keeps what waits.
proof fn lemma_chain_closed(src: Seq<u8>, open: int, root: Context, m: Machine)
    requires
        sound(src, open, root, m),
        machine::top(m) == Some(Context::AttributeObject),
    ensures
        sound(src, open, root, machine::chain_closed(m)),
{
    assert(m.stack.len() > 1) by {
        reveal(within);
    }
    let end = EventView::ObjectEnd { span: machine::root_span() };
    lemma_queued_end(src, open, root, m, end);
    let m1 = machine::queued(machine::pop(m), seq![end]);
    lemma_queued_flat(src, open, root, m1, seq![EventView::EntryEnd]);
    assert(m1.queue + seq![EventView::EntryEnd] =~= m.queue + seq![end, EventView::EntryEnd]);
}

/// See [`lemma_step`].
proof fn lemma_in_attribute_chain(
    src: Seq<u8>,
    open: int,
    root: Context,
    m0: Machine,
    obj_start_span: Span,
)
    requires
        sound(src, open, root, m0),
        machine::top(m0) == Some(Context::AttributeObject),
    ensures
        goes_on(src, open, root, machine::in_attribute_chain(src, m0, obj_start_span)),
{
    reveal(goes_on);
    lemma_take(src, open, root, m0);
    let (t, m) = machine::take(src, m0);
    if t.kind == TokenKind::BareScalar {
        lemma_take(src, open, root, m);
        let (next, m1) = machine::take(src, m);
        if machine::is_arrow(next, t.span) {
            lemma_take(src, open, root, m1);
            let (t2, m2) = machine::take(src, m1);
            lemma_token_to_scalar(src, open, root, m2, t2);
            let (value, m3) = machine::token_to_scalar(src, m2, t2);
            assert(value == seq![value][0]);
            lemma_queued_flat(src, open, root, m3, machine::entry(src, t.span, value));
        } else {
            let errors = seq![emit::error(t.span, ParseErrorKindView::TooManyAtoms)];
            lemma_unread(src, open, root, m1, next);
            lemma_queued_flat(src, open, root, machine::unread(m1, next), errors);
            let m2 = machine::queued(machine::unread(m1, next), errors);
            lemma_skip_to_entry_boundary(src, open, root, m2);
            lemma_chain_closed(src, open, root, machine::skip_to_entry_boundary(src, m2));
        }
    } else if t.kind == TokenKind::LineComment {
        lemma_chain_closed(src, open, root, m);
    } else {
        lemma_unread(src, open, root, m, t);
        lemma_chain_closed(src, open, root, machine::unread(m, t));
    }
}

/// See [`lemma_step`].
proof fn lemma_expecting_sequence_element(src: Seq<u8>, open: int, root: Context, m0: Machine)
    requires
        sound(src, open, root, m0),
        placed(src, m0),
        m0.queue.len() == 0,
        m0.state == State::ExpectingSequenceElement,
    ensures
        ({
            let mv = machine::expecting_sequence_element(src, m0);
            goes_on(src, open, root, mv) || ends(open, root, mv)
        }),
{
    lemma_take_line(src, open, root, m0);
    let (t, m) = machine::take_line(src, m0);
    lemma_open(src, open, root, m);
    match t.kind {
        TokenKind::RParen => {
            lemma_closed(src, open, root, m);
            reveal(goes_on);
        },
        TokenKind::Eof => {
            let errors = seq![emit::error(t.span, ParseErrorKindView::UnclosedSequence)];
            lemma_queued_flat(src, open, root, m, errors);
            lemma_closed_at_eof(src, open, root, machine::queued(m, errors));
        },
        TokenKind::HeredocStart => {
            lemma_heredoc(src, open, root, m);
            reveal(goes_on);
        },
        TokenKind::LBrace => {
            lemma_push(src, open, root, m, Context::Object { implicit: false });
            reveal(goes_on);
        },
        TokenKind::LParen => {
            lemma_push(src, open, root, m, Context::Sequence);
            reveal(goes_on);
        },
        TokenKind::At => {
            lemma_tag_value(src, open, root, m, t.span);
            let event = machine::tag_value(src, m, t.span).0;
            assert(event == seq![event][0]);
            reveal(goes_on);
        },
        _ => {
            reveal(goes_on);
        },
    }
}

/// Every move inside of the root object stays there or is the last one.
pub proof fn lemma_step(src: Seq<u8>, open: int, root: Context, m: Machine)
    requires
        sound(src, open, root, m),
        placed(src, m),
        m.queue.len() == 0,
    ensures
        goes_on(src, open, root, machine::step(src, m)) || ends(
            open,
            root,
            machine::step(src, m),
        ),
{
    match m.state {
        State::ExpectingEntry => lemma_expecting_entry(src, open, root, m),
        State::AfterBareKey { key_span } => {
            lemma_take(src, open, root, m);
            let (t, m1) = machine::take(src, m);
            if machine::is_arrow(t, key_span) {
                lemma_attribute_value(src, open, root, m1, key_span);
            } else {
                lemma_unread(src, open, root, m1, t);
                reveal(goes_on);
            }
        },
        State::AfterKey { key_span } => lemma_after_key(src, open, root, m, key_span),
        State::AfterValue => lemma_after_value(src, open, root, m),
        State::InAttributeChain { obj_start_span } => lemma_in_attribute_chain(
            src,
            open,
            root,
            m,
            obj_start_span,
        ),
        State::ExpectingSequenceElement => lemma_expecting_sequence_element(src, open, root, m),
        _ => {},
    }
}

// --- all events ---

/// After the last move, the queue is all that is emitted.
pub proof fn lemma_done(src: Seq<u8>, m: Machine)
    requires
        progress::fits(src, m),
        m.state == State::Done,
    ensures
        run::run(src, m) == m.queue,
    decreases m.queue.len(),
{
    if m.queue.len() > 0 {
        run::lemma_dequeued(src, m);
        lemma_done(src, run::dequeued(m));
        assert(run::run(src, m) =~= m.queue);
    } else {
        assert(run::run(src, m) =~= m.queue);
    }
}

/// Where nothing waits, the events are those of the next move and of the
/// machine after it.
pub proof fn lemma_run_step(src: Seq<u8>, m: Machine)
    requires
        progress::fits(src, m),
        m.queue.len() == 0,
        m.state != State::Done,
    ensures
        ({
            let (event, after) = machine::step(src, m);
            &&& progress::fits(src, after)
            &&& progress::distance(src, after) < progress::distance(src, m)
            &&& 0 <= progress::distance(src, after)
            &&& run::run(src, m) == match event {
                Some(e) => seq![e] + run::run(src, after),
                None => run::run(src, after),
            }
        }),
{
    progress::lemma_step(src, m);
    reveal(progress::advances);
}

/// The first event of a queue leaves the rest to be emitted.
pub proof fn lemma_dequeued(src: Seq<u8>, open: int, root: Context, m: Machine)
    requires
        sound(src, open, root, m),
        m.queue.len() > 0,
    ensures
        plain(m.queue[0]),
        open >= 0,
        open + nesting::change(m.queue[0]) >= 0,
        sound(src, open + nesting::change(m.queue[0]), root, run::dequeued(m)),
{
    reveal(within);
    let first = seq![m.queue[0]];
    let rest = m.queue.drop_first();
    nesting::lemma_depth_one(m.queue[0]);
    nesting::lemma_depth_add(first, rest);
    assert(m.queue =~= first + rest);
    assert(m.queue.take(0) =~= Seq::empty());
    assert(m.queue.take(1) =~= first);
    assert forall|k: int| 0 <= k <= rest.len() implies open + nesting::change(m.queue[0])
        + nesting::depth(#[trigger] rest.take(k)) >= 0 by {
        assert(m.queue.take(k + 1) =~= first + rest.take(k));
        nesting::lemma_depth_add(first, rest.take(k));
    }
}

/// Every event but the last is plain, and so is the last one, or else it ends
/// the document. It does where there are no braces around the document.
pub open spec fn from_root(root: Context, events: Seq<EventView>) -> bool {
    &&& events.len() > 0
    &&& forall|i: int| 0 <= i < events.len() - 1 ==> plain(#[trigger] events[i])
    &&& events.last() == EventView::DocumentEnd || plain(events.last())
    &&& root == Context::Object { implicit: true } ==> events.last() == EventView::DocumentEnd
}

/// One more plain event before the others.
proof fn lemma_from_root(open: int, root: Context, e: EventView, rest: Seq<EventView>)
    requires
        plain(e),
        open >= 0,
        open + nesting::change(e) >= 0,
        nesting::closes_opened(open + nesting::change(e), rest),
        from_root(root, rest),
    ensures
        nesting::closes_opened(open, seq![e] + rest),
        from_root(root, seq![e] + rest),
{
    nesting::lemma_closes_opened_one(open, e);
    nesting::lemma_closes_opened_add(open, seq![e], rest);
    let all = seq![e] + rest;
    assert forall|i: int| 0 <= i < all.len() - 1 implies plain(#[trigger] all[i]) by {
        if i > 0 {
            assert(all[i] == rest[i - 1]);
        }
    }
}

/// What is emitted from inside of the root object on.
proof fn lemma_run(src: Seq<u8>, open: int, root: Context, m: Machine)
    requires
        progress::fits(src, m),
        sound(src, open, root, m),
        placed(src, m),
    ensures
        nesting::closes_opened(open, run::run(src, m)),
        from_root(root, run::run(src, m)),
    decreases progress::distance(src, m),
{
    if m.queue.len() > 0 {
        run::lemma_dequeued(src, m);
        lemma_dequeued(src, open, root, m);
        lemma_run(src, open + nesting::change(m.queue[0]), root, run::dequeued(m));
        lemma_from_root(open, root, m.queue[0], run::run(src, run::dequeued(m)));
        assert(run::run(src, m) == seq![m.queue[0]] + run::run(src, run::dequeued(m)));
    } else {
        lemma_open(src, open, root, m);
        lemma_step(src, open, root, m);
        lemma_run_step(src, m);
        let (event, after) = machine::step(src, m);
        if goes_on(src, open, root, (event, after)) {
            reveal(goes_on);
            match event {
                Some(e) => {
                    lemma_run(src, open + nesting::change(e), root, after);
                    lemma_from_root(open, root, e, run::run(src, after));
                },
                None => lemma_run(src, open, root, after),
            }
        } else {
            reveal(ends);
            lemma_done(src, after);
        }
    }
}

/// `events` neither start the document nor go on after its end.
pub open spec fn unmarked(expr: bool, events: Seq<EventView>) -> bool {
    &&& forall|i: int| 0 <= i < events.len() ==> #[trigger] events[i] != EventView::DocumentStart
    &&& forall|i: int, j: int|
        0 <= i < j < events.len() && #[trigger] events[i] == EventView::DocumentEnd ==> expr
            && #[trigger] events[j] == EventView::DocumentEnd
}

/// The start of a root object without braces.
pub open spec fn root_start() -> EventView {
    emit::open_object_start(machine::root_span())
}

/// The start of the root object is its outermost context.
pub proof fn lemma_root(src: Seq<u8>, m: Machine) -> (root: Context)
    requires
        m.state == State::BeforeRoot,
        m.queue.len() == 0,
        m.stack.len() == 0,
        eof_last(src, m.lex, m.buffer),
        ({
            let kind = machine::take(src, m).0.kind;
            &&& kind != TokenKind::Eof
            &&& kind != TokenKind::LineComment
            &&& kind != TokenKind::DocComment
            &&& kind != TokenKind::Newline
        }),
    ensures
        sound(src, 1, root, machine::step(src, m).1),
        placed(src, machine::step(src, m).1),
        root == (Context::Object {
            implicit: machine::take(src, m).0.kind != TokenKind::LBrace,
        }),
{
    lemma_take_tokens(src, m);
    let (t, m1) = machine::take(src, m);
    let after = machine::step(src, m).1;
    reveal(within);
    lemma_flat(1, after.queue);
    let buffer = seq![t] + m1.buffer;
    assert forall|i: int| 1 <= i < buffer.len() implies #[trigger] buffer[i] == m1.buffer[i
        - 1] by {}
    Context::Object { implicit: t.kind != TokenKind::LBrace }
}

/// What is emitted before the root object and from there on.
proof fn lemma_before_root(src: Seq<u8>, m: Machine)
    requires
        progress::fits(src, m),
        m.state == State::BeforeRoot,
        m.queue.len() == 0,
        m.stack.len() == 0,
        eof_last(src, m.lex, m.buffer),
    ensures
        ({
            let events = run::run(src, m);
            &&& nesting::closes_opened(0, events)
            &&& events.len() > 0
            &&& unmarked(m.expr, events)
            &&& events.contains(root_start()) ==> events.last() == EventView::DocumentEnd
        }),
    decreases progress::distance(src, m),
{
    lemma_take_tokens(src, m);
    lemma_run_step(src, m);
    let (t, m1) = machine::take(src, m);
    let (event, after) = machine::step(src, m);
    let events = run::run(src, m);
    let rest = run::run(src, after);
    match t.kind {
        TokenKind::Eof => {
            lemma_done(src, after);
            let e = event->0;
            if m.expr {
                lemma_ended(0, e, EventView::DocumentEnd);
                assert(events =~= seq![e, EventView::DocumentEnd]);
            } else {
                let end = EventView::ObjectEnd { span: machine::root_span() };
                nesting::lemma_closes_opened_one(0, e);
                lemma_ended(1, end, EventView::DocumentEnd);
                nesting::lemma_closes_opened_add(0, seq![e], seq![end, EventView::DocumentEnd]);
                assert(events =~= seq![e, end, EventView::DocumentEnd]);
                assert(events =~= seq![e] + seq![end, EventView::DocumentEnd]);
            }
        },
        TokenKind::LineComment => {
            lemma_before_root(src, after);
            let e = event->0;
            nesting::lemma_closes_opened_one(0, e);
            nesting::lemma_closes_opened_add(0, seq![e], rest);
            assert forall|i: int| 0 < i < events.len() implies #[trigger] events[i]
                == rest[i - 1] by {}
            if events.contains(root_start()) {
                let i = choose|i: int| 0 <= i < events.len() && events[i] == root_start();
                assert(rest[i - 1] == root_start());
            }
        },
        TokenKind::DocComment | TokenKind::Newline => lemma_before_root(src, after),
        _ => {
            let e = event->0;
            let root = lemma_root(src, m);
            lemma_run(src, 1, root, after);
            nesting::lemma_closes_opened_one(0, e);
            nesting::lemma_closes_opened_add(0, seq![e], rest);
            assert forall|i: int| 0 < i < events.len() implies #[trigger] events[i]
                == rest[i - 1] by {}
            assert(events.last() == rest.last());
            assert forall|i: int| 0 <= i < rest.len() implies #[trigger] rest[i]
                != root_start() by {
                if i < rest.len() - 1 {
                    assert(plain(rest[i]));
                }
            }
        },
    }
}

/// Two events of which the second one changes nothing.
proof fn lemma_ended(open: int, first: EventView, second: EventView)
    requires
        open >= 0,
        open + nesting::change(first) >= 0,
        nesting::change(second) == 0,
    ensures
        nesting::closes_opened(open, seq![first, second]),
{
    nesting::lemma_closes_opened_one(open, first);
    nesting::lemma_closes_opened_one(open + nesting::change(first), second);
    nesting::lemma_closes_opened_add(open, seq![first], seq![second]);
    assert(seq![first, second] =~= seq![first] + seq![second]);
}

/// What follows the start of the document.
proof fn lemma_started(src: Seq<u8>, expr: bool)
    requires
        lexer::source_fits(src),
    ensures
        ({
            let events = run::run(src, run::start(expr));
            &&& events.len() >= 2
            &&& events[0] == EventView::DocumentStart
            &&& nesting::closes_opened(0, events)
            &&& unmarked(expr, events.drop_first())
            &&& events.contains(root_start()) ==> events.last() == EventView::DocumentEnd
        }),
{
    run::lemma_start(src, expr);
    lemma_run_step(src, run::start(expr));
    let after = machine::step(src, run::start(expr)).1;
    lemma_before_root(src, after);
    let events = run::run(src, run::start(expr));
    let rest = run::run(src, after);
    nesting::lemma_closes_opened_one(0, EventView::DocumentStart);
    nesting::lemma_closes_opened_add(0, seq![EventView::DocumentStart], rest);
    assert(events.drop_first() =~= rest);
    assert(events.last() == rest.last());
    if events.contains(root_start()) {
        let i = choose|i: int| 0 <= i < events.len() && events[i] == root_start();
        assert(rest[i - 1] == root_start());
    }
}

// --- laws ---

/// No event closes an object or a sequence where none is open.
pub proof fn law_nesting(src: Seq<u8>, expr: bool)
    requires
        lexer::source_fits(src),
    ensures
        nesting::closes_opened(0, run::run(src, run::start(expr))),
{
    lemma_started(src, expr);
}

/// The document starts with the first event and with no other. Where the source
/// is a document, only the last event can end it, and does where there are no
/// braces around the document. Where it is a value, nothing but the end follows
/// the end.
pub proof fn law_document(src: Seq<u8>, expr: bool)
    requires
        lexer::source_fits(src),
    ensures
        ({
            let events = run::run(src, run::start(expr));
            &&& events.len() >= 2
            &&& events[0] == EventView::DocumentStart
            &&& forall|i: int|
                0 < i < events.len() ==> #[trigger] events[i] != EventView::DocumentStart
            &&& forall|i: int, j: int|
                0 <= i < j < events.len() && #[trigger] events[i] == EventView::DocumentEnd ==> expr
                    && #[trigger] events[j] == EventView::DocumentEnd
            &&& events.contains(root_start()) ==> events.last() == EventView::DocumentEnd
        }),
{
    lemma_started(src, expr);
    let events = run::run(src, run::start(expr));
    let rest = events.drop_first();
    assert forall|i: int| 0 < i < events.len() implies #[trigger] events[i] == rest[i - 1] by {}
}

} // verus!
