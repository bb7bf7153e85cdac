//! Documents of plain lines, on which both parsers agree.
use crate::ascii;
use crate::emit;
use crate::escape::ShortUnicode;
use crate::event::{EventView, ScalarKind};
use crate::lexer;
use crate::lexer::{LexState, Skip};
use crate::parser2;
use crate::parser3;
use crate::span::Span;
use crate::text;
use crate::token::{Token, TokenKind};
use vstd::prelude::*;

verus! {

// --- plain lines ---

/// A small letter.
pub open spec fn letter(b: u8) -> bool {
    ascii::LOWER_A <= b <= ascii::LOWER_Z
}

/// A small letter or a digit.
pub open spec fn word_byte(b: u8) -> bool {
    letter(b) || ascii::DIGIT_0 <= b <= ascii::DIGIT_9
}

/// A word starts at `p`.
pub open spec fn starts_word(src: Seq<u8>, p: nat) -> bool {
    p < src.len() && letter(src[p as int])
}

/// Where the small letters and digits from `p` on end.
pub open spec fn word_end(src: Seq<u8>, p: nat) -> nat
    decreases src.len() - p,
{
    if p < src.len() && word_byte(src[p as int]) {
        word_end(src, p + 1)
    } else {
        p
    }
}

/// A space stands behind the word at `p`.
pub open spec fn has_value(src: Seq<u8>, p: nat) -> bool {
    let e = word_end(src, p);
    e < src.len() && src[e as int] == ascii::SPACE
}

/// Where the line of a word, or of two, ends that starts at `p`.
pub open spec fn line_end(src: Seq<u8>, p: nat) -> nat {
    if has_value(src, p) {
        word_end(src, word_end(src, p) + 1)
    } else {
        word_end(src, p)
    }
}

/// From `p` on stand lines of one word or of two with a space between them. A
/// word is made of small letters and digits, and starts with a letter.
pub open spec fn plain_lines(src: Seq<u8>, p: nat) -> bool
    decreases src.len() - p,
{
    &&& starts_word(src, p)
    &&& has_value(src, p) ==> starts_word(src, word_end(src, p) + 1)
    &&& line_end(src, p) != src.len() ==> {
        proof {
            lemma_line_end(src, p);
        }
        &&& src[line_end(src, p) as int] == ascii::LF
        &&& p < line_end(src, p) < src.len() && plain_lines(src, line_end(src, p) + 1)
    }
}

/// The end of a line lies within the source.
pub proof fn lemma_line_end(src: Seq<u8>, p: nat)
    requires
        p <= src.len(),
    ensures
        p <= word_end(src, p) <= line_end(src, p) <= src.len(),
        starts_word(src, p) ==> p < word_end(src, p),
{
    lemma_word_end(src, p);
    if has_value(src, p) {
        lemma_word_end(src, word_end(src, p) + 1);
    }
}

/// A word ends within the source, and is made of letters and digits.
proof fn lemma_word_end(src: Seq<u8>, p: nat)
    requires
        p <= src.len(),
    ensures
        p <= word_end(src, p) <= src.len(),
        forall|i: int| p <= i < word_end(src, p) ==> word_byte(#[trigger] src[i]),
        starts_word(src, p) ==> p < word_end(src, p),
    decreases src.len() - p,
{
    if p < src.len() && word_byte(src[p as int]) {
        lemma_word_end(src, p + 1);
    }
}

/// The word at `p`.
pub open spec fn word_span(src: Seq<u8>, p: nat) -> Span {
    Span { start: p as u32, end: word_end(src, p) as u32 }
}

/// The events of the line at `p`: an entry with a key and its value, or unit.
pub open spec fn entry_events(src: Seq<u8>, p: nat) -> Seq<EventView> {
    let key = word_span(src, p);
    let value = if has_value(src, p) {
        let span = word_span(src, word_end(src, p) + 1);
        emit::scalar(src, span, ScalarKind::Bare, ShortUnicode::Kept)
    } else {
        EventView::Unit { span: key }
    };
    seq![
        EventView::EntryStart,
        emit::key(src, key, ScalarKind::Bare, ShortUnicode::Kept),
        value,
        EventView::EntryEnd,
    ]
}

/// The events from the line at `p` on, up to the end of the document.
pub open spec fn line_events(src: Seq<u8>, p: nat) -> Seq<EventView>
    decreases src.len() - p,
{
    let l = line_end(src, p);
    if p < l < src.len() {
        entry_events(src, p) + line_events(src, l + 1)
    } else {
        let eof = Span { start: src.len() as u32, end: src.len() as u32 };
        entry_events(src, p) + seq![EventView::ObjectEnd { span: eof }, EventView::DocumentEnd]
    }
}

/// The events of a document of plain lines.
pub open spec fn document_events(src: Seq<u8>) -> Seq<EventView> {
    seq![EventView::DocumentStart, emit::open_object_start(Span { start: 0, end: 0 })]
        + line_events(src, 0)
}

// --- their tokens ---

/// The lexer at `p`.
pub open spec fn lex_at(p: nat) -> LexState {
    LexState { pos: p, heredoc: None }
}

/// A word ends where a bare scalar does.
proof fn lemma_bare_end(src: Seq<u8>, p: nat)
    requires
        p <= src.len(),
        word_end(src, p) == src.len() || src[word_end(src, p) as int] == ascii::SPACE
            || src[word_end(src, p) as int] == ascii::LF,
    ensures
        lexer::bare_end(src, p) == word_end(src, p),
    decreases src.len() - p,
{
    if p < src.len() && word_byte(src[p as int]) {
        lemma_bare_end(src, p + 1);
    }
}

/// A word is a bare scalar.
proof fn lemma_word(src: Seq<u8>, p: nat)
    requires
        starts_word(src, p),
        word_end(src, p) == src.len() || src[word_end(src, p) as int] == ascii::SPACE
            || src[word_end(src, p) as int] == ascii::LF,
    ensures
        lexer::lex(src, lex_at(p)) == (
            lexer::token(TokenKind::BareScalar, p, word_end(src, p)),
            lex_at(word_end(src, p)),
        ),
        forall|skip: Skip|
            !lexer::skips(skip, TokenKind::BareScalar) ==> #[trigger] lexer::lex_past(
                src,
                lex_at(p),
                skip,
            ) == lexer::lex(src, lex_at(p)),
{
    lemma_word_end(src, p);
    lemma_bare_end(src, p);
    if p + 1 < src.len() {
        let b = src[(p + 1) as int];
        assert(word_byte(b) || b == ascii::SPACE || b == ascii::LF);
        assert(lexer::hashes_end(src, p + 1) == p + 1);
    }
    assert(!lexer::opens_raw(src, p));
}

/// A space before a word is passed over with the blanks.
proof fn lemma_space(src: Seq<u8>, p: nat)
    requires
        p < src.len(),
        src[p as int] == ascii::SPACE,
        starts_word(src, p + 1),
    ensures
        lexer::lex(src, lex_at(p)).0.kind == TokenKind::Whitespace,
        lexer::lex_past(src, lex_at(p), Skip::Blanks) == lexer::lex_past(
            src,
            lex_at(p + 1),
            Skip::Blanks,
        ),
{
    assert(lexer::blanks_end(src, p + 1) == p + 1);
    assert(lexer::blanks_end(src, p) == p + 1);
    lexer::lemma_budget(src, lex_at(p));
    assert(lexer::lex(src, lex_at(p)).1 == lex_at(p + 1));
}

/// The token at the end of a line.
pub open spec fn line_break(src: Seq<u8>, l: nat) -> (Token, LexState) {
    if l < src.len() {
        (lexer::token(TokenKind::Newline, l, l + 1), lex_at(l + 1))
    } else {
        (lexer::token(TokenKind::Eof, l, l), lex_at(l))
    }
}

/// A line ends with a line break, or with the source.
proof fn lemma_line_break(src: Seq<u8>, l: nat)
    requires
        l <= src.len(),
        l < src.len() ==> src[l as int] == ascii::LF,
    ensures
        lexer::lex(src, lex_at(l)) == line_break(src, l),
        lexer::lex_past(src, lex_at(l), Skip::Blanks) == line_break(src, l),
        lexer::lex_past(src, lex_at(l), Skip::Nothing) == line_break(src, l),
{
}

/// What the lines of a document are made of.
proof fn lemma_line(src: Seq<u8>, p: nat)
    requires
        plain_lines(src, p),
    ensures
        p < word_end(src, p) <= line_end(src, p) <= src.len(),
        lexer::lex(src, lex_at(p)) == (
            lexer::token(TokenKind::BareScalar, p, word_end(src, p)),
            lex_at(word_end(src, p)),
        ),
        lexer::lex_past(src, lex_at(p), Skip::Blanks) == lexer::lex(src, lex_at(p)),
        lexer::lex_past(src, lex_at(p), Skip::Lines) == lexer::lex(src, lex_at(p)),
        has_value(src, p) ==> {
            let v = word_end(src, p) + 1;
            &&& lexer::lex_past(src, lex_at(word_end(src, p)), Skip::Blanks) == (
                lexer::token(TokenKind::BareScalar, v, word_end(src, v)),
                lex_at(word_end(src, v)),
            )
            &&& lexer::lex(src, lex_at(word_end(src, p))).0.kind == TokenKind::Whitespace
            &&& v < word_end(src, v)
        },
        lexer::lex(src, lex_at(line_end(src, p))) == line_break(src, line_end(src, p)),
        lexer::lex_past(src, lex_at(line_end(src, p)), Skip::Blanks) == line_break(
            src,
            line_end(src, p),
        ),
        lexer::lex_past(src, lex_at(line_end(src, p)), Skip::Nothing) == line_break(
            src,
            line_end(src, p),
        ),
        forall|i: int| p <= i < word_end(src, p) ==> word_byte(#[trigger] src[i]),
{
    lemma_line_end(src, p);
    lemma_word_end(src, p);
    lemma_word(src, p);
    lemma_line_break(src, line_end(src, p));
    if has_value(src, p) {
        let v = word_end(src, p) + 1;
        lemma_word_end(src, v);
        lemma_space(src, word_end(src, p));
        lemma_word(src, v);
    }
}

// --- the parser that emits one event per call ---

/// The machine inside of the root object of a document of lines.
pub open spec fn single(p: nat, state: parser3::machine::State) -> parser3::machine::Machine {
    parser3::machine::Machine {
        lex: lex_at(p),
        state,
        stack: seq![parser3::machine::Context::Object { implicit: true }],
    }
}

/// The events are those of the next move and of the machine after it.
pub proof fn lemma_single_step(src: Seq<u8>, m: parser3::machine::Machine)
    requires
        parser3::progress::fits(src, m),
        m.state != parser3::machine::State::Done,
    ensures
        ({
            let (event, after) = parser3::machine::step(src, m);
            &&& parser3::progress::fits(src, after)
            &&& parser3::run::run(src, m) == match event {
                Some(e) => seq![e] + parser3::run::run(src, after),
                None => parser3::run::run(src, after),
            }
        }),
{
    parser3::progress::lemma_step(src, m);
    reveal(parser3::progress::advances);
}

/// The events of one line, and the machine after it.
proof fn lemma_single_entry(src: Seq<u8>, p: nat)
    requires
        lexer::source_fits(src),
        plain_lines(src, p),
        parser3::progress::fits(src, single(p, parser3::machine::State::ExpectEntry)),
    ensures
        ({
            let next = single(
                line_break(src, line_end(src, p)).1.pos,
                parser3::machine::State::ExpectEntry,
            );
            &&& parser3::progress::fits(src, next)
            &&& parser3::run::run(src, single(p, parser3::machine::State::ExpectEntry))
                == entry_events(src, p) + parser3::run::run(src, next)
        }),
{
    lemma_line(src, p);
    let e = word_end(src, p);
    let l = line_end(src, p);
    let end = line_break(src, l).1.pos;
    let key = word_span(src, p);
    let m0 = single(p, parser3::machine::State::ExpectEntry);
    // the start of the entry
    reveal(parser3::machine::expect_entry);
    text::lemma_byte_offset(src, ascii::DOT, p, e);
    let bare = ScalarKind::Bare;
    let m1 = single(
        e,
        parser3::machine::State::EmitEntryStart { key_span: key, key_kind: bare },
    );
    assert(parser3::machine::step(src, m0) == (None::<EventView>, m1));
    lemma_single_step(src, m0);
    reveal(parser3::machine::emit_entry_start);
    let m2 = single(e, parser3::machine::State::EmitKey { key_span: key, key_kind: bare });
    assert(parser3::machine::step(src, m1) == (Some(EventView::EntryStart), m2));
    lemma_single_step(src, m1);
    // the key and the value
    reveal(parser3::machine::emit_key);
    let key_event = emit::key(src, key, bare, ShortUnicode::Kept);
    let last = single(end, parser3::machine::State::EmitEntryEnd);
    let next = single(end, parser3::machine::State::ExpectEntry);
    let value = entry_events(src, p)[2];
    if has_value(src, p) {
        let span = word_span(src, e + 1);
        let m3 = single(l, parser3::machine::State::AfterBareScalarValue { value_span: span });
        assert(parser3::machine::step(src, m2) == (Some(key_event), m3));
        lemma_single_step(src, m2);
        reveal(parser3::machine::after_bare_scalar_value);
        assert(parser3::machine::step(src, m3) == (Some(value), last));
        lemma_single_step(src, m3);
    } else {
        let m3 = single(end, parser3::machine::State::EmitUnitValue { span: key });
        assert(parser3::machine::step(src, m2) == (Some(key_event), m3));
        lemma_single_step(src, m2);
        assert(parser3::machine::step(src, m3) == (Some(value), last));
        lemma_single_step(src, m3);
    }
    // its end
    assert(parser3::machine::step(src, last) == (Some(EventView::EntryEnd), next));
    lemma_single_step(src, last);
    let rest = parser3::run::run(src, next);
    assert(parser3::run::run(src, m0) =~= entry_events(src, p) + rest);
}

/// The events from a line on.
proof fn lemma_single_lines(src: Seq<u8>, p: nat)
    requires
        lexer::source_fits(src),
        plain_lines(src, p),
        parser3::progress::fits(src, single(p, parser3::machine::State::ExpectEntry)),
    ensures
        parser3::run::run(src, single(p, parser3::machine::State::ExpectEntry)) == line_events(
            src,
            p,
        ),
    decreases src.len() - p,
{
    lemma_line(src, p);
    lemma_single_entry(src, p);
    let l = line_end(src, p);
    if l < src.len() {
        lemma_single_lines(src, l + 1);
    } else {
        let m0 = single(l, parser3::machine::State::ExpectEntry);
        reveal(parser3::machine::expect_entry);
        let eof = parser3::machine::eof_span(src);
        let m1 = parser3::machine::Machine {
            lex: lex_at(l),
            state: parser3::machine::State::EmitDocumentEnd,
            stack: Seq::empty(),
        };
        let m2 = parser3::machine::Machine { state: parser3::machine::State::Done, ..m1 };
        assert(lexer::lex_past(src, lex_at(l), Skip::Lines) == line_break(src, l));
        assert(m0.stack.drop_last() =~= m1.stack);
        assert(parser3::machine::step(src, m0) == (
            Some(EventView::ObjectEnd { span: eof }),
            m1,
        ));
        lemma_single_step(src, m0);
        assert(parser3::machine::step(src, m1) == (Some(EventView::DocumentEnd), m2));
        lemma_single_step(src, m1);
        assert(parser3::run::run(src, m2) =~= Seq::empty());
        assert(parser3::run::run(src, m0) =~= seq![
            EventView::ObjectEnd { span: eof },
            EventView::DocumentEnd,
        ]);
    }
}

/// The events of a document of plain lines, one per call.
proof fn lemma_single(src: Seq<u8>)
    requires
        lexer::source_fits(src),
        plain_lines(src, 0),
    ensures
        parser3::run::run(src, parser3::run::start()) == document_events(src),
{
    parser3::run::lemma_start(src);
    let m0 = parser3::run::start();
    lemma_single_step(src, m0);
    let m1 = parser3::machine::step(src, m0).1;
    lemma_single_step(src, m1);
    let m2 = parser3::machine::step(src, m1).1;
    assert(m2 =~= single(0, parser3::machine::State::ExpectEntry));
    lemma_single_lines(src, 0);
    assert(parser3::run::run(src, m0) =~= document_events(src));
}

// --- the parser with a queue ---

/// The machine inside of the root object of a document of lines, with a token
/// that was put back.
pub open spec fn queueing(
    p: nat,
    state: parser2::machine::State,
    buffer: Seq<Token>,
) -> parser2::machine::Machine {
    parser2::machine::Machine {
        lex: lex_at(p),
        state,
        stack: seq![parser2::machine::Context::Object { implicit: true }],
        queue: Seq::empty(),
        docs: Seq::empty(),
        expr: false,
        buffer,
    }
}

/// `m` with these events that wait.
pub open spec fn waiting(
    m: parser2::machine::Machine,
    queue: Seq<EventView>,
) -> parser2::machine::Machine {
    parser2::machine::Machine { queue, ..m }
}

/// The events that wait come first.
pub proof fn lemma_waiting(src: Seq<u8>, m: parser2::machine::Machine)
    requires
        parser2::progress::fits(src, m),
    ensures
        parser2::progress::fits(src, waiting(m, Seq::empty())),
        parser2::run::run(src, m) == m.queue + parser2::run::run(
            src,
            waiting(m, Seq::empty()),
        ),
    decreases m.queue.len(),
{
    let empty = waiting(m, Seq::empty());
    if m.queue.len() > 0 {
        parser2::run::lemma_dequeued(src, m);
        let after = parser2::run::dequeued(m);
        lemma_waiting(src, after);
        let rest = parser2::run::run(src, empty);
        assert(waiting(after, Seq::empty()) == empty);
        assert(parser2::run::run(src, m) == seq![m.queue[0]] + parser2::run::run(src, after));
        assert(m.queue + rest =~= seq![m.queue[0]] + (after.queue + rest));
    } else {
        assert(m.queue =~= Seq::empty());
        assert(empty == m);
        assert(m.queue + parser2::run::run(src, m) =~= parser2::run::run(src, m));
    }
}

/// The move from `m`, which nothing waits in, emits `event`, lets `queue` wait,
/// and leads to `next`.
proof fn lemma_queueing_step(
    src: Seq<u8>,
    m: parser2::machine::Machine,
    event: Option<EventView>,
    queue: Seq<EventView>,
    next: parser2::machine::Machine,
)
    requires
        parser2::progress::fits(src, m),
        m.state != parser2::machine::State::Done,
        m.queue.len() == 0,
        next.queue == Seq::<EventView>::empty(),
        parser2::machine::step(src, m) == (event, waiting(next, queue)),
    ensures
        parser2::progress::fits(src, next),
        parser2::run::run(src, m) == match event {
            Some(e) => seq![e] + queue + parser2::run::run(src, next),
            None => queue + parser2::run::run(src, next),
        },
{
    parser2::nesting::lemma_run_step(src, m);
    lemma_waiting(src, waiting(next, queue));
    assert(waiting(waiting(next, queue), Seq::empty()) == next);
    if let Some(e) = event {
        assert(seq![e] + (queue + parser2::run::run(src, next)) =~= seq![e] + queue
            + parser2::run::run(src, next));
    }
}

/// The next word of `m` is the one at `p`.
pub open spec fn reads_word(src: Seq<u8>, p: nat, m: parser2::machine::Machine) -> bool {
    parser2::machine::take_line(src, m) == (
        lexer::token(TokenKind::BareScalar, p, word_end(src, p)),
        queueing(word_end(src, p), m.state, Seq::empty()),
    )
}

/// The events of one line, and the machine after it.
proof fn lemma_queueing_entry(src: Seq<u8>, p: nat, m: parser2::machine::Machine)
    requires
        lexer::source_fits(src),
        plain_lines(src, p),
        parser2::progress::fits(src, m),
        m.state == parser2::machine::State::ExpectingEntry,
        m.queue.len() == 0,
        reads_word(src, p, m),
    ensures
        ({
            let (t, lex) = line_break(src, line_end(src, p));
            let next = queueing(lex.pos, parser2::machine::State::ExpectingEntry, seq![t]);
            &&& parser2::progress::fits(src, next)
            &&& parser2::run::run(src, m) == entry_events(src, p) + parser2::run::run(src, next)
        }),
{
    lemma_line(src, p);
    let e = word_end(src, p);
    let l = line_end(src, p);
    let (t, lex) = line_break(src, l);
    let end = lex.pos;
    let key = word_span(src, p);
    let key_event = emit::key(src, key, ScalarKind::Bare, ShortUnicode::Kept);
    let none = Seq::<Token>::empty();
    let quiet = Seq::<EventView>::empty();
    let next = queueing(end, parser2::machine::State::ExpectingEntry, seq![t]);
    let rest = parser2::run::run(src, next);
    // the key
    let m1 = queueing(e, parser2::machine::State::AfterBareKey { key_span: key }, none);
    assert(parser2::machine::doc_events(src, Seq::empty()) =~= quiet);
    assert(parser2::machine::step(src, m).1 =~= waiting(m1, seq![key_event]));
    lemma_queueing_step(src, m, Some(EventView::EntryStart), seq![key_event], m1);
    let value = entry_events(src, p)[2];
    if has_value(src, p) {
        let v = e + 1;
        let word = lexer::token(TokenKind::BareScalar, v, l);
        let m2 = queueing(l, parser2::machine::State::AfterKey { key_span: key }, seq![word]);
        assert(seq![word] + none =~= seq![word]);
        assert(parser2::machine::step(src, m1).1 =~= waiting(m2, quiet));
        lemma_queueing_step(src, m1, None, quiet, m2);
        let m3 = queueing(end, parser2::machine::State::AfterValue, seq![t]);
        assert(seq![word].drop_first() =~= none);
        assert(seq![t] + none =~= seq![t]);
        let taken = queueing(l, parser2::machine::State::AfterKey { key_span: key }, none);
        assert(parser2::machine::take(src, m2).1 =~= taken);
        assert(parser2::machine::step(src, m2).1 =~= waiting(m3, quiet));
        lemma_queueing_step(src, m2, Some(value), quiet, m3);
        assert(seq![t].drop_first() =~= none);
        let after = queueing(end, parser2::machine::State::AfterValue, none);
        assert(parser2::machine::take(src, m3).1 =~= after);
        assert(parser2::machine::step(src, m3).1 =~= waiting(next, seq![EventView::EntryEnd]));
        lemma_queueing_step(src, m3, None, seq![EventView::EntryEnd], next);
        assert(parser2::run::run(src, m) =~= entry_events(src, p) + rest);
    } else {
        let m2 = queueing(end, parser2::machine::State::AfterKey { key_span: key }, seq![t]);
        assert(seq![t] + none =~= seq![t]);
        assert(parser2::machine::step(src, m1).1 =~= waiting(m2, quiet));
        lemma_queueing_step(src, m1, None, quiet, m2);
        assert(seq![t].drop_first() =~= none);
        let after = queueing(end, parser2::machine::State::AfterKey { key_span: key }, none);
        assert(parser2::machine::take(src, m2).1 =~= after);
        let events = seq![value, EventView::EntryEnd];
        assert(parser2::machine::step(src, m2).1 =~= waiting(next, events));
        lemma_queueing_step(src, m2, None, events, next);
        assert(parser2::run::run(src, m) =~= entry_events(src, p) + rest);
    }
}

/// The events from a line on.
proof fn lemma_queueing_lines(src: Seq<u8>, p: nat, m: parser2::machine::Machine)
    requires
        lexer::source_fits(src),
        plain_lines(src, p),
        parser2::progress::fits(src, m),
        m.state == parser2::machine::State::ExpectingEntry,
        m.queue.len() == 0,
        reads_word(src, p, m),
    ensures
        parser2::run::run(src, m) == line_events(src, p),
    decreases src.len() - p,
{
    lemma_line(src, p);
    lemma_queueing_entry(src, p, m);
    let l = line_end(src, p);
    let (t, lex) = line_break(src, l);
    let next = queueing(lex.pos, parser2::machine::State::ExpectingEntry, seq![t]);
    let bare = queueing(lex.pos, parser2::machine::State::ExpectingEntry, Seq::empty());
    assert(seq![t].drop_first() =~= Seq::<Token>::empty());
    assert(parser2::machine::take(src, next).1 =~= bare);
    if l < src.len() {
        lemma_line(src, l + 1);
        assert(parser2::machine::take_line(src, bare) == (
            lexer::token(TokenKind::BareScalar, l + 1, word_end(src, l + 1)),
            queueing(
                word_end(src, l + 1),
                parser2::machine::State::ExpectingEntry,
                Seq::empty(),
            ),
        ));
        assert(reads_word(src, l + 1, next));
        lemma_queueing_lines(src, l + 1, next);
    } else {
        let eof = parser2::machine::eof_span(src);
        let done = parser2::machine::Machine {
            state: parser2::machine::State::Done,
            stack: Seq::empty(),
            ..bare
        };
        let end = seq![EventView::DocumentEnd];
        assert(parser2::machine::take_line(src, next) == (t, bare));
        assert(bare.stack.drop_last() =~= done.stack);
        assert(parser2::machine::step(src, next).1 =~= waiting(done, end));
        lemma_queueing_step(
            src,
            next,
            Some(EventView::ObjectEnd { span: eof }),
            end,
            done,
        );
        parser2::nesting::lemma_done(src, done);
        assert(parser2::run::run(src, next) =~= seq![
            EventView::ObjectEnd { span: eof },
            EventView::DocumentEnd,
        ]);
    }
}

/// The events of a document of plain lines, through the queue.
proof fn lemma_queueing(src: Seq<u8>)
    requires
        lexer::source_fits(src),
        plain_lines(src, 0),
    ensures
        parser2::run::run(src, parser2::run::start(false)) == document_events(src),
{
    lemma_line(src, 0);
    parser2::run::lemma_start(src, false);
    let m0 = parser2::run::start(false);
    let quiet = Seq::<EventView>::empty();
    let m1 = parser2::machine::Machine { state: parser2::machine::State::BeforeRoot, ..m0 };
    assert(parser2::machine::step(src, m0).1 =~= waiting(m1, quiet));
    lemma_queueing_step(src, m0, Some(EventView::DocumentStart), quiet, m1);
    let word = lexer::token(TokenKind::BareScalar, 0, word_end(src, 0));
    let root = emit::open_object_start(Span { start: 0, end: 0 });
    let m2 = queueing(
        word_end(src, 0),
        parser2::machine::State::ExpectingEntry,
        seq![word],
    );
    assert(parser2::machine::step(src, m1).1 =~= waiting(m2, quiet));
    lemma_queueing_step(src, m1, Some(root), quiet, m2);
    assert(seq![word].drop_first() =~= Seq::<Token>::empty());
    let taken = queueing(
        word_end(src, 0),
        parser2::machine::State::ExpectingEntry,
        Seq::empty(),
    );
    assert(parser2::machine::take(src, m2).1 =~= taken);
    assert(reads_word(src, 0, m2));
    lemma_queueing_lines(src, 0, m2);
    assert(parser2::run::run(src, m0) =~= document_events(src));
}

// --- both ---

/// Plain lines hold no backslash.
proof fn lemma_no_backslash(src: Seq<u8>, p: nat)
    requires
        plain_lines(src, p),
    ensures
        forall|i: int| p <= i < src.len() ==> #[trigger] src[i] != ascii::BACKSLASH,
    decreases src.len() - p,
{
    lemma_line(src, p);
    let e = word_end(src, p);
    let l = line_end(src, p);
    lemma_word_end(src, p);
    if has_value(src, p) {
        lemma_word_end(src, e + 1);
    }
    assert forall|i: int| p <= i < l implies #[trigger] src[i] != ascii::BACKSLASH by {
        if i < e {
            assert(word_byte(src[i]));
        } else if i > e {
            assert(word_byte(src[i]));
        }
    }
    if l < src.len() {
        lemma_no_backslash(src, l + 1);
    }
}

/// On a document of lines that are one word or two, both parsers give the same
/// events: an entry for each line. No escape is cut there.
pub proof fn law_parsers_agree(src: Seq<u8>)
    requires
        lexer::source_fits(src),
        plain_lines(src, 0),
    ensures
        parser3::run::run(src, parser3::run::start()) == parser2::run::run(
            src,
            parser2::run::start(false),
        ),
        parser2::run::run(src, parser2::run::start(false)) == document_events(src),
        parser3::run::run_whole(src, parser3::run::start()),
{
    lemma_single(src);
    lemma_queueing(src);
    lemma_no_backslash(src, 0);
    parser3::run::lemma_start(src);
    parser3::run::law_ascii_escapes(src, parser3::run::start());
}

} // verus!
