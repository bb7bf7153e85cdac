//! What the parser with a queue reads from written documents.
use crate::ascii;
use crate::emit;
use crate::escape::ShortUnicode;
use crate::event::{EventView, ScalarKind, Separator};
use crate::lexer;
use crate::lexer::Skip;
use crate::lines;
use crate::parser2::machine;
use crate::parser2::machine::{Context, Machine, State};
use crate::parser2::nesting;
use crate::parser2::progress;
use crate::parser2::run;
use crate::span::Span;
use crate::text;
use crate::token::{Token, TokenKind};
use crate::written::bytes;
use crate::written::bytes::{next_is, stands};
use crate::written::document;
use crate::written::document::{Attribute, Key, Node, Note, Scalar};
use crate::written::tokens;
use crate::written::tokens::lex_at;
use vstd::prelude::*;
use vstd::utf8::*;

verus! {

// --- machines ---

/// `m` with nothing that waits, at `q`.
pub open spec fn clean(m: Machine, q: nat) -> Machine {
    Machine { lex: lex_at(q), queue: Seq::empty(), buffer: Seq::empty(), ..m }
}

/// The machine at `p`.
pub open spec fn mach(p: nat, state: State, stack: Seq<Context>) -> Machine {
    Machine {
        lex: lex_at(p),
        state,
        stack,
        queue: Seq::empty(),
        docs: Seq::empty(),
        expr: false,
        buffer: Seq::empty(),
    }
}

/// What `m` reads next is what stands at `q`.
pub open spec fn rests(src: Seq<u8>, m: Machine, q: nat) -> bool {
    ||| m.buffer.len() == 0 && m.lex == lex_at(q)
    ||| m.buffer.len() == 1 && (m.buffer[0], m.lex) == lexer::lex_past(
        src,
        lex_at(q),
        Skip::Blanks,
    )
}

/// Next to `q` stands the end of the source or an ASCII byte.
pub open spec fn free(src: Seq<u8>, q: nat) -> bool {
    q <= src.len() && (q == 0 || q == src.len() || src[q as int] < 0x80 || src[q - 1] < 0x80)
}

/// A machine that can come up at one place can at another.
pub proof fn lemma_fits(src: Seq<u8>, m: Machine, q: nat)
    requires
        progress::fits(src, m),
        free(src, q),
    ensures
        progress::fits(src, clean(m, q)),
{
    reveal(progress::lists_fit);
    text::lemma_boundary(src, q as int);
}

/// Machines that take the same token make the same move.
pub proof fn lemma_same(src: Seq<u8>, m: Machine, c: Machine)
    requires
        m.state == c.state,
        m.state != State::Start,
        m.state != State::Done,
        machine::take(src, m) == machine::take(src, c),
    ensures
        machine::step(src, m) == machine::step(src, c),
{
    assert(machine::take_line(src, m) == machine::take_line(src, c));
}

/// A token that was put back changes nothing.
pub proof fn lemma_clean(src: Seq<u8>, m: Machine, q: nat)
    requires
        progress::fits(src, m),
        m.queue.len() == 0,
        rests(src, m, q),
        free(src, q),
        m.state != State::Start,
        m.state == State::Done ==> m.buffer.len() == 0,
    ensures
        progress::fits(src, clean(m, q)),
        run::run(src, m) == run::run(src, clean(m, q)),
{
    let c = clean(m, q);
    lemma_fits(src, m, q);
    if m.buffer.len() == 0 {
        assert(m =~= c);
    } else {
        assert(machine::take(src, m).1 =~= machine::take(src, c).1);
        lemma_same(src, m, c);
        nesting::lemma_run_step(src, m);
        nesting::lemma_run_step(src, c);
    }
}

/// An event, or none.
pub open spec fn maybe(e: Option<EventView>) -> Seq<EventView> {
    match e {
        Some(e) => seq![e],
        None => Seq::empty(),
    }
}

/// Events behind one another.
pub proof fn lemma_assoc(a: Seq<EventView>, b: Seq<EventView>, c: Seq<EventView>)
    ensures
        a + (b + c) == a + b + c,
{
    assert(a + (b + c) =~= a + b + c);
}

/// One move of `m` emits an event and lets others wait; then the machine goes on
/// at `q`.
pub proof fn lemma_go(src: Seq<u8>, m: Machine, q: nat)
    requires
        progress::fits(src, m),
        m.queue.len() == 0,
        m.state != State::Done,
        rests(src, machine::step(src, m).1, q),
        free(src, q),
        machine::step(src, m).1.state != State::Start,
        machine::step(src, m).1.state == State::Done ==> machine::step(src, m).1.buffer.len() == 0,
    ensures
        ({
            let (event, n) = machine::step(src, m);
            &&& progress::fits(src, clean(n, q))
            &&& run::run(src, m) == maybe(event) + n.queue + run::run(src, clean(n, q))
        }),
{
    let (event, n) = machine::step(src, m);
    nesting::lemma_run_step(src, m);
    lines::lemma_waiting(src, n);
    let n0 = lines::waiting(n, Seq::empty());
    lemma_clean(src, n0, q);
    assert(clean(n0, q) =~= clean(n, q));
    let rest = run::run(src, clean(n, q));
    match event {
        Some(e) => {
            assert(seq![e] + (n.queue + rest) =~= seq![e] + n.queue + rest);
        },
        None => {
            assert(maybe(event) + n.queue + rest =~= n.queue + rest);
        },
    }
}

/// The next token of a machine with nothing that waits.
pub proof fn lemma_take(src: Seq<u8>, m: Machine, p: nat, kind: TokenKind, q: nat, e: nat)
    requires
        m == clean(m, p),
        next_is(src, p, kind, q, e),
    ensures
        machine::take(src, m) == (
            Token { kind, span: Span { start: q as u32, end: e as u32 } },
            clean(m, e),
        ),
        kind != TokenKind::Newline ==> machine::take_line(src, m) == machine::take(src, m),
{
    assert(machine::take(src, m).1 =~= clean(m, e));
}

/// A line break before an entry or an element changes nothing.
pub proof fn lemma_line_break(src: Seq<u8>, m: Machine, p: nat)
    requires
        m == clean(m, p),
        progress::fits(src, m),
        m.state == State::ExpectingEntry || m.state == State::ExpectingSequenceElement,
        p < src.len(),
        src[p as int] == ascii::LF,
    ensures
        progress::fits(src, clean(m, p + 1)),
        run::run(src, m) == run::run(src, clean(m, p + 1)),
{
    let c = clean(m, p + 1);
    lemma_fits(src, m, p + 1);
    tokens::law_line_breaks(src, p);
    bytes::lemma_next(src, p, TokenKind::Newline, p + 1);
    lemma_take(src, m, p, TokenKind::Newline, p, p + 1);
    assert(machine::take_line(src, m) == machine::take_line(src, c));
    assert(machine::step(src, m) == machine::step(src, c));
    nesting::lemma_run_step(src, m);
    nesting::lemma_run_step(src, c);
}

/// A space before something changes nothing.
pub proof fn lemma_space(src: Seq<u8>, m: Machine, p: nat)
    requires
        m == clean(m, p),
        progress::fits(src, m),
        m.state != State::Start,
        m.state != State::Done,
        p + 1 < src.len(),
        src[p as int] == ascii::SPACE,
        !tokens::is_blank(src[(p + 1) as int]),
    ensures
        progress::fits(src, clean(m, p + 1)),
        run::run(src, m) == run::run(src, clean(m, p + 1)),
{
    let c = clean(m, p + 1);
    lemma_fits(src, m, p + 1);
    bytes::lemma_space(src, p);
    assert(machine::take(src, m).1 =~= machine::take(src, c).1);
    lemma_same(src, m, c);
    nesting::lemma_run_step(src, m);
    nesting::lemma_run_step(src, c);
}

// --- what stands behind ---

/// Behind a value stands the end of the source, a blank, a line break, a comma or
/// a closing bracket.
pub open spec fn settles(src: Seq<u8>, e: nat) -> bool {
    e <= src.len() && (e < src.len() ==> src[e as int] == ascii::SPACE || src[e as int] == ascii::LF
        || src[e as int] == ascii::COMMA || src[e as int] == ascii::RBRACE || src[e as int]
        == ascii::RPAREN)
}

/// Behind an entry stands the end of the source, a line break, a comma or a
/// closing brace.
pub open spec fn stops(src: Seq<u8>, e: nat) -> bool {
    e <= src.len() && (e < src.len() ==> src[e as int] == ascii::LF || src[e as int]
        == ascii::COMMA || src[e as int] == ascii::RBRACE)
}

/// A token of this kind can belong to what stands right before it.
pub open spec fn adjoins(kind: TokenKind) -> bool {
    kind == TokenKind::LBrace || kind == TokenKind::LParen || kind == TokenKind::QuotedScalar
        || kind == TokenKind::RawScalar || kind == TokenKind::BareScalar || kind == TokenKind::At
        || kind == TokenKind::Gt
}

/// Nothing right behind a value belongs to it.
pub proof fn lemma_settles(src: Seq<u8>, e: nat)
    requires
        lexer::lex_fits(src, lex_at(e)),
        settles(src, e),
    ensures
        ({
            let t = lexer::lex_past(src, lex_at(e), Skip::Blanks).0;
            t.span.start == e ==> !adjoins(t.kind)
        }),
{
    if e < src.len() {
        tokens::law_marks(src, e);
        tokens::law_line_breaks(src, e);
        if src[e as int] == ascii::SPACE {
            let (t, next) = lexer::lex(src, lex_at(e));
            lexer::lemma_lex(src, lex_at(e));
            lexer::lemma_budget(src, lex_at(e));
            lexer::lemma_ends(src, e + 1);
            assert(next.pos > e);
            progress::lemma_past_moves_on(src, next, Skip::Blanks);
        }
    }
}

/// What ends an entry.
pub proof fn lemma_stops(src: Seq<u8>, e: nat) -> (r: (TokenKind, nat))
    requires
        stops(src, e),
    ensures
        machine::ends_entry(r.0),
        r.0 != TokenKind::RParen,
        next_is(src, e, r.0, e, r.1),
{
    if e < src.len() {
        tokens::law_marks(src, e);
        tokens::law_line_breaks(src, e);
        if src[e as int] == ascii::LF {
            (TokenKind::Newline, e + 1)
        } else if src[e as int] == ascii::COMMA {
            (TokenKind::Comma, e + 1)
        } else {
            (TokenKind::RBrace, e + 1)
        }
    } else {
        (TokenKind::Eof, e)
    }
}

/// After a value, an entry ends.
pub proof fn lemma_after_value(src: Seq<u8>, e: nat, stack: Seq<Context>)
    requires
        progress::fits(src, mach(e, State::AfterValue, stack)),
        stops(src, e),
    ensures
        progress::fits(src, mach(e, State::ExpectingEntry, stack)),
        run::run(src, mach(e, State::AfterValue, stack)) == seq![EventView::EntryEnd] + run::run(
            src,
            mach(e, State::ExpectingEntry, stack),
        ),
{
    let m = mach(e, State::AfterValue, stack);
    let (kind, e2) = lemma_stops(src, e);
    lemma_take(src, m, e, kind, e, e2);
    let t = Token { kind, span: Span { start: e as u32, end: e2 as u32 } };
    let n = machine::step(src, m).1;
    assert(n.buffer =~= seq![t]);
    assert(n.queue =~= seq![EventView::EntryEnd]);
    lemma_go(src, m, e);
    assert(clean(n, e) =~= mach(e, State::ExpectingEntry, stack));
    let rest = run::run(src, clean(n, e));
    assert(maybe(None) + n.queue + rest =~= seq![EventView::EntryEnd] + rest);
}

// --- tags ---

/// No context is that of attributes.
pub open spec fn good(stack: Seq<Context>) -> bool {
    forall|i: int| 0 <= i < stack.len() ==> #[trigger] stack[i] != Context::AttributeObject
}

/// A name is lexed as a word, and checked.
pub proof fn lemma_name(src: Seq<u8>, m: Machine, p: nat, name: Seq<char>, end: nat)
    requires
        src.len() <= u32::MAX,
        document::is_name(name),
        stands(src, p, encode_utf8(name)),
        p + encode_utf8(name).len() <= end <= src.len(),
        end == p + encode_utf8(name).len() || src[(p + encode_utf8(name).len()) as int] == ascii::AT,
    ensures
        ({
            let n = encode_utf8(name).len();
            let span = Span { start: p as u32, end: end as u32 };
            &&& emit::name_end(src, span) == p + n
            &&& machine::is_tag_name(src, document::span_at(p as int, n as int))
            &&& machine::with_checked_name(src, m, document::span_at(p as int, n as int)) == m
            &&& text::chars_at(src, document::span_at(p as int, n as int)) == name
            &&& n > 0
        }),
{
    let b = encode_utf8(name);
    bytes::lemma_bytes(src, p, b);
    bytes::lemma_name_is_word(name);
    bytes::lemma_chars(src, p, name);
    assert(src[p + 0int] == b[0]);
    text::lemma_byte_offset(src, ascii::AT, p, end);
    let found = text::byte_offset(src, ascii::AT, p, end);
    if found < p + b.len() {
        assert(src[found as int] == b[found - p]);
    }
    let span = document::span_at(p as int, b.len() as int);
    assert forall|i: int| span.start < i < span.end implies machine::in_tag_name(
        #[trigger] src[i],
    ) by {
        assert(src[i] == b[i - p]);
    }
}

/// A tag is lexed as `@` and a word.
pub proof fn lemma_tag_tokens(src: Seq<u8>, p: nat, name: Seq<char>)
    requires
        document::is_name(name),
        stands(src, p, document::tag_bytes(name)),
        bytes::bounded(src, p + document::tag_bytes(name).len()) || (p + document::tag_bytes(
            name,
        ).len() < src.len() && src[(p + document::tag_bytes(name).len()) as int] == ascii::QUOTE
            && encode_utf8(name) != seq![ascii::LOWER_R]),
    ensures
        next_is(src, p, TokenKind::At, p, p + 1),
        next_is(
            src,
            p + 1,
            TokenKind::BareScalar,
            p + 1,
            p + document::tag_bytes(name).len(),
        ),
        stands(src, p + 1, encode_utf8(name)),
        document::tag_bytes(name).len() == 1 + encode_utf8(name).len(),
        encode_utf8(name).len() > 0,
        p < src.len(),
        src[p as int] == ascii::AT,
{
    let b = encode_utf8(name);
    bytes::lemma_split(src, p, seq![ascii::AT], b);
    bytes::lemma_byte(src, p, ascii::AT);
    tokens::law_marks(src, p);
    bytes::lemma_name_is_word(name);
    let e = p + 1 + b.len();
    if bytes::bounded(src, e) {
        bytes::lemma_word(src, p + 1, name);
    } else {
        bytes::lemma_bytes(src, p + 1, b);
        assert(src[p + 1 + 0int] == b[0]);
        assert(document::starts_name(b[0]));
        assert forall|i: int| p + 1 <= i < e implies !tokens::ends_bare(#[trigger] src[i]) by {
            assert(src[i] == b[i - (p + 1)]);
        }
        if src[(p + 1) as int] == ascii::LOWER_R {
            if b.len() == 1 {
                assert(b =~= seq![ascii::LOWER_R]);
            }
            assert(src[p + 1 + 1int] == b[1]);
            assert(src[p + 2int] != ascii::HASH);
        }
        tokens::law_bare(src, p + 1, e);
    }
}

/// A tag without a payload.
pub proof fn lemma_tag(src: Seq<u8>, p: nat, m: Machine, name: Seq<char>)
    requires
        progress::fits(src, m),
        document::is_name(name),
        stands(src, p, document::tag_bytes(name)),
        settles(src, p + document::tag_bytes(name).len()),
        m == clean(m, p + 1),
    ensures
        ({
            let e = p + document::tag_bytes(name).len();
            let (event, n) = machine::tag_value(src, m, document::span_at(p as int, 1));
            let all = document::node_events(Node::Tag(name), p as int);
            &&& event == all[0]
            &&& n.queue == seq![all[1], all[2]]
            &&& rests(src, n, e)
            &&& clean(n, e) == clean(m, e)
            &&& n.state == m.state
        }),
{
    let e = p + document::tag_bytes(name).len();
    lemma_tag_tokens(src, p, name);
    lemma_take(src, m, p + 1, TokenKind::BareScalar, p + 1, e);
    lemma_name(src, clean(m, e), p + 1, name, e);
    reveal(machine::tag_value);
    reveal(machine::tag_payload);
    lemma_fits(src, m, e);
    lemma_settles(src, e);
    let n = machine::tag_value(src, m, document::span_at(p as int, 1)).1;
    let all = document::node_events(Node::Tag(name), p as int);
    assert(n.queue =~= seq![all[1], all[2]]);
    assert(clean(n, e) =~= clean(m, e));
}

/// A tag whose payload is unit.
pub proof fn lemma_tag_unit(src: Seq<u8>, p: nat, m: Machine, name: Seq<char>)
    requires
        progress::fits(src, m),
        document::is_name(name),
        stands(src, p, document::node_bytes(Node::TagUnit(name))),
        settles(src, p + document::node_bytes(Node::TagUnit(name)).len()),
        m == clean(m, p + 1),
    ensures
        ({
            let e = p + document::node_bytes(Node::TagUnit(name)).len();
            let (event, n) = machine::tag_value(src, m, document::span_at(p as int, 1));
            let all = document::node_events(Node::TagUnit(name), p as int);
            &&& event == all[0]
            &&& n.queue == seq![all[1], all[2]]
            &&& rests(src, n, e)
            &&& clean(n, e) == clean(m, e)
            &&& n.state == m.state
        }),
{
    let b = encode_utf8(name);
    let e = p + document::node_bytes(Node::TagUnit(name)).len();
    bytes::lemma_split(src, p, document::tag_bytes(name), seq![ascii::AT]);
    bytes::lemma_split(src, p, seq![ascii::AT], b);
    let end = p + 1 + b.len();
    bytes::lemma_byte(src, end, ascii::AT);
    bytes::lemma_bytes(src, p + 1, b);
    bytes::lemma_name_is_word(name);
    assert(src[p + 1 + 0int] == b[0]);
    assert(document::starts_name(b[0]));
    assert forall|i: int| p + 1 <= i < e implies !tokens::ends_bare(#[trigger] src[i]) by {
        if i < end {
            assert(src[i] == b[i - (p + 1)]);
        }
    }
    tokens::law_bare(src, p + 1, e);
    lemma_take(src, m, p + 1, TokenKind::BareScalar, p + 1, e);
    lemma_name(src, clean(m, e), p + 1, name, e);
    reveal(machine::tag_value);
    let n = machine::tag_value(src, m, document::span_at(p as int, 1)).1;
    let all = document::node_events(Node::TagUnit(name), p as int);
    assert(n.queue =~= seq![all[1], all[2]]);
    assert(clean(n, e) =~= clean(m, e));
}

/// A tag whose payload is a quoted scalar.
pub proof fn lemma_tag_quoted(
    src: Seq<u8>,
    p: nat,
    m: Machine,
    name: Seq<char>,
    said: Seq<char>,
)
    requires
        progress::fits(src, m),
        document::node_ok(Node::TagQuoted(name, said), false),
        stands(src, p, document::node_bytes(Node::TagQuoted(name, said))),
        m == clean(m, p + 1),
    ensures
        ({
            let node = Node::TagQuoted(name, said);
            let e = p + document::node_bytes(node).len();
            let (event, n) = machine::tag_value(src, m, document::span_at(p as int, 1));
            let all = document::node_events(node, p as int);
            &&& event == all[0]
            &&& n.queue == seq![all[1], all[2]]
            &&& rests(src, n, e)
            &&& clean(n, e) == clean(m, e)
            &&& n.state == m.state
        }),
{
    let node = Node::TagQuoted(name, said);
    let quoted = document::scalar_bytes(Scalar::Quoted(said));
    let e = p + document::node_bytes(node).len();
    bytes::lemma_split(src, p, document::tag_bytes(name), quoted);
    let end = p + document::tag_bytes(name).len();
    bytes::lemma_quoted(src, end, said);
    lemma_tag_tokens(src, p, name);
    lemma_take(src, m, p + 1, TokenKind::BareScalar, p + 1, end);
    lemma_name(src, clean(m, end), p + 1, name, end);
    lemma_take(src, clean(m, end), end, TokenKind::QuotedScalar, end, e);
    reveal(machine::tag_value);
    reveal(machine::tag_payload);
    let n = machine::tag_value(src, m, document::span_at(p as int, 1)).1;
    let all = document::node_events(node, p as int);
    assert(escape_text(src, end, said));
    assert(n.queue =~= seq![all[1], all[2]]);
    assert(clean(n, e) =~= clean(m, e));
}

/// What the quoted scalar at `p` says.
pub open spec fn escape_text(src: Seq<u8>, p: nat, said: Seq<char>) -> bool {
    emit::scalar_text(
        src,
        document::span_at(p as int, document::scalar_bytes(Scalar::Quoted(said)).len() as int),
        ScalarKind::Quoted,
        ShortUnicode::Kept,
    ) == said
}

/// A tag whose payload is a sequence or an object: its bracket adjoins the name.
pub proof fn lemma_tag_block(src: Seq<u8>, p: nat, m: Machine, name: Seq<char>, brace: bool)
    requires
        progress::fits(src, m),
        m.queue.len() == 0,
        document::is_name(name),
        stands(
            src,
            p,
            document::tag_bytes(name) + seq![
                if brace {
                    ascii::LBRACE
                } else {
                    ascii::LPAREN
                },
            ],
        ),
        m == clean(m, p + 1),
    ensures
        ({
            let e = p + document::tag_bytes(name).len();
            let (event, n) = machine::tag_value(src, m, document::span_at(p as int, 1));
            &&& event == document::tag_event(
                name,
                p as int,
                document::tag_bytes(name).len() as int,
            )
            &&& n.buffer.len() == 0
            &&& n.lex == lex_at(e + 1)
            &&& free(src, e + 1)
            &&& if brace {
                &&& n.queue == seq![
                    EventView::ObjectStart {
                        span: document::span_at(e as int, 1),
                        separator: Separator::Comma,
                    },
                ]
                &&& clean(n, e + 1) == clean(
                    Machine {
                        state: State::ExpectingEntry,
                        stack: m.stack.push(Context::Object { implicit: false }),
                        ..m
                    },
                    e + 1,
                )
            } else {
                &&& n.queue == seq![
                    EventView::SequenceStart { span: document::span_at(e as int, 1) },
                ]
                &&& clean(n, e + 1) == clean(
                    Machine {
                        state: State::ExpectingSequenceElement,
                        stack: m.stack.push(Context::Sequence),
                        ..m
                    },
                    e + 1,
                )
            }
        }),
{
    let mark = if brace {
        ascii::LBRACE
    } else {
        ascii::LPAREN
    };
    let kind = if brace {
        TokenKind::LBrace
    } else {
        TokenKind::LParen
    };
    let e = p + document::tag_bytes(name).len();
    bytes::lemma_split(src, p, document::tag_bytes(name), seq![mark]);
    bytes::lemma_byte(src, e, mark);
    tokens::law_marks(src, e);
    lemma_tag_tokens(src, p, name);
    lemma_take(src, m, p + 1, TokenKind::BareScalar, p + 1, e);
    lemma_name(src, clean(m, e), p + 1, name, e);
    lemma_take(src, clean(m, e), e, kind, e, e + 1);
    reveal(machine::tag_value);
    reveal(machine::tag_payload);
    let n = machine::tag_value(src, m, document::span_at(p as int, 1)).1;
    assert(n.queue =~= seq![n.queue[0]]);
}

// --- notes and keys ---

/// The machine before an entry, with doc comments that wait for it.
pub open spec fn before(p: nat, stack: Seq<Context>, docs: Seq<Span>) -> Machine {
    Machine { docs, ..mach(p, State::ExpectingEntry, stack) }
}

/// The lines before an entry: comments are emitted, and doc comments wait.
pub proof fn lemma_notes(
    src: Seq<u8>,
    p: nat,
    notes: Seq<Note>,
    i: nat,
    stack: Seq<Context>,
    docs: Seq<Span>,
) -> (all: Seq<Span>)
    requires
        i <= notes.len(),
        forall|k: int| 0 <= k < notes.len() ==> document::note_ok(#[trigger] notes[k]),
        stands(src, p, document::notes_bytes(notes, i)),
        progress::fits(src, before(p, stack, docs)),
    ensures
        ({
            let e = p + document::notes_bytes(notes, i).len();
            &&& progress::fits(src, before(e, stack, all))
            &&& machine::doc_events(src, all) == machine::doc_events(src, docs)
                + document::doc_events(notes, i, p as int)
            &&& run::run(src, before(p, stack, docs)) == document::comment_events(
                notes,
                i,
                p as int,
            ) + run::run(src, before(e, stack, all))
        }),
    decreases notes.len() - i,
{
    let m = before(p, stack, docs);
    if i < notes.len() {
        let note = notes[i as int];
        let b = document::note_bytes(note);
        bytes::lemma_split(src, p, b, document::notes_bytes(notes, i + 1));
        bytes::lemma_note(src, p, note);
        let l = (p + b.len() - 1) as nat;
        let span = document::span_at(p as int, b.len() - 1);
        let kind = if note is Doc {
            TokenKind::DocComment
        } else {
            TokenKind::LineComment
        };
        lemma_take(src, m, p, kind, p, l);
        let n = machine::step(src, m).1;
        lemma_go(src, m, l);
        let docs1 = if note is Doc {
            docs.push(span)
        } else {
            docs
        };
        assert(clean(n, l) =~= before(l, stack, docs1));
        lemma_line_break(src, clean(n, l), l);
        assert(clean(clean(n, l), l + 1) =~= before(l + 1, stack, docs1));
        let all = lemma_notes(src, l + 1, notes, i + 1, stack, docs1);
        let e = p + document::notes_bytes(notes, i).len();
        let rest = run::run(src, before(e, stack, all));
        assert(e == l + 1 + document::notes_bytes(notes, i + 1).len());
        assert(machine::doc_events(src, docs1) =~= machine::doc_events(src, docs) + match note {
            Note::Doc(_) => seq![emit::doc_comment(src, span)],
            Note::Comment(_) => Seq::empty(),
        });
        assert(machine::doc_events(src, all) =~= machine::doc_events(src, docs)
            + document::doc_events(notes, i, p as int));
        assert(run::run(src, m) =~= document::comment_events(notes, i, p as int) + rest);
        all
    } else {
        assert(machine::doc_events(src, docs) =~= machine::doc_events(src, docs)
            + document::doc_events(notes, i, p as int));
        assert(run::run(src, m) =~= document::comment_events(notes, i, p as int) + run::run(
            src,
            m,
        ));
        docs
    }
}

/// What follows a key: what ends the entry, or a space and something that is no
/// blank and no `>`.
pub open spec fn key_follows(src: Seq<u8>, e: nat) -> bool {
    ||| stops(src, e)
    ||| {
        &&& e + 1 < src.len()
        &&& src[e as int] == ascii::SPACE
        &&& !tokens::is_blank(src[(e + 1) as int])
    }
}

/// A scalar as a key.
pub proof fn lemma_scalar_key(src: Seq<u8>, p: nat, s: Scalar, stack: Seq<Context>, docs: Seq<Span>)
    requires
        document::scalar_ok(s),
        stands(src, p, document::scalar_bytes(s)),
        key_follows(src, p + document::scalar_bytes(s).len()),
        progress::fits(src, before(p, stack, docs)),
    ensures
        ({
            let e = p + document::scalar_bytes(s).len();
            let span = document::span_at(p as int, document::scalar_bytes(s).len() as int);
            let next = mach(e, State::AfterKey { key_span: span }, stack);
            &&& progress::fits(src, next)
            &&& run::run(src, before(p, stack, docs)) == seq![EventView::EntryStart]
                + machine::doc_events(src, docs) + seq![
                document::key_event(Key::Scalar(s), p as int),
            ] + run::run(src, next)
        }),
{
    let m = before(p, stack, docs);
    let e = p + document::scalar_bytes(s).len();
    let span = document::span_at(p as int, document::scalar_bytes(s).len() as int);
    bytes::lemma_scalar(src, p, s);
    lemma_take(src, m, p, bytes::token_kind(s), p, e);
    let kind = document::kind_of(s);
    assert(emit::scalar_text(src, span, kind, ShortUnicode::Kept) == document::text_of(s));
    let key = document::key_event(Key::Scalar(s), p as int);
    let n = machine::step(src, m).1;
    assert(n.queue =~= machine::doc_events(src, docs) + seq![key]);
    lemma_go(src, m, e);
    let next = mach(e, State::AfterKey { key_span: span }, stack);
    let start = seq![EventView::EntryStart];
    if s is Bare {
        let m1 = mach(e, State::AfterBareKey { key_span: span }, stack);
        assert(clean(n, e) =~= m1);
        lemma_settles(src, e);
        let n1 = machine::step(src, m1).1;
        let (t, lex) = lexer::lex_past(src, lex_at(e), Skip::Blanks);
        assert(n1.buffer =~= seq![t]);
        assert(n1.lex == lex);
        assert(n1.queue =~= Seq::<EventView>::empty());
        lemma_go(src, m1, e);
        assert(clean(n1, e) =~= next);
        let rest = run::run(src, next);
        assert(run::run(src, m1) =~= rest);
    } else {
        assert(clean(n, e) =~= next);
    }
    let rest = run::run(src, next);
    assert(start + n.queue + rest =~= start + machine::doc_events(src, docs) + seq![key] + rest);
}

/// `@`, alone or with a name, as a key.
pub proof fn lemma_at_key(
    src: Seq<u8>,
    p: nat,
    key: Key,
    stack: Seq<Context>,
    docs: Seq<Span>,
    outermost: bool,
)
    requires
        !(key is Scalar),
        document::key_ok(key, outermost),
        stack.len() > 0,
        stack.last() == (Context::Object { implicit: outermost }),
        stands(src, p, document::key_bytes(key)),
        key_follows(src, p + document::key_bytes(key).len()),
        progress::fits(src, before(p, stack, docs)),
    ensures
        ({
            let e = p + document::key_bytes(key).len();
            let span = document::span_at(p as int, document::key_bytes(key).len() as int);
            let next = mach(e, State::AfterKey { key_span: span }, stack);
            &&& progress::fits(src, next)
            &&& run::run(src, before(p, stack, docs)) == seq![EventView::EntryStart]
                + machine::doc_events(src, docs) + seq![document::key_event(key, p as int)]
                + run::run(src, next)
        }),
{
    let m = before(p, stack, docs);
    let e = p + document::key_bytes(key).len();
    let span = document::span_at(p as int, document::key_bytes(key).len() as int);
    let event = document::key_event(key, p as int);
    reveal(machine::at_key);
    if let Key::Tag(name) = key {
        lemma_tag_tokens(src, p, name);
        lemma_take(src, m, p, TokenKind::At, p, p + 1);
        lemma_take(src, clean(m, p + 1), p + 1, TokenKind::BareScalar, p + 1, e);
        lemma_fits(src, m, e);
        lemma_settles(src, e);
        let (t, lex) = lexer::lex_past(src, lex_at(e), Skip::Blanks);
        let m3 = Machine { lex, buffer: seq![t], ..m };
        assert(machine::take(src, clean(m, e)) == (t, Machine { lex, ..clean(m, e) }));
        assert(machine::unread(Machine { lex, ..clean(m, e) }, t) =~= m3);
        lemma_name(src, m3, p + 1, name, e);
    } else {
        bytes::lemma_byte(src, p, ascii::AT);
        tokens::law_marks(src, p);
        lemma_take(src, m, p, TokenKind::At, p, p + 1);
        lemma_fits(src, m, e);
        lemma_settles(src, e);
    }
    let n = machine::step(src, m).1;
    assert(n.queue =~= machine::doc_events(src, docs) + seq![event]);
    lemma_go(src, m, e);
    let next = mach(e, State::AfterKey { key_span: span }, stack);
    assert(clean(n, e) =~= next);
    let rest = run::run(src, next);
    let start = seq![EventView::EntryStart];
    assert(start + n.queue + rest =~= start + machine::doc_events(src, docs) + seq![event] + rest);
}

// --- values ---

/// The state after a sequence or an object was closed inside of `stack`.
pub open spec fn after(stack: Seq<Context>) -> State {
    if stack.last() == Context::Sequence {
        State::ExpectingSequenceElement
    } else {
        State::AfterValue
    }
}

/// A scalar, unit or tag without brackets as the value of an entry.
pub proof fn lemma_flat_value(
    src: Seq<u8>,
    p: nat,
    node: Node,
    key_span: Span,
    stack: Seq<Context>,
)
    requires
        node is Scalar || node is Unit || node is Tag || node is TagUnit || node is TagQuoted,
        document::node_ok(node, false),
        stands(src, p, document::node_bytes(node)),
        stops(src, p + document::node_bytes(node).len()),
        progress::fits(src, mach(p, State::AfterKey { key_span }, stack)),
    ensures
        ({
            let e = p + document::node_bytes(node).len();
            &&& progress::fits(src, mach(e, State::AfterValue, stack))
            &&& run::run(src, mach(p, State::AfterKey { key_span }, stack))
                == document::node_events(node, p as int) + run::run(
                src,
                mach(e, State::AfterValue, stack),
            )
        }),
{
    let m = mach(p, State::AfterKey { key_span }, stack);
    let e = p + document::node_bytes(node).len();
    let (kind, e2) = lemma_stops(src, e);
    let n = machine::step(src, m).1;
    let next = mach(e, State::AfterValue, stack);
    if let Node::Scalar(s) = node {
        bytes::lemma_scalar(src, p, s);
        lemma_take(src, m, p, bytes::token_kind(s), p, e);
        lemma_take(src, clean(m, e), e, kind, e, e2);
        let span = document::span_at(p as int, document::scalar_bytes(s).len() as int);
        assert(emit::scalar_text(src, span, document::kind_of(s), ShortUnicode::Kept)
            == document::text_of(s));
        assert(n.queue =~= Seq::<EventView>::empty());
        if s is Bare {
            let t = Token { kind, span: Span { start: e as u32, end: e2 as u32 } };
            assert(n.buffer =~= seq![t]);
        }
        lemma_go(src, m, e);
        assert(clean(n, e) =~= next);
        assert(run::run(src, m) =~= document::node_events(node, p as int) + run::run(src, next));
    } else {
        lemma_flat_at(src, p, m, node);
        lemma_take(src, m, p, TokenKind::At, p, p + 1);
        lemma_go(src, m, e);
        assert(clean(n, e) =~= next);
        assert(run::run(src, m) =~= document::node_events(node, p as int) + run::run(src, next));
    }
}

/// Unit, or a tag without brackets: its first event, those that wait, and where
/// the machine goes on.
pub proof fn lemma_flat_at(src: Seq<u8>, p: nat, m: Machine, node: Node)
    requires
        node is Unit || node is Tag || node is TagUnit || node is TagQuoted,
        document::node_ok(node, false),
        stands(src, p, document::node_bytes(node)),
        settles(src, p + document::node_bytes(node).len()),
        progress::fits(src, m),
        m == clean(m, p),
    ensures
        next_is(src, p, TokenKind::At, p, p + 1),
        ({
            let e = p + document::node_bytes(node).len();
            let (event, n) = machine::tag_value(
                src,
                clean(m, p + 1),
                document::span_at(p as int, 1),
            );
            &&& seq![event] + n.queue == document::node_events(node, p as int)
            &&& rests(src, n, e)
            &&& free(src, e)
            &&& clean(n, e) == clean(m, e)
        }),
        p < src.len(),
        src[p as int] == ascii::AT,
{
    let b = document::node_bytes(node);
    let e = p + b.len();
    bytes::lemma_bytes(src, p, b);
    assert(b[0] == ascii::AT);
    assert(src[p + 0int] == b[0]);
    tokens::law_marks(src, p);
    bytes::lemma_next(src, p, TokenKind::At, p + 1);
    let m1 = clean(m, p + 1);
    lemma_fits(src, m, p + 1);
    let (event, n) = machine::tag_value(src, m1, document::span_at(p as int, 1));
    let all = document::node_events(node, p as int);
    match node {
        Node::Unit => {
            reveal(machine::tag_value);
            lemma_settles(src, e);
            assert(seq![event] + n.queue =~= all);
            assert(clean(n, e) =~= clean(m, e));
        },
        Node::Tag(name) => {
            lemma_tag(src, p, m1, name);
            assert(seq![event] + n.queue =~= all);
        },
        Node::TagUnit(name) => {
            lemma_tag_unit(src, p, m1, name);
            assert(seq![event] + n.queue =~= all);
        },
        Node::TagQuoted(name, said) => {
            lemma_tag_quoted(src, p, m1, name, said);
            assert(seq![event] + n.queue =~= all);
        },
        _ => {},
    }
}

// --- attributes ---

/// The key and the value of the attribute at `p`.
pub proof fn lemma_attribute(src: Seq<u8>, p: nat, a: Attribute)
    requires
        src.len() <= u32::MAX,
        document::is_word(a.key),
        document::scalar_ok(a.value),
        stands(src, p, document::attribute_bytes(a)),
        settles(src, p + document::attribute_bytes(a).len()),
    ensures
        ({
            let k = p + encode_utf8(a.key).len();
            let e = p + document::attribute_bytes(a).len();
            let span = document::span_at(p as int, encode_utf8(a.key).len() as int);
            let value = Span { start: (k + 1) as u32, end: e as u32 };
            &&& next_is(src, p, TokenKind::BareScalar, p, k)
            &&& next_is(src, k, TokenKind::Gt, k, k + 1)
            &&& next_is(src, k + 1, bytes::token_kind(a.value), k + 1, e)
            &&& machine::entry(
                src,
                span,
                machine::scalar(src, value, document::kind_of(a.value)),
            ) == document::attribute_events(a, p as int)
            &&& e == k + 1 + document::scalar_bytes(a.value).len()
            &&& !tokens::is_blank(src[p as int])
            &&& src[p as int] != ascii::LF
            &&& p < k < src.len()
        }),
{
    let key = encode_utf8(a.key);
    let value = document::scalar_bytes(a.value);
    bytes::lemma_split3(src, p, key, seq![ascii::GT], value);
    let k = p + key.len();
    bytes::lemma_byte(src, k, ascii::GT);
    bytes::lemma_word(src, p, a.key);
    bytes::lemma_chars(src, p, a.key);
    tokens::law_marks(src, k);
    bytes::lemma_scalar(src, k + 1, a.value);
    let e = p + document::attribute_bytes(a).len();
    let at = document::span_at(k + 1int, value.len() as int);
    assert(emit::scalar_text(src, at, document::kind_of(a.value), ShortUnicode::Kept)
        == document::text_of(a.value));
    let span = document::span_at(p as int, key.len() as int);
    assert(machine::entry(
        src,
        span,
        machine::scalar(src, at, document::kind_of(a.value)),
    ) =~= document::attribute_events(a, p as int));
}

/// One more attribute.
pub proof fn lemma_chain_more(
    src: Seq<u8>,
    p: nat,
    a: Attribute,
    obj_start_span: Span,
    stack: Seq<Context>,
)
    requires
        document::is_word(a.key),
        document::scalar_ok(a.value),
        p < src.len(),
        src[p as int] == ascii::SPACE,
        stands(src, p + 1, document::attribute_bytes(a)),
        settles(src, p + 1 + document::attribute_bytes(a).len()),
        progress::fits(src, mach(p, State::InAttributeChain { obj_start_span }, stack)),
    ensures
        ({
            let e = p + 1 + document::attribute_bytes(a).len();
            let state = State::InAttributeChain { obj_start_span };
            &&& progress::fits(src, mach(e, state, stack))
            &&& run::run(src, mach(p, state, stack)) == document::attribute_events(a, p + 1int)
                + run::run(src, mach(e, state, stack))
        }),
{
    let state = State::InAttributeChain { obj_start_span };
    let e = p + 1 + document::attribute_bytes(a).len();
    let m = mach(p, state, stack);
    lemma_attribute(src, p + 1, a);
    lemma_space(src, m, p);
    let m1 = mach(p + 1, state, stack);
    assert(clean(m, p + 1) =~= m1);
    let k = p + 1 + encode_utf8(a.key).len();
    lemma_take(src, m1, p + 1, TokenKind::BareScalar, p + 1, k);
    lemma_take(src, clean(m1, k), k, TokenKind::Gt, k, k + 1);
    lemma_take(src, clean(m1, k + 1), k + 1, bytes::token_kind(a.value), k + 1, e);
    let n = machine::step(src, m1).1;
    assert(n.queue =~= document::attribute_events(a, p + 1int));
    lemma_go(src, m1, e);
    assert(clean(n, e) =~= mach(e, state, stack));
    let rest = run::run(src, mach(e, state, stack));
    assert(maybe(None) + n.queue + rest =~= n.queue + rest);
}

/// The end of attributes.
pub proof fn lemma_chain_end(src: Seq<u8>, p: nat, obj_start_span: Span, stack: Seq<Context>)
    requires
        stops(src, p),
        progress::fits(
            src,
            mach(
                p,
                State::InAttributeChain { obj_start_span },
                stack.push(Context::AttributeObject),
            ),
        ),
    ensures
        ({
            let m = mach(
                p,
                State::InAttributeChain { obj_start_span },
                stack.push(Context::AttributeObject),
            );
            let next = mach(p, State::ExpectingEntry, stack);
            &&& progress::fits(src, next)
            &&& run::run(src, m) == seq![
                EventView::ObjectEnd { span: document::span_at(0, 0) },
                EventView::EntryEnd,
            ] + run::run(src, next)
        }),
{
    let inner = stack.push(Context::AttributeObject);
    let m = mach(p, State::InAttributeChain { obj_start_span }, inner);
    let next = mach(p, State::ExpectingEntry, stack);
    let ending = seq![
        EventView::ObjectEnd { span: document::span_at(0, 0) },
        EventView::EntryEnd,
    ];
    let (kind, e2) = lemma_stops(src, p);
    lemma_take(src, m, p, kind, p, e2);
    let n = machine::step(src, m).1;
    let t = Token { kind, span: Span { start: p as u32, end: e2 as u32 } };
    assert(n.buffer =~= seq![t]);
    assert(n.queue =~= ending);
    lemma_go(src, m, p);
    assert(inner.drop_last() =~= stack);
    assert(clean(n, p) =~= next);
    let rest = run::run(src, next);
    assert(maybe(None) + ending + rest =~= ending + rest);
}

/// The attributes from number `i` on, after the first two.
#[verifier::rlimit(50)]
#[verifier::spinoff_prover]
pub proof fn lemma_chain(
    src: Seq<u8>,
    p: nat,
    list: Seq<Attribute>,
    i: nat,
    obj_start_span: Span,
    stack: Seq<Context>,
)
    requires
        document::node_ok(Node::Attributes(list), false),
        1 <= i <= list.len(),
        stands(src, p, document::attributes_bytes(list, i)),
        stops(src, p + document::attributes_bytes(list, i).len()),
        progress::fits(
            src,
            mach(
                p,
                State::InAttributeChain { obj_start_span },
                stack.push(Context::AttributeObject),
            ),
        ),
    ensures
        ({
            let e = p + document::attributes_bytes(list, i).len();
            let m = mach(
                p,
                State::InAttributeChain { obj_start_span },
                stack.push(Context::AttributeObject),
            );
            let next = mach(e, State::ExpectingEntry, stack);
            &&& progress::fits(src, next)
            &&& run::run(src, m) == document::attributes_events(list, i, p as int) + seq![
                EventView::ObjectEnd { span: document::span_at(0, 0) },
                EventView::EntryEnd,
            ] + run::run(src, next)
        }),
    decreases list.len() - i,
{
    let inner = stack.push(Context::AttributeObject);
    let state = State::InAttributeChain { obj_start_span };
    let m = mach(p, state, inner);
    let end = p + document::attributes_bytes(list, i).len();
    let ending = seq![
        EventView::ObjectEnd { span: document::span_at(0, 0) },
        EventView::EntryEnd,
    ];
    let next = mach(end, State::ExpectingEntry, stack);
    if i < list.len() {
        let a = list[i as int];
        let b = document::attribute_bytes(a);
        let more = document::attributes_bytes(list, i + 1);
        bytes::lemma_split3(src, p, seq![ascii::SPACE], b, more);
        bytes::lemma_byte(src, p, ascii::SPACE);
        let e = p + 1 + b.len();
        lemma_more_follows(src, e, list, i + 1);
        lemma_chain_more(src, p, a, obj_start_span, inner);
        lemma_chain(src, e, list, i + 1, obj_start_span, stack);
        let rest = run::run(src, next);
        assert(run::run(src, m) =~= document::attributes_events(list, i, p as int) + ending + rest);
    } else {
        lemma_chain_end(src, p, obj_start_span, stack);
        let rest = run::run(src, next);
        assert(run::run(src, m) =~= document::attributes_events(list, i, p as int) + ending + rest);
    }
}

/// Behind an attribute stands another one, or what stands behind them all.
pub proof fn lemma_more_follows(src: Seq<u8>, e: nat, list: Seq<Attribute>, i: nat)
    requires
        1 <= i <= list.len(),
        stands(src, e, document::attributes_bytes(list, i)),
        stops(src, e + document::attributes_bytes(list, i).len()),
    ensures
        settles(src, e),
{
    if i < list.len() {
        let b = document::attribute_bytes(list[i as int]);
        bytes::lemma_split3(
            src,
            e,
            seq![ascii::SPACE],
            b,
            document::attributes_bytes(list, i + 1),
        );
        bytes::lemma_byte(src, e, ascii::SPACE);
    }
}

/// The first attribute in the place of a value.
pub proof fn lemma_chain_start(
    src: Seq<u8>,
    p: nat,
    a: Attribute,
    key_span: Span,
    stack: Seq<Context>,
) -> (value: EventView)
    requires
        src.len() <= u32::MAX,
        document::is_word(a.key),
        document::scalar_ok(a.value),
        stands(src, p, document::attribute_bytes(a)),
        settles(src, p + document::attribute_bytes(a).len()),
    ensures
        ({
            let m = mach(p, State::AfterKey { key_span }, stack);
            let e = p + document::attribute_bytes(a).len();
            let span = document::span_at(p as int, encode_utf8(a.key).len() as int);
            let (more, n) = machine::more_attributes(src, clean(m, e), span, value);
            &&& machine::entry(src, span, value) == document::attribute_events(a, p as int)
            &&& machine::step(src, m) == (
                Some(EventView::ObjectStart { span, separator: Separator::Comma }),
                if more {
                    n
                } else {
                    machine::to(
                        machine::queued(
                            n,
                            document::attribute_events(a, p as int) + seq![
                                EventView::ObjectEnd { span },
                            ],
                        ),
                        State::AfterValue,
                    )
                },
            )
        }),
{
    let m = mach(p, State::AfterKey { key_span }, stack);
    let e = p + document::attribute_bytes(a).len();
    lemma_attribute(src, p, a);
    let k = p + encode_utf8(a.key).len();
    let span = document::span_at(p as int, encode_utf8(a.key).len() as int);
    lemma_take(src, m, p, TokenKind::BareScalar, p, k);
    lemma_take(src, clean(m, k), k, TokenKind::Gt, k, k + 1);
    let m1 = clean(m, k + 1);
    lemma_take(src, m1, k + 1, bytes::token_kind(a.value), k + 1, e);
    reveal(machine::attribute_chain);
    let value = machine::scalar(
        src,
        Span { start: (k + 1) as u32, end: e as u32 },
        document::kind_of(a.value),
    );
    assert(machine::step(src, m) == machine::attribute_chain(src, m1, span));
    value
}

/// One attribute as the value of an entry.
pub proof fn lemma_single_attribute(
    src: Seq<u8>,
    p: nat,
    a: Attribute,
    key_span: Span,
    stack: Seq<Context>,
)
    requires
        document::is_word(a.key),
        document::scalar_ok(a.value),
        stands(src, p, document::attribute_bytes(a)),
        stops(src, p + document::attribute_bytes(a).len()),
        progress::fits(src, mach(p, State::AfterKey { key_span }, stack)),
    ensures
        ({
            let e = p + document::attribute_bytes(a).len();
            let span = document::span_at(p as int, encode_utf8(a.key).len() as int);
            let next = mach(e, State::ExpectingEntry, stack);
            &&& progress::fits(src, next)
            &&& run::run(src, mach(p, State::AfterKey { key_span }, stack)) == seq![
                EventView::ObjectStart { span, separator: Separator::Comma },
            ] + document::attribute_events(a, p as int) + seq![
                EventView::ObjectEnd { span },
                EventView::EntryEnd,
            ] + run::run(src, next)
        }),
{
    let m = mach(p, State::AfterKey { key_span }, stack);
    let e = p + document::attribute_bytes(a).len();
    let span = document::span_at(p as int, encode_utf8(a.key).len() as int);
    let value = lemma_chain_start(src, p, a, key_span, stack);
    lemma_one_attribute(src, clean(m, e), e, span, value);
    let n = machine::step(src, m).1;
    let events = document::attribute_events(a, p as int);
    let end = EventView::ObjectEnd { span };
    assert(n.queue =~= events + seq![end]);
    lemma_go(src, m, e);
    assert(clean(n, e) =~= mach(e, State::AfterValue, stack));
    lemma_after_value(src, e, stack);
    let object = EventView::ObjectStart { span, separator: Separator::Comma };
    let rest = run::run(src, mach(e, State::ExpectingEntry, stack));
    assert(seq![object] + (events + seq![end]) + (seq![EventView::EntryEnd] + rest) =~= seq![object]
        + events + seq![end, EventView::EntryEnd] + rest);
}

/// Two attributes as the start of the value of an entry.
pub proof fn lemma_two_more(
    src: Seq<u8>,
    p: nat,
    a: Attribute,
    a2: Attribute,
    key_span: Span,
    stack: Seq<Context>,
)
    requires
        document::is_word(a.key),
        document::scalar_ok(a.value),
        document::is_word(a2.key),
        document::scalar_ok(a2.value),
        stands(src, p, document::attribute_bytes(a)),
        p + document::attribute_bytes(a).len() < src.len(),
        src[(p + document::attribute_bytes(a).len()) as int] == ascii::SPACE,
        stands(
            src,
            p + document::attribute_bytes(a).len() + 1,
            document::attribute_bytes(a2),
        ),
        settles(
            src,
            p + document::attribute_bytes(a).len() + 1 + document::attribute_bytes(a2).len(),
        ),
        progress::fits(src, mach(p, State::AfterKey { key_span }, stack)),
    ensures
        ({
            let e = p + document::attribute_bytes(a).len();
            let e2 = e + 1 + document::attribute_bytes(a2).len();
            let span = document::span_at(p as int, encode_utf8(a.key).len() as int);
            let next = mach(
                e2,
                State::InAttributeChain { obj_start_span: span },
                stack.push(Context::AttributeObject),
            );
            &&& progress::fits(src, next)
            &&& run::run(src, mach(p, State::AfterKey { key_span }, stack)) == seq![
                EventView::ObjectStart { span, separator: Separator::Comma },
            ] + (document::attribute_events(a, p as int) + document::attribute_events(
                a2,
                e + 1int,
            )) + run::run(src, next)
        }),
{
    let m = mach(p, State::AfterKey { key_span }, stack);
    let e = p + document::attribute_bytes(a).len();
    let e2 = e + 1 + document::attribute_bytes(a2).len();
    let span = document::span_at(p as int, encode_utf8(a.key).len() as int);
    let value = lemma_chain_start(src, p, a, key_span, stack);
    lemma_two_attributes(src, clean(m, e), e, span, value, a2);
    let n = machine::step(src, m).1;
    lemma_go(src, m, e2);
    assert(clean(n, e2) =~= mach(
        e2,
        State::InAttributeChain { obj_start_span: span },
        stack.push(Context::AttributeObject),
    ));
}

/// Attributes as the value of an entry, and the end of the entry.
#[verifier::rlimit(50)]
#[verifier::spinoff_prover]
pub proof fn lemma_attributes(
    src: Seq<u8>,
    p: nat,
    list: Seq<Attribute>,
    key_span: Span,
    stack: Seq<Context>,
)
    requires
        document::node_ok(Node::Attributes(list), false),
        stands(src, p, document::node_bytes(Node::Attributes(list))),
        stops(src, p + document::node_bytes(Node::Attributes(list)).len()),
        progress::fits(src, mach(p, State::AfterKey { key_span }, stack)),
    ensures
        ({
            let e = p + document::node_bytes(Node::Attributes(list)).len();
            let next = mach(e, State::ExpectingEntry, stack);
            &&& progress::fits(src, next)
            &&& run::run(src, mach(p, State::AfterKey { key_span }, stack))
                == document::node_events(Node::Attributes(list), p as int) + seq![
                EventView::EntryEnd,
            ] + run::run(src, next)
        }),
{
    let a = list[0];
    let b = document::attribute_bytes(a);
    let more = document::attributes_bytes(list, 1);
    let end = p + document::node_bytes(Node::Attributes(list)).len();
    bytes::lemma_split(src, p, b, more);
    let e = p + b.len();
    lemma_more_follows(src, e, list, 1);
    let span = document::span_at(p as int, encode_utf8(a.key).len() as int);
    let object = EventView::ObjectStart { span, separator: Separator::Comma };
    let events = document::attribute_events(a, p as int);
    let all = document::attributes_events(list, 0, p as int);
    let later = document::attributes_events(list, 1, e as int);
    assert(all == events + later);
    let rest = run::run(src, mach(end, State::ExpectingEntry, stack));
    let entry_end = seq![EventView::EntryEnd];
    if list.len() == 1 {
        assert(more.len() == 0);
        lemma_single_attribute(src, p, a, key_span, stack);
        assert(later =~= Seq::empty());
        assert(all =~= events);
        let close = EventView::ObjectEnd { span };
        assert(seq![object] + events + seq![close, EventView::EntryEnd] + rest =~= seq![object]
            + events + seq![close] + entry_end + rest);
    } else {
        let a2 = list[1];
        let b2 = document::attribute_bytes(a2);
        let last = document::attributes_bytes(list, 2);
        bytes::lemma_split3(src, e, seq![ascii::SPACE], b2, last);
        bytes::lemma_byte(src, e, ascii::SPACE);
        let e2 = e + 1 + b2.len();
        lemma_more_follows(src, e2, list, 2);
        lemma_two_more(src, p, a, a2, key_span, stack);
        lemma_chain(src, e2, list, 2, span, stack);
        let events2 = document::attribute_events(a2, e + 1int);
        let events3 = document::attributes_events(list, 2, e2 as int);
        assert(later == events2 + events3);
        let close = EventView::ObjectEnd { span: document::span_at(0, 0) };
        assert(seq![object] + (events + events2) + (events3 + seq![close, EventView::EntryEnd]
            + rest) =~= seq![object] + (events + (events2 + events3)) + seq![close] + entry_end
            + rest);
    }
}

/// No attribute follows the first one.
pub proof fn lemma_one_attribute(src: Seq<u8>, m: Machine, e: nat, span: Span, value: EventView)
    requires
        m == clean(m, e),
        stops(src, e),
    ensures
        ({
            let (more, n) = machine::more_attributes(src, m, span, value);
            &&& !more
            &&& rests(src, n, e)
            &&& free(src, e)
            &&& n == (Machine { lex: n.lex, buffer: n.buffer, ..m })
        }),
{
    reveal(machine::more_attributes);
    let (kind, e2) = lemma_stops(src, e);
    lemma_take(src, m, e, kind, e, e2);
}

/// Another attribute follows the first one.
pub proof fn lemma_two_attributes(
    src: Seq<u8>,
    m: Machine,
    e: nat,
    span: Span,
    value: EventView,
    a: Attribute,
)
    requires
        src.len() <= u32::MAX,
        m == clean(m, e),
        document::is_word(a.key),
        document::scalar_ok(a.value),
        e < src.len(),
        src[e as int] == ascii::SPACE,
        stands(src, e + 1, document::attribute_bytes(a)),
        settles(src, e + 1 + document::attribute_bytes(a).len()),
    ensures
        ({
            let e2 = e + 1 + document::attribute_bytes(a).len();
            let (more, n) = machine::more_attributes(src, m, span, value);
            &&& more
            &&& n.queue == machine::entry(src, span, value) + document::attribute_events(
                a,
                e + 1int,
            )
            &&& n == (Machine {
                lex: lex_at(e2),
                queue: n.queue,
                stack: m.stack.push(Context::AttributeObject),
                state: State::InAttributeChain { obj_start_span: span },
                ..m
            })
            &&& free(src, e2)
        }),
{
    reveal(machine::more_attributes);
    lemma_attribute(src, e + 1, a);
    bytes::lemma_space(src, e);
    let k = e + 1 + encode_utf8(a.key).len();
    let e2 = e + 1 + document::attribute_bytes(a).len();
    lemma_take(src, m, e, TokenKind::BareScalar, e + 1, k);
    lemma_take(src, clean(m, k), k, TokenKind::Gt, k, k + 1);
    let m3 = machine::push(
        machine::queued(clean(m, k + 1), machine::entry(src, span, value)),
        Context::AttributeObject,
    );
    let t = Token {
        kind: bytes::token_kind(a.value),
        span: Span { start: (k + 1) as u32, end: e2 as u32 },
    };
    assert(machine::take(src, m3) == (t, machine::at(m3, lex_at(e2))));
    let n = machine::more_attributes(src, m, span, value).1;
    assert(n.queue =~= machine::entry(src, span, value) + document::attribute_events(a, e + 1int));
}

} // verus!
