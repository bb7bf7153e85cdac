//! The parser that emits one event per call reads every document of lines as it
//! was written.
use crate::ascii;
use crate::event::{EventView, ScalarKind, Separator};
use crate::lexer;
use crate::lexer::Skip;
use crate::parser3::machine;
use crate::parser3::machine::{Context, State};
use crate::parser3::progress;
use crate::parser3::run;
use crate::span::Span;
use crate::text;
use crate::token::TokenKind;
use crate::written::bytes;
use crate::written::bytes::stands;
use crate::written::document;
use crate::written::document::{span_at, Layout, Scalar};
use crate::written::paths;
use crate::written::paths::{Line, LineKey, LineValue};
use crate::written::pulled;
use crate::written::pulled::{at, ends, nested};
use crate::written::queued;
use crate::written::tokens;
use crate::written::tokens::lex_at;
use vstd::prelude::*;
use vstd::utf8::*;

verus! {

/// The lexer can stand behind a line.
proof fn lemma_free(src: Seq<u8>, e: nat)
    requires
        lexer::source_fits(src),
        ends(src, e),
    ensures
        lexer::lex_fits(src, lex_at(e)),
{
    text::lemma_boundary(src, e as int);
}

/// The key of an entry, before a space and its value.
pub proof fn lemma_key_before(
    src: Seq<u8>,
    v: nat,
    key_span: Span,
    key_kind: ScalarKind,
    stack: Seq<Context>,
    kind: TokenKind,
    e: nat,
    state: State,
)
    requires
        v + 1 < src.len(),
        src[v as int] == ascii::SPACE,
        !tokens::is_blank(src[(v + 1) as int]),
        tokens::reads(src, v + 1, kind, e),
        kind != TokenKind::Whitespace,
        progress::fits(src, at(v, State::EmitKey { key_span, key_kind }, stack)),
        ({
            let span = Span { start: (v + 1) as u32, end: e as u32 };
            ||| kind == TokenKind::BareScalar && state == State::AfterBareScalarValue {
                value_span: span,
            }
            ||| kind == TokenKind::QuotedScalar && state == State::EmitScalarValue {
                span,
                kind: ScalarKind::Quoted,
            }
            ||| kind == TokenKind::LBrace && state == State::EmitObjectStartValue { span }
            ||| kind == TokenKind::LParen && state == State::EmitSequenceStartValue { span }
            ||| kind == TokenKind::At && state == State::EmitTagStart { tag_span: span }
        }),
    ensures
        progress::fits(src, at(e, state, stack)),
        run::run(src, at(v, State::EmitKey { key_span, key_kind }, stack)) == seq![
            machine::key(src, key_span, key_kind),
        ] + run::run(src, at(e, state, stack)),
{
    let m = at(v, State::EmitKey { key_span, key_kind }, stack);
    tokens::law_blanks(src, v, v + 1);
    pulled::lemma_passes(src, v, TokenKind::Whitespace, v + 1, Skip::Blanks);
    pulled::lemma_reads(src, v, TokenKind::Whitespace, v + 1, Skip::Nothing);
    pulled::lemma_reads(src, v + 1, kind, e, Skip::Blanks);
    reveal(machine::emit_key);
    pulled::lemma_move(
        src,
        m,
        Some(machine::key(src, key_span, key_kind)),
        at(e, state, stack),
    );
}

/// A bare scalar as the value of an entry.
proof fn lemma_bare_value(src: Seq<u8>, p: nat, s: Scalar, stack: Seq<Context>)
    requires
        s is Bare,
        paths::scalar_ok(s),
        stands(src, p, document::scalar_bytes(s)),
        ends(src, p + document::scalar_bytes(s).len()),
        stack.len() > 0,
        stack.last() is Object,
        ({
            let span = span_at(p as int, document::scalar_bytes(s).len() as int);
            let e = p + document::scalar_bytes(s).len();
            progress::fits(src, at(e, State::AfterBareScalarValue { value_span: span }, stack))
        }),
    ensures
        ({
            let span = span_at(p as int, document::scalar_bytes(s).len() as int);
            let e = p + document::scalar_bytes(s).len();
            let next = at(e, State::ExpectEntry, stack);
            &&& progress::fits(src, next)
            &&& run::run(src, at(e, State::AfterBareScalarValue { value_span: span }, stack))
                == seq![document::scalar_event(s, p as int), EventView::EntryEnd] + run::run(
                src,
                next,
            )
        }),
{
    let span = span_at(p as int, document::scalar_bytes(s).len() as int);
    let e = p + document::scalar_bytes(s).len();
    let m = at(e, State::AfterBareScalarValue { value_span: span }, stack);
    pulled::lemma_scalar(src, p, s);
    let (kind, e2) = pulled::lemma_ends(src, e);
    pulled::lemma_reads(src, e, kind, e2, Skip::Nothing);
    reveal(machine::after_bare_scalar_value);
    let event = document::scalar_event(s, p as int);
    pulled::lemma_move(src, m, Some(event), at(e2, State::EmitEntryEnd, stack));
    lemma_free(src, e);
    pulled::lemma_entry_end(src, e2, e, stack);
    let rest = run::run(src, at(e, State::ExpectEntry, stack));
    assert(seq![event] + (seq![EventView::EntryEnd] + rest) =~= seq![event, EventView::EntryEnd]
        + rest);
}

/// A quoted scalar as the value of an entry.
proof fn lemma_quoted_value(src: Seq<u8>, p: nat, said: Seq<char>, stack: Seq<Context>)
    requires
        stands(src, p, document::scalar_bytes(Scalar::Quoted(said))),
        ends(src, p + document::scalar_bytes(Scalar::Quoted(said)).len()),
        stack.len() > 0,
        stack.last() is Object,
        ({
            let len = document::scalar_bytes(Scalar::Quoted(said)).len();
            let span = span_at(p as int, len as int);
            progress::fits(
                src,
                at(
                    p + len,
                    State::EmitScalarValue { span, kind: ScalarKind::Quoted },
                    stack,
                ),
            )
        }),
    ensures
        ({
            let len = document::scalar_bytes(Scalar::Quoted(said)).len();
            let span = span_at(p as int, len as int);
            let next = at(p + len, State::ExpectEntry, stack);
            &&& progress::fits(src, next)
            &&& run::run(
                src,
                at(
                    p + len,
                    State::EmitScalarValue { span, kind: ScalarKind::Quoted },
                    stack,
                ),
            ) == seq![
                document::scalar_event(Scalar::Quoted(said), p as int),
                EventView::EntryEnd,
            ] + run::run(src, next)
        }),
{
    let len = document::scalar_bytes(Scalar::Quoted(said)).len();
    let span = span_at(p as int, len as int);
    let e = p + len;
    let m = at(e, State::EmitScalarValue { span, kind: ScalarKind::Quoted }, stack);
    pulled::lemma_quoted(src, p, said);
    reveal(machine::emit_scalar_value);
    let event = document::scalar_event(Scalar::Quoted(said), p as int);
    let m1 = at(e, State::AfterQuotedScalarValue { value_span: span }, stack);
    pulled::lemma_move(src, m, Some(event), m1);
    let (kind, e2) = pulled::lemma_ends(src, e);
    pulled::lemma_reads(src, e, kind, e2, Skip::Nothing);
    pulled::lemma_reads(src, e, kind, e2, Skip::Blanks);
    reveal(machine::after_quoted_scalar_value);
    pulled::lemma_move(src, m1, None, at(e2, State::EmitEntryEnd, stack));
    lemma_free(src, e);
    pulled::lemma_entry_end(src, e2, e, stack);
    let rest = run::run(src, at(e, State::ExpectEntry, stack));
    assert(seq![event] + (queued::maybe(None) + (seq![EventView::EntryEnd] + rest)) =~= seq![
        event,
        EventView::EntryEnd,
    ] + rest);
}

/// `@` as the value of an entry.
proof fn lemma_unit_value(src: Seq<u8>, p: nat, stack: Seq<Context>)
    requires
        p < src.len(),
        src[p as int] == ascii::AT,
        ends(src, p + 1),
        stack.len() > 0,
        stack.last() is Object,
        progress::fits(
            src,
            at(p + 1, State::EmitTagStart { tag_span: span_at(p as int, 1) }, stack),
        ),
    ensures
        ({
            let span = span_at(p as int, 1);
            let next = at(p + 1, State::ExpectEntry, stack);
            &&& progress::fits(src, next)
            &&& run::run(src, at(p + 1, State::EmitTagStart { tag_span: span }, stack)) == seq![
                EventView::Unit { span },
                EventView::EntryEnd,
            ] + run::run(src, next)
        }),
{
    let span = span_at(p as int, 1);
    let e = p + 1;
    let m = at(e, State::EmitTagStart { tag_span: span }, stack);
    let (kind, e2) = pulled::lemma_ends(src, e);
    pulled::lemma_reads(src, e, kind, e2, Skip::Nothing);
    reveal(machine::emit_tag_start);
    let event = EventView::Unit { span };
    pulled::lemma_move(src, m, Some(event), at(e2, State::EmitEntryEnd, stack));
    lemma_free(src, e);
    pulled::lemma_entry_end(src, e2, e, stack);
    let rest = run::run(src, at(e, State::ExpectEntry, stack));
    assert(seq![event] + (seq![EventView::EntryEnd] + rest) =~= seq![event, EventView::EntryEnd]
        + rest);
}

/// The name of a tag behind `@`.
proof fn lemma_tag_start(src: Seq<u8>, p: nat, name: Seq<char>, stack: Seq<Context>)
    requires
        document::is_name(name),
        stands(src, p, document::tag_bytes(name)),
        bytes::bounded(src, p + document::tag_bytes(name).len()) || (p + document::tag_bytes(
            name,
        ).len() < src.len() && src[(p + document::tag_bytes(name).len()) as int] == ascii::QUOTE
            && encode_utf8(name) != seq![ascii::LOWER_R]),
        progress::fits(
            src,
            at(p + 1, State::EmitTagStart { tag_span: span_at(p as int, 1) }, stack),
        ),
    ensures
        ({
            let span = span_at(p as int, 1);
            let n = document::tag_bytes(name).len();
            let name_span = span_at(p + 1int, n - 1);
            let next = at(p + n, State::AfterTagStart { tag_span: name_span }, stack);
            &&& progress::fits(src, next)
            &&& run::run(src, at(p + 1, State::EmitTagStart { tag_span: span }, stack)) == seq![
                document::tag_event(name, p as int, n as int),
            ] + run::run(src, next)
        }),
{
    let span = span_at(p as int, 1);
    let m = at(p + 1, State::EmitTagStart { tag_span: span }, stack);
    let b = encode_utf8(name);
    let e = p + document::tag_bytes(name).len();
    queued::lemma_tag_tokens(src, p, name);
    lemma_tag_reads(src, p, e);
    pulled::lemma_reads(src, p + 1, TokenKind::BareScalar, e, Skip::Nothing);
    bytes::lemma_bytes(src, p + 1, b);
    bytes::lemma_name_is_word(name);
    bytes::lemma_chars(src, p + 1, name);
    assert(src[p + 1 + 0int] == b[0]);
    assert(document::starts_name(b[0]));
    text::lemma_byte_offset(src, ascii::AT, p + 1, e);
    let found = text::byte_offset(src, ascii::AT, p + 1, e);
    if found < e {
        assert(src[found as int] == b[found - (p + 1)]);
    }
    text::lemma_byte_offset(src, ascii::DOT, p + 1, e);
    let dot = text::byte_offset(src, ascii::DOT, p + 1, e);
    if dot < e {
        assert(src[dot as int] == b[dot - (p + 1)]);
    }
    reveal(machine::emit_tag_start);
    let name_span = span_at(p + 1int, b.len() as int);
    pulled::lemma_move(
        src,
        m,
        Some(document::tag_event(name, p as int, document::tag_bytes(name).len() as int)),
        at(e, State::AfterTagStart { tag_span: name_span }, stack),
    );
}

/// A name behind `@` is read as it is.
proof fn lemma_tag_reads(src: Seq<u8>, p: nat, e: nat)
    requires
        bytes::next_is(src, p + 1, TokenKind::BareScalar, p + 1, e),
        p + 1 < src.len() <= u32::MAX,
        lexer::lex_fits(src, lex_at(p + 1)),
    ensures
        tokens::reads(src, p + 1, TokenKind::BareScalar, e),
{
    if lexer::lex(src, lex_at(p + 1)).0.kind == TokenKind::Whitespace {
        let next = lexer::lex(src, lex_at(p + 1)).1;
        lexer::lemma_lex(src, lex_at(p + 1));
        lexer::lemma_budget(src, lex_at(p + 1));
        lexer::lemma_ends(src, p + 2);
        crate::parser2::progress::lemma_past_moves_on(src, next, Skip::Blanks);
        assert(false);
    }
}

/// A tag without a payload as the value of an entry.
proof fn lemma_tag_value(src: Seq<u8>, p: nat, name: Seq<char>, stack: Seq<Context>)
    requires
        document::is_name(name),
        stands(src, p, document::tag_bytes(name)),
        ends(src, p + document::tag_bytes(name).len()),
        stack.len() > 0,
        stack.last() is Object,
        progress::fits(
            src,
            at(p + 1, State::EmitTagStart { tag_span: span_at(p as int, 1) }, stack),
        ),
    ensures
        ({
            let span = span_at(p as int, 1);
            let n = document::tag_bytes(name).len();
            let next = at(p + n, State::ExpectEntry, stack);
            &&& progress::fits(src, next)
            &&& run::run(src, at(p + 1, State::EmitTagStart { tag_span: span }, stack)) == seq![
                document::tag_event(name, p as int, n as int),
                EventView::TagEnd,
                EventView::EntryEnd,
            ] + run::run(src, next)
        }),
{
    let n = document::tag_bytes(name).len();
    let e = p + n;
    lemma_tag_start(src, p, name, stack);
    let m1 = at(e, State::AfterTagStart { tag_span: span_at(p + 1int, n - 1) }, stack);
    let (kind, e2) = pulled::lemma_ends(src, e);
    pulled::lemma_reads(src, e, kind, e2, Skip::Nothing);
    reveal(machine::after_tag_start);
    pulled::lemma_move(src, m1, Some(EventView::TagEnd), at(e2, State::EmitEntryEnd, stack));
    lemma_free(src, e);
    pulled::lemma_entry_end(src, e2, e, stack);
    let rest = run::run(src, at(e, State::ExpectEntry, stack));
    let tag = document::tag_event(name, p as int, n as int);
    assert(seq![tag] + (seq![EventView::TagEnd] + (seq![EventView::EntryEnd] + rest)) =~= seq![
        tag,
        EventView::TagEnd,
        EventView::EntryEnd,
    ] + rest);
}

/// A tag with a quoted payload as the value of an entry.
proof fn lemma_tag_quoted(
    src: Seq<u8>,
    p: nat,
    name: Seq<char>,
    said: Seq<char>,
    stack: Seq<Context>,
)
    requires
        document::is_name(name),
        encode_utf8(name) != seq![ascii::LOWER_R],
        stands(
            src,
            p,
            document::tag_bytes(name) + document::scalar_bytes(Scalar::Quoted(said)),
        ),
        ends(
            src,
            p + document::tag_bytes(name).len() + document::scalar_bytes(
                Scalar::Quoted(said),
            ).len(),
        ),
        stack.len() > 0,
        stack.last() is Object,
        progress::fits(
            src,
            at(p + 1, State::EmitTagStart { tag_span: span_at(p as int, 1) }, stack),
        ),
    ensures
        ({
            let span = span_at(p as int, 1);
            let n = document::tag_bytes(name).len();
            let e = p + n + document::scalar_bytes(Scalar::Quoted(said)).len();
            let next = at(e, State::ExpectEntry, stack);
            &&& progress::fits(src, next)
            &&& run::run(src, at(p + 1, State::EmitTagStart { tag_span: span }, stack)) == seq![
                document::tag_event(name, p as int, n as int),
                document::scalar_event(Scalar::Quoted(said), p + n as int),
                EventView::TagEnd,
                EventView::EntryEnd,
            ] + run::run(src, next)
        }),
{
    let n = document::tag_bytes(name).len();
    let b = document::scalar_bytes(Scalar::Quoted(said));
    let q = p + n;
    let e = q + b.len();
    bytes::lemma_split(src, p, document::tag_bytes(name), b);
    pulled::lemma_quoted(src, q, said);
    lemma_tag_start(src, p, name, stack);
    let m1 = at(q, State::AfterTagStart { tag_span: span_at(p + 1int, n - 1) }, stack);
    pulled::lemma_reads(src, q, TokenKind::QuotedScalar, e, Skip::Nothing);
    reveal(machine::after_tag_start);
    let event = document::scalar_event(Scalar::Quoted(said), q as int);
    let m2 = at(e, State::EmitTagEnd, stack);
    pulled::lemma_move(src, m1, Some(event), m2);
    pulled::lemma_move(src, m2, Some(EventView::TagEnd), at(e, State::EmitEntryEnd, stack));
    lemma_free(src, e);
    pulled::lemma_entry_end(src, e, e, stack);
    let rest = run::run(src, at(e, State::ExpectEntry, stack));
    let tag = document::tag_event(name, p as int, n as int);
    assert(seq![tag] + (seq![event] + (seq![EventView::TagEnd] + (seq![EventView::EntryEnd]
        + rest))) =~= seq![tag, event, EventView::TagEnd, EventView::EntryEnd] + rest);
}

/// The bracket of a payload that adjoins the name of a tag.
proof fn lemma_tag_block(
    src: Seq<u8>,
    p: nat,
    name: Seq<char>,
    brace: bool,
    stack: Seq<Context>,
)
    requires
        document::is_name(name),
        stands(
            src,
            p,
            document::tag_bytes(name) + seq![
                if brace {
                    ascii::LBRACE
                } else {
                    ascii::LPAREN
                },
            ],
        ),
        progress::fits(
            src,
            at(p + 1, State::EmitTagStart { tag_span: span_at(p as int, 1) }, stack),
        ),
    ensures
        ({
            let n = document::tag_bytes(name).len();
            let span = span_at(p + n as int, 1);
            let tag = document::tag_event(name, p as int, n as int);
            let next = if brace {
                at(
                    p + n + 1,
                    State::ExpectEntry,
                    stack.push(Context::Object { implicit: false }),
                )
            } else {
                at(p + n + 1, State::ExpectSeqElem, stack.push(Context::Sequence))
            };
            let open = if brace {
                EventView::ObjectStart { span, separator: Separator::Comma }
            } else {
                EventView::SequenceStart { span }
            };
            &&& progress::fits(src, next)
            &&& run::run(
                src,
                at(p + 1, State::EmitTagStart { tag_span: span_at(p as int, 1) }, stack),
            ) == seq![tag, open] + run::run(src, next)
        }),
{
    let mark = if brace {
        ascii::LBRACE
    } else {
        ascii::LPAREN
    };
    let n = document::tag_bytes(name).len();
    let q = p + n;
    bytes::lemma_split(src, p, document::tag_bytes(name), seq![mark]);
    bytes::lemma_byte(src, q, mark);
    lemma_tag_start(src, p, name, stack);
    let m1 = at(q, State::AfterTagStart { tag_span: span_at(p + 1int, n - 1) }, stack);
    tokens::law_marks(src, q);
    let kind = if brace {
        TokenKind::LBrace
    } else {
        TokenKind::LParen
    };
    pulled::lemma_reads(src, q, kind, q + 1, Skip::Nothing);
    reveal(machine::after_tag_start);
    let span = span_at(q as int, 1);
    let tag = document::tag_event(name, p as int, n as int);
    let next = if brace {
        at(q + 1, State::ExpectEntry, stack.push(Context::Object { implicit: false }))
    } else {
        at(q + 1, State::ExpectSeqElem, stack.push(Context::Sequence))
    };
    let open = if brace {
        EventView::ObjectStart { span, separator: Separator::Comma }
    } else {
        EventView::SequenceStart { span }
    };
    pulled::lemma_move(src, m1, Some(open), next);
    let rest = run::run(src, next);
    assert(seq![tag] + (seq![open] + rest) =~= seq![tag, open] + rest);
}

/// The first token of a value and the state that it leads to.
pub open spec fn value_state(value: LineValue, p: nat) -> State {
    let span = span_at(p as int, 1);
    match value {
        LineValue::Scalar(s) => {
            let span = span_at(p as int, document::scalar_bytes(s).len() as int);
            if s is Bare {
                State::AfterBareScalarValue { value_span: span }
            } else {
                State::EmitScalarValue { span, kind: ScalarKind::Quoted }
            }
        },
        LineValue::Sequence(..) => State::EmitSequenceStartValue { span },
        LineValue::Object(..) => State::EmitObjectStartValue { span },
        _ => State::EmitTagStart { tag_span: span },
    }
}

/// Where the first token of a value ends.
pub open spec fn first_end(value: LineValue, p: nat) -> nat {
    match value {
        LineValue::Scalar(s) => p + document::scalar_bytes(s).len(),
        _ => p + 1,
    }
}

/// The key of an entry, before its value.
proof fn lemma_key_then(
    src: Seq<u8>,
    v: nat,
    value: LineValue,
    key_span: Span,
    key_kind: ScalarKind,
    stack: Seq<Context>,
)
    requires
        paths::value_ok(value),
        v < src.len(),
        src[v as int] == ascii::SPACE,
        stands(src, v + 1, paths::value_bytes(value)),
        ends(src, v + 1 + paths::value_bytes(value).len()),
        progress::fits(src, at(v, State::EmitKey { key_span, key_kind }, stack)),
    ensures
        ({
            let next = at(first_end(value, v + 1), value_state(value, v + 1), stack);
            &&& progress::fits(src, next)
            &&& run::run(src, at(v, State::EmitKey { key_span, key_kind }, stack)) == seq![
                machine::key(src, key_span, key_kind),
            ] + run::run(src, next)
        }),
{
    let p = v + 1;
    let b = paths::value_bytes(value);
    bytes::lemma_bytes(src, p, b);
    let e = first_end(value, p);
    if let LineValue::Scalar(s) = value {
        pulled::lemma_scalar(src, p, s);
        lemma_key_before(
            src,
            v,
            key_span,
            key_kind,
            stack,
            bytes::token_kind(s),
            e,
            value_state(value, p),
        );
    } else {
        assert(b.len() > 0);
        assert(src[p + 0int] == b[0]);
        tokens::law_marks(src, p);
        let kind = match value {
            LineValue::Sequence(..) => TokenKind::LParen,
            LineValue::Object(..) => TokenKind::LBrace,
            _ => TokenKind::At,
        };
        lemma_key_before(
            src,
            v,
            key_span,
            key_kind,
            stack,
            kind,
            e,
            value_state(value, p),
        );
    }
}

/// The value of an entry, and the end of the entry.
proof fn lemma_value(src: Seq<u8>, p: nat, value: LineValue, stack: Seq<Context>)
    requires
        paths::value_ok(value),
        stands(src, p, paths::value_bytes(value)),
        ends(src, p + paths::value_bytes(value).len()),
        stack.len() > 0,
        stack.last() is Object,
        progress::fits(src, at(first_end(value, p), value_state(value, p), stack)),
    ensures
        ({
            let e = p + paths::value_bytes(value).len();
            let next = at(e, State::ExpectEntry, stack);
            &&& progress::fits(src, next)
            &&& run::run(src, at(first_end(value, p), value_state(value, p), stack))
                == paths::value_events(value, p as int, src.len() as int) + seq![
                EventView::EntryEnd,
            ] + run::run(src, next)
        }),
    decreases value, 1nat,
{
    let e = p + paths::value_bytes(value).len();
    let rest = run::run(src, at(e, State::ExpectEntry, stack));
    let end = seq![EventView::EntryEnd];
    let events = paths::value_events(value, p as int, src.len() as int);
    match value {
        LineValue::Scalar(s) => {
            match s {
                Scalar::Quoted(said) => {
                    lemma_quoted_value(src, p, said, stack);
                },
                _ => {
                    lemma_bare_value(src, p, s, stack);
                },
            }
            assert(seq![events[0], EventView::EntryEnd] + rest =~= events + end + rest);
        },
        LineValue::Unit => {
            bytes::lemma_byte(src, p, ascii::AT);
            lemma_unit_value(src, p, stack);
            assert(seq![events[0], EventView::EntryEnd] + rest =~= events + end + rest);
        },
        LineValue::Tag(name) => {
            lemma_tag_value(src, p, name, stack);
            assert(seq![events[0], events[1], EventView::EntryEnd] + rest =~= events + end + rest);
        },
        LineValue::TagQuoted(name, said) => {
            lemma_tag_quoted(src, p, name, said, stack);
            assert(seq![events[0], events[1], events[2], EventView::EntryEnd] + rest =~= events
                + end + rest);
        },
        LineValue::TagSequence(name, layout, items) => {
            let n = document::tag_bytes(name).len();
            let front = document::tag_bytes(name) + seq![ascii::LPAREN];
            let inside = paths::scalars_bytes(layout, items, 0);
            assert(front.len() == n + 1);
            bytes::lemma_split(src, p, front, inside);
            lemma_tag_block(src, p, name, false, stack);
            lemma_sequence(src, p + n + 1, layout, items, stack);
            let open = seq![events[0], events[1]];
            let later = paths::scalars_events(layout, items, 0, p + n + 1int);
            assert(open =~= seq![
                document::tag_event(name, p as int, n as int),
                EventView::SequenceStart { span: span_at(p + n as int, 1) },
            ]);
            queued::lemma_assoc(open, later + end, rest);
            queued::lemma_assoc(open, later, end);
        },
        LineValue::Sequence(layout, items) => {
            let inside = paths::scalars_bytes(layout, items, 0);
            bytes::lemma_split(src, p, seq![ascii::LPAREN], inside);
            let open = EventView::SequenceStart { span: span_at(p as int, 1) };
            pulled::lemma_move(
                src,
                at(p + 1, value_state(value, p), stack),
                Some(open),
                at(p + 1, State::ExpectSeqElem, stack.push(Context::Sequence)),
            );
            lemma_sequence(src, p + 1, layout, items, stack);
            let later = paths::scalars_events(layout, items, 0, p + 1int);
            queued::lemma_assoc(seq![open], later + end, rest);
            queued::lemma_assoc(seq![open], later, end);
        },
        LineValue::TagObject(name, lines) => {
            let n = document::tag_bytes(name).len();
            let front = document::tag_bytes(name) + seq![ascii::LBRACE];
            let inside = paths::lines_bytes(lines, 0);
            assert(front.len() == n + 1);
            bytes::lemma_split(src, p, front, inside);
            lemma_tag_block(src, p, name, true, stack);
            lemma_object(src, p + n + 1, lines, stack);
            let open = seq![events[0], events[1]];
            let later = paths::lines_events(lines, 0, p + n + 1int, src.len() as int);
            assert(open =~= seq![
                document::tag_event(name, p as int, n as int),
                EventView::ObjectStart {
                    span: span_at(p + n as int, 1),
                    separator: Separator::Comma,
                },
            ]);
            queued::lemma_assoc(open, later + end, rest);
            queued::lemma_assoc(open, later, end);
        },
        LineValue::Object(lines) => {
            let inside = paths::lines_bytes(lines, 0);
            bytes::lemma_split(src, p, seq![ascii::LBRACE], inside);
            let open = EventView::ObjectStart {
                span: span_at(p as int, 1),
                separator: Separator::Comma,
            };
            pulled::lemma_move(
                src,
                at(p + 1, value_state(value, p), stack),
                Some(open),
                at(
                    p + 1,
                    State::ExpectEntry,
                    stack.push(Context::Object { implicit: false }),
                ),
            );
            lemma_object(src, p + 1, lines, stack);
            let later = paths::lines_events(lines, 0, p + 1int, src.len() as int);
            queued::lemma_assoc(seq![open], later + end, rest);
            queued::lemma_assoc(seq![open], later, end);
        },
    }
}

/// The inside of a sequence, and the end of its entry.
proof fn lemma_sequence(
    src: Seq<u8>,
    p: nat,
    layout: Layout,
    items: Seq<Scalar>,
    stack: Seq<Context>,
)
    requires
        forall|k: int| 0 <= k < items.len() ==> paths::scalar_ok(#[trigger] items[k]),
        stands(src, p, paths::scalars_bytes(layout, items, 0)),
        ends(src, p + paths::scalars_bytes(layout, items, 0).len()),
        stack.len() > 0,
        stack.last() is Object,
        progress::fits(src, at(p, State::ExpectSeqElem, stack.push(Context::Sequence))),
    ensures
        ({
            let e = p + paths::scalars_bytes(layout, items, 0).len();
            let next = at(e, State::ExpectEntry, stack);
            &&& progress::fits(src, next)
            &&& run::run(src, at(p, State::ExpectSeqElem, stack.push(Context::Sequence)))
                == paths::scalars_events(layout, items, 0, p as int) + seq![EventView::EntryEnd]
                + run::run(src, next)
        }),
{
    let e = p + paths::scalars_bytes(layout, items, 0).len();
    pulled::lemma_scalars(src, p, layout, items, 0, stack);
    lemma_free(src, e);
    pulled::lemma_entry_end(src, e, e, stack);
    queued::lemma_assoc(
        paths::scalars_events(layout, items, 0, p as int),
        seq![EventView::EntryEnd],
        run::run(src, at(e, State::ExpectEntry, stack)),
    );
}

/// The inside of an object, and the end of its entry.
proof fn lemma_object(src: Seq<u8>, p: nat, lines: Seq<Line>, stack: Seq<Context>)
    requires
        forall|k: int| 0 <= k < lines.len() ==> paths::line_ok(#[trigger] lines[k]),
        stands(src, p, paths::lines_bytes(lines, 0)),
        ends(src, p + paths::lines_bytes(lines, 0).len()),
        stack.len() > 0,
        stack.last() is Object,
        progress::fits(
            src,
            at(p, State::ExpectEntry, stack.push(Context::Object { implicit: false })),
        ),
    ensures
        ({
            let e = p + paths::lines_bytes(lines, 0).len();
            let next = at(e, State::ExpectEntry, stack);
            &&& progress::fits(src, next)
            &&& run::run(
                src,
                at(p, State::ExpectEntry, stack.push(Context::Object { implicit: false })),
            ) == paths::lines_events(lines, 0, p as int, src.len() as int) + seq![
                EventView::EntryEnd,
            ] + run::run(src, next)
        }),
    decreases lines, lines.len() + 1,
{
    let e = p + paths::lines_bytes(lines, 0).len();
    lemma_lines(src, p, lines, 0, stack);
    lemma_free(src, e);
    pulled::lemma_entry_end(src, e, e, stack);
    queued::lemma_assoc(
        paths::lines_events(lines, 0, p as int, src.len() as int),
        seq![EventView::EntryEnd],
        run::run(src, at(e, State::ExpectEntry, stack)),
    );
}

/// The lines of an object from number `i` on, and its end.
proof fn lemma_lines(src: Seq<u8>, p: nat, lines: Seq<Line>, i: nat, stack: Seq<Context>)
    requires
        i <= lines.len(),
        forall|k: int| 0 <= k < lines.len() ==> paths::line_ok(#[trigger] lines[k]),
        stands(src, p, paths::lines_bytes(lines, i)),
        progress::fits(
            src,
            at(p, State::ExpectEntry, stack.push(Context::Object { implicit: false })),
        ),
    ensures
        ({
            let e = p + paths::lines_bytes(lines, i).len();
            let next = at(e, State::EmitEntryEnd, stack);
            &&& progress::fits(src, next)
            &&& run::run(
                src,
                at(p, State::ExpectEntry, stack.push(Context::Object { implicit: false })),
            ) == paths::lines_events(lines, i, p as int, src.len() as int) + run::run(src, next)
        }),
    decreases lines, lines.len() - i,
{
    let inner = stack.push(Context::Object { implicit: false });
    let end = p + paths::lines_bytes(lines, i).len();
    let rest = run::run(src, at(end, State::EmitEntryEnd, stack));
    if i < lines.len() {
        let line = lines[i as int];
        let b = paths::line_bytes(line);
        let more = paths::lines_bytes(lines, i + 1);
        bytes::lemma_split3(src, p, seq![ascii::LF], b, more);
        bytes::lemma_byte(src, p, ascii::LF);
        let e = p + 1 + b.len();
        bytes::lemma_bytes(src, e, more);
        assert(more[0] == ascii::LF);
        assert(src[e + 0int] == more[0]);
        pulled::lemma_gap(src, p, State::ExpectEntry, inner);
        lemma_line(src, p + 1, line, inner);
        lemma_lines(src, e, lines, i + 1, stack);
        queued::lemma_assoc(
            paths::line_events(line, p + 1int, src.len() as int),
            paths::lines_events(lines, i + 1, e as int, src.len() as int),
            rest,
        );
    } else {
        let b = seq![ascii::LF, ascii::RBRACE];
        bytes::lemma_bytes(src, p, b);
        assert(src[p + 0int] == b[0]);
        assert(src[p + 1int] == b[1]);
        pulled::lemma_gap(src, p, State::ExpectEntry, inner);
        tokens::law_marks(src, p + 1);
        pulled::lemma_reads(src, p + 1, TokenKind::RBrace, p + 2, Skip::Lines);
        reveal(machine::expect_entry);
        assert(inner.drop_last() =~= stack);
        pulled::lemma_move(
            src,
            at(p + 1, State::ExpectEntry, inner),
            Some(EventView::ObjectEnd { span: span_at(p + 1int, 1) }),
            at(p + 2, State::EmitEntryEnd, stack),
        );
    }
}

/// What follows a key of one word or in quotes, and the end of the entry.
proof fn lemma_rest_of_line(
    src: Seq<u8>,
    v: nat,
    line: Line,
    key_span: Span,
    key_kind: ScalarKind,
    stack: Seq<Context>,
)
    requires
        paths::line_ok(line),
        stands(
            src,
            v,
            match line.value {
                Some(value) => seq![ascii::SPACE] + paths::value_bytes(value),
                None => Seq::empty(),
            },
        ),
        ends(
            src,
            v + match line.value {
                Some(value) => seq![ascii::SPACE] + paths::value_bytes(value),
                None => Seq::empty(),
            }.len(),
        ),
        stack.len() > 0,
        stack.last() is Object,
        progress::fits(src, at(v, State::EmitKey { key_span, key_kind }, stack)),
    ensures
        ({
            let e = v + match line.value {
                Some(value) => seq![ascii::SPACE] + paths::value_bytes(value),
                None => Seq::empty(),
            }.len();
            let next = at(e, State::ExpectEntry, stack);
            &&& progress::fits(src, next)
            &&& run::run(src, at(v, State::EmitKey { key_span, key_kind }, stack)) == seq![
                machine::key(src, key_span, key_kind),
            ] + match line.value {
                Some(value) => paths::value_events(value, v + 1int, src.len() as int),
                None => seq![EventView::Unit { span: key_span }],
            } + seq![EventView::EntryEnd] + run::run(src, next)
        }),
    decreases line, 0nat,
{
    let key = seq![machine::key(src, key_span, key_kind)];
    let end = seq![EventView::EntryEnd];
    match line.value {
        Some(value) => {
            bytes::lemma_split(src, v, seq![ascii::SPACE], paths::value_bytes(value));
            bytes::lemma_byte(src, v, ascii::SPACE);
            lemma_key_then(src, v, value, key_span, key_kind, stack);
            lemma_value(src, v + 1, value, stack);
            let e = v + 1 + paths::value_bytes(value).len();
            let rest = run::run(src, at(e, State::ExpectEntry, stack));
            let events = paths::value_events(value, v + 1int, src.len() as int);
            queued::lemma_assoc(key, events + end, rest);
            queued::lemma_assoc(key, events, end);
        },
        None => {
            let m = at(v, State::EmitKey { key_span, key_kind }, stack);
            let (kind, e2) = pulled::lemma_ends(src, v);
            pulled::lemma_reads(src, v, kind, e2, Skip::Nothing);
            pulled::lemma_reads(src, v, kind, e2, Skip::Blanks);
            reveal(machine::emit_key);
            let m1 = at(e2, State::EmitUnitValue { span: key_span }, stack);
            pulled::lemma_move(src, m, Some(key[0]), m1);
            let unit = EventView::Unit { span: key_span };
            pulled::lemma_move(src, m1, Some(unit), at(e2, State::EmitEntryEnd, stack));
            lemma_free(src, v);
            pulled::lemma_entry_end(src, e2, v, stack);
            let rest = run::run(src, at(v, State::ExpectEntry, stack));
            assert(key + (seq![unit] + (end + rest)) =~= key + seq![unit] + end + rest);
        },
    }
}

/// What follows a path of several words, and the ends of what it opened.
proof fn lemma_rest_of_path(
    src: Seq<u8>,
    v: nat,
    value: Option<LineValue>,
    full_span: Span,
    depth: nat,
    stack: Seq<Context>,
)
    requires
        value matches Some(x) ==> paths::value_ok(x) && x is Scalar,
        stands(
            src,
            v,
            match value {
                Some(value) => seq![ascii::SPACE] + paths::value_bytes(value),
                None => Seq::empty(),
            },
        ),
        ends(
            src,
            v + match value {
                Some(value) => seq![ascii::SPACE] + paths::value_bytes(value),
                None => Seq::empty(),
            }.len(),
        ),
        depth <= u32::MAX,
        stack.len() > 0,
        stack.last() is Object,
        progress::fits(
            src,
            at(
                v,
                State::AfterDottedPathKey { full_span, depth: depth as u32 },
                nested(stack, depth),
            ),
        ),
    ensures
        ({
            let e = v + match value {
                Some(value) => seq![ascii::SPACE] + paths::value_bytes(value),
                None => Seq::empty(),
            }.len();
            let m = at(
                v,
                State::AfterDottedPathKey { full_span, depth: depth as u32 },
                nested(stack, depth),
            );
            let next = at(e, State::ExpectEntry, stack);
            &&& progress::fits(src, next)
            &&& run::run(src, m) == match value {
                Some(value) => paths::value_events(value, v + 1int, src.len() as int),
                None => seq![EventView::Unit { span: full_span }],
            } + paths::closing_events(depth, src.len() as int) + seq![
                EventView::EntryEnd,
                EventView::EntryEnd,
            ] + run::run(src, next)
        }),
{
    let d = depth as u32;
    let inner = nested(stack, depth);
    let m = at(v, State::AfterDottedPathKey { full_span, depth: d }, inner);
    let close = State::CloseDottedPath { depth: d };
    let closing = paths::closing_events(depth, src.len() as int);
    let twice = seq![EventView::EntryEnd, EventView::EntryEnd];
    reveal(machine::after_dotted_path_key);
    match value {
        Some(value) => {
            let s = value->Scalar_0;
            let b = document::scalar_bytes(s);
            bytes::lemma_split(src, v, seq![ascii::SPACE], b);
            bytes::lemma_byte(src, v, ascii::SPACE);
            let p = v + 1;
            let e = p + b.len();
            pulled::lemma_scalar(src, p, s);
            tokens::law_blanks(src, v, p);
            pulled::lemma_passes(src, v, TokenKind::Whitespace, p, Skip::Blanks);
            pulled::lemma_reads(src, p, bytes::token_kind(s), e, Skip::Blanks);
            let span = span_at(p as int, b.len() as int);
            let event = document::scalar_event(s, p as int);
            let (kind, e2) = pulled::lemma_ends(src, e);
            lemma_free(src, e);
            let rest = run::run(src, at(e, State::ExpectEntry, stack));
            if s is Bare {
                let m1 = at(
                    e,
                    State::AfterDottedPathBareValue { value_span: span, depth: d },
                    inner,
                );
                pulled::lemma_move(src, m, None, m1);
                pulled::lemma_reads(src, e, kind, e2, Skip::Nothing);
                reveal(machine::after_dotted_path_bare_value);
                pulled::lemma_move(src, m1, Some(event), at(e2, close, inner));
                pulled::lemma_close_path(src, e2, e, depth, stack);
            } else {
                let m1 = at(
                    e,
                    State::EmitDottedPathScalarValue { span, kind: ScalarKind::Quoted, depth: d },
                    inner,
                );
                pulled::lemma_move(src, m, None, m1);
                pulled::lemma_move(src, m1, Some(event), at(e, close, inner));
                pulled::lemma_close_path(src, e, e, depth, stack);
            }
            assert(queued::maybe(None) + (seq![event] + (closing + twice + rest)) =~= seq![event]
                + closing + twice + rest);
        },
        None => {
            let (kind, e2) = pulled::lemma_ends(src, v);
            pulled::lemma_reads(src, v, kind, e2, Skip::Blanks);
            let unit = EventView::Unit { span: full_span };
            pulled::lemma_move(src, m, Some(unit), at(e2, close, inner));
            lemma_free(src, v);
            pulled::lemma_close_path(src, e2, v, depth, stack);
            let rest = run::run(src, at(v, State::ExpectEntry, stack));
            assert(seq![unit] + (closing + twice + rest) =~= seq![unit] + closing + twice + rest);
        },
    }
}

/// The start of an entry with a key of one word or in quotes.
pub proof fn lemma_line_start(
    src: Seq<u8>,
    k: nat,
    v: nat,
    kind: ScalarKind,
    stack: Seq<Context>,
)
    requires
        kind == ScalarKind::Bare && tokens::reads(src, k, TokenKind::BareScalar, v)
            && text::byte_offset(src, ascii::DOT, k, v) == v || kind == ScalarKind::Quoted
            && tokens::reads(src, k, TokenKind::QuotedScalar, v) && machine::escape_count(
            src,
            Span { start: k as u32, end: v as u32 },
            kind,
        ) == 0,
        k <= v <= src.len(),
        progress::fits(src, at(k, State::ExpectEntry, stack)),
    ensures
        ({
            let key_span = Span { start: k as u32, end: v as u32 };
            let next = at(v, State::EmitKey { key_span, key_kind: kind }, stack);
            &&& progress::fits(src, next)
            &&& run::run(src, at(k, State::ExpectEntry, stack)) == seq![EventView::EntryStart]
                + run::run(src, next)
        }),
{
    let key_span = Span { start: k as u32, end: v as u32 };
    let m = at(k, State::ExpectEntry, stack);
    let token = if kind == ScalarKind::Bare {
        TokenKind::BareScalar
    } else {
        TokenKind::QuotedScalar
    };
    pulled::lemma_reads(src, k, token, v, Skip::Lines);
    reveal(machine::expect_entry);
    reveal(machine::emit_entry_start);
    let m1 = at(v, State::EmitEntryStart { key_span, key_kind: kind }, stack);
    pulled::lemma_move(src, m, None, m1);
    let next = at(v, State::EmitKey { key_span, key_kind: kind }, stack);
    pulled::lemma_move(src, m1, Some(EventView::EntryStart), next);
    let rest = run::run(src, next);
    assert(queued::maybe(None) + (seq![EventView::EntryStart] + rest) =~= seq![
        EventView::EntryStart,
    ] + rest);
}

/// An entry, from its key on.
#[verifier::rlimit(50)]
#[verifier::spinoff_prover]
proof fn lemma_keyed(src: Seq<u8>, k: nat, line: Line, stack: Seq<Context>)
    requires
        paths::line_ok(line),
        stands(
            src,
            k,
            paths::key_bytes(line.key) + match line.value {
                Some(value) => seq![ascii::SPACE] + paths::value_bytes(value),
                None => Seq::empty(),
            },
        ),
        ends(
            src,
            k + paths::key_bytes(line.key).len() + match line.value {
                Some(value) => seq![ascii::SPACE] + paths::value_bytes(value),
                None => Seq::empty(),
            }.len(),
        ),
        stack.len() > 0,
        stack.last() is Object,
        progress::fits(src, at(k, State::ExpectEntry, stack)),
    ensures
        ({
            let n = paths::key_bytes(line.key).len();
            let e = k + n + match line.value {
                Some(value) => seq![ascii::SPACE] + paths::value_bytes(value),
                None => Seq::empty(),
            }.len();
            let value = match line.value {
                Some(value) => paths::value_events(value, k + n + 1int, src.len() as int),
                None => seq![EventView::Unit { span: span_at(k as int, n as int) }],
            };
            let next = at(e, State::ExpectEntry, stack);
            &&& progress::fits(src, next)
            &&& run::run(src, at(k, State::ExpectEntry, stack)) == match line.key {
                LineKey::Quoted(said) => seq![
                    EventView::EntryStart,
                    EventView::Key {
                        span: span_at(k as int, n as int),
                        tag: None,
                        payload: Some(said),
                        kind: ScalarKind::Quoted,
                    },
                ] + value + seq![EventView::EntryEnd],
                LineKey::Path(words) => if words.len() == 1 {
                    paths::path_events(words, 0, k as int) + value + seq![EventView::EntryEnd]
                } else {
                    paths::path_events(words, 0, k as int) + value + paths::closing_events(
                        (words.len() - 1) as nat,
                        src.len() as int,
                    ) + seq![EventView::EntryEnd, EventView::EntryEnd]
                },
            } + run::run(src, next)
        }),
    decreases line, 1nat,
{
    let key = paths::key_bytes(line.key);
    let written = match line.value {
        Some(value) => seq![ascii::SPACE] + paths::value_bytes(value),
        None => Seq::empty(),
    };
    let n = key.len();
    let v = k + n;
    let e = v + written.len();
    bytes::lemma_split(src, k, key, written);
    if line.value is Some {
        bytes::lemma_bytes(src, v, written);
        assert(src[v + 0int] == written[0]);
    }
    let value = match line.value {
        Some(value) => paths::value_events(value, v + 1int, src.len() as int),
        None => seq![EventView::Unit { span: span_at(k as int, n as int) }],
    };
    let rest = run::run(src, at(e, State::ExpectEntry, stack));
    let span = span_at(k as int, n as int);
    let start = seq![EventView::EntryStart];
    let end = seq![EventView::EntryEnd];
    match line.key {
        LineKey::Quoted(said) => {
            pulled::lemma_quoted(src, k, said);
            lemma_line_start(src, k, v, ScalarKind::Quoted, stack);
            lemma_rest_of_line(src, v, line, span, ScalarKind::Quoted, stack);
            let event = machine::key(src, span, ScalarKind::Quoted);
            assert(start + (seq![event] + value + end + rest) =~= seq![EventView::EntryStart, event]
                + value + end + rest);
        },
        LineKey::Path(words) => {
            bytes::lemma_plain(src, k, key);
            pulled::lemma_path_parts(src, k, words, 0);
            if words.len() == 1 {
                bytes::lemma_chars(src, k, words[0]);
                lemma_line_start(src, k, v, ScalarKind::Bare, stack);
                lemma_rest_of_line(src, v, line, span, ScalarKind::Bare, stack);
                let event = machine::key(src, span, ScalarKind::Bare);
                assert(paths::path_events(words, 0, k as int) =~= seq![
                    EventView::EntryStart,
                    event,
                ]);
                assert(start + (seq![event] + value + end + rest) =~= seq![
                    EventView::EntryStart,
                    event,
                ] + value + end + rest);
            } else {
                let m = at(k, State::ExpectEntry, stack);
                pulled::lemma_reads(src, k, TokenKind::BareScalar, v, Skip::Lines);
                reveal(machine::expect_entry);
                let m1 = at(
                    v,
                    State::EmitDottedPath { full_span: span, offset: 0, depth: 0 },
                    nested(stack, 0),
                );
                assert(nested(stack, 0) =~= stack);
                pulled::lemma_move(src, m, None, m1);
                lemma_word_count(words, 0);
                pulled::lemma_path(src, k, words, 0, span, stack);
                let depth = (words.len() - 1) as nat;
                lemma_rest_of_path(src, v, line.value, span, depth, stack);
                let path = paths::path_events(words, 0, k as int);
                let closing = paths::closing_events(depth, src.len() as int);
                let twice = seq![EventView::EntryEnd, EventView::EntryEnd];
                assert(queued::maybe(None) + (path + (value + closing + twice + rest)) =~= path
                    + value + closing + twice + rest);
            }
        },
    }
}

/// A path has no more words than bytes.
proof fn lemma_word_count(words: Seq<Seq<char>>, i: nat)
    requires
        i <= words.len(),
        forall|k: int| 0 <= k < words.len() ==> encode_utf8(#[trigger] words[k]).len() > 0,
    ensures
        paths::path_bytes(words, i).len() >= words.len() - i,
    decreases words.len() - i,
{
    if i < words.len() {
        assert(encode_utf8(words[i as int]).len() > 0);
        lemma_word_count(words, i + 1);
    }
}

/// A line.
proof fn lemma_line(src: Seq<u8>, p: nat, line: Line, stack: Seq<Context>)
    requires
        paths::line_ok(line),
        stands(src, p, paths::line_bytes(line)),
        ends(src, p + paths::line_bytes(line).len()),
        stack.len() > 0,
        stack.last() is Object,
        progress::fits(src, at(p, State::ExpectEntry, stack)),
    ensures
        ({
            let e = p + paths::line_bytes(line).len();
            let next = at(e, State::ExpectEntry, stack);
            &&& progress::fits(src, next)
            &&& run::run(src, at(p, State::ExpectEntry, stack)) == paths::line_events(
                line,
                p as int,
                src.len() as int,
            ) + run::run(src, next)
        }),
    decreases line, 2nat,
{
    let comments = paths::comments_bytes(line.comments, 0);
    let key = paths::key_bytes(line.key);
    let written = match line.value {
        Some(value) => seq![ascii::SPACE] + paths::value_bytes(value),
        None => Seq::empty(),
    };
    assert(paths::line_bytes(line) =~= comments + (key + written));
    bytes::lemma_split(src, p, comments, key + written);
    let k = p + comments.len();
    pulled::lemma_comments(src, p, line.comments, 0, stack);
    lemma_keyed(src, k, line, stack);
    let e = p + paths::line_bytes(line).len();
    let rest = run::run(src, at(e, State::ExpectEntry, stack));
    let notes = paths::comment_events(line.comments, 0, p as int);
    let all = paths::line_events(line, p as int, src.len() as int);
    let keyed = all.skip(notes.len() as int);
    assert(all =~= notes + keyed);
    queued::lemma_assoc(notes, keyed, rest);
}

// --- documents ---

/// The lines of a document from number `i` on, up to the end of the source.
proof fn lemma_document(src: Seq<u8>, p: nat, lines: Seq<Line>, i: nat)
    requires
        0 < i <= lines.len(),
        forall|k: int| 0 <= k < lines.len() ==> paths::line_ok(#[trigger] lines[k]),
        stands(src, p, paths::document_bytes(lines, i)),
        p + paths::document_bytes(lines, i).len() == src.len(),
        progress::fits(
            src,
            at(p, State::ExpectEntry, seq![Context::Object { implicit: true }]),
        ),
    ensures
        run::run(src, at(p, State::ExpectEntry, seq![Context::Object { implicit: true }]))
            == paths::document_lines(lines, i, p as int, src.len() as int) + seq![
            EventView::ObjectEnd { span: span_at(src.len() as int, 0) },
            EventView::DocumentEnd,
        ],
    decreases lines.len() - i,
{
    let stack = seq![Context::Object { implicit: true }];
    let ending = seq![
        EventView::ObjectEnd { span: span_at(src.len() as int, 0) },
        EventView::DocumentEnd,
    ];
    if i < lines.len() {
        let line = lines[i as int];
        let b = paths::line_bytes(line);
        let more = paths::document_bytes(lines, i + 1);
        bytes::lemma_split3(src, p, seq![ascii::LF], b, more);
        bytes::lemma_byte(src, p, ascii::LF);
        pulled::lemma_gap(src, p, State::ExpectEntry, stack);
        let e = p + 1 + b.len();
        lemma_document_follows(src, e, lines, i + 1);
        lemma_line(src, p + 1, line, stack);
        lemma_document(src, e, lines, i + 1);
        queued::lemma_assoc(
            paths::line_events(line, p + 1int, src.len() as int),
            paths::document_lines(lines, i + 1, e as int, src.len() as int),
            ending,
        );
    } else {
        lemma_end(src, p);
        assert(paths::document_lines(lines, i, p as int, src.len() as int) + ending =~= ending);
    }
}

/// Behind a line of a document stands another one, or the end of the source.
proof fn lemma_document_follows(src: Seq<u8>, e: nat, lines: Seq<Line>, i: nat)
    requires
        0 < i <= lines.len(),
        stands(src, e, paths::document_bytes(lines, i)),
        e + paths::document_bytes(lines, i).len() == src.len(),
    ensures
        ends(src, e),
{
    if i < lines.len() {
        let b = paths::line_bytes(lines[i as int]);
        bytes::lemma_split3(src, e, seq![ascii::LF], b, paths::document_bytes(lines, i + 1));
        bytes::lemma_byte(src, e, ascii::LF);
    }
}

/// The end of a document.
pub proof fn lemma_end(src: Seq<u8>, p: nat)
    requires
        p == src.len(),
        progress::fits(
            src,
            at(p, State::ExpectEntry, seq![Context::Object { implicit: true }]),
        ),
    ensures
        run::run(src, at(p, State::ExpectEntry, seq![Context::Object { implicit: true }])) == seq![
            EventView::ObjectEnd { span: span_at(p as int, 0) },
            EventView::DocumentEnd,
        ],
{
    let stack = seq![Context::Object { implicit: true }];
    let m = at(p, State::ExpectEntry, stack);
    pulled::lemma_reads(src, p, TokenKind::Eof, p, Skip::Lines);
    reveal(machine::expect_entry);
    assert(stack.drop_last() =~= Seq::<Context>::empty());
    let m1 = at(p, State::EmitDocumentEnd, Seq::empty());
    let end = EventView::ObjectEnd { span: span_at(p as int, 0) };
    pulled::lemma_move(src, m, Some(end), m1);
    let m2 = at(p, State::Done, Seq::empty());
    pulled::lemma_move(src, m1, Some(EventView::DocumentEnd), m2);
    assert(run::run(src, m2) =~= Seq::<EventView>::empty());
    assert(seq![end] + (seq![EventView::DocumentEnd] + Seq::<EventView>::empty()) =~= seq![
        end,
        EventView::DocumentEnd,
    ]);
}

/// The parser that emits one event per call reads from every document of lines, as
/// it is written, the events that it is made of: a path of words is a key in an
/// object for each word, and keys and scalars say their texts.
pub proof fn law_lines(src: Seq<u8>, lines: Seq<Line>)
    requires
        lexer::source_fits(src),
        forall|k: int| 0 <= k < lines.len() ==> paths::line_ok(#[trigger] lines[k]),
        src == paths::document_bytes(lines, 0),
    ensures
        run::run(src, run::start()) == paths::document_events(lines),
{
    let stack = seq![Context::Object { implicit: true }];
    run::lemma_start(src);
    let m0 = run::start();
    let m1 = at(0, State::EmitRootObjectStart, Seq::empty());
    pulled::lemma_move(src, m0, Some(EventView::DocumentStart), m1);
    let root = EventView::ObjectStart { span: span_at(0, 0), separator: Separator::Newline };
    assert(Seq::empty().push(Context::Object { implicit: true }) =~= stack);
    let m2 = at(0, State::ExpectEntry, stack);
    pulled::lemma_move(src, m1, Some(root), m2);
    let start = seq![EventView::DocumentStart, root];
    let ending = seq![
        EventView::ObjectEnd { span: span_at(src.len() as int, 0) },
        EventView::DocumentEnd,
    ];
    let inside = paths::document_lines(lines, 0, 0, src.len() as int);
    assert(src.subrange(0, src.len() as int) =~= src);
    if lines.len() == 0 {
        lemma_end(src, 0);
        assert(inside + ending =~= ending);
    } else {
        let line = lines[0];
        let b = paths::line_bytes(line);
        bytes::lemma_split(src, 0, b, paths::document_bytes(lines, 1));
        lemma_document_follows(src, b.len(), lines, 1);
        lemma_line(src, 0, line, stack);
        lemma_document(src, b.len(), lines, 1);
        queued::lemma_assoc(
            paths::line_events(line, 0, src.len() as int),
            paths::document_lines(lines, 1, b.len() as int, src.len() as int),
            ending,
        );
    }
    assert(seq![EventView::DocumentStart] + (seq![root] + (inside + ending)) =~= start + inside
        + ending);
}

} // verus!
