//! Attributes, as the parser that emits one event per call reads them.
use crate::ascii;
use crate::event::{EventView, ScalarKind, Separator};
use crate::lexer;
use crate::lexer::Skip;
use crate::lines;
use crate::parser3::machine;
use crate::parser3::machine::{Context, State};
use crate::parser3::progress;
use crate::parser3::run;
use crate::span::Span;
use crate::text;
use crate::token::TokenKind;
use crate::written::bytes;
use crate::written::bytes::stands;
use crate::written::document;
use crate::written::document::{span_at, Attribute, Scalar};
use crate::written::paths;
use crate::written::pulled;
use crate::written::pulled::at;
use crate::written::pulling;
use crate::written::queued;
use crate::written::queued::maybe;
use crate::written::tokens;
use vstd::prelude::*;
use vstd::utf8::*;

verus! {

/// An attribute that can be written with a value that is bare or in quotes.
pub open spec fn attribute_ok(a: Attribute) -> bool {
    document::is_word(a.key) && paths::scalar_ok(a.value)
}

/// How the attributes from number `i` on are written, with a space before each.
pub open spec fn spaced_bytes(list: Seq<Attribute>, i: nat) -> Seq<u8>
    decreases list.len() - i,
{
    if i >= list.len() {
        Seq::empty()
    } else {
        seq![ascii::SPACE] + document::attribute_bytes(list[i as int]) + spaced_bytes(list, i + 1)
    }
}

/// The events of the attributes from number `i` on, which are written at `p`.
pub open spec fn spaced_events(list: Seq<Attribute>, i: nat, p: int) -> Seq<EventView>
    decreases list.len() - i,
{
    if i >= list.len() {
        Seq::empty()
    } else {
        let n = document::attribute_bytes(list[i as int]).len();
        document::attribute_events(list[i as int], p + 1) + spaced_events(list, i + 1, p + 1 + n)
    }
}

/// Where attributes go on: behind the last one, a space or the end of the source.
pub open spec fn goes_on(src: Seq<u8>, e: nat) -> bool {
    e == src.len() || e + 1 < src.len() && src[e as int] == ascii::SPACE && !tokens::is_blank(
        src[e + 1int],
    )
}

/// A space behind an attribute changes nothing.
proof fn lemma_attribute_gap(src: Seq<u8>, e: nat, stack: Seq<Context>)
    requires
        e + 1 < src.len(),
        src[e as int] == ascii::SPACE,
        !tokens::is_blank(src[e + 1int]),
        lexer::source_fits(src),
        lexer::lex_fits(src, tokens::lex_at(e)),
    ensures
        progress::fits(src, at(e, State::AfterAttrEntryEnd, stack)),
        progress::fits(src, at(e + 1, State::AfterAttrEntryEnd, stack)),
        run::run(src, at(e, State::AfterAttrEntryEnd, stack)) == run::run(
            src,
            at(e + 1, State::AfterAttrEntryEnd, stack),
        ),
{
    let m = at(e, State::AfterAttrEntryEnd, stack);
    let c = at(e + 1, State::AfterAttrEntryEnd, stack);
    text::lemma_boundary(src, e + 1int);
    tokens::law_blanks(src, e, e + 1);
    pulled::lemma_passes(src, e, TokenKind::Whitespace, e + 1, Skip::Blanks);
    reveal(machine::after_attr_entry_end);
    assert(machine::read(src, m, Skip::Blanks) == machine::read(src, c, Skip::Blanks));
    assert(machine::step(src, m) == machine::step(src, c));
    lines::lemma_single_step(src, m);
    lines::lemma_single_step(src, c);
}

/// An attribute, from behind its `>` on.
proof fn lemma_rest_of_attribute(src: Seq<u8>, p: nat, a: Attribute, stack: Seq<Context>)
    requires
        lexer::source_fits(src),
        attribute_ok(a),
        stands(src, p, document::attribute_bytes(a)),
        goes_on(src, p + document::attribute_bytes(a).len()),
        ({
            let n = encode_utf8(a.key).len();
            let attr_key_span = span_at(p as int, n as int);
            progress::fits(src, at(p + n + 1, State::EmitAttrEntryStart { attr_key_span }, stack))
        }),
    ensures
        ({
            let n = encode_utf8(a.key).len();
            let e = p + document::attribute_bytes(a).len();
            let attr_key_span = span_at(p as int, n as int);
            &&& progress::fits(src, at(e, State::AfterAttrEntryEnd, stack))
            &&& run::run(src, at(p + n + 1, State::EmitAttrEntryStart { attr_key_span }, stack))
                == document::attribute_events(a, p as int) + run::run(
                src,
                at(e, State::AfterAttrEntryEnd, stack),
            )
        }),
{
    let key = encode_utf8(a.key);
    let n = key.len();
    let value = document::scalar_bytes(a.value);
    bytes::lemma_split3(src, p, key, seq![ascii::GT], value);
    bytes::lemma_chars(src, p, a.key);
    let v = p + n + 1;
    let e = v + value.len();
    let attr_key_span = span_at(p as int, n as int);
    let m0 = at(v, State::EmitAttrEntryStart { attr_key_span }, stack);
    let m1 = at(v, State::EmitAttrKey { attr_key_span }, stack);
    pulled::lemma_move(src, m0, Some(EventView::EntryStart), m1);
    let m2 = at(v, State::ExpectAttrValue { attr_key_span }, stack);
    let key_event = machine::key(src, attr_key_span, ScalarKind::Bare);
    pulled::lemma_move(src, m1, Some(key_event), m2);
    pulled::lemma_scalar(src, v, a.value);
    pulled::lemma_reads(src, v, bytes::token_kind(a.value), e, Skip::Nothing);
    reveal(machine::expect_attr_value);
    let span = span_at(v as int, value.len() as int);
    let value_event = document::scalar_event(a.value, v as int);
    let q = if a.value is Bare && e < src.len() {
        e + 1
    } else {
        e
    };
    let m4 = at(q, State::EmitAttrEntryEnd, stack);
    if a.value is Bare {
        let m3 = at(e, State::AfterAttrBareValue { value_span: span }, stack);
        pulled::lemma_move(src, m2, None, m3);
        if e < src.len() {
            tokens::law_blanks(src, e, e + 1);
            pulled::lemma_reads(src, e, TokenKind::Whitespace, e + 1, Skip::Nothing);
        } else {
            pulled::lemma_reads(src, e, TokenKind::Eof, e, Skip::Nothing);
        }
        reveal(machine::after_attr_bare_value);
        pulled::lemma_move(src, m3, Some(value_event), m4);
    } else {
        let m3 = at(e, State::EmitAttrScalarValue { span, kind: ScalarKind::Quoted }, stack);
        pulled::lemma_move(src, m2, None, m3);
        pulled::lemma_move(src, m3, Some(value_event), m4);
    }
    let m5 = at(q, State::AfterAttrEntryEnd, stack);
    pulled::lemma_move(src, m4, Some(EventView::EntryEnd), m5);
    text::lemma_boundary(src, e as int);
    if e < src.len() {
        lemma_attribute_gap(src, e, stack);
    }
    let rest = run::run(src, at(e, State::AfterAttrEntryEnd, stack));
    assert(run::run(src, m5) == rest);
    assert(seq![EventView::EntryStart] + (seq![key_event] + (maybe(None) + (seq![value_event] + (
    seq![EventView::EntryEnd] + rest)))) =~= document::attribute_events(a, p as int) + rest);
}

/// The attributes from number `i` on, up to the end of the source, and the end of
/// the object that they are.
proof fn lemma_attributes(src: Seq<u8>, p: nat, list: Seq<Attribute>, i: nat, stack: Seq<Context>)
    requires
        lexer::source_fits(src),
        0 < i <= list.len(),
        forall|k: int| 0 <= k < list.len() ==> attribute_ok(#[trigger] list[k]),
        stands(src, p, spaced_bytes(list, i)),
        p + spaced_bytes(list, i).len() == src.len(),
        stack.len() > 0,
        progress::fits(src, at(p, State::AfterAttrEntryEnd, stack)),
    ensures
        ({
            let next = at(src.len(), State::EmitEntryEnd, stack.drop_last());
            &&& progress::fits(src, next)
            &&& run::run(src, at(p, State::AfterAttrEntryEnd, stack)) == spaced_events(
                list,
                i,
                p as int,
            ) + (seq![EventView::ObjectEnd { span: span_at(src.len() as int, 0) }] + run::run(
                src,
                next,
            ))
        }),
    decreases list.len() - i,
{
    let m = at(p, State::AfterAttrEntryEnd, stack);
    let next = at(src.len(), State::EmitEntryEnd, stack.drop_last());
    reveal(machine::after_attr_entry_end);
    if i < list.len() {
        let a = list[i as int];
        let b = document::attribute_bytes(a);
        let more = spaced_bytes(list, i + 1);
        bytes::lemma_split3(src, p, seq![ascii::SPACE], b, more);
        bytes::lemma_byte(src, p, ascii::SPACE);
        let k = p + 1;
        let n = encode_utf8(a.key).len();
        let e = k + b.len();
        lemma_goes_on(src, e, list, i + 1);
        lemma_attribute_tokens(src, k, a);
        text::lemma_boundary(src, k as int);
        lemma_attribute_gap(src, p, stack);
        pulled::lemma_reads(src, k, TokenKind::BareScalar, k + n, Skip::Blanks);
        pulled::lemma_reads(src, k + n, TokenKind::Gt, k + n + 1, Skip::Nothing);
        let attr_key_span = span_at(k as int, n as int);
        let m1 = at(k + n + 1, State::EmitAttrEntryStart { attr_key_span }, stack);
        pulled::lemma_move(src, at(k, State::AfterAttrEntryEnd, stack), None, m1);
        lemma_rest_of_attribute(src, k, a, stack);
        lemma_attributes(src, e, list, i + 1, stack);
        let first = document::attribute_events(a, k as int);
        let later = spaced_events(list, i + 1, e as int);
        let ending = seq![EventView::ObjectEnd { span: span_at(src.len() as int, 0) }] + run::run(
            src,
            next,
        );
        queued::lemma_assoc(first, later, ending);
        assert(maybe(None) + (first + (later + ending)) =~= first + (later + ending));
    } else {
        let e = src.len();
        pulled::lemma_reads(src, e, TokenKind::Eof, e, Skip::Blanks);
        let m1 = at(e, State::EmitAttrObjectEnd, stack);
        pulled::lemma_move(src, m, None, m1);
        let end = EventView::ObjectEnd { span: span_at(e as int, 0) };
        pulled::lemma_move(src, m1, Some(end), next);
        let rest = run::run(src, next);
        assert(maybe(None) + (seq![end] + rest) =~= spaced_events(list, i, p as int) + (seq![end]
            + rest));
    }
}

/// What follows an attribute.
proof fn lemma_goes_on(src: Seq<u8>, e: nat, list: Seq<Attribute>, i: nat)
    requires
        i <= list.len(),
        forall|k: int| 0 <= k < list.len() ==> attribute_ok(#[trigger] list[k]),
        stands(src, e, spaced_bytes(list, i)),
        e + spaced_bytes(list, i).len() == src.len(),
    ensures
        goes_on(src, e),
{
    if i < list.len() {
        let a = list[i as int];
        let b = document::attribute_bytes(a);
        bytes::lemma_split3(src, e, seq![ascii::SPACE], b, spaced_bytes(list, i + 1));
        bytes::lemma_byte(src, e, ascii::SPACE);
        lemma_attribute_tokens(src, e + 1, a);
    }
}

/// The key of an attribute and the `>` behind it.
proof fn lemma_attribute_tokens(src: Seq<u8>, p: nat, a: Attribute)
    requires
        attribute_ok(a),
        stands(src, p, document::attribute_bytes(a)),
    ensures
        ({
            let n = encode_utf8(a.key).len();
            &&& n > 0
            &&& p + n < src.len()
            &&& !tokens::is_blank(src[p as int])
            &&& tokens::reads(src, p, TokenKind::BareScalar, p + n)
            &&& tokens::reads(src, p + n, TokenKind::Gt, p + n + 1)
        }),
{
    let key = encode_utf8(a.key);
    let n = key.len();
    bytes::lemma_split3(src, p, key, seq![ascii::GT], document::scalar_bytes(a.value));
    bytes::lemma_byte(src, p + n, ascii::GT);
    tokens::law_marks(src, p + n);
    bytes::lemma_bytes(src, p, key);
    bytes::lemma_plain(src, p, key);
    assert(src[p + 0int] == key[0]);
}

/// Attributes behind a key are an object with an entry for each, whose key and
/// value are those of the attribute.
#[verifier::rlimit(50)]
#[verifier::spinoff_prover]
pub proof fn law_attributes(src: Seq<u8>, said: Seq<char>, list: Seq<Attribute>)
    requires
        lexer::source_fits(src),
        list.len() > 0,
        forall|k: int| 0 <= k < list.len() ==> attribute_ok(#[trigger] list[k]),
        src == document::scalar_bytes(Scalar::Quoted(said)) + spaced_bytes(list, 0),
    ensures
        ({
            let v = document::scalar_bytes(Scalar::Quoted(said)).len();
            let end = span_at(src.len() as int, 0);
            run::run(src, run::start()) == seq![
                EventView::DocumentStart,
                EventView::ObjectStart { span: span_at(0, 0), separator: Separator::Newline },
                EventView::EntryStart,
                EventView::Key {
                    span: span_at(0, v as int),
                    tag: None,
                    payload: Some(said),
                    kind: ScalarKind::Quoted,
                },
                EventView::ObjectStart {
                    span: span_at(v + 1int, encode_utf8(list[0].key).len() as int),
                    separator: Separator::Comma,
                },
            ] + (spaced_events(list, 0, v as int) + seq![
                EventView::ObjectEnd { span: end },
                EventView::EntryEnd,
                EventView::ObjectEnd { span: end },
                EventView::DocumentEnd,
            ])
        }),
{
    let b = document::scalar_bytes(Scalar::Quoted(said));
    let v = b.len();
    assert(src.subrange(0, src.len() as int) =~= src);
    bytes::lemma_split(src, 0, b, spaced_bytes(list, 0));
    let stack = seq![Context::Object { implicit: true }];
    pulled::lemma_quoted(src, 0, said);
    lemma_opening(src, stack);
    pulling::lemma_line_start(src, 0, v, ScalarKind::Quoted, stack);
    let key_span = span_at(0, v as int);
    lemma_attributes_of(src, v, key_span, list, stack);
    text::lemma_boundary(src, src.len() as int);
    pulled::lemma_entry_end(src, src.len(), src.len(), stack);
    pulling::lemma_end(src, src.len());
    let n = encode_utf8(list[0].key).len();
    lemma_joined(
        machine::key(src, key_span, ScalarKind::Quoted),
        EventView::ObjectStart {
            span: span_at(v + 1int, n as int),
            separator: Separator::Comma,
        },
        spaced_events(list, 0, v as int),
        EventView::ObjectEnd { span: span_at(src.len() as int, 0) },
    );
}

/// The attributes behind a key in quotes, up to the end of the source.
proof fn lemma_attributes_of(
    src: Seq<u8>,
    v: nat,
    key_span: Span,
    list: Seq<Attribute>,
    stack: Seq<Context>,
)
    requires
        lexer::source_fits(src),
        list.len() > 0,
        forall|k: int| 0 <= k < list.len() ==> attribute_ok(#[trigger] list[k]),
        stands(src, v, spaced_bytes(list, 0)),
        v + spaced_bytes(list, 0).len() == src.len(),
        progress::fits(
            src,
            at(v, State::EmitKey { key_span, key_kind: ScalarKind::Quoted }, stack),
        ),
    ensures
        ({
            let next = at(src.len(), State::EmitEntryEnd, stack);
            let open = EventView::ObjectStart {
                span: span_at(v + 1int, encode_utf8(list[0].key).len() as int),
                separator: Separator::Comma,
            };
            &&& progress::fits(src, next)
            &&& run::run(
                src,
                at(v, State::EmitKey { key_span, key_kind: ScalarKind::Quoted }, stack),
            ) == seq![machine::key(src, key_span, ScalarKind::Quoted)] + (seq![open] + (
            spaced_events(list, 0, v as int) + (seq![
                EventView::ObjectEnd { span: span_at(src.len() as int, 0) },
            ] + run::run(src, next))))
        }),
{
    let inner = stack.push(Context::AttrObject);
    let a = list[0];
    let n = encode_utf8(a.key).len();
    let w = document::attribute_bytes(a);
    bytes::lemma_split3(src, v, seq![ascii::SPACE], w, spaced_bytes(list, 1));
    bytes::lemma_byte(src, v, ascii::SPACE);
    let p = v + 1;
    let e = p + w.len();
    lemma_attribute_tokens(src, p, a);
    lemma_goes_on(src, e, list, 1);
    let span = span_at(p as int, n as int);
    pulling::lemma_key_before(
        src,
        v,
        key_span,
        ScalarKind::Quoted,
        stack,
        TokenKind::BareScalar,
        p + n,
        State::AfterBareScalarValue { value_span: span },
    );
    let m = at(p + n, State::AfterBareScalarValue { value_span: span }, stack);
    pulled::lemma_reads(src, p + n, TokenKind::Gt, p + n + 1, Skip::Nothing);
    reveal(machine::after_bare_scalar_value);
    let open = EventView::ObjectStart { span, separator: Separator::Comma };
    let m1 = at(p + n + 1, State::EmitAttrEntryStart { attr_key_span: span }, inner);
    pulled::lemma_move(src, m, Some(open), m1);
    lemma_rest_of_attribute(src, p, a, inner);
    lemma_attributes(src, e, list, 1, inner);
    assert(inner.drop_last() =~= stack);
    let first = document::attribute_events(a, p as int);
    let later = spaced_events(list, 1, e as int);
    let ending = seq![EventView::ObjectEnd { span: span_at(src.len() as int, 0) }] + run::run(
        src,
        at(src.len(), State::EmitEntryEnd, stack),
    );
    queued::lemma_assoc(first, later, ending);
}

/// The start of a document.
pub proof fn lemma_opening(src: Seq<u8>, stack: Seq<Context>)
    requires
        lexer::source_fits(src),
        stack == seq![Context::Object { implicit: true }],
    ensures
        progress::fits(src, at(0, State::ExpectEntry, stack)),
        run::run(src, run::start()) == seq![
            EventView::DocumentStart,
            EventView::ObjectStart { span: span_at(0, 0), separator: Separator::Newline },
        ] + run::run(src, at(0, State::ExpectEntry, stack)),
{
    run::lemma_start(src);
    let m1 = at(0, State::EmitRootObjectStart, Seq::empty());
    pulled::lemma_move(src, run::start(), Some(EventView::DocumentStart), m1);
    let root = EventView::ObjectStart { span: span_at(0, 0), separator: Separator::Newline };
    assert(Seq::empty().push(Context::Object { implicit: true }) =~= stack);
    let m2 = at(0, State::ExpectEntry, stack);
    pulled::lemma_move(src, m1, Some(root), m2);
    let rest = run::run(src, m2);
    assert(seq![EventView::DocumentStart] + (seq![root] + rest) =~= seq![
        EventView::DocumentStart,
        root,
    ] + rest);
}

/// The events of a document with attributes, joined.
proof fn lemma_joined(key: EventView, open: EventView, inside: Seq<EventView>, close: EventView)
    ensures
        ({
            let root = EventView::ObjectStart {
                span: span_at(0, 0),
                separator: Separator::Newline,
            };
            seq![EventView::DocumentStart, root] + (seq![EventView::EntryStart] + (seq![key] + (
            seq![open] + (inside + (seq![close] + (seq![EventView::EntryEnd] + seq![
                close,
                EventView::DocumentEnd,
            ])))))) == seq![EventView::DocumentStart, root, EventView::EntryStart, key, open] + (
            inside + seq![close, EventView::EntryEnd, close, EventView::DocumentEnd])
        }),
{
    let root = EventView::ObjectStart { span: span_at(0, 0), separator: Separator::Newline };
    let ending = seq![close, EventView::EntryEnd, close, EventView::DocumentEnd];
    assert(seq![close] + (seq![EventView::EntryEnd] + seq![close, EventView::DocumentEnd])
        =~= ending);
    let body = inside + ending;
    assert(seq![EventView::DocumentStart, root] + (seq![EventView::EntryStart] + (seq![key] + (seq![
        open,
    ] + body))) =~= seq![EventView::DocumentStart, root, EventView::EntryStart, key, open] + body);
}

} // verus!
