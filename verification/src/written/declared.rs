//! The declaration of a schema in a document.
use crate::ascii;
use crate::event::{EventView, Separator};
use crate::lexer;
use crate::parser2::machine;
use crate::parser2::machine::{Context, Machine, State};
use crate::parser2::progress;
use crate::parser2::run;
use crate::span::Span;
use crate::token::{Token, TokenKind};
use crate::written::bytes;
use crate::written::bytes::stands;
use crate::written::document;
use crate::written::document::{span_at, Entry, Node, Scalar};
use crate::written::queued;
use crate::written::queued::{clean, mach, maybe};
use crate::written::reading;
use vstd::prelude::*;
use vstd::string::*;
use vstd::utf8::*;

verus! {

/// The name of a declaration can be the name of a tag.
proof fn lemma_schema_name()
    ensures
        document::is_name("schema"@),
{
    reveal_strlit("schema");
    let name = "schema"@;
    assert(is_ascii_chars(name));
    is_ascii_chars_encode_utf8(name);
    let b = encode_utf8(name);
    assert(b.len() == 6);
    assert(name[0] as u8 == b[0] && name[1] as u8 == b[1] && name[2] as u8 == b[2]);
    assert(name[3] as u8 == b[3] && name[4] as u8 == b[4] && name[5] as u8 == b[5]);
}

/// A declaration in the outermost object is passed over, with its value.
proof fn lemma_declaration(src: Seq<u8>, value: Scalar, e: nat, stack: Seq<Context>)
    requires
        lexer::source_fits(src),
        document::scalar_ok(value),
        stands(src, 0, document::tag_bytes("schema"@)),
        document::tag_bytes("schema"@).len() < src.len(),
        src[document::tag_bytes("schema"@).len() as int] == ascii::SPACE,
        stands(src, document::tag_bytes("schema"@).len() + 1, document::scalar_bytes(value)),
        e == document::tag_bytes("schema"@).len() + 1 + document::scalar_bytes(value).len(),
        queued::stops(src, e),
        stack == seq![Context::Object { implicit: true }],
        progress::fits(src, mach(0, State::ExpectingEntry, stack)),
    ensures
        progress::fits(src, mach(e, State::ExpectingEntry, stack)),
        run::run(src, mach(0, State::ExpectingEntry, stack)) == run::run(
            src,
            mach(e, State::ExpectingEntry, stack),
        ),
{
    let name = "schema"@;
    let n = document::tag_bytes(name).len();
    let v = n + 1;
    let m = mach(0, State::ExpectingEntry, stack);
    lemma_schema_name();
    queued::lemma_tag_tokens(src, 0, name);
    queued::lemma_take(src, m, 0, TokenKind::At, 0, 1);
    queued::lemma_take(src, clean(m, 1), 1, TokenKind::BareScalar, 1, n);
    reading::lemma_node_start(src, v, Node::Scalar(value), false);
    bytes::lemma_scalar(src, v, value);
    bytes::lemma_space(src, n);
    let kind = bytes::token_kind(value);
    queued::lemma_take(src, clean(m, n), n, kind, v, e);
    let t = Token { kind, span: Span { start: v as u32, end: e as u32 } };
    let m3 = Machine { buffer: seq![t], ..clean(m, e) };
    assert(machine::unread(clean(m, e), t) =~= m3);
    queued::lemma_name(src, m3, 1, name, n);
    bytes::lemma_chars(src, 1, name);
    reveal(machine::at_key);
    assert(machine::take(src, m3).1 =~= clean(m, e));
    assert(machine::skip_value(src, m3, 0) =~= clean(m, e));
    let (event, k) = machine::step(src, m);
    assert(k.queue =~= Seq::<EventView>::empty());
    assert(event is None);
    queued::lemma_go(src, m, e);
    let next = mach(e, State::ExpectingEntry, stack);
    assert(clean(k, e) =~= next);
    assert(maybe(None) + k.queue + run::run(src, next) =~= run::run(src, next));
}

/// A document that starts with the declaration of its schema is made of what
/// follows it: the entries from the second on.
#[verifier::rlimit(50)]
#[verifier::spinoff_prover]
pub proof fn law_declaration(src: Seq<u8>, value: Scalar, entries: Seq<Entry>)
    requires
        lexer::source_fits(src),
        document::scalar_ok(value),
        entries.len() > 0,
        forall|k: int| 0 <= k < entries.len() ==> document::entry_ok(#[trigger] entries[k], true),
        src == document::tag_bytes("schema"@) + seq![ascii::SPACE] + (document::scalar_bytes(value)
            + document::document_bytes(entries, 1)),
    ensures
        ({
            let e = document::tag_bytes("schema"@).len() + 1 + document::scalar_bytes(value).len();
            run::run(src, run::start(false)) == seq![
                EventView::DocumentStart,
                EventView::ObjectStart { span: span_at(0, 0), separator: Separator::Newline },
            ] + (document::document_entries(entries, 1, e as int) + seq![
                EventView::ObjectEnd { span: span_at(src.len() as int, 0) },
                EventView::DocumentEnd,
            ])
        }),
{
    let a = document::tag_bytes("schema"@);
    let b = document::scalar_bytes(value);
    let more = document::document_bytes(entries, 1);
    assert(src.subrange(0, src.len() as int) =~= src);
    bytes::lemma_split3(src, 0, a, seq![ascii::SPACE], b + more);
    bytes::lemma_byte(src, a.len(), ascii::SPACE);
    bytes::lemma_split(src, a.len() + 1, b, more);
    let e = a.len() + 1 + b.len();
    reading::lemma_document_follows(src, e, entries, 1);
    let stack = seq![Context::Object { implicit: true }];
    lemma_schema_name();
    queued::lemma_tag_tokens(src, 0, "schema"@);
    reading::lemma_start(src, TokenKind::At, 1);
    lemma_declaration(src, value, e, stack);
    reading::lemma_document(src, e, entries, 1);
}

} // verus!
