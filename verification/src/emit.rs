//! Events about pieces of a source text.
use crate::ascii;
use crate::escape;
use crate::escape::ShortUnicode;
use crate::event::{Event, EventView, ParseErrorKindView, ScalarKind, Separator};
use crate::lexer;
use crate::span::Span;
use crate::text;
use std::borrow::Cow;
use vstd::prelude::*;
use vstd::string::*;
use vstd::utf8::*;

verus! {

// --- the inside of a raw scalar ---

/// Where the inside of the raw scalar at `span` starts.
pub open spec fn raw_start(src: Seq<u8>, span: Span) -> int {
    (lexer::hashes_end(src, (span.start + 1) as nat) + 1) as int
}

/// Where the inside of the raw scalar at `span` ends: before a quote and as
/// many `#` as stand behind the `r`.
pub open spec fn raw_stop(src: Seq<u8>, span: Span) -> int {
    span.end - (raw_start(src, span) - span.start - 2) - 1
}

/// The inside of a raw scalar cuts no character.
pub proof fn lemma_raw_inside(src: Seq<u8>, span: Span)
    requires
        valid_utf8(src),
        lexer::raw_form(src, span),
    ensures
        text::is_cut(src, raw_start(src, span), raw_stop(src, span)),
{
    lexer::lemma_ends(src, (span.start + 1) as nat);
    text::lemma_boundary(src, raw_start(src, span));
    text::lemma_boundary(src, raw_stop(src, span));
}

/// The bytes of a raw scalar that says `body`, with `n` times `#` on either side.
pub open spec fn raw_text(n: nat, body: Seq<char>) -> Seq<u8> {
    let hashes = Seq::new(n, |i: int| ascii::HASH);
    seq![ascii::LOWER_R] + hashes + seq![ascii::QUOTE] + encode_utf8(body) + seq![ascii::QUOTE]
        + hashes
}

/// Hashes end before the first byte that is none.
proof fn lemma_hashes(src: Seq<u8>, p: nat, q: nat)
    requires
        p <= q < src.len(),
        forall|i: int| p <= i < q ==> #[trigger] src[i] == ascii::HASH,
        src[q as int] != ascii::HASH,
    ensures
        lexer::hashes_end(src, p) == q,
    decreases q - p,
{
    if p < q {
        lemma_hashes(src, p + 1, q);
    }
}

/// A raw scalar says what stands between its quotes, whatever that is, and
/// however many hashes stand around them.
pub proof fn law_raw(src: Seq<u8>, span: Span, n: nat, body: Seq<char>, short: ShortUnicode)
    requires
        span.start <= span.end <= src.len(),
        src.subrange(span.start as int, span.end as int) == raw_text(n, body),
    ensures
        lexer::raw_form(src, span),
        scalar_text(src, span, ScalarKind::Raw, short) == body,
{
    let written = raw_text(n, body);
    let inside = encode_utf8(body);
    let start = span.start as int;
    assert(written.len() == 2 * n + 3 + inside.len());
    assert forall|i: int| 0 <= i < written.len() implies #[trigger] src[start + i]
        == written[i] by {
        assert(src.subrange(start, span.end as int)[i] == src[start + i]);
    }
    let quote = start + 1 + n;
    assert(src[start + 0] == written[0]);
    assert(src[start + (1 + n)] == written[(1 + n) as int]);
    assert(src[start + (2 + n + inside.len())] == written[(2 + n + inside.len()) as int]);
    assert forall|i: int| start + 1 <= i < quote implies #[trigger] src[i] == ascii::HASH by {
        assert(src[start + (i - start)] == written[i - start]);
    }
    lemma_hashes(src, (start + 1) as nat, quote as nat);
    let found = src.subrange(quote + 1, quote + 1 + inside.len());
    assert forall|i: int| 0 <= i < inside.len() implies #[trigger] found[i] == inside[i] by {
        assert(src[start + (2 + n + i)] == written[2 + n + i]);
    }
    assert(found =~= inside);
    encode_utf8_decode_utf8(body);
}

/// The inside of the raw scalar at `span`.
pub fn strip_raw_delimiters<'a>(source: &'a str, span: Span) -> (r: &'a str)
    requires
        lexer::raw_form(source.spec_bytes(), span),
    ensures
        r@ == text::chars_between(
            source.spec_bytes(),
            raw_start(source.spec_bytes(), span),
            raw_stop(source.spec_bytes(), span),
        ),
{
    let bytes = source.as_bytes();
    proof {
        encode_utf8_valid_utf8(source@);
        lemma_raw_inside(source.spec_bytes(), span);
    }
    let start = span.start as usize;
    let quote = lexer::find_hashes_end(bytes, start + 1);
    let hashes = quote - (start + 1);
    text::slice(source, quote + 1, span.end as usize - hashes - 1)
}

// --- what a scalar says ---

/// What the scalar of kind `kind` at `span` says.
pub open spec fn scalar_text(
    src: Seq<u8>,
    span: Span,
    kind: ScalarKind,
    short: ShortUnicode,
) -> Seq<char> {
    match kind {
        ScalarKind::Quoted => escape::quoted_text(src, span, short),
        ScalarKind::Raw => text::chars_between(src, raw_start(src, span), raw_stop(src, span)),
        _ => text::chars_at(src, span),
    }
}

/// The text at `span` has the form of a scalar of kind `kind`.
pub open spec fn scalar_fits(src: Seq<u8>, span: Span, kind: ScalarKind) -> bool {
    &&& text::span_fits(src, span)
    &&& kind == ScalarKind::Quoted ==> lexer::quoted_form(src, span)
    &&& kind == ScalarKind::Raw ==> lexer::raw_form(src, span)
}

/// What the scalar of kind `kind` at `span` says.
pub fn text_of<'a>(source: &'a str, span: Span, kind: ScalarKind, short: ShortUnicode) -> (r: Cow<
    'a,
    str,
>)
    requires
        scalar_fits(source.spec_bytes(), span, kind),
    ensures
        r@ == scalar_text(source.spec_bytes(), span, kind, short),
{
    match kind {
        ScalarKind::Quoted => escape::unescape_quoted(source, span, short),
        ScalarKind::Raw => Cow::Borrowed(strip_raw_delimiters(source, span)),
        _ => Cow::Borrowed(text::slice_at(source, span)),
    }
}

// --- events ---

/// The key that is written at `span`.
pub open spec fn key(src: Seq<u8>, span: Span, kind: ScalarKind, short: ShortUnicode) -> EventView {
    EventView::Key { span, tag: None, payload: Some(scalar_text(src, span, kind, short)), kind }
}

/// The unit key `@` at `span`.
pub open spec fn unit_key(span: Span) -> EventView {
    EventView::Key { span, tag: None, payload: None, kind: ScalarKind::Bare }
}

/// The scalar that is written at `span`.
pub open spec fn scalar(
    src: Seq<u8>,
    span: Span,
    kind: ScalarKind,
    short: ShortUnicode,
) -> EventView {
    EventView::Scalar { span, value: scalar_text(src, span, kind, short), kind }
}

/// An object that starts at `span`, its entries separated by commas.
pub open spec fn object_start(span: Span) -> EventView {
    EventView::ObjectStart { span, separator: Separator::Comma }
}

/// An object that starts at `span`, its entries separated by line breaks.
pub open spec fn open_object_start(span: Span) -> EventView {
    EventView::ObjectStart { span, separator: Separator::Newline }
}

/// The line comment at `span`.
pub open spec fn comment(src: Seq<u8>, span: Span) -> EventView {
    EventView::Comment { span, text: text::chars_at(src, span) }
}

/// The doc comment at `span`.
pub open spec fn doc_comment(src: Seq<u8>, span: Span) -> EventView {
    EventView::DocComment { span, text: text::chars_at(src, span) }
}

/// A tag at `span` whose name is written at `name`.
pub open spec fn tag_start(src: Seq<u8>, span: Span, name: Span) -> EventView {
    EventView::TagStart { span, name: text::chars_at(src, name) }
}

/// The text at `span` is wrong.
pub open spec fn error(span: Span, kind: ParseErrorKindView) -> EventView {
    EventView::Error { span, kind }
}

/// The key that is written at `span`.
pub fn key_event<'a>(source: &'a str, span: Span, kind: ScalarKind, short: ShortUnicode) -> (e:
    Event<'a>)
    requires
        scalar_fits(source.spec_bytes(), span, kind),
    ensures
        e@ == key(source.spec_bytes(), span, kind, short),
{
    Event::Key { span, tag: None, payload: Some(text_of(source, span, kind, short)), kind }
}

/// The unit key `@` at `span`.
pub fn unit_key_event<'a>(span: Span) -> (e: Event<'a>)
    ensures
        e@ == unit_key(span),
{
    Event::Key { span, tag: None, payload: None, kind: ScalarKind::Bare }
}

/// The scalar that is written at `span`.
pub fn scalar_event<'a>(source: &'a str, span: Span, kind: ScalarKind, short: ShortUnicode) -> (e:
    Event<'a>)
    requires
        scalar_fits(source.spec_bytes(), span, kind),
    ensures
        e@ == scalar(source.spec_bytes(), span, kind, short),
{
    Event::Scalar { span, value: text_of(source, span, kind, short), kind }
}

/// The line comment at `span`.
pub fn comment_event<'a>(source: &'a str, span: Span) -> (e: Event<'a>)
    requires
        text::span_fits(source.spec_bytes(), span),
    ensures
        e@ == comment(source.spec_bytes(), span),
{
    Event::Comment { span, text: text::slice_at(source, span) }
}

/// The doc comment at `span`.
pub fn doc_comment_event<'a>(source: &'a str, span: Span) -> (e: Event<'a>)
    requires
        text::span_fits(source.spec_bytes(), span),
    ensures
        e@ == doc_comment(source.spec_bytes(), span),
{
    Event::DocComment { span, text: text::slice_at(source, span) }
}

/// A tag at `span` whose name is written at `name`.
pub fn tag_start_event<'a>(source: &'a str, span: Span, name: Span) -> (e: Event<'a>)
    requires
        text::span_fits(source.spec_bytes(), name),
    ensures
        e@ == tag_start(source.spec_bytes(), span, name),
{
    Event::TagStart { span, name: text::slice_at(source, name) }
}

// --- tags ---

/// Where the name of a tag that is written at `span` ends: before the first
/// `@`, or with the text.
pub open spec fn name_end(src: Seq<u8>, span: Span) -> u32 {
    text::byte_offset(src, ascii::AT, span.start as nat, span.end as nat) as u32
}

/// The name of a tag ends within its text, between characters.
pub proof fn lemma_name_end(src: Seq<u8>, span: Span)
    requires
        valid_utf8(src),
        text::span_fits(src, span),
    ensures
        name_end(src, span) == text::byte_offset(
            src,
            ascii::AT,
            span.start as nat,
            span.end as nat,
        ),
        span.start <= name_end(src, span) <= span.end,
        is_char_boundary(src, name_end(src, span) as int),
        name_end(src, span) < span.end ==> is_char_boundary(src, name_end(src, span) + 1),
{
    text::lemma_byte_offset(src, ascii::AT, span.start as nat, span.end as nat);
    let e = name_end(src, span);
    if e < span.end {
        text::lemma_boundary(src, e as int);
        text::lemma_boundary(src, e + 1);
    }
}

/// Where the name of a tag that is written at `span` ends.
pub fn find_name_end(source: &str, span: Span) -> (r: u32)
    requires
        text::span_fits(source.spec_bytes(), span),
    ensures
        r == name_end(source.spec_bytes(), span),
        span.start <= r <= span.end,
        text::span_fits(source.spec_bytes(), (Span { start: span.start, end: r })),
        r < span.end ==> is_char_boundary(source.spec_bytes(), r + 1),
{
    proof {
        encode_utf8_valid_utf8(source@);
        lemma_name_end(source.spec_bytes(), span);
    }
    text::find_byte(source.as_bytes(), ascii::AT, span.start as usize, span.end as usize) as u32
}

} // verus!
