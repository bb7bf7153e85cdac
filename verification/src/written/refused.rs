//! Documents with mistakes, as the parser that emits one event per call reads
//! them.
use crate::ascii;
use crate::event::{EventView, ParseErrorKindView, ScalarKind, Separator};
use crate::lexer;
use crate::lexer::Skip;
use crate::parser3::machine;
use crate::parser3::machine::{Context, State};
use crate::parser3::progress;
use crate::parser3::run;
use crate::text;
use crate::token::TokenKind;
use crate::written::attributes;
use crate::written::bytes;
use crate::written::bytes::stands;
use crate::written::document;
use crate::written::document::{span_at, Scalar};
use crate::written::mistakes;
use crate::written::mistakes::mistake;
use crate::written::paths;
use crate::written::pulled;
use crate::written::pulled::at;
use crate::written::pulling;
use crate::written::queued::maybe;
use crate::written::tokens;
use vstd::prelude::*;
use vstd::utf8::*;

verus! {

// --- paths ---

/// A path that starts with a dot, or whose only dot is its end, is no key: that is
/// an error at the whole of it, before any entry.
pub proof fn law_invalid_path(src: Seq<u8>, path: Seq<u8>, part: Seq<u8>)
    requires
        lexer::source_fits(src),
        tokens::is_plain(path, 0, path.len()),
        stands(src, 0, path),
        bytes::bounded(src, path.len()),
        path[0] == ascii::DOT || paths::no_dot(part) && path == part + seq![ascii::DOT],
    ensures
        seq![
            EventView::DocumentStart,
            EventView::ObjectStart { span: span_at(0, 0), separator: Separator::Newline },
            mistake(span_at(0, path.len() as int), ParseErrorKindView::InvalidKey),
        ].is_prefix_of(run::run(src, run::start())),
{
    let stack = seq![Context::Object { implicit: true }];
    let n = path.len();
    attributes::lemma_opening(src, stack);
    bytes::lemma_plain(src, 0, path);
    bytes::lemma_bytes(src, 0, path);
    text::lemma_byte_offset(src, ascii::DOT, 0, n);
    let dot = text::byte_offset(src, ascii::DOT, 0, n);
    if path[0] == ascii::DOT {
        assert(src[0 + 0int] == path[0]);
        assert(dot == 0);
    } else {
        assert(path[n - 1] == ascii::DOT);
        assert(src[0 + (n - 1)] == path[n - 1]);
        assert(dot < n);
        if dot + 1 < n {
            assert(src[0 + dot as int] == path[dot as int]);
            assert(path[dot as int] == part[dot as int]);
        }
        assert(dot + 1 == n);
    }
    pulled::lemma_reads(src, 0, TokenKind::BareScalar, n, Skip::Lines);
    reveal(machine::expect_entry);
    reveal(machine::emit_dotted_path);
    let full_span = span_at(0, n as int);
    let m = at(0, State::ExpectEntry, stack);
    let m1 = at(n, State::EmitDottedPath { full_span, offset: 0, depth: 0 }, stack);
    pulled::lemma_move(src, m, None, m1);
    let m2 = at(n, State::CloseDottedPath { depth: 0 }, stack);
    let error = mistake(full_span, ParseErrorKindView::InvalidKey);
    pulled::lemma_move(src, m1, Some(error), m2);
    let rest = run::run(src, m2);
    let root = EventView::ObjectStart { span: span_at(0, 0), separator: Separator::Newline };
    assert(seq![EventView::DocumentStart, root] + (maybe(None) + (seq![error] + rest)) =~= seq![
        EventView::DocumentStart,
        root,
        error,
    ] + rest);
}

// --- too much in an entry ---

/// One more scalar behind a bare value, at the end of the source.
proof fn lemma_stray(
    src: Seq<u8>,
    p: nat,
    value: Scalar,
    stray: Scalar,
    stack: Seq<Context>,
)
    requires
        lexer::source_fits(src),
        value is Bare,
        paths::scalar_ok(value),
        paths::scalar_ok(stray),
        stands(src, p, document::scalar_bytes(value)),
        ({
            let e = p + document::scalar_bytes(value).len();
            &&& e + 1 < src.len()
            &&& src[e as int] == ascii::SPACE
            &&& stands(src, e + 1, document::scalar_bytes(stray))
            &&& e + 1 + document::scalar_bytes(stray).len() == src.len()
            &&& progress::fits(
                src,
                at(
                    e,
                    State::AfterBareScalarValue {
                        value_span: span_at(
                            p as int,
                            document::scalar_bytes(value).len() as int,
                        ),
                    },
                    stack,
                ),
            )
        }),
        stack == seq![Context::Object { implicit: true }],
    ensures
        ({
            let n = document::scalar_bytes(value).len();
            let value_span = span_at(p as int, n as int);
            let next = at(src.len(), State::EmitEntryEnd, stack);
            &&& progress::fits(src, next)
            &&& run::run(src, at(p + n, State::AfterBareScalarValue { value_span }, stack)) == seq![
                document::scalar_event(value, p as int),
                mistake(
                    span_at(p + n + 1int, document::scalar_bytes(stray).len() as int),
                    ParseErrorKindView::TooManyAtoms,
                ),
            ] + run::run(src, next)
        }),
{
    let n = document::scalar_bytes(value).len();
    let e = p + n;
    let x = e + 1;
    let value_span = span_at(p as int, n as int);
    let error_span = span_at(x as int, document::scalar_bytes(stray).len() as int);
    pulled::lemma_scalar(src, p, value);
    pulled::lemma_scalar(src, x, stray);
    tokens::law_blanks(src, e, x);
    pulled::lemma_reads(src, e, TokenKind::Whitespace, x, Skip::Nothing);
    pulled::lemma_reads(src, x, bytes::token_kind(stray), src.len(), Skip::Blanks);
    reveal(machine::after_bare_scalar_value);
    let m = at(e, State::AfterBareScalarValue { value_span }, stack);
    let m1 = at(src.len(), State::EmitScalarThenTooManyAtoms { value_span, error_span }, stack);
    pulled::lemma_move(src, m, None, m1);
    let m2 = at(src.len(), State::EmitTooManyAtomsThenEntryEnd { error_span }, stack);
    let event = document::scalar_event(value, p as int);
    pulled::lemma_move(src, m1, Some(event), m2);
    pulled::lemma_reads(src, src.len(), TokenKind::Eof, src.len(), Skip::RestOfEntry);
    reveal(machine::emit_too_many_atoms);
    let next = at(src.len(), State::EmitEntryEnd, stack);
    let error = mistake(error_span, ParseErrorKindView::TooManyAtoms);
    pulled::lemma_move(src, m2, Some(error), next);
    let rest = run::run(src, next);
    assert(maybe(None) + (seq![event] + (seq![error] + rest)) =~= seq![event, error] + rest);
}

/// An entry is a key and one value. A scalar behind them is an error, at its place.
#[verifier::rlimit(50)]
#[verifier::spinoff_prover]
pub proof fn law_too_many_atoms(src: Seq<u8>, said: Seq<char>, value: Scalar, stray: Scalar)
    requires
        lexer::source_fits(src),
        value is Bare,
        paths::scalar_ok(value),
        paths::scalar_ok(stray),
        src == document::scalar_bytes(Scalar::Quoted(said)) + seq![ascii::SPACE] + (
        document::scalar_bytes(value) + seq![ascii::SPACE] + document::scalar_bytes(stray)),
    ensures
        ({
            let v = document::scalar_bytes(Scalar::Quoted(said)).len();
            let x = v + 1 + document::scalar_bytes(value).len() + 1;
            run::run(src, run::start()) == seq![
                EventView::DocumentStart,
                EventView::ObjectStart { span: span_at(0, 0), separator: Separator::Newline },
            ] + (seq![EventView::EntryStart] + (seq![
                EventView::Key {
                    span: span_at(0, v as int),
                    tag: None,
                    payload: Some(said),
                    kind: ScalarKind::Quoted,
                },
            ] + (seq![
                document::scalar_event(value, v + 1int),
                mistake(
                    span_at(x as int, document::scalar_bytes(stray).len() as int),
                    ParseErrorKindView::TooManyAtoms,
                ),
            ] + (seq![EventView::EntryEnd] + seq![
                EventView::ObjectEnd { span: span_at(src.len() as int, 0) },
                EventView::DocumentEnd,
            ]))))
        }),
{
    let a = document::scalar_bytes(Scalar::Quoted(said));
    let b = document::scalar_bytes(value);
    let c = document::scalar_bytes(stray);
    mistakes::lemma_stray_laid_out(src, a, b, c);
    let v = a.len();
    let stack = seq![Context::Object { implicit: true }];
    attributes::lemma_opening(src, stack);
    pulled::lemma_quoted(src, 0, said);
    pulling::lemma_line_start(src, 0, v, ScalarKind::Quoted, stack);
    pulled::lemma_scalar(src, v + 1, value);
    let value_span = span_at(v + 1int, b.len() as int);
    pulling::lemma_key_before(
        src,
        v,
        span_at(0, v as int),
        ScalarKind::Quoted,
        stack,
        TokenKind::BareScalar,
        v + 1 + b.len(),
        State::AfterBareScalarValue { value_span },
    );
    lemma_stray(src, v + 1, value, stray, stack);
    text::lemma_boundary(src, src.len() as int);
    pulled::lemma_entry_end(src, src.len(), src.len(), stack);
    pulling::lemma_end(src, src.len());
}

// --- escapes ---

/// Bytes that are neither a quote nor a backslash.
pub open spec fn no_marks(b: Seq<u8>) -> bool {
    forall|i: int| 0 <= i < b.len() ==> #[trigger] b[i] != ascii::QUOTE && b[i] != ascii::BACKSLASH
}

/// Bytes that are neither a quote nor a backslash can stand between quotes.
proof fn lemma_inside(src: Seq<u8>, i: nat, j: nat, e: nat)
    requires
        i <= j <= e,
        forall|k: int| i <= k < j ==> #[trigger] src[k] != ascii::QUOTE && src[k] != ascii::BACKSLASH,
    ensures
        tokens::is_inside(src, i, e) == tokens::is_inside(src, j, e),
    decreases j - i,
{
    if i < j {
        lemma_inside(src, i + 1, j, e);
    }
}

/// A scalar in quotes with a backslash before a character with which it means
/// nothing.
proof fn lemma_escape(src: Seq<u8>, p: nat, before: Seq<u8>, c: char, after: Seq<u8>)
    requires
        lexer::source_fits(src),
        no_marks(before),
        no_marks(after),
        (c as u32) < 0x80,
        c != 'n' && c != 'r' && c != 't' && c != 'u' && c != '"' && c != '\\',
        stands(
            src,
            p,
            seq![ascii::QUOTE] + (before + seq![ascii::BACKSLASH, c as u8] + after) + seq![
                ascii::QUOTE,
            ],
        ),
    ensures
        ({
            let n = before.len() + after.len() + 4;
            let span = span_at(p as int, n as int);
            &&& tokens::reads(src, p, TokenKind::QuotedScalar, p + n)
            &&& machine::escape_count(src, span, ScalarKind::Quoted) > 0
            &&& machine::escape_error(src, span, 0) == mistake(
                span_at(p + 1 + before.len() as int, 2),
                ParseErrorKindView::InvalidEscape(seq!['\\', c]),
            )
        }),
{
    let two = seq![ascii::BACKSLASH, c as u8];
    let body = before + two + after;
    let q = p + 1;
    let i = before.len();
    let e = q + body.len();
    bytes::lemma_split3(src, p, seq![ascii::QUOTE], body, seq![ascii::QUOTE]);
    bytes::lemma_byte(src, p, ascii::QUOTE);
    bytes::lemma_byte(src, e, ascii::QUOTE);
    bytes::lemma_split3(src, q, before, two, after);
    bytes::lemma_bytes(src, q, before);
    bytes::lemma_bytes(src, q + i, two);
    bytes::lemma_bytes(src, q + i + 2, after);
    assert(src[q + i + 0int] == two[0]);
    assert forall|k: int| q <= k < q + i implies #[trigger] src[k] != ascii::QUOTE && src[k]
        != ascii::BACKSLASH by {
        assert(src[k] == before[k - q]);
    }
    assert forall|k: int| q + i + 2 <= k < e implies #[trigger] src[k] != ascii::QUOTE && src[k]
        != ascii::BACKSLASH by {
        assert(src[k] == after[k - (q + i + 2)]);
    }
    lemma_inside(src, q, q + i, e);
    lemma_inside(src, q + i + 2, e, e);
    assert(tokens::is_inside(src, e, e));
    tokens::law_quoted(src, p, e);
    let span = span_at(p as int, (e + 1 - p) as int);
    assert(src.subrange(span.start + 1, span.end - 1) =~= body);
    assert forall|k: int| 0 <= k < i implies #[trigger] body[k] != ascii::BACKSLASH by {
        assert(body[k] == before[k]);
    }
    pulled::lemma_no_escape(body, 0, i);
    assert(body[i as int] == two[0] && body[i + 1int] == two[1]);
    bytes::lemma_ascii_byte(c);
    assert(machine::escapes(src, span)[0] == (i as int, 2int));
    let chars = seq!['\\', c];
    assert(is_ascii_chars(chars));
    is_ascii_chars_encode_utf8(chars);
    assert(encode_utf8(chars) =~= two);
    bytes::lemma_chars(src, q + i, chars);
}

/// A backslash in quotes before a character with which it means nothing is an
/// error, at its place, whatever follows the quotes.
pub proof fn law_invalid_escape(
    src: Seq<u8>,
    said: Seq<char>,
    before: Seq<u8>,
    c: char,
    after: Seq<u8>,
)
    requires
        lexer::source_fits(src),
        no_marks(before),
        no_marks(after),
        (c as u32) < 0x80,
        c != 'n' && c != 'r' && c != 't' && c != 'u' && c != '"' && c != '\\',
        stands(
            src,
            0,
            document::scalar_bytes(Scalar::Quoted(said)) + seq![ascii::SPACE] + (seq![ascii::QUOTE]
                + (before + seq![ascii::BACKSLASH, c as u8] + after) + seq![ascii::QUOTE]),
        ),
    ensures
        ({
            let v = document::scalar_bytes(Scalar::Quoted(said)).len();
            seq![
                EventView::DocumentStart,
                EventView::ObjectStart { span: span_at(0, 0), separator: Separator::Newline },
                EventView::EntryStart,
                EventView::Key {
                    span: span_at(0, v as int),
                    tag: None,
                    payload: Some(said),
                    kind: ScalarKind::Quoted,
                },
                mistake(
                    span_at(v + 2 + before.len() as int, 2),
                    ParseErrorKindView::InvalidEscape(seq!['\\', c]),
                ),
            ].is_prefix_of(run::run(src, run::start()))
        }),
{
    let a = document::scalar_bytes(Scalar::Quoted(said));
    let written = seq![ascii::QUOTE] + (before + seq![ascii::BACKSLASH, c as u8] + after) + seq![
        ascii::QUOTE,
    ];
    let v = a.len();
    let p = v + 1;
    bytes::lemma_split3(src, 0, a, seq![ascii::SPACE], written);
    bytes::lemma_byte(src, v, ascii::SPACE);
    bytes::lemma_bytes(src, p, written);
    assert(src[p + 0int] == written[0]);
    let stack = seq![Context::Object { implicit: true }];
    attributes::lemma_opening(src, stack);
    pulled::lemma_quoted(src, 0, said);
    pulling::lemma_line_start(src, 0, v, ScalarKind::Quoted, stack);
    lemma_escape(src, p, before, c, after);
    let n = before.len() + after.len() + 4;
    let span = span_at(p as int, n as int);
    let m = at(p + n, State::EmitScalarValue { span, kind: ScalarKind::Quoted }, stack);
    pulling::lemma_key_before(
        src,
        v,
        span_at(0, v as int),
        ScalarKind::Quoted,
        stack,
        TokenKind::QuotedScalar,
        p + n,
        m.state,
    );
    reveal(machine::emit_scalar_value);
    reveal(machine::emit_invalid_escapes);
    let m1 = at(
        p + n,
        State::EmitInvalidEscapes { span, kind: ScalarKind::Quoted, error_index: 0 },
        stack,
    );
    pulled::lemma_move(src, m, None, m1);
    let m2 = at(
        p + n,
        State::EmitInvalidEscapes { span, kind: ScalarKind::Quoted, error_index: 1 },
        stack,
    );
    let error = machine::escape_error(src, span, 0);
    pulled::lemma_move(src, m1, Some(error), m2);
    let rest = run::run(src, m2);
    let root = EventView::ObjectStart { span: span_at(0, 0), separator: Separator::Newline };
    let key = machine::key(src, span_at(0, v as int), ScalarKind::Quoted);
    assert(seq![EventView::DocumentStart, root] + (seq![EventView::EntryStart] + (seq![key] + (
    maybe(None) + (seq![error] + rest)))) =~= seq![
        EventView::DocumentStart,
        root,
        EventView::EntryStart,
        key,
        error,
    ] + rest);
}

// --- brackets ---

/// A bracket that adjoins a word that is a key is an error, which takes the place
/// of the key, and opens its value all the same, whatever follows.
pub proof fn law_missing_space(src: Seq<u8>, word: Seq<u8>, brace: bool)
    requires
        lexer::source_fits(src),
        tokens::is_plain(word, 0, word.len()),
        paths::no_dot(word),
        stands(src, 0, word + seq![mistakes::bracket_byte(brace)]),
    ensures
        seq![
            EventView::DocumentStart,
            EventView::ObjectStart { span: span_at(0, 0), separator: Separator::Newline },
            EventView::EntryStart,
            mistake(
                span_at(word.len() as int, 1),
                ParseErrorKindView::MissingWhitespaceBeforeBlock,
            ),
            mistakes::bracket_event(brace, span_at(word.len() as int, 1)),
        ].is_prefix_of(run::run(src, run::start())),
{
    let stack = seq![Context::Object { implicit: true }];
    let n = word.len();
    bytes::lemma_split(src, 0, word, seq![mistakes::bracket_byte(brace)]);
    bytes::lemma_byte(src, n, mistakes::bracket_byte(brace));
    attributes::lemma_opening(src, stack);
    bytes::lemma_plain(src, 0, word);
    pulled::lemma_dot(src, 0, word, n);
    pulling::lemma_line_start(src, 0, n, ScalarKind::Bare, stack);
    tokens::law_marks(src, n);
    let kind = if brace {
        TokenKind::LBrace
    } else {
        TokenKind::LParen
    };
    pulled::lemma_reads(src, n, kind, n + 1, Skip::Nothing);
    pulled::lemma_reads(src, n, kind, n + 1, Skip::Blanks);
    reveal(machine::emit_key);
    let key_span = span_at(0, n as int);
    let span = span_at(n as int, 1);
    let m = at(n, State::EmitKey { key_span, key_kind: ScalarKind::Bare }, stack);
    let state = if brace {
        State::EmitObjectStartValue { span }
    } else {
        State::EmitSequenceStartValue { span }
    };
    let m1 = at(n + 1, state, stack);
    let error = mistake(span, ParseErrorKindView::MissingWhitespaceBeforeBlock);
    pulled::lemma_move(src, m, Some(error), m1);
    let m2 = if brace {
        at(n + 1, State::ExpectEntry, stack.push(Context::Object { implicit: false }))
    } else {
        at(n + 1, State::ExpectSeqElem, stack.push(Context::Sequence))
    };
    let open = mistakes::bracket_event(brace, span);
    pulled::lemma_move(src, m1, Some(open), m2);
    let rest = run::run(src, m2);
    let root = EventView::ObjectStart { span: span_at(0, 0), separator: Separator::Newline };
    assert(seq![EventView::DocumentStart, root] + (seq![EventView::EntryStart] + (seq![error] + (
    seq![open] + rest))) =~= seq![
        EventView::DocumentStart,
        root,
        EventView::EntryStart,
        error,
        open,
    ] + rest);
}

/// A sequence that the source ends in is an error there.
pub proof fn law_unclosed_sequence(src: Seq<u8>, said: Seq<char>)
    requires
        lexer::source_fits(src),
        src == document::scalar_bytes(Scalar::Quoted(said)) + seq![ascii::SPACE] + seq![
            ascii::LPAREN,
        ],
    ensures
        ({
            let v = document::scalar_bytes(Scalar::Quoted(said)).len();
            run::run(src, run::start()) == seq![
                EventView::DocumentStart,
                EventView::ObjectStart { span: span_at(0, 0), separator: Separator::Newline },
                EventView::EntryStart,
                EventView::Key {
                    span: span_at(0, v as int),
                    tag: None,
                    payload: Some(said),
                    kind: ScalarKind::Quoted,
                },
                EventView::SequenceStart { span: span_at(v + 1int, 1) },
                mistake(span_at(src.len() as int, 0), ParseErrorKindView::UnclosedSequence),
            ]
        }),
{
    let a = document::scalar_bytes(Scalar::Quoted(said));
    let v = a.len();
    let p = v + 1;
    let e = src.len();
    assert(src.subrange(0, e as int) =~= src);
    bytes::lemma_split3(src, 0, a, seq![ascii::SPACE], seq![ascii::LPAREN]);
    bytes::lemma_byte(src, v, ascii::SPACE);
    bytes::lemma_byte(src, p, ascii::LPAREN);
    let stack = seq![Context::Object { implicit: true }];
    attributes::lemma_opening(src, stack);
    pulled::lemma_quoted(src, 0, said);
    pulling::lemma_line_start(src, 0, v, ScalarKind::Quoted, stack);
    tokens::law_marks(src, p);
    let span = span_at(p as int, 1);
    let m = at(e, State::EmitSequenceStartValue { span }, stack);
    pulling::lemma_key_before(
        src,
        v,
        span_at(0, v as int),
        ScalarKind::Quoted,
        stack,
        TokenKind::LParen,
        e,
        m.state,
    );
    let inner = stack.push(Context::Sequence);
    let m1 = at(e, State::ExpectSeqElem, inner);
    let open = EventView::SequenceStart { span };
    pulled::lemma_move(src, m, Some(open), m1);
    pulled::lemma_reads(src, e, TokenKind::Eof, e, Skip::Lines);
    reveal(machine::expect_seq_elem);
    let error = mistake(span_at(e as int, 0), ParseErrorKindView::UnclosedSequence);
    let m2 = at(e, State::Done, inner);
    pulled::lemma_move(src, m1, Some(error), m2);
    assert(run::run(src, m2) =~= Seq::<EventView>::empty());
    let root = EventView::ObjectStart { span: span_at(0, 0), separator: Separator::Newline };
    let key = machine::key(src, span_at(0, v as int), ScalarKind::Quoted);
    assert(seq![EventView::DocumentStart, root] + (seq![EventView::EntryStart] + (seq![key] + (seq![
        open,
    ] + (seq![error] + Seq::<EventView>::empty())))) =~= seq![
        EventView::DocumentStart,
        root,
        EventView::EntryStart,
        key,
        open,
        error,
    ]);
}

// --- names of tags ---

/// A word behind `@` that starts with a digit or a hyphen, or holds a dot, is no
/// name of a tag: that is an error at its place, whatever follows it.
pub proof fn law_invalid_tag_name(src: Seq<u8>, said: Seq<char>, word: Seq<u8>, dot: int)
    requires
        lexer::source_fits(src),
        tokens::is_plain(word, 0, word.len()),
        forall|i: int| 0 <= i < word.len() ==> #[trigger] word[i] != ascii::AT,
        ascii::DIGIT_0 <= word[0] <= ascii::DIGIT_9 || word[0] == ascii::HYPHEN || 0 <= dot
            < word.len() && word[dot] == ascii::DOT,
        stands(
            src,
            0,
            document::scalar_bytes(Scalar::Quoted(said)) + seq![ascii::SPACE] + (seq![ascii::AT]
                + word),
        ),
        bytes::bounded(
            src,
            document::scalar_bytes(Scalar::Quoted(said)).len() + 2 + word.len(),
        ),
    ensures
        ({
            let v = document::scalar_bytes(Scalar::Quoted(said)).len();
            seq![
                EventView::DocumentStart,
                EventView::ObjectStart { span: span_at(0, 0), separator: Separator::Newline },
                EventView::EntryStart,
                EventView::Key {
                    span: span_at(0, v as int),
                    tag: None,
                    payload: Some(said),
                    kind: ScalarKind::Quoted,
                },
                mistake(
                    span_at(v + 2int, word.len() as int),
                    ParseErrorKindView::InvalidTagName,
                ),
            ].is_prefix_of(run::run(src, run::start()))
        }),
{
    let a = document::scalar_bytes(Scalar::Quoted(said));
    let v = a.len();
    let p = v + 1;
    let e = p + 1 + word.len();
    bytes::lemma_split3(src, 0, a, seq![ascii::SPACE], seq![ascii::AT] + word);
    bytes::lemma_byte(src, v, ascii::SPACE);
    bytes::lemma_split(src, p, seq![ascii::AT], word);
    bytes::lemma_byte(src, p, ascii::AT);
    let stack = seq![Context::Object { implicit: true }];
    attributes::lemma_opening(src, stack);
    pulled::lemma_quoted(src, 0, said);
    pulling::lemma_line_start(src, 0, v, ScalarKind::Quoted, stack);
    tokens::law_marks(src, p);
    let tag_span = span_at(p as int, 1);
    let m = at(p + 1, State::EmitTagStart { tag_span }, stack);
    pulling::lemma_key_before(
        src,
        v,
        span_at(0, v as int),
        ScalarKind::Quoted,
        stack,
        TokenKind::At,
        p + 1,
        m.state,
    );
    bytes::lemma_plain(src, p + 1, word);
    bytes::lemma_bytes(src, p + 1, word);
    pulled::lemma_reads(src, p + 1, TokenKind::BareScalar, e, Skip::Nothing);
    text::lemma_byte_offset(src, ascii::AT, p + 1, e);
    let found = text::byte_offset(src, ascii::AT, p + 1, e);
    if found < e {
        assert(src[found as int] == word[found - (p + 1)]);
    }
    text::lemma_byte_offset(src, ascii::DOT, p + 1, e);
    assert(src[p + 1 + 0int] == word[0]);
    if 0 <= dot < word.len() && word[dot] == ascii::DOT {
        assert(src[p + 1 + dot] == word[dot]);
    }
    reveal(machine::emit_tag_start);
    let error = mistake(span_at(p + 1int, word.len() as int), ParseErrorKindView::InvalidTagName);
    let m1 = machine::step(src, m).1;
    pulled::lemma_move(src, m, Some(error), m1);
    let rest = run::run(src, m1);
    let root = EventView::ObjectStart { span: span_at(0, 0), separator: Separator::Newline };
    let key = machine::key(src, span_at(0, v as int), ScalarKind::Quoted);
    assert(seq![EventView::DocumentStart, root] + (seq![EventView::EntryStart] + (seq![key] + (seq![
        error,
    ] + rest))) =~= seq![EventView::DocumentStart, root, EventView::EntryStart, key, error] + rest);
}

} // verus!
