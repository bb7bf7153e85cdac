//! Heredocs as they are written.
use crate::ascii;
use crate::event::{EventView, ScalarKind, Separator};
use crate::lexer;
use crate::lexer::{LexState, Skip};
use crate::parser2::machine;
use crate::parser2::machine::{Context, State};
use crate::parser2::progress;
use crate::parser2::run;
use crate::span::Span;
use crate::text;
use crate::token::{Token, TokenKind};
use crate::written::bytes;
use crate::written::bytes::stands;
use crate::written::document;
use crate::written::document::{span_at, Key, Scalar};
use crate::written::queued;
use crate::written::queued::{clean, mach};
use crate::written::reading;
use crate::written::tokens;
use crate::written::tokens::lex_at;
use vstd::prelude::*;
use vstd::utf8::*;

verus! {

/// A name that can end a heredoc: a capital letter, then capital letters, digits
/// and `_`.
pub open spec fn is_heredoc_name(name: Seq<u8>) -> bool {
    &&& name.len() > 0
    &&& ascii::UPPER_A <= name[0] <= ascii::UPPER_Z
    &&& forall|i: int|
        0 <= i < name.len() ==> ascii::UPPER_A <= #[trigger] name[i] <= ascii::UPPER_Z
            || ascii::DIGIT_0 <= name[i] <= ascii::DIGIT_9 || name[i] == ascii::UNDERSCORE
}

/// A line that can stand in a heredoc: it holds no line break, and is not the name
/// that ends it.
pub open spec fn line_ok(line: Seq<char>, name: Seq<u8>) -> bool {
    let b = encode_utf8(line);
    &&& forall|i: int| 0 <= i < b.len() ==> #[trigger] b[i] != ascii::LF
    &&& b.len() > 0 ==> b.last() != ascii::CR
    &&& b != name
}

/// The lines of a heredoc from number `i` on, each with its line break.
pub open spec fn lines_bytes(lines: Seq<Seq<char>>, i: nat) -> Seq<u8>
    decreases lines.len() - i,
{
    if i >= lines.len() {
        Seq::empty()
    } else {
        encode_utf8(lines[i as int]) + seq![ascii::LF] + lines_bytes(lines, i + 1)
    }
}

/// What the lines of a heredoc from number `i` on say.
pub open spec fn lines_text(lines: Seq<Seq<char>>, i: nat) -> Seq<char>
    decreases lines.len() - i,
{
    if i >= lines.len() {
        Seq::empty()
    } else {
        lines[i as int] + seq!['\n'] + lines_text(lines, i + 1)
    }
}

/// How a heredoc is written: `<<` and its name, its lines, and its name.
pub open spec fn heredoc_bytes(name: Seq<u8>, lines: Seq<Seq<char>>) -> Seq<u8> {
    seq![ascii::LT, ascii::LT] + name + seq![ascii::LF] + lines_bytes(lines, 0) + name
}

/// The lexer inside of a heredoc.
pub open spec fn inside(p: nat, name: Span) -> LexState {
    LexState { pos: p, heredoc: Some(name) }
}

/// The lines of a heredoc from number `i` on, up to the name that ends it and the
/// source.
proof fn lemma_lines(
    src: Seq<u8>,
    p: nat,
    lines: Seq<Seq<char>>,
    i: nat,
    name: Seq<u8>,
    span: Span,
)
    requires
        src.len() <= u32::MAX,
        i <= lines.len(),
        is_heredoc_name(name),
        forall|k: int| 0 <= k < lines.len() ==> line_ok(#[trigger] lines[k], name),
        stands(src, p, lines_bytes(lines, i) + name),
        p + lines_bytes(lines, i).len() + name.len() == src.len(),
        span.start <= span.end <= src.len(),
        src.subrange(span.start as int, span.end as int) == name,
    ensures
        machine::heredoc_text(src, inside(p, span)) == lines_text(lines, i),
        lexer::lex_past(src, inside(p, span), Skip::Heredoc) == (
            Token {
                kind: TokenKind::HeredocEnd,
                span: Span { start: (src.len() - name.len()) as u32, end: src.len() as u32 },
            },
            lex_at(src.len()),
        ),
    decreases lines.len() - i,
{
    let st = inside(p, span);
    bytes::lemma_split(src, p, lines_bytes(lines, i), name);
    if i < lines.len() {
        let line = lines[i as int];
        let b = encode_utf8(line);
        let more = lines_bytes(lines, i + 1);
        bytes::lemma_split3(src, p, b, seq![ascii::LF], more);
        let l = p + b.len();
        bytes::lemma_byte(src, l, ascii::LF);
        bytes::lemma_bytes(src, p, b);
        assert(line_ok(line, name));
        assert forall|k: int| p <= k < l implies #[trigger] src[k] != ascii::LF by {
            assert(src[k] == b[k - p]);
        }
        tokens::lemma_line_feed(src, p, l);
        if b.len() > 0 {
            assert(src[p + (b.len() - 1)] == b[b.len() - 1]);
        }
        assert(lexer::line_end(src, p) == l);
        assert(!lexer::closes_heredoc(src, p, span));
        let t = Token {
            kind: TokenKind::HeredocContent,
            span: Span { start: p as u32, end: (l + 1) as u32 },
        };
        assert(lexer::lex(src, st) == (t, inside(l + 1, span)));
        assert(lines_bytes(lines, i) + name =~= (b + seq![ascii::LF]) + (more + name));
        bytes::lemma_split(src, p, b + seq![ascii::LF], more + name);
        lemma_lines(src, l + 1, lines, i + 1, name, span);
        lexer::lemma_budget(src, st);
        // the text of the line
        bytes::lemma_encode_add(line, seq!['\n']);
        bytes::lemma_encode_one('\n');
        bytes::lemma_encode_char('\n');
        assert(encode_utf8(line + seq!['\n']) =~= b + seq![ascii::LF]);
        bytes::lemma_chars(src, p, line + seq!['\n']);
        assert(machine::heredoc_text(src, st) =~= lines_text(lines, i));
    } else {
        assert(lines_bytes(lines, i).len() == 0);
        bytes::lemma_bytes(src, p, name);
        assert forall|k: int| p <= k < src.len() implies #[trigger] src[k] != ascii::LF by {
            assert(src[k] == name[k - p]);
        }
        tokens::lemma_line_feed(src, p, src.len());
        assert(lexer::line_end(src, p) == src.len());
        assert(lexer::closes_heredoc(src, p, span));
        assert(lexer::lex(src, st).0.kind == TokenKind::HeredocEnd);
        assert(machine::heredoc_text(src, st) =~= lines_text(lines, i));
    }
}

/// Where the name of a heredoc ends.
proof fn lemma_name_end(src: Seq<u8>, p: nat, e: nat)
    requires
        p <= e < src.len(),
        forall|i: int|
            p <= i < e ==> ascii::UPPER_A <= #[trigger] src[i] <= ascii::UPPER_Z || ascii::DIGIT_0
                <= src[i] <= ascii::DIGIT_9 || src[i] == ascii::UNDERSCORE,
        src[e as int] == ascii::LF,
    ensures
        lexer::heredoc_name_end(src, p) == e,
    decreases e - p,
{
    if p < e {
        lemma_name_end(src, p + 1, e);
    }
}

/// The start of a heredoc.
proof fn lemma_heredoc_start(src: Seq<u8>, p: nat, name: Seq<u8>)
    requires
        is_heredoc_name(name),
        stands(src, p, seq![ascii::LT, ascii::LT] + name + seq![ascii::LF]),
    ensures
        lexer::lex_past(src, lex_at(p), Skip::Blanks) == (
            Token {
                kind: TokenKind::HeredocStart,
                span: Span { start: p as u32, end: (p + name.len() + 3) as u32 },
            },
            inside(
                p + name.len() + 3,
                Span { start: (p + 2) as u32, end: (p + 2 + name.len()) as u32 },
            ),
        ),
        p < src.len(),
        src[p as int] == ascii::LT,
        src.subrange(p + 2int, p + 2 + name.len() as int) == name,
{
    let marks = seq![ascii::LT, ascii::LT];
    bytes::lemma_split3(src, p, marks, name, seq![ascii::LF]);
    bytes::lemma_bytes(src, p, marks);
    bytes::lemma_bytes(src, p + 2, name);
    let l = p + 2 + name.len();
    bytes::lemma_byte(src, l, ascii::LF);
    assert(src[p + 0int] == marks[0]);
    assert(src[p + 1int] == marks[1]);
    assert(src[p + 2 + 0int] == name[0]);
    assert forall|i: int| p + 2 <= i < l implies ascii::UPPER_A <= #[trigger] src[i]
        <= ascii::UPPER_Z || ascii::DIGIT_0 <= src[i] <= ascii::DIGIT_9 || src[i]
        == ascii::UNDERSCORE by {
        assert(src[i] == name[i - (p + 2)]);
    }
    lemma_name_end(src, p + 2, l);
    assert forall|i: int| p <= i < l implies #[trigger] src[i] != ascii::LF by {
        if i >= p + 2 {
            assert(src[i] == name[i - (p + 2)]);
        } else {
            assert(src[i] == marks[i - p]);
        }
    }
    tokens::lemma_line_feed(src, p, l);
}

/// A heredoc after a key, up to the end of the source.
proof fn lemma_value(
    src: Seq<u8>,
    v: nat,
    key_span: Span,
    stack: Seq<Context>,
    name: Seq<u8>,
    lines: Seq<Seq<char>>,
)
    requires
        lexer::source_fits(src),
        is_heredoc_name(name),
        forall|k: int| 0 <= k < lines.len() ==> line_ok(#[trigger] lines[k], name),
        stands(src, v, heredoc_bytes(name, lines)),
        v + heredoc_bytes(name, lines).len() == src.len(),
        progress::fits(src, mach(v, State::AfterKey { key_span }, stack)),
    ensures
        progress::fits(src, mach(src.len(), State::AfterValue, stack)),
        run::run(src, mach(v, State::AfterKey { key_span }, stack)) == seq![
            EventView::Scalar {
                span: Span { start: v as u32, end: src.len() as u32 },
                value: lines_text(lines, 0),
                kind: ScalarKind::Heredoc,
            },
        ] + run::run(src, mach(src.len(), State::AfterValue, stack)),
{
    let all = heredoc_bytes(name, lines);
    let m1 = mach(v, State::AfterKey { key_span }, stack);
    let first = seq![ascii::LT, ascii::LT] + name + seq![ascii::LF];
    assert(all =~= first + (lines_bytes(lines, 0) + name));
    bytes::lemma_split(src, v, first, lines_bytes(lines, 0) + name);
    lemma_heredoc_start(src, v, name);
    let q = v + name.len() + 3;
    let span = Span { start: (v + 2) as u32, end: (v + 2 + name.len()) as u32 };
    assert(first.len() == name.len() + 3);
    lemma_lines(src, q, lines, 0, name, span);
    let start = Span { start: v as u32, end: q as u32 };
    let (t, lex) = lexer::lex_past(src, lex_at(v), Skip::Blanks);
    assert(machine::take(src, m1) == (t, machine::at(m1, lex)));
    let event = EventView::Scalar {
        span: Span { start: v as u32, end: src.len() as u32 },
        value: lines_text(lines, 0),
        kind: ScalarKind::Heredoc,
    };
    let n = machine::step(src, m1).1;
    assert(machine::step(src, m1).0 == Some(event));
    queued::lemma_go(src, m1, src.len());
    assert(n.queue =~= Seq::<EventView>::empty());
    assert(clean(n, src.len()) =~= mach(src.len(), State::AfterValue, stack));
}

/// Where the parts of a document with a heredoc stand.
proof fn lemma_laid_out(src: Seq<u8>, b: Seq<u8>, name: Seq<u8>, lines: Seq<Seq<char>>)
    requires
        src == b + seq![ascii::SPACE] + heredoc_bytes(name, lines),
    ensures
        stands(src, 0, b),
        b.len() + 1 < src.len(),
        src[b.len() as int] == ascii::SPACE,
        src[b.len() + 1int] == ascii::LT,
        stands(src, b.len() + 1, heredoc_bytes(name, lines)),
        b.len() + 1 + heredoc_bytes(name, lines).len() == src.len(),
{
    let all = heredoc_bytes(name, lines);
    assert(src.subrange(0, src.len() as int) =~= src);
    bytes::lemma_split3(src, 0, b, seq![ascii::SPACE], all);
    bytes::lemma_byte(src, b.len(), ascii::SPACE);
    let v = b.len() + 1;
    bytes::lemma_bytes(src, v, all);
    assert(src[v + 0int] == all[0]);
}

/// A heredoc says its lines, each with its line break, up to the line that is its
/// name.
#[verifier::rlimit(50)]
#[verifier::spinoff_prover]
pub proof fn law_heredoc(src: Seq<u8>, key: Scalar, name: Seq<u8>, lines: Seq<Seq<char>>)
    requires
        lexer::source_fits(src),
        document::scalar_ok(key),
        is_heredoc_name(name),
        forall|k: int| 0 <= k < lines.len() ==> line_ok(#[trigger] lines[k], name),
        src == document::scalar_bytes(key) + seq![ascii::SPACE] + heredoc_bytes(name, lines),
    ensures
        ({
            let v = document::scalar_bytes(key).len() + 1;
            run::run(src, run::start(false)) == seq![
                EventView::DocumentStart,
                EventView::ObjectStart { span: span_at(0, 0), separator: Separator::Newline },
                EventView::EntryStart,
                document::key_event(Key::Scalar(key), 0),
                EventView::Scalar {
                    span: Span { start: v as u32, end: src.len() as u32 },
                    value: lines_text(lines, 0),
                    kind: ScalarKind::Heredoc,
                },
                EventView::EntryEnd,
                EventView::ObjectEnd { span: span_at(src.len() as int, 0) },
                EventView::DocumentEnd,
            ]
        }),
{
    let b = document::scalar_bytes(key);
    let v = b.len() + 1;
    lemma_laid_out(src, b, name, lines);
    let stack = seq![Context::Object { implicit: true }];
    reading::lemma_first_key(src, key, stack);
    lemma_value(src, v, span_at(0, b.len() as int), stack, name, lines);
    queued::lemma_after_value(src, src.len(), stack);
    reading::lemma_end(src, src.len(), stack);
    let event = EventView::Scalar {
        span: Span { start: v as u32, end: src.len() as u32 },
        value: lines_text(lines, 0),
        kind: ScalarKind::Heredoc,
    };
    let close = EventView::ObjectEnd { span: span_at(src.len() as int, 0) };
    reading::lemma_joined(document::key_event(Key::Scalar(key), 0), event, close);
}

} // verus!
