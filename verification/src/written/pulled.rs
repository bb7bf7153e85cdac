//! What the parser that emits one event per call reads from written lines.
use crate::ascii;
use crate::emit;
use crate::escape;
use crate::escape::ShortUnicode;
use crate::event::{EventView, ScalarKind, Separator};
use crate::lexer;
use crate::lexer::Skip;
use crate::lines;
use crate::parser3::machine;
use crate::parser3::machine::{Context, Machine, State};
use crate::parser3::progress;
use crate::parser3::run;
use crate::span::Span;
use crate::text;
use crate::token::{Token, TokenKind};
use crate::written::bytes;
use crate::written::bytes::stands;
use crate::written::document;
use crate::written::document::{span_at, Layout, Note, Scalar};
use crate::written::paths;
use crate::written::queued;
use crate::written::queued::maybe;
use crate::written::tokens;
use crate::written::tokens::lex_at;
use vstd::prelude::*;
use vstd::utf8::*;

verus! {

// --- machines ---

/// The machine at `p`.
pub open spec fn at(p: nat, state: State, stack: Seq<Context>) -> Machine {
    Machine { lex: lex_at(p), state, stack }
}

/// One move.
pub proof fn lemma_move(src: Seq<u8>, m: Machine, event: Option<EventView>, next: Machine)
    requires
        progress::fits(src, m),
        m.state != State::Done,
        machine::step(src, m) == (event, next),
    ensures
        progress::fits(src, next),
        run::run(src, m) == maybe(event) + run::run(src, next),
{
    lines::lemma_single_step(src, m);
    assert(maybe(None) + run::run(src, next) =~= run::run(src, next));
}

/// The next token, where nothing is passed over.
pub proof fn lemma_reads(src: Seq<u8>, p: nat, kind: TokenKind, e: nat, skip: Skip)
    requires
        tokens::reads(src, p, kind, e),
        !lexer::skips(skip, kind),
    ensures
        lexer::lex_past(src, lex_at(p), skip) == (
            Token { kind, span: Span { start: p as u32, end: e as u32 } },
            lex_at(e),
        ),
{
}

/// A token that is passed over.
pub proof fn lemma_passes(src: Seq<u8>, p: nat, kind: TokenKind, e: nat, skip: Skip)
    requires
        tokens::reads(src, p, kind, e),
        lexer::skips(skip, kind),
    ensures
        lexer::lex_past(src, lex_at(p), skip) == lexer::lex_past(src, lex_at(e), skip),
{
    lexer::lemma_budget(src, lex_at(p));
}

/// A line break or a space before a line or an element changes nothing.
pub proof fn lemma_gap(src: Seq<u8>, p: nat, state: State, stack: Seq<Context>)
    requires
        p < src.len(),
        src[p as int] == ascii::LF || (src[p as int] == ascii::SPACE && p + 1 < src.len()
            && !tokens::is_blank(src[(p + 1) as int])),
        state == State::ExpectEntry || state == State::ExpectSeqElem,
        progress::fits(src, at(p, state, stack)),
    ensures
        progress::fits(src, at(p + 1, state, stack)),
        run::run(src, at(p, state, stack)) == run::run(src, at(p + 1, state, stack)),
{
    let m = at(p, state, stack);
    let c = at(p + 1, state, stack);
    text::lemma_boundary(src, p + 1int);
    if src[p as int] == ascii::LF {
        tokens::law_line_breaks(src, p);
        lemma_passes(src, p, TokenKind::Newline, p + 1, Skip::Lines);
    } else {
        tokens::law_blanks(src, p, p + 1);
        lemma_passes(src, p, TokenKind::Whitespace, p + 1, Skip::Lines);
    }
    reveal(machine::expect_entry);
    reveal(machine::expect_seq_elem);
    assert(machine::read(src, m, Skip::Lines) == machine::read(src, c, Skip::Lines));
    assert(machine::step(src, m) == machine::step(src, c));
    lines::lemma_single_step(src, m);
    lines::lemma_single_step(src, c);
}

/// Behind a line stands a line break or the end of the source.
pub open spec fn ends(src: Seq<u8>, e: nat) -> bool {
    e <= src.len() && (e < src.len() ==> src[e as int] == ascii::LF)
}

/// The token behind a line, and where it ends.
pub proof fn lemma_ends(src: Seq<u8>, e: nat) -> (r: (TokenKind, nat))
    requires
        ends(src, e),
    ensures
        r.0 == TokenKind::Newline && r.1 == e + 1 && e < src.len() || r.0 == TokenKind::Eof && r.1
            == e && e == src.len(),
        tokens::reads(src, e, r.0, r.1),
{
    if e < src.len() {
        tokens::law_line_breaks(src, e);
        (TokenKind::Newline, e + 1)
    } else {
        (TokenKind::Eof, e)
    }
}

/// The end of an entry, before or behind the line break after it.
pub proof fn lemma_entry_end(src: Seq<u8>, q: nat, e: nat, stack: Seq<Context>)
    requires
        ends(src, e),
        q == e || q == e + 1 && e < src.len(),
        stack.len() > 0,
        stack.last() is Object,
        lexer::lex_fits(src, lex_at(e)),
        progress::fits(src, at(q, State::EmitEntryEnd, stack)),
    ensures
        progress::fits(src, at(e, State::ExpectEntry, stack)),
        run::run(src, at(q, State::EmitEntryEnd, stack)) == seq![EventView::EntryEnd] + run::run(
            src,
            at(e, State::ExpectEntry, stack),
        ),
{
    let m = at(q, State::EmitEntryEnd, stack);
    let next = at(q, State::ExpectEntry, stack);
    lemma_move(src, m, Some(EventView::EntryEnd), next);
    if q == e + 1 {
        lemma_gap(src, e, State::ExpectEntry, stack);
    }
}

// --- quoted scalars ---

/// Bytes without a backslash hold no escape.
pub proof fn lemma_no_escape(b: Seq<u8>, i: nat, j: nat)
    requires
        i <= j <= b.len(),
        forall|k: int| i <= k < j ==> #[trigger] b[k] != ascii::BACKSLASH,
    ensures
        escape::invalid_escapes(b, i) == escape::invalid_escapes(b, j),
    decreases j - i,
{
    if i < j {
        lemma_no_escape(b, i + 1, j);
    }
}

/// A text with its escapes has none that mean nothing.
proof fn lemma_escapes(b: Seq<u8>, i: nat, said: Seq<char>, k: nat)
    requires
        k <= said.len(),
        stands(b, i, encode_utf8(escape::escaped(said, k))),
        i + encode_utf8(escape::escaped(said, k)).len() == b.len(),
    ensures
        escape::invalid_escapes(b, i) == Seq::<(int, int)>::empty(),
    decreases said.len() - k,
{
    if k < said.len() {
        let c = said[k as int];
        let one = escape::escaped_char(c);
        let rest = escape::escaped(said, k + 1);
        bytes::lemma_encode_add(one, rest);
        let row = encode_utf8(one);
        bytes::lemma_split(b, i, row, encode_utf8(rest));
        lemma_escapes(b, i + row.len(), said, k + 1);
        bytes::lemma_bytes(b, i, row);
        if one.len() == 1 {
            bytes::lemma_encode_one(c);
            bytes::lemma_encode_char(c);
            assert(one =~= seq![c]);
            assert forall|j: int| i <= j < i + row.len() implies #[trigger] b[j]
                != ascii::BACKSLASH by {
                assert(b[j] == row[j - i]);
                if c as u32 <= 0x7f {
                    assert(row =~= seq![c as u8]);
                    bytes::lemma_ascii_byte(c);
                } else {
                    assert(row[j - i] >= 0x80);
                }
            }
            lemma_no_escape(b, i, i + row.len());
        } else {
            assert(is_ascii_chars(one));
            is_ascii_chars_encode_utf8(one);
            assert(one[0] as u8 == row[0]);
            assert(one[1] as u8 == row[1]);
            assert(b[i + 0int] == row[0]);
            assert(b[i + 1int] == row[1]);
        }
    }
}

/// A quoted scalar has no escape that means nothing.
pub proof fn lemma_quoted(src: Seq<u8>, p: nat, said: Seq<char>)
    requires
        src.len() <= u32::MAX,
        stands(src, p, document::scalar_bytes(Scalar::Quoted(said))),
    ensures
        ({
            let len = document::scalar_bytes(Scalar::Quoted(said)).len();
            let span = span_at(p as int, len as int);
            &&& tokens::reads(src, p, TokenKind::QuotedScalar, p + len)
            &&& src[p as int] == ascii::QUOTE
            &&& emit::scalar_text(src, span, ScalarKind::Quoted, ShortUnicode::Dropped) == said
            &&& machine::escape_count(src, span, ScalarKind::Quoted) == 0
            &&& len > 0
        }),
{
    bytes::lemma_quoted(src, p, said);
    let inside = encode_utf8(escape::escaped(said, 0));
    let quote = seq![ascii::QUOTE];
    let len = document::scalar_bytes(Scalar::Quoted(said)).len();
    let span = span_at(p as int, len as int);
    assert(len == inside.len() + 2);
    bytes::lemma_split3(src, p, quote, inside, quote);
    let b = src.subrange(span.start + 1, span.end - 1);
    assert(b == inside);
    assert(b.subrange(0, b.len() as int) =~= b);
    lemma_escapes(b, 0, said, 0);
    assert(escape::quoted_text(src, span, ShortUnicode::Dropped) == said);
}

/// A scalar is read as one that says its text.
pub proof fn lemma_scalar(src: Seq<u8>, p: nat, s: Scalar)
    requires
        src.len() <= u32::MAX,
        paths::scalar_ok(s),
        stands(src, p, document::scalar_bytes(s)),
        bytes::bounded(src, p + document::scalar_bytes(s).len()),
    ensures
        ({
            let len = document::scalar_bytes(s).len();
            let span = span_at(p as int, len as int);
            &&& tokens::reads(src, p, bytes::token_kind(s), p + len)
            &&& machine::scalar(src, span, document::kind_of(s)) == document::scalar_event(
                s,
                p as int,
            )
            &&& len > 0
            &&& p < src.len()
            &&& !tokens::is_blank(src[p as int])
        }),
{
    bytes::lemma_scalar(src, p, s);
    let span = span_at(p as int, document::scalar_bytes(s).len() as int);
    assert(emit::scalar_text(src, span, document::kind_of(s), ShortUnicode::Dropped)
        == document::text_of(s));
}

// --- comments ---

/// The comments before a line.
pub proof fn lemma_comments(
    src: Seq<u8>,
    p: nat,
    comments: Seq<Seq<char>>,
    i: nat,
    stack: Seq<Context>,
)
    requires
        i <= comments.len(),
        forall|k: int| 0 <= k < comments.len() ==> paths::comment_ok(#[trigger] comments[k]),
        stands(src, p, paths::comments_bytes(comments, i)),
        progress::fits(src, at(p, State::ExpectEntry, stack)),
    ensures
        ({
            let next = at(
                p + paths::comments_bytes(comments, i).len(),
                State::ExpectEntry,
                stack,
            );
            &&& progress::fits(src, next)
            &&& run::run(src, at(p, State::ExpectEntry, stack)) == paths::comment_events(
                comments,
                i,
                p as int,
            ) + run::run(src, next)
        }),
    decreases comments.len() - i,
{
    let m = at(p, State::ExpectEntry, stack);
    if i < comments.len() {
        let note = Note::Comment(comments[i as int]);
        let b = document::note_bytes(note);
        let more = paths::comments_bytes(comments, i + 1);
        bytes::lemma_split(src, p, b, more);
        assert(paths::comment_ok(comments[i as int]));
        bytes::lemma_note(src, p, note);
        let l = (p + b.len() - 1) as nat;
        let next = at(l, State::ExpectEntry, stack);
        lemma_note_reads(src, p, note);
        lemma_reads(src, p, TokenKind::LineComment, l, Skip::Lines);
        reveal(machine::expect_entry);
        let event = paths::comment_events(comments, i, p as int)[0];
        lemma_move(src, m, Some(event), next);
        lemma_gap(src, l, State::ExpectEntry, stack);
        lemma_comments(src, l + 1, comments, i + 1, stack);
        let rest = run::run(
            src,
            at(l + 1 + more.len(), State::ExpectEntry, stack),
        );
        queued::lemma_assoc(
            seq![event],
            paths::comment_events(comments, i + 1, l + 1int),
            rest,
        );
    } else {
        assert(paths::comment_events(comments, i, p as int) + run::run(src, m) =~= run::run(
            src,
            m,
        ));
    }
}

/// A comment is read as one.
proof fn lemma_note_reads(src: Seq<u8>, p: nat, note: Note)
    requires
        src.len() <= u32::MAX,
        note is Comment,
        bytes::next_is(
            src,
            p,
            TokenKind::LineComment,
            p,
            (p + document::note_bytes(note).len() - 1) as nat,
        ),
        p < src.len(),
        src[p as int] == ascii::SLASH,
    ensures
        tokens::reads(
            src,
            p,
            TokenKind::LineComment,
            (p + document::note_bytes(note).len() - 1) as nat,
        ),
{
}

// --- sequences ---

/// The scalars of a sequence from number `i` on, and its end.
pub proof fn lemma_scalars(
    src: Seq<u8>,
    p: nat,
    layout: Layout,
    items: Seq<Scalar>,
    i: nat,
    stack: Seq<Context>,
)
    requires
        i <= items.len(),
        forall|k: int| 0 <= k < items.len() ==> paths::scalar_ok(#[trigger] items[k]),
        stands(src, p, paths::scalars_bytes(layout, items, i)),
        progress::fits(src, at(p, State::ExpectSeqElem, stack.push(Context::Sequence))),
    ensures
        ({
            let e = p + paths::scalars_bytes(layout, items, i).len();
            let next = at(e, State::EmitEntryEnd, stack);
            &&& progress::fits(src, next)
            &&& run::run(src, at(p, State::ExpectSeqElem, stack.push(Context::Sequence)))
                == paths::scalars_events(layout, items, i, p as int) + run::run(src, next)
        }),
    decreases items.len() - i,
{
    let inner = stack.push(Context::Sequence);
    let state = State::ExpectSeqElem;
    let end = p + paths::scalars_bytes(layout, items, i).len();
    let rest = run::run(src, at(end, State::EmitEntryEnd, stack));
    reveal(machine::expect_seq_elem);
    if i < items.len() {
        let s = items[i as int];
        let lead = document::lead(layout, ascii::SPACE, i);
        let b = document::scalar_bytes(s);
        let more = paths::scalars_bytes(layout, items, i + 1);
        bytes::lemma_split3(src, p, lead, b, more);
        let q = p + lead.len();
        let e = q + b.len();
        lemma_scalars_follow(src, e, layout, items, i + 1);
        lemma_scalar(src, q, s);
        if lead.len() > 0 {
            bytes::lemma_byte(src, p, lead[0]);
            assert(lead =~= seq![lead[0]]);
            lemma_gap(src, p, state, inner);
        }
        lemma_reads(src, q, bytes::token_kind(s), e, Skip::Lines);
        let event = document::scalar_event(s, q as int);
        lemma_move(src, at(q, state, inner), Some(event), at(e, state, inner));
        lemma_scalars(src, e, layout, items, i + 1, stack);
        queued::lemma_assoc(
            seq![event],
            paths::scalars_events(layout, items, i + 1, e as int),
            rest,
        );
    } else {
        let trail = document::trail(layout);
        bytes::lemma_split(src, p, trail, seq![ascii::RPAREN]);
        let q = p + trail.len();
        bytes::lemma_byte(src, q, ascii::RPAREN);
        if trail.len() > 0 {
            bytes::lemma_byte(src, p, ascii::LF);
            lemma_gap(src, p, state, inner);
        }
        tokens::law_marks(src, q);
        lemma_reads(src, q, TokenKind::RParen, q + 1, Skip::Lines);
        assert(inner.drop_last() =~= stack);
        let event = EventView::SequenceEnd { span: span_at(q as int, 1) };
        lemma_move(
            src,
            at(q, state, inner),
            Some(event),
            at(q + 1, State::EmitEntryEnd, stack),
        );
    }
}

/// Behind an element stands another one, or the end of the sequence.
proof fn lemma_scalars_follow(
    src: Seq<u8>,
    e: nat,
    layout: Layout,
    items: Seq<Scalar>,
    i: nat,
)
    requires
        0 < i <= items.len(),
        stands(src, e, paths::scalars_bytes(layout, items, i)),
    ensures
        bytes::bounded(src, e),
{
    if i < items.len() {
        bytes::lemma_split3(
            src,
            e,
            document::lead(layout, ascii::SPACE, i),
            document::scalar_bytes(items[i as int]),
            paths::scalars_bytes(layout, items, i + 1),
        );
        bytes::lemma_byte(
            src,
            e,
            if layout is Lines {
                ascii::LF
            } else {
                ascii::SPACE
            },
        );
    } else {
        bytes::lemma_split(src, e, document::trail(layout), seq![ascii::RPAREN]);
        if layout is Lines {
            bytes::lemma_byte(src, e, ascii::LF);
        } else {
            bytes::lemma_byte(src, e, ascii::RPAREN);
        }
    }
}

// --- dotted paths ---

/// `stack` inside of `k` more objects.
pub open spec fn nested(stack: Seq<Context>, k: nat) -> Seq<Context> {
    stack + Seq::new(k, |i: int| Context::Object { implicit: false })
}

/// The next dot in a path is the one behind the word at `p`, if one follows.
pub proof fn lemma_dot(src: Seq<u8>, p: nat, b: Seq<u8>, end: nat)
    requires
        stands(src, p, b),
        paths::no_dot(b),
        p + b.len() <= end <= src.len(),
        p + b.len() == end || src[(p + b.len()) as int] == ascii::DOT,
    ensures
        text::byte_offset(src, ascii::DOT, p, end) == p + b.len(),
{
    bytes::lemma_bytes(src, p, b);
    text::lemma_byte_offset(src, ascii::DOT, p, end);
    let found = text::byte_offset(src, ascii::DOT, p, end);
    if found < p + b.len() {
        assert(src[found as int] == b[found - p]);
    }
}

/// The parts of a path from number `i` on.
pub proof fn lemma_path_parts(src: Seq<u8>, p: nat, words: Seq<Seq<char>>, i: nat)
    requires
        i < words.len(),
        forall|k: int|
            0 <= k < words.len() ==> encode_utf8(#[trigger] words[k]).len() > 0 && paths::no_dot(
                encode_utf8(words[k]),
            ),
        stands(src, p, paths::path_bytes(words, i)),
    ensures
        ({
            let b = encode_utf8(words[i as int]);
            let end = p + paths::path_bytes(words, i).len();
            let dot = p + b.len();
            &&& stands(src, p, b)
            &&& b.len() > 0
            &&& text::byte_offset(src, ascii::DOT, p, end) == dot
            &&& if i + 1 == words.len() {
                dot == end
            } else {
                &&& stands(src, dot + 1, paths::path_bytes(words, i + 1))
                &&& dot + 1 + paths::path_bytes(words, i + 1).len() == end
                &&& dot + 1 < end
            }
        }),
{
    let b = encode_utf8(words[i as int]);
    let end = p + paths::path_bytes(words, i).len();
    if i + 1 < words.len() {
        let more = paths::path_bytes(words, i + 1);
        bytes::lemma_split3(src, p, b, seq![ascii::DOT], more);
        bytes::lemma_byte(src, p + b.len(), ascii::DOT);
        assert(encode_utf8(words[i + 1int]).len() > 0);
        assert(more.len() > 0);
    }
    lemma_dot(src, p, b, end);
}

/// The words of a path from number `i` on.
pub proof fn lemma_path(
    src: Seq<u8>,
    p: nat,
    words: Seq<Seq<char>>,
    i: nat,
    full_span: Span,
    stack: Seq<Context>,
)
    requires
        src.len() <= u32::MAX,
        i < words.len() <= u32::MAX,
        forall|k: int|
            0 <= k < words.len() ==> encode_utf8(#[trigger] words[k]).len() > 0 && paths::no_dot(
                encode_utf8(words[k]),
            ),
        stands(src, p, paths::path_bytes(words, i)),
        full_span.start <= p,
        full_span.end == p + paths::path_bytes(words, i).len(),
        progress::fits(
            src,
            at(
                full_span.end as nat,
                State::EmitDottedPath {
                    full_span,
                    offset: (p - full_span.start) as u32,
                    depth: i as u32,
                },
                nested(stack, i),
            ),
        ),
    ensures
        ({
            let m = at(
                full_span.end as nat,
                State::EmitDottedPath {
                    full_span,
                    offset: (p - full_span.start) as u32,
                    depth: i as u32,
                },
                nested(stack, i),
            );
            let depth = (words.len() - 1) as nat;
            let next = at(
                full_span.end as nat,
                State::AfterDottedPathKey { full_span, depth: depth as u32 },
                nested(stack, depth),
            );
            &&& progress::fits(src, next)
            &&& run::run(src, m) == paths::path_events(words, i, p as int) + run::run(src, next)
        }),
    decreases words.len() - i,
{
    let end = full_span.end as nat;
    let offset = (p - full_span.start) as u32;
    let depth = i as u32;
    let m = at(end, State::EmitDottedPath { full_span, offset, depth }, nested(stack, i));
    lemma_path_parts(src, p, words, i);
    let b = encode_utf8(words[i as int]);
    let n = b.len();
    let key_span = span_at(p as int, n as int);
    bytes::lemma_chars(src, p, words[i as int]);
    let key = paths::word_event(words[i as int], p as int);
    let last = (words.len() - 1) as nat;
    let done = at(
        end,
        State::AfterDottedPathKey { full_span, depth: last as u32 },
        nested(stack, last),
    );
    let rest = run::run(src, done);
    reveal(machine::emit_dotted_path);
    let start = Some(EventView::EntryStart);
    if i + 1 == words.len() {
        let m1 = at(
            end,
            State::EmitDottedPathKey { key_span, full_span, depth },
            nested(stack, i),
        );
        lemma_move(src, m, start, m1);
        lemma_move(src, m1, Some(key), done);
        assert(seq![EventView::EntryStart] + (seq![key] + rest) =~= paths::path_events(
            words,
            i,
            p as int,
        ) + rest);
    } else {
        let next_offset = (p + n + 1 - full_span.start) as u32;
        let m1 = at(
            end,
            State::EmitDottedPathKeyThenObject { key_span, full_span, next_offset, depth },
            nested(stack, i),
        );
        lemma_move(src, m, start, m1);
        let m2 = at(
            end,
            State::EmitDottedPathObject { key_span, full_span, next_offset, depth },
            nested(stack, i),
        );
        lemma_move(src, m1, Some(key), m2);
        let object = EventView::ObjectStart { span: key_span, separator: Separator::Newline };
        assert(nested(stack, i).push(Context::Object { implicit: false }) =~= nested(
            stack,
            i + 1,
        ));
        let m3 = at(
            end,
            State::EmitDottedPath { full_span, offset: next_offset, depth: (i + 1) as u32 },
            nested(stack, i + 1),
        );
        lemma_move(src, m2, Some(object), m3);
        lemma_path(src, p + n + 1, words, i + 1, full_span, stack);
        let later = paths::path_events(words, i + 1, p + n + 1int);
        assert(seq![EventView::EntryStart] + (seq![key] + (seq![object] + (later + rest)))
            =~= seq![EventView::EntryStart, key] + seq![object] + later + rest);
    }
}

/// The ends of the objects of a path.
pub proof fn lemma_close_path(src: Seq<u8>, q: nat, e: nat, depth: nat, stack: Seq<Context>)
    requires
        ends(src, e),
        q == e || q == e + 1 && e < src.len(),
        lexer::lex_fits(src, lex_at(e)),
        depth <= u32::MAX,
        stack.len() > 0,
        stack.last() is Object,
        progress::fits(
            src,
            at(q, State::CloseDottedPath { depth: depth as u32 }, nested(stack, depth)),
        ),
    ensures
        progress::fits(src, at(e, State::ExpectEntry, stack)),
        run::run(
            src,
            at(q, State::CloseDottedPath { depth: depth as u32 }, nested(stack, depth)),
        ) == paths::closing_events(depth, src.len() as int) + seq![
            EventView::EntryEnd,
            EventView::EntryEnd,
        ] + run::run(src, at(e, State::ExpectEntry, stack)),
    decreases depth,
{
    let m = at(q, State::CloseDottedPath { depth: depth as u32 }, nested(stack, depth));
    reveal(machine::close_dotted_path);
    let twice = seq![EventView::EntryEnd, EventView::EntryEnd];
    if depth == 0 {
        assert(nested(stack, 0) =~= stack);
        let m1 = at(q, State::EmitEntryEnd, stack);
        lemma_move(src, m, Some(EventView::EntryEnd), m1);
        lemma_entry_end(src, q, e, stack);
        let rest = run::run(src, at(e, State::ExpectEntry, stack));
        assert(seq![EventView::EntryEnd] + (seq![EventView::EntryEnd] + rest)
            =~= paths::closing_events(0, src.len() as int) + twice + rest);
    } else {
        let d = (depth - 1) as nat;
        assert(nested(stack, depth).drop_last() =~= nested(stack, d));
        let end = EventView::ObjectEnd { span: span_at(src.len() as int, 0) };
        let m1 = at(
            q,
            State::EmitEntryEndThenCloseDotted { depth: d as u32 },
            nested(stack, d),
        );
        lemma_move(src, m, Some(end), m1);
        let m2 = at(q, State::CloseDottedPath { depth: d as u32 }, nested(stack, d));
        lemma_move(src, m1, Some(EventView::EntryEnd), m2);
        lemma_close_path(src, q, e, d, stack);
        let rest = run::run(src, at(e, State::ExpectEntry, stack));
        let later = paths::closing_events(d, src.len() as int);
        assert(seq![end] + (seq![EventView::EntryEnd] + (later + twice + rest)) =~= seq![
            end,
            EventView::EntryEnd,
        ] + later + twice + rest);
    }
}

} // verus!
