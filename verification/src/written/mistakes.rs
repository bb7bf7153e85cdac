//! Documents with mistakes as they are written.
use crate::ascii;
use crate::event::{EventView, ParseErrorKindView, Separator};
use crate::lexer;
use crate::lexer::Skip;
use crate::parser2::machine;
use crate::parser2::machine::{Context, State};
use crate::parser2::nesting;
use crate::parser2::progress;
use crate::parser2::run;
use crate::span::Span;
use crate::text;
use crate::token::{Token, TokenKind};
use crate::written::bytes;
use crate::written::bytes::stands;
use crate::written::document;
use crate::written::document::{span_at, Entry, Key, Node, Note, Scalar};
use crate::written::queued;
use crate::written::queued::{clean, mach, maybe};
use crate::written::reading;
use crate::written::tokens;
use crate::written::tokens::lex_at;
use vstd::prelude::*;
use vstd::utf8::*;

verus! {

/// An error event.
pub open spec fn mistake(span: Span, kind: ParseErrorKindView) -> EventView {
    EventView::Error { span, kind }
}

// --- too much in an entry ---

/// A scalar as a value, with a space behind it.
pub proof fn lemma_scalar_value(
    src: Seq<u8>,
    p: nat,
    s: Scalar,
    key_span: Span,
    stack: Seq<Context>,
)
    requires
        document::scalar_ok(s),
        stands(src, p, document::scalar_bytes(s)),
        p + document::scalar_bytes(s).len() < src.len(),
        src[p + document::scalar_bytes(s).len() as int] == ascii::SPACE,
        progress::fits(src, mach(p, State::AfterKey { key_span }, stack)),
    ensures
        ({
            let e = p + document::scalar_bytes(s).len();
            &&& progress::fits(src, mach(e, State::AfterValue, stack))
            &&& run::run(src, mach(p, State::AfterKey { key_span }, stack))
                == document::node_events(Node::Scalar(s), p as int) + run::run(
                src,
                mach(e, State::AfterValue, stack),
            )
        }),
{
    let m = mach(p, State::AfterKey { key_span }, stack);
    let e = p + document::scalar_bytes(s).len();
    let n = machine::step(src, m).1;
    let next = mach(e, State::AfterValue, stack);
    bytes::lemma_scalar(src, p, s);
    queued::lemma_take(src, m, p, bytes::token_kind(s), p, e);
    queued::lemma_fits(src, m, e);
    queued::lemma_settles(src, e);
    let span = span_at(p as int, document::scalar_bytes(s).len() as int);
    assert(n.queue =~= Seq::<EventView>::empty());
    if s is Bare {
        let (t, lex) = lexer::lex_past(src, lex_at(e), Skip::Blanks);
        assert(n.buffer =~= seq![t]);
        assert(n.lex == lex);
    }
    queued::lemma_go(src, m, e);
    assert(clean(n, e) =~= next);
    assert(run::run(src, m) =~= document::node_events(Node::Scalar(s), p as int) + run::run(
        src,
        next,
    ));
}

/// One more scalar behind a value, at the end of the source.
proof fn lemma_stray(src: Seq<u8>, p: nat, s: Scalar, stack: Seq<Context>)
    requires
        document::scalar_ok(s),
        stands(src, p, document::scalar_bytes(s)),
        p + document::scalar_bytes(s).len() == src.len(),
        progress::fits(src, mach(p, State::AfterValue, stack)),
    ensures
        progress::fits(src, mach(src.len(), State::ExpectingEntry, stack)),
        run::run(src, mach(p, State::AfterValue, stack)) == seq![
            mistake(
                span_at(p as int, document::scalar_bytes(s).len() as int),
                ParseErrorKindView::TooManyAtoms,
            ),
            EventView::EntryEnd,
        ] + run::run(src, mach(src.len(), State::ExpectingEntry, stack)),
{
    let m = mach(p, State::AfterValue, stack);
    let e = src.len();
    bytes::lemma_scalar(src, p, s);
    queued::lemma_take(src, m, p, bytes::token_kind(s), p, e);
    let span = span_at(p as int, document::scalar_bytes(s).len() as int);
    let error = mistake(span, ParseErrorKindView::TooManyAtoms);
    let m1 = machine::queued(clean(m, e), seq![error]);
    queued::lemma_take(src, clean(m1, e), e, TokenKind::Eof, e, e);
    assert(machine::take(src, m1).1 =~= m1);
    let t = Token { kind: TokenKind::Eof, span: Span { start: e as u32, end: e as u32 } };
    let n = machine::step(src, m).1;
    assert(machine::skip_to_entry_boundary(src, m1) == machine::unread(m1, t));
    assert(n.buffer =~= seq![t]);
    assert(n.queue =~= seq![error, EventView::EntryEnd]);
    queued::lemma_go(src, m, e);
    let next = mach(e, State::ExpectingEntry, stack);
    assert(clean(n, e) =~= next);
    assert(run::run(src, m) =~= seq![error, EventView::EntryEnd] + run::run(src, next));
}

/// Where the parts of an entry with one scalar too many stand.
pub proof fn lemma_stray_laid_out(src: Seq<u8>, a: Seq<u8>, b: Seq<u8>, c: Seq<u8>)
    requires
        src == a + seq![ascii::SPACE] + (b + seq![ascii::SPACE] + c),
    ensures
        stands(src, 0, a),
        stands(src, a.len() + 1, b),
        stands(src, a.len() + b.len() + 2, c),
        src[a.len() as int] == ascii::SPACE,
        src[a.len() + 1 + b.len() as int] == ascii::SPACE,
        a.len() + b.len() + c.len() + 2 == src.len(),
{
    assert(src.subrange(0, src.len() as int) =~= src);
    bytes::lemma_split3(src, 0, a, seq![ascii::SPACE], b + seq![ascii::SPACE] + c);
    bytes::lemma_byte(src, a.len(), ascii::SPACE);
    bytes::lemma_split3(src, a.len() + 1, b, seq![ascii::SPACE], c);
    bytes::lemma_byte(src, a.len() + 1 + b.len(), ascii::SPACE);
}

/// An entry is a key and one value. A scalar behind them is an error, at its place.
#[verifier::rlimit(50)]
#[verifier::spinoff_prover]
pub proof fn law_too_many_atoms(src: Seq<u8>, key: Scalar, value: Scalar, stray: Scalar)
    requires
        lexer::source_fits(src),
        document::scalar_ok(key),
        document::scalar_ok(value),
        document::scalar_ok(stray),
        src == document::scalar_bytes(key) + seq![ascii::SPACE] + (document::scalar_bytes(value)
            + seq![ascii::SPACE] + document::scalar_bytes(stray)),
    ensures
        ({
            let v = document::scalar_bytes(key).len() + 1;
            let x = v + document::scalar_bytes(value).len() + 1;
            run::run(src, run::start(false)) == seq![
                EventView::DocumentStart,
                EventView::ObjectStart { span: span_at(0, 0), separator: Separator::Newline },
                EventView::EntryStart,
                document::key_event(Key::Scalar(key), 0),
            ] + (document::node_events(Node::Scalar(value), v as int) + (seq![
                mistake(
                    span_at(x as int, document::scalar_bytes(stray).len() as int),
                    ParseErrorKindView::TooManyAtoms,
                ),
                EventView::EntryEnd,
            ] + seq![
                EventView::ObjectEnd { span: span_at(src.len() as int, 0) },
                EventView::DocumentEnd,
            ]))
        }),
{
    let a = document::scalar_bytes(key);
    let b = document::scalar_bytes(value);
    let c = document::scalar_bytes(stray);
    lemma_stray_laid_out(src, a, b, c);
    let v = a.len() + 1;
    let x = v + b.len() + 1;
    let stack = seq![Context::Object { implicit: true }];
    reading::lemma_node_start(src, v, Node::Scalar(value), false);
    reading::lemma_node_start(src, x, Node::Scalar(stray), false);
    reading::lemma_first_key(src, key, stack);
    lemma_scalar_value(src, v, value, span_at(0, a.len() as int), stack);
    let m = mach((x - 1) as nat, State::AfterValue, stack);
    queued::lemma_space(src, m, (x - 1) as nat);
    assert(clean(m, x) =~= mach(x, State::AfterValue, stack));
    lemma_stray(src, x, stray, stack);
    reading::lemma_end(src, src.len(), stack);
}

// --- a bracket that adjoins a key ---

/// The kind of an opening bracket.
pub open spec fn bracket_byte(brace: bool) -> u8 {
    if brace {
        ascii::LBRACE
    } else {
        ascii::LPAREN
    }
}

/// What an opening bracket starts.
pub open spec fn bracket_event(brace: bool, span: Span) -> EventView {
    if brace {
        EventView::ObjectStart { span, separator: Separator::Comma }
    } else {
        EventView::SequenceStart { span }
    }
}

/// A scalar as a key, with an opening bracket right behind it.
proof fn lemma_key_at_bracket(src: Seq<u8>, s: Scalar, brace: bool, stack: Seq<Context>)
    requires
        document::scalar_ok(s),
        stands(src, 0, document::scalar_bytes(s)),
        document::scalar_bytes(s).len() < src.len(),
        src[document::scalar_bytes(s).len() as int] == bracket_byte(brace),
        progress::fits(src, mach(0, State::ExpectingEntry, stack)),
    ensures
        ({
            let e = document::scalar_bytes(s).len();
            let next = mach(e, State::AfterKey { key_span: span_at(0, e as int) }, stack);
            &&& progress::fits(src, next)
            &&& run::run(src, mach(0, State::ExpectingEntry, stack)) == seq![
                EventView::EntryStart,
                document::key_event(Key::Scalar(s), 0),
            ] + run::run(src, next)
        }),
{
    let m = mach(0, State::ExpectingEntry, stack);
    let e = document::scalar_bytes(s).len();
    let span = span_at(0, e as int);
    bytes::lemma_scalar(src, 0, s);
    queued::lemma_take(src, m, 0, bytes::token_kind(s), 0, e);
    let key = document::key_event(Key::Scalar(s), 0);
    let n = machine::step(src, m).1;
    assert(machine::doc_events(src, Seq::empty()) =~= Seq::<EventView>::empty());
    assert(n.queue =~= seq![key]);
    queued::lemma_go(src, m, e);
    let next = mach(e, State::AfterKey { key_span: span }, stack);
    if s is Bare {
        let m1 = mach(e, State::AfterBareKey { key_span: span }, stack);
        assert(clean(n, e) =~= m1);
        tokens::law_marks(src, e);
        let kind = if brace {
            TokenKind::LBrace
        } else {
            TokenKind::LParen
        };
        queued::lemma_take(src, m1, e, kind, e, e + 1);
        let t = Token { kind, span: span_at(e as int, 1) };
        let n1 = machine::step(src, m1).1;
        assert(n1.buffer =~= seq![t]);
        assert(n1.queue =~= Seq::<EventView>::empty());
        queued::lemma_go(src, m1, e);
        assert(clean(n1, e) =~= next);
        assert(run::run(src, m1) =~= run::run(src, next));
    } else {
        assert(clean(n, e) =~= next);
    }
    assert(run::run(src, m) =~= seq![EventView::EntryStart, key] + run::run(src, next));
}

/// An opening bracket in the place of a value.
proof fn lemma_bracket(src: Seq<u8>, p: nat, brace: bool, key_span: Span, stack: Seq<Context>)
    requires
        p < src.len(),
        src[p as int] == bracket_byte(brace),
        progress::fits(src, mach(p, State::AfterKey { key_span }, stack)),
    ensures
        ({
            let inner = if brace {
                Context::Object { implicit: false }
            } else {
                Context::Sequence
            };
            let state = if brace {
                State::ExpectingEntry
            } else {
                State::ExpectingSequenceElement
            };
            let span = span_at(p as int, 1);
            let next = mach(p + 1, state, stack.push(inner));
            &&& progress::fits(src, next)
            &&& run::run(src, mach(p, State::AfterKey { key_span }, stack)) == seq![
                bracket_event(brace, span),
            ] + (if key_span.end == p {
                seq![mistake(span, ParseErrorKindView::MissingWhitespaceBeforeBlock)]
            } else {
                Seq::empty()
            }) + run::run(src, next)
        }),
{
    let m = mach(p, State::AfterKey { key_span }, stack);
    tokens::law_marks(src, p);
    let kind = if brace {
        TokenKind::LBrace
    } else {
        TokenKind::LParen
    };
    queued::lemma_take(src, m, p, kind, p, p + 1);
    let n = machine::step(src, m).1;
    let span = span_at(p as int, 1);
    let errors = if key_span.end == p {
        seq![mistake(span, ParseErrorKindView::MissingWhitespaceBeforeBlock)]
    } else {
        Seq::empty()
    };
    assert(n.queue =~= errors);
    queued::lemma_go(src, m, p + 1);
    let inner = if brace {
        Context::Object { implicit: false }
    } else {
        Context::Sequence
    };
    let next = mach(p + 1, n.state, stack.push(inner));
    assert(clean(n, p + 1) =~= next);
}

/// A bracket that adjoins a key opens its value all the same, and is an error,
/// whatever follows.
pub proof fn law_missing_space(src: Seq<u8>, key: Scalar, brace: bool)
    requires
        lexer::source_fits(src),
        document::scalar_ok(key),
        stands(src, 0, document::scalar_bytes(key) + seq![bracket_byte(brace)]),
    ensures
        ({
            let e = document::scalar_bytes(key).len();
            let span = span_at(e as int, 1);
            seq![
                EventView::DocumentStart,
                EventView::ObjectStart { span: span_at(0, 0), separator: Separator::Newline },
                EventView::EntryStart,
                document::key_event(Key::Scalar(key), 0),
                bracket_event(brace, span),
                mistake(span, ParseErrorKindView::MissingWhitespaceBeforeBlock),
            ].is_prefix_of(run::run(src, run::start(false)))
        }),
{
    let b = document::scalar_bytes(key);
    let e = b.len();
    bytes::lemma_split(src, 0, b, seq![bracket_byte(brace)]);
    bytes::lemma_byte(src, e, bracket_byte(brace));
    let stack = seq![Context::Object { implicit: true }];
    bytes::lemma_scalar(src, 0, key);
    reading::lemma_start(src, bytes::token_kind(key), e);
    lemma_key_at_bracket(src, key, brace, stack);
    lemma_bracket(src, e, brace, span_at(0, e as int), stack);
    let span = span_at(e as int, 1);
    let inner = if brace {
        Context::Object { implicit: false }
    } else {
        Context::Sequence
    };
    let state = if brace {
        State::ExpectingEntry
    } else {
        State::ExpectingSequenceElement
    };
    let rest = run::run(src, mach(e + 1, state, stack.push(inner)));
    let first = seq![
        EventView::DocumentStart,
        EventView::ObjectStart { span: span_at(0, 0), separator: Separator::Newline },
    ];
    let second = seq![EventView::EntryStart, document::key_event(Key::Scalar(key), 0)];
    let third = seq![bracket_event(brace, span)] + seq![
        mistake(span, ParseErrorKindView::MissingWhitespaceBeforeBlock),
    ];
    queued::lemma_assoc(second, third, rest);
    queued::lemma_assoc(first, second + third, rest);
    assert(first + (second + third) =~= seq![
        EventView::DocumentStart,
        EventView::ObjectStart { span: span_at(0, 0), separator: Separator::Newline },
        EventView::EntryStart,
        document::key_event(Key::Scalar(key), 0),
        bracket_event(brace, span),
        mistake(span, ParseErrorKindView::MissingWhitespaceBeforeBlock),
    ]);
}

// --- brackets that are not closed ---

/// At the end of the source, an object that is still open is closed, and that is
/// an error.
proof fn lemma_unclosed_object(src: Seq<u8>, stack: Seq<Context>)
    requires
        stack.len() > 1,
        stack.last() == (Context::Object { implicit: false }),
        progress::fits(src, mach(src.len(), State::ExpectingEntry, stack)),
    ensures
        ({
            let next = mach(src.len(), State::ExpectingEntry, stack.drop_last());
            &&& progress::fits(src, next)
            &&& run::run(src, mach(src.len(), State::ExpectingEntry, stack)) == seq![
                EventView::ObjectEnd { span: span_at(src.len() as int, 0) },
                mistake(span_at(0, 0), ParseErrorKindView::UnclosedObject),
            ] + run::run(src, next)
        }),
{
    let p = src.len();
    let m = mach(p, State::ExpectingEntry, stack);
    queued::lemma_take(src, m, p, TokenKind::Eof, p, p);
    let (event, n) = machine::step(src, m);
    assert(n.queue =~= seq![mistake(span_at(0, 0), ParseErrorKindView::UnclosedObject)]);
    queued::lemma_go(src, m, p);
    let next = mach(p, State::ExpectingEntry, stack.drop_last());
    assert(clean(n, p) =~= next);
    assert(maybe(event) + n.queue =~= seq![
        EventView::ObjectEnd { span: span_at(p as int, 0) },
        mistake(span_at(0, 0), ParseErrorKindView::UnclosedObject),
    ]);
}

/// At the end of the source, a sequence that is still open is closed, and that is
/// an error.
proof fn lemma_unclosed_sequence(src: Seq<u8>, stack: Seq<Context>)
    requires
        stack.len() > 1,
        stack.last() == Context::Sequence,
        progress::fits(src, mach(src.len(), State::ExpectingSequenceElement, stack)),
    ensures
        seq![
            EventView::SequenceEnd { span: span_at(src.len() as int, 0) },
            mistake(span_at(src.len() as int, 0), ParseErrorKindView::UnclosedSequence),
        ].is_prefix_of(run::run(src, mach(src.len(), State::ExpectingSequenceElement, stack))),
{
    let p = src.len();
    let m = mach(p, State::ExpectingSequenceElement, stack);
    queued::lemma_take(src, m, p, TokenKind::Eof, p, p);
    let (event, n) = machine::step(src, m);
    let first = mistake(span_at(p as int, 0), ParseErrorKindView::UnclosedSequence);
    assert(n.queue =~= seq![first, mistake(span_at(0, 0), ParseErrorKindView::UnclosedSequence)]);
    queued::lemma_go(src, m, p);
    let rest = run::run(src, clean(n, p));
    assert((maybe(event) + n.queue + rest)[0] == event->0);
    assert((maybe(event) + n.queue + rest)[1] == first);
}

/// Where the source ends right behind an opening bracket, what it opens is closed
/// there, and that is an error.
#[verifier::rlimit(50)]
#[verifier::spinoff_prover]
pub proof fn law_unclosed(src: Seq<u8>, key: Scalar, brace: bool)
    requires
        lexer::source_fits(src),
        document::scalar_ok(key),
        src == document::scalar_bytes(key) + seq![ascii::SPACE] + seq![bracket_byte(brace)],
    ensures
        ({
            let v = document::scalar_bytes(key).len() + 1;
            let end = span_at(src.len() as int, 0);
            seq![
                EventView::DocumentStart,
                EventView::ObjectStart { span: span_at(0, 0), separator: Separator::Newline },
                EventView::EntryStart,
                document::key_event(Key::Scalar(key), 0),
                bracket_event(brace, span_at(v as int, 1)),
                if brace {
                    EventView::ObjectEnd { span: end }
                } else {
                    EventView::SequenceEnd { span: end }
                },
                if brace {
                    mistake(span_at(0, 0), ParseErrorKindView::UnclosedObject)
                } else {
                    mistake(end, ParseErrorKindView::UnclosedSequence)
                },
            ].is_prefix_of(run::run(src, run::start(false)))
        }),
{
    let b = document::scalar_bytes(key);
    let v = b.len() + 1;
    assert(src.subrange(0, src.len() as int) =~= src);
    bytes::lemma_split3(src, 0, b, seq![ascii::SPACE], seq![bracket_byte(brace)]);
    bytes::lemma_byte(src, b.len(), ascii::SPACE);
    bytes::lemma_byte(src, v, bracket_byte(brace));
    let stack = seq![Context::Object { implicit: true }];
    reading::lemma_first_key(src, key, stack);
    lemma_bracket(src, v, brace, span_at(0, b.len() as int), stack);
    let first = seq![
        EventView::DocumentStart,
        EventView::ObjectStart { span: span_at(0, 0), separator: Separator::Newline },
        EventView::EntryStart,
        document::key_event(Key::Scalar(key), 0),
    ];
    let second = seq![bracket_event(brace, span_at(v as int, 1))];
    assert(second + Seq::<EventView>::empty() =~= second);
    if brace {
        lemma_unclosed_object(src, stack.push(Context::Object { implicit: false }));
        let rest = run::run(
            src,
            mach(src.len(), State::ExpectingEntry, stack.push(Context::Object { implicit: false })),
        );
        assert(run::run(src, run::start(false)) =~= first + (second + rest));
        lemma_prefix(first, second, rest);
    } else {
        lemma_unclosed_sequence(src, stack.push(Context::Sequence));
        let rest = run::run(
            src,
            mach(src.len(), State::ExpectingSequenceElement, stack.push(Context::Sequence)),
        );
        assert(run::run(src, run::start(false)) =~= first + (second + rest));
        lemma_prefix(first, second, rest);
    }
}

/// The first events of three lists, joined.
proof fn lemma_prefix(first: Seq<EventView>, second: Seq<EventView>, rest: Seq<EventView>)
    requires
        first.len() == 4,
        second.len() == 1,
        rest.len() >= 2,
    ensures
        seq![
            first[0],
            first[1],
            first[2],
            first[3],
            second[0],
            rest[0],
            rest[1],
        ].is_prefix_of(first + (second + rest)),
{
}

// --- doc comments without an entry ---

/// At the end of the source, a doc comment that waits for an entry is an error.
proof fn lemma_dangling(src: Seq<u8>, stack: Seq<Context>, docs: Seq<Span>)
    requires
        stack == seq![Context::Object { implicit: true }],
        docs.len() > 0,
        progress::fits(src, queued::before(src.len(), stack, docs)),
    ensures
        run::run(src, queued::before(src.len(), stack, docs)) == seq![
            EventView::ObjectEnd { span: span_at(src.len() as int, 0) },
            mistake(docs[0], ParseErrorKindView::DanglingDocComment),
            EventView::DocumentEnd,
        ],
{
    let p = src.len();
    let m = queued::before(p, stack, docs);
    queued::lemma_take(src, m, p, TokenKind::Eof, p, p);
    let (event, n) = machine::step(src, m);
    assert(n.stack =~= Seq::empty());
    assert(n.queue =~= seq![
        mistake(docs[0], ParseErrorKindView::DanglingDocComment),
        EventView::DocumentEnd,
    ]);
    queued::lemma_go(src, m, p);
    nesting::lemma_done(src, clean(n, p));
    assert(maybe(event) + n.queue + Seq::<EventView>::empty() =~= seq![
        EventView::ObjectEnd { span: span_at(p as int, 0) },
        mistake(docs[0], ParseErrorKindView::DanglingDocComment),
        EventView::DocumentEnd,
    ]);
}

/// A doc comment that no entry follows is an error, at its place.
#[verifier::rlimit(50)]
#[verifier::spinoff_prover]
pub proof fn law_dangling_doc_comment(src: Seq<u8>, entry: Entry, notes: Seq<Note>)
    requires
        lexer::source_fits(src),
        document::entry_ok(entry, true),
        entry.notes.len() == 0,
        notes.len() > 0,
        notes[0] is Doc,
        forall|i: int| 0 <= i < notes.len() ==> document::note_ok(#[trigger] notes[i]),
        src == document::entry_bytes(entry) + seq![ascii::LF] + document::notes_bytes(notes, 0),
    ensures
        ({
            let n = document::entry_bytes(entry).len() + 1;
            run::run(src, run::start(false)) == seq![
                EventView::DocumentStart,
                EventView::ObjectStart { span: span_at(0, 0), separator: Separator::Newline },
            ] + (document::entry_events(entry, 0) + (document::comment_events(notes, 0, n as int)
                + seq![
                EventView::ObjectEnd { span: span_at(src.len() as int, 0) },
                mistake(
                    span_at(n as int, document::note_bytes(notes[0]).len() - 1),
                    ParseErrorKindView::DanglingDocComment,
                ),
                EventView::DocumentEnd,
            ]))
        }),
{
    let b = document::entry_bytes(entry);
    let later = document::notes_bytes(notes, 0);
    assert(src.subrange(0, src.len() as int) =~= src);
    bytes::lemma_split3(src, 0, b, seq![ascii::LF], later);
    bytes::lemma_byte(src, b.len(), ascii::LF);
    let n = b.len() + 1;
    let stack = seq![Context::Object { implicit: true }];
    let (kind, k) = reading::lemma_first(src, entry);
    reading::lemma_start(src, kind, k);
    reading::lemma_entry(src, 0, entry, stack, true);
    let m = mach(b.len(), State::ExpectingEntry, stack);
    queued::lemma_line_break(src, m, b.len());
    assert(clean(m, n) =~= queued::before(n, stack, Seq::empty()));
    let docs = queued::lemma_notes(src, n, notes, 0, stack, Seq::empty());
    let said = document::doc_events(notes, 0, n as int);
    assert(machine::doc_events(src, Seq::empty()) =~= Seq::<EventView>::empty());
    assert(machine::doc_events(src, docs) =~= said);
    assert(said[0] == machine::doc_events(src, docs)[0]);
    lemma_dangling(src, stack, docs);
}

// --- what is no key ---

/// The error for a mark in the place of a key: a closing bracket is not expected
/// there, and another mark is no key.
pub open spec fn key_mistake(mark: u8) -> ParseErrorKindView {
    if mark == ascii::RBRACE || mark == ascii::RPAREN {
        ParseErrorKindView::UnexpectedToken
    } else {
        ParseErrorKindView::ExpectedKey
    }
}

/// A bracket, or `>`, in the place of a key is an error, whatever follows.
proof fn lemma_no_key(src: Seq<u8>, p: nat, stack: Seq<Context>)
    requires
        p < src.len(),
        src[p as int] == ascii::LBRACE || src[p as int] == ascii::LPAREN || src[p as int]
            == ascii::RBRACE || src[p as int] == ascii::RPAREN || src[p as int] == ascii::GT,
        stack == seq![Context::Object { implicit: true }],
        progress::fits(src, mach(p, State::ExpectingEntry, stack)),
    ensures
        progress::fits(src, mach(p + 1, State::ExpectingEntry, stack)),
        run::run(src, mach(p, State::ExpectingEntry, stack)) == seq![
            mistake(span_at(p as int, 1), key_mistake(src[p as int])),
        ] + run::run(src, mach(p + 1, State::ExpectingEntry, stack)),
{
    let m = mach(p, State::ExpectingEntry, stack);
    tokens::law_marks(src, p);
    let b = src[p as int];
    let kind = if b == ascii::LBRACE {
        TokenKind::LBrace
    } else if b == ascii::LPAREN {
        TokenKind::LParen
    } else if b == ascii::RBRACE {
        TokenKind::RBrace
    } else if b == ascii::RPAREN {
        TokenKind::RParen
    } else {
        TokenKind::Gt
    };
    queued::lemma_take(src, m, p, kind, p, p + 1);
    let (event, n) = machine::step(src, m);
    assert(n.queue =~= Seq::<EventView>::empty());
    queued::lemma_go(src, m, p + 1);
    assert(clean(n, p + 1) =~= mach(p + 1, State::ExpectingEntry, stack));
    assert(maybe(event) + n.queue =~= seq![event->0]);
}

/// A bracket, or `>`, that stands where an entry should is an error at its place,
/// and the document goes on behind it.
#[verifier::rlimit(50)]
#[verifier::spinoff_prover]
pub proof fn law_not_a_key(src: Seq<u8>, entry: Entry, marks: Seq<u8>)
    requires
        lexer::source_fits(src),
        document::entry_ok(entry, true),
        entry.notes.len() == 0,
        forall|i: int|
            0 <= i < marks.len() ==> #[trigger] marks[i] == ascii::LBRACE || marks[i]
                == ascii::LPAREN || marks[i] == ascii::RBRACE || marks[i] == ascii::RPAREN
                || marks[i] == ascii::GT,
        src == document::entry_bytes(entry) + seq![ascii::LF] + marks,
    ensures
        ({
            let n = document::entry_bytes(entry).len() + 1;
            run::run(src, run::start(false)) == seq![
                EventView::DocumentStart,
                EventView::ObjectStart { span: span_at(0, 0), separator: Separator::Newline },
            ] + (document::entry_events(entry, 0) + (Seq::new(
                marks.len(),
                |i: int| mistake(span_at(n + i, 1), key_mistake(marks[i])),
            ) + seq![
                EventView::ObjectEnd { span: span_at(src.len() as int, 0) },
                EventView::DocumentEnd,
            ]))
        }),
{
    let b = document::entry_bytes(entry);
    assert(src.subrange(0, src.len() as int) =~= src);
    bytes::lemma_split3(src, 0, b, seq![ascii::LF], marks);
    bytes::lemma_byte(src, b.len(), ascii::LF);
    let n = b.len() + 1;
    let stack = seq![Context::Object { implicit: true }];
    let (kind, k) = reading::lemma_first(src, entry);
    reading::lemma_start(src, kind, k);
    reading::lemma_entry(src, 0, entry, stack, true);
    let m = mach(b.len(), State::ExpectingEntry, stack);
    queued::lemma_line_break(src, m, b.len());
    assert(clean(m, n) =~= mach(n, State::ExpectingEntry, stack));
    bytes::lemma_bytes(src, n, marks);
    lemma_no_keys(src, n, marks, 0, stack);
    assert(Seq::new(
        marks.len(),
        |i: int| mistake(span_at(n + i, 1), key_mistake(marks[i])),
    ) =~= mistakes_from(n, marks, 0));
}

/// The errors for the marks from number `i` on.
pub open spec fn mistakes_from(n: nat, marks: Seq<u8>, i: nat) -> Seq<EventView> {
    Seq::new(
        (marks.len() - i) as nat,
        |k: int| mistake(span_at(n + i + k, 1), key_mistake(marks[i + k])),
    )
}

/// The marks from number `i` on, up to the end of the source.
proof fn lemma_no_keys(src: Seq<u8>, n: nat, marks: Seq<u8>, i: nat, stack: Seq<Context>)
    requires
        i <= marks.len(),
        n + marks.len() == src.len(),
        forall|k: int| 0 <= k < marks.len() ==> src[n + k] == #[trigger] marks[k],
        forall|k: int|
            0 <= k < marks.len() ==> #[trigger] marks[k] == ascii::LBRACE || marks[k]
                == ascii::LPAREN || marks[k] == ascii::RBRACE || marks[k] == ascii::RPAREN
                || marks[k] == ascii::GT,
        stack == seq![Context::Object { implicit: true }],
        progress::fits(src, mach(n + i, State::ExpectingEntry, stack)),
    ensures
        run::run(src, mach(n + i, State::ExpectingEntry, stack)) == mistakes_from(n, marks, i)
            + seq![
            EventView::ObjectEnd { span: span_at(src.len() as int, 0) },
            EventView::DocumentEnd,
        ],
    decreases marks.len() - i,
{
    let ending = seq![
        EventView::ObjectEnd { span: span_at(src.len() as int, 0) },
        EventView::DocumentEnd,
    ];
    if i < marks.len() {
        assert(src[n + i as int] == marks[i as int]);
        lemma_no_key(src, n + i, stack);
        lemma_no_keys(src, n, marks, i + 1, stack);
        let here = seq![mistake(span_at(n + i as int, 1), key_mistake(marks[i as int]))];
        queued::lemma_assoc(here, mistakes_from(n, marks, i + 1), ending);
        assert(mistakes_from(n, marks, i) =~= here + mistakes_from(n, marks, i + 1));
    } else {
        reading::lemma_end(src, src.len(), stack);
        assert(mistakes_from(n, marks, i) + ending =~= ending);
    }
}

// --- names of tags ---

/// A tag whose name is none, at the end of the source.
proof fn lemma_bad_tag(src: Seq<u8>, v: nat, word: Seq<char>, key_span: Span, stack: Seq<Context>)
    requires
        lexer::source_fits(src),
        document::is_word(word),
        !document::is_name(word),
        forall|i: int|
            0 <= i < encode_utf8(word).len() ==> #[trigger] encode_utf8(word)[i] != ascii::AT,
        stands(src, v, seq![ascii::AT] + encode_utf8(word)),
        v + 1 + encode_utf8(word).len() == src.len(),
        progress::fits(src, mach(v, State::AfterKey { key_span }, stack)),
    ensures
        ({
            let n = encode_utf8(word).len();
            let next = mach(src.len(), State::AfterValue, stack);
            &&& progress::fits(src, next)
            &&& run::run(src, mach(v, State::AfterKey { key_span }, stack)) == seq![
                EventView::TagStart { span: span_at(v as int, n + 1int), name: word },
                mistake(span_at(v + 1int, n as int), ParseErrorKindView::InvalidTagName),
                EventView::Unit { span: span_at(src.len() as int, 0) },
                EventView::TagEnd,
            ] + run::run(src, next)
        }),
{
    let b = encode_utf8(word);
    let n = b.len();
    let e = src.len();
    let m = mach(v, State::AfterKey { key_span }, stack);
    bytes::lemma_split(src, v, seq![ascii::AT], b);
    bytes::lemma_byte(src, v, ascii::AT);
    tokens::law_marks(src, v);
    bytes::lemma_plain(src, v + 1, b);
    bytes::lemma_bytes(src, v + 1, b);
    bytes::lemma_chars(src, v + 1, word);
    queued::lemma_take(src, m, v, TokenKind::At, v, v + 1);
    queued::lemma_take(src, clean(m, v + 1), v + 1, TokenKind::BareScalar, v + 1, e);
    text::lemma_byte_offset(src, ascii::AT, v + 1, e);
    let found = text::byte_offset(src, ascii::AT, v + 1, e);
    if found < e {
        assert(src[found as int] == b[found - (v + 1)]);
    }
    let name = span_at(v + 1int, n as int);
    if machine::is_tag_name(src, name) {
        assert(src[v + 1 + 0int] == b[0]);
        assert forall|i: int| 0 <= i < b.len() implies document::starts_name(#[trigger] b[i])
            || ascii::DIGIT_0 <= b[i] <= ascii::DIGIT_9 || b[i] == ascii::HYPHEN by {
            assert(src[v + 1 + i] == b[i]);
            if i > 0 {
                assert(machine::in_tag_name(src[v + 1 + i]));
            }
        }
        assert(document::is_name(word));
    }
    reveal(machine::tag_value);
    reveal(machine::tag_payload);
    let error = mistake(name, ParseErrorKindView::InvalidTagName);
    let m1 = machine::queued(clean(m, e), seq![error]);
    queued::lemma_take(src, clean(m1, e), e, TokenKind::Eof, e, e);
    assert(machine::take(src, m1).1 =~= m1);
    let (event, k) = machine::step(src, m);
    let t = Token { kind: TokenKind::Eof, span: span_at(e as int, 0) };
    assert(k.buffer =~= seq![t]);
    assert(k.queue =~= seq![
        error,
        EventView::Unit { span: span_at(e as int, 0) },
        EventView::TagEnd,
    ]);
    queued::lemma_go(src, m, e);
    let next = mach(e, State::AfterValue, stack);
    assert(clean(k, e) =~= next);
    assert(maybe(event) + k.queue =~= seq![
        EventView::TagStart { span: span_at(v as int, n + 1int), name: word },
        error,
        EventView::Unit { span: span_at(e as int, 0) },
        EventView::TagEnd,
    ]);
}

/// The name of a tag is a letter or `_`, and then letters, digits, `_` and `-`. Any
/// other word behind `@` is an error, at its place, and a tag all the same.
#[verifier::rlimit(50)]
#[verifier::spinoff_prover]
pub proof fn law_invalid_tag_name(src: Seq<u8>, key: Scalar, word: Seq<char>)
    requires
        lexer::source_fits(src),
        document::scalar_ok(key),
        document::is_word(word),
        !document::is_name(word),
        forall|i: int|
            0 <= i < encode_utf8(word).len() ==> #[trigger] encode_utf8(word)[i] != ascii::AT,
        src == document::scalar_bytes(key) + seq![ascii::SPACE] + (seq![ascii::AT] + encode_utf8(
            word,
        )),
    ensures
        ({
            let v = document::scalar_bytes(key).len() + 1;
            let n = encode_utf8(word).len();
            run::run(src, run::start(false)) == seq![
                EventView::DocumentStart,
                EventView::ObjectStart { span: span_at(0, 0), separator: Separator::Newline },
                EventView::EntryStart,
                document::key_event(Key::Scalar(key), 0),
            ] + (seq![
                EventView::TagStart { span: span_at(v as int, n + 1int), name: word },
                mistake(span_at(v + 1int, n as int), ParseErrorKindView::InvalidTagName),
                EventView::Unit { span: span_at(src.len() as int, 0) },
                EventView::TagEnd,
            ] + (seq![EventView::EntryEnd] + seq![
                EventView::ObjectEnd { span: span_at(src.len() as int, 0) },
                EventView::DocumentEnd,
            ]))
        }),
{
    let b = document::scalar_bytes(key);
    let v = b.len() + 1;
    let written = seq![ascii::AT] + encode_utf8(word);
    assert(src.subrange(0, src.len() as int) =~= src);
    bytes::lemma_split3(src, 0, b, seq![ascii::SPACE], written);
    bytes::lemma_byte(src, b.len(), ascii::SPACE);
    bytes::lemma_bytes(src, v, written);
    assert(src[v + 0int] == written[0]);
    let stack = seq![Context::Object { implicit: true }];
    reading::lemma_first_key(src, key, stack);
    lemma_bad_tag(src, v, word, span_at(0, b.len() as int), stack);
    queued::lemma_after_value(src, src.len(), stack);
    reading::lemma_end(src, src.len(), stack);
}

} // verus!
