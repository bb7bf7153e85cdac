//! Comments behind values, and braces around documents.
use crate::ascii;
use crate::event::{EventView, Separator};
use crate::lexer;
use crate::parser2::machine;
use crate::parser2::machine::{Context, State};
use crate::parser2::progress;
use crate::parser2::run;
use crate::token::TokenKind;
use crate::written::bytes;
use crate::written::bytes::stands;
use crate::written::document;
use crate::written::document::{span_at, Key, Node, Note, Scalar};
use crate::written::mistakes;
use crate::written::queued;
use crate::written::queued::{clean, mach, maybe};
use crate::written::reading;
use crate::written::tokens;
use vstd::prelude::*;

verus! {

/// A comment behind a value, with a line break at its end.
proof fn lemma_remark(src: Seq<u8>, p: nat, note: Note, stack: Seq<Context>)
    requires
        note is Comment,
        document::note_ok(note),
        stands(src, p, document::note_bytes(note)),
        p + document::note_bytes(note).len() == src.len(),
        progress::fits(src, mach(p, State::AfterValue, stack)),
    ensures
        progress::fits(src, mach(src.len(), State::ExpectingEntry, stack)),
        run::run(src, mach(p, State::AfterValue, stack)) == document::comment_events(
            seq![note],
            0,
            p as int,
        ) + (seq![EventView::EntryEnd] + run::run(
            src,
            mach(src.len(), State::ExpectingEntry, stack),
        )),
{
    let m = mach(p, State::AfterValue, stack);
    let b = document::note_bytes(note);
    let l = (p + b.len() - 1) as nat;
    bytes::lemma_note(src, p, note);
    queued::lemma_take(src, m, p, TokenKind::LineComment, p, l);
    let (event, n) = machine::step(src, m);
    assert(n.queue =~= seq![EventView::EntryEnd]);
    queued::lemma_go(src, m, l);
    let next = mach(l, State::ExpectingEntry, stack);
    assert(clean(n, l) =~= next);
    queued::lemma_line_break(src, next, l);
    let last = mach(src.len(), State::ExpectingEntry, stack);
    assert(clean(next, src.len()) =~= last);
    reveal_with_fuel(document::comment_events, 2);
    assert(document::comment_events(seq![note], 0, p as int) =~= seq![event->0]);
    let rest = run::run(src, last);
    assert(maybe(event) + n.queue + rest =~= seq![event->0] + (seq![EventView::EntryEnd] + rest));
}

/// A comment starts with a byte that is no blank.
proof fn lemma_remark_start(src: Seq<u8>, p: nat, note: Note)
    requires
        src.len() <= u32::MAX,
        document::note_ok(note),
        stands(src, p, document::note_bytes(note)),
    ensures
        p < src.len(),
        !tokens::is_blank(src[p as int]),
{
    bytes::lemma_note(src, p, note);
}

/// A comment behind a value is emitted before the entry ends.
#[verifier::rlimit(50)]
#[verifier::spinoff_prover]
pub proof fn law_comment_behind(src: Seq<u8>, key: Scalar, value: Scalar, note: Note)
    requires
        lexer::source_fits(src),
        document::scalar_ok(key),
        document::scalar_ok(value),
        note is Comment,
        document::note_ok(note),
        src == document::scalar_bytes(key) + seq![ascii::SPACE] + (document::scalar_bytes(value)
            + seq![ascii::SPACE] + document::note_bytes(note)),
    ensures
        ({
            let v = document::scalar_bytes(key).len() + 1;
            let x = v + document::scalar_bytes(value).len() + 1;
            run::run(src, run::start(false)) == seq![
                EventView::DocumentStart,
                EventView::ObjectStart { span: span_at(0, 0), separator: Separator::Newline },
                EventView::EntryStart,
                document::key_event(Key::Scalar(key), 0),
            ] + (document::node_events(Node::Scalar(value), v as int) + (document::comment_events(
                seq![note],
                0,
                x as int,
            ) + (seq![EventView::EntryEnd] + seq![
                EventView::ObjectEnd { span: span_at(src.len() as int, 0) },
                EventView::DocumentEnd,
            ])))
        }),
{
    let a = document::scalar_bytes(key);
    let b = document::scalar_bytes(value);
    let c = document::note_bytes(note);
    mistakes::lemma_stray_laid_out(src, a, b, c);
    let v = a.len() + 1;
    let x = v + b.len() + 1;
    let stack = seq![Context::Object { implicit: true }];
    reading::lemma_node_start(src, v, Node::Scalar(value), false);
    lemma_remark_start(src, x, note);
    reading::lemma_first_key(src, key, stack);
    mistakes::lemma_scalar_value(src, v, value, span_at(0, a.len() as int), stack);
    let m = mach((x - 1) as nat, State::AfterValue, stack);
    queued::lemma_space(src, m, (x - 1) as nat);
    assert(clean(m, x) =~= mach(x, State::AfterValue, stack));
    lemma_remark(src, x, note, stack);
    reading::lemma_end(src, src.len(), stack);
}

/// A document that starts with a brace is the object that it opens.
pub proof fn law_braced(src: Seq<u8>)
    requires
        lexer::source_fits(src),
        src.len() > 0,
        src[0] == ascii::LBRACE,
    ensures
        seq![
            EventView::DocumentStart,
            EventView::ObjectStart { span: span_at(0, 1), separator: Separator::Comma },
        ].is_prefix_of(run::run(src, run::start(false))),
{
    run::lemma_start(src, false);
    let m0 = run::start(false);
    let n0 = machine::step(src, m0).1;
    assert(n0.queue =~= Seq::<EventView>::empty());
    queued::lemma_go(src, m0, 0);
    let m1 = mach(0, State::BeforeRoot, Seq::empty());
    assert(clean(n0, 0) =~= m1);
    tokens::law_marks(src, 0);
    queued::lemma_take(src, m1, 0, TokenKind::LBrace, 0, 1);
    let (event, n1) = machine::step(src, m1);
    assert(n1.queue =~= Seq::<EventView>::empty());
    queued::lemma_go(src, m1, 1);
    let rest = run::run(src, clean(n1, 1));
    assert(seq![EventView::DocumentStart] + n0.queue + (maybe(event) + n1.queue + rest) =~= seq![
        EventView::DocumentStart,
        event->0,
    ] + rest);
}

} // verus!
