//! The events that the machine emits.
use crate::ascii;
use crate::emit;
use crate::escape;
use crate::event::EventView;
use crate::lexer;
use crate::lexer::LexState;
use crate::parser3::machine;
use crate::parser3::machine::{Machine, Move, State};
use crate::parser3::progress;
use crate::span::Span;
use crate::text;
use vstd::prelude::*;
use vstd::utf8::*;

verus! {

/// The machine before its first move.
pub open spec fn start() -> Machine {
    Machine {
        lex: LexState { pos: 0, heredoc: None },
        state: State::Start,
        stack: Seq::empty(),
    }
}

/// The next event, if any, and the machine after it: moves are made until one
/// emits an event or none is left.
pub open spec fn next(src: Seq<u8>, m: Machine) -> Move
    decreases progress::distance(src, m),
    when progress::fits(src, m)
{
    proof {
        if m.state != State::Done {
            progress::lemma_step(src, m);
            reveal(progress::advances);
        }
    }
    let (event, after) = machine::step(src, m);
    if event is Some || m.state == State::Done {
        (event, after)
    } else {
        next(src, after)
    }
}

/// No escape is cut on the way to the next event.
pub open spec fn next_whole(src: Seq<u8>, m: Machine) -> bool
    decreases progress::distance(src, m),
    when progress::fits(src, m)
{
    proof {
        if m.state != State::Done {
            progress::lemma_step(src, m);
            reveal(progress::advances);
        }
    }
    let (event, after) = machine::step(src, m);
    &&& progress::escape_whole(src, m.state)
    &&& event is Some || m.state == State::Done || next_whole(src, after)
}

/// The way to the next event stays within the source and comes closer to the end.
pub proof fn lemma_next(src: Seq<u8>, m: Machine)
    requires
        progress::fits(src, m),
    ensures
        progress::fits(src, next(src, m).1),
        next(src, m).0 is Some ==> 0 <= progress::distance(src, next(src, m).1)
            < progress::distance(src, m),
        next(src, m).0 is None ==> next(src, m).1.state == State::Done,
        next_whole(src, m) && next(src, m).0 is Some ==> progress::event_fits(
            src,
            next(src, m).0->0,
        ),
    decreases progress::distance(src, m),
{
    if m.state != State::Done {
        progress::lemma_step(src, m);
        reveal(progress::advances);
        let (event, after) = machine::step(src, m);
        if event is None {
            lemma_next(src, after);
        }
    }
}

/// All events from `m` on.
pub open spec fn run(src: Seq<u8>, m: Machine) -> Seq<EventView>
    decreases progress::distance(src, m),
    when progress::fits(src, m)
{
    proof {
        lemma_next(src, m);
    }
    match next(src, m) {
        (Some(event), after) => seq![event] + run(src, after),
        (None, _) => Seq::empty(),
    }
}

/// No escape is cut from `m` on.
pub open spec fn run_whole(src: Seq<u8>, m: Machine) -> bool
    decreases progress::distance(src, m),
    when progress::fits(src, m)
{
    proof {
        lemma_next(src, m);
    }
    &&& next_whole(src, m)
    &&& match next(src, m) {
        (Some(_), after) => run_whole(src, after),
        (None, _) => true,
    }
}

/// No escape is cut from `m` on exactly where the next move cuts none and none is
/// cut after it.
pub proof fn lemma_run_whole(src: Seq<u8>, m: Machine)
    requires
        progress::fits(src, m),
        m.state != State::Done,
    ensures
        progress::fits(src, machine::step(src, m).1),
        0 <= progress::distance(src, machine::step(src, m).1) < progress::distance(src, m),
        run_whole(src, m) == (progress::escape_whole(src, m.state) && run_whole(
            src,
            machine::step(src, m).1,
        )),
{
    progress::lemma_step(src, m);
    reveal(progress::advances);
    lemma_next(src, m);
    lemma_next(src, machine::step(src, m).1);
}

// --- laws ---

/// The machine can come up before its first move.
pub proof fn lemma_start(src: Seq<u8>)
    requires
        lexer::source_fits(src),
    ensures
        progress::fits(src, start()),
{
    text::lemma_boundary(src, 0);
}

/// Once there is no event, there never is one again.
pub proof fn law_done_stays_done(src: Seq<u8>, m: Machine)
    requires
        progress::fits(src, m),
        next(src, m).0 is None,
    ensures
        next(src, next(src, m).1) == (None::<EventView>, next(src, m).1),
        run(src, m) == Seq::<EventView>::empty(),
{
    lemma_next(src, m);
}

/// Every document starts with its start and the start of its root object.
pub proof fn law_opening(src: Seq<u8>)
    requires
        lexer::source_fits(src),
    ensures
        run(src, start()).len() >= 2,
        run(src, start())[0] == EventView::DocumentStart,
        run(src, start())[1] == emit::open_object_start(Span { start: 0, end: 0 }),
{
    lemma_start(src);
    lemma_next(src, start());
    let second = next(src, start()).1;
    lemma_next(src, second);
    let third = next(src, second).1;
    assert(run(src, second) == seq![next(src, second).0->0] + run(src, third));
    assert(run(src, start()) == seq![EventView::DocumentStart] + run(src, second));
}

/// What every event speaks of is a range of the source that cuts no character.
pub proof fn law_events_fit(src: Seq<u8>, m: Machine)
    requires
        progress::fits(src, m),
        run_whole(src, m),
    ensures
        forall|i: int|
            0 <= i < run(src, m).len() ==> progress::event_fits(src, #[trigger] run(src, m)[i]),
    decreases progress::distance(src, m),
{
    lemma_next(src, m);
    if let (Some(event), after) = next(src, m) {
        law_events_fit(src, after);
        let all = run(src, m);
        let rest = run(src, after);
        assert(all == seq![event] + rest);
        assert forall|i: int| 0 <= i < all.len() implies progress::event_fits(
            src,
            #[trigger] all[i],
        ) by {
            if i > 0 {
                assert(all[i] == rest[i - 1]);
            }
        }
    }
}

/// No backslash stands before a character beyond ASCII.
pub open spec fn escapes_in_ascii(src: Seq<u8>) -> bool {
    forall|i: int|
        0 <= i < src.len() - 1 && #[trigger] src[i] == ascii::BACKSLASH ==> src[i + 1] < 0x80
}

/// Where no backslash stands before a character beyond ASCII, every invalid
/// escape is made of whole characters.
proof fn lemma_escape_span(src: Seq<u8>, span: Span, index: int)
    requires
        lexer::source_fits(src),
        lexer::quoted_form(src, span),
        escapes_in_ascii(src),
        0 <= index < machine::escapes(src, span).len(),
    ensures
        text::span_fits(src, machine::escape_span(src, span, index)),
{
    let inside = src.subrange(span.start + 1, span.end - 1);
    escape::lemma_invalid_escapes(inside, 0);
    let (at, len) = machine::escapes(src, span)[index];
    assert(escape::escape_in(inside, 0, (at, len)));
    let p = span.start + 1 + at;
    assert(src[p] == inside[at]);
    text::lemma_boundary(src, p);
    text::lemma_boundary(src, p + len);
}

/// Where no backslash stands before a character beyond ASCII, no escape is cut
/// on the way to the next event.
pub proof fn law_ascii_escapes_next(src: Seq<u8>, m: Machine)
    requires
        progress::fits(src, m),
        escapes_in_ascii(src),
    ensures
        next_whole(src, m),
    decreases progress::distance(src, m),
{
    match m.state {
        State::EmitInvalidEscapes { span, error_index, .. } => {
            if error_index < machine::escapes(src, span).len() {
                lemma_escape_span(src, span, error_index as int);
            }
        },
        State::EmitInvalidEscapesInKey { key_span, error_index, .. } => {
            if error_index < machine::escapes(src, key_span).len() {
                lemma_escape_span(src, key_span, error_index as int);
            }
        },
        _ => {},
    }
    if m.state != State::Done {
        progress::lemma_step(src, m);
        reveal(progress::advances);
        let (event, after) = machine::step(src, m);
        if event is None {
            law_ascii_escapes_next(src, after);
        }
    }
}

/// Where no backslash stands before a character beyond ASCII, no escape is cut.
pub proof fn law_ascii_escapes(src: Seq<u8>, m: Machine)
    requires
        progress::fits(src, m),
        escapes_in_ascii(src),
    ensures
        run_whole(src, m),
    decreases progress::distance(src, m),
{
    law_ascii_escapes_next(src, m);
    lemma_next(src, m);
    if let (Some(_), after) = next(src, m) {
        law_ascii_escapes(src, after);
    }
}

} // verus!
