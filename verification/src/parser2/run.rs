//! The events that the machine emits.
use crate::event::EventView;
use crate::lexer;
use crate::lexer::LexState;
use crate::parser2::machine;
use crate::parser2::machine::{Machine, Move, State};
use crate::parser2::progress;
use crate::text;
use vstd::prelude::*;

verus! {

/// The machine before its first move; `expr` where the source is a single value.
pub open spec fn start(expr: bool) -> Machine {
    Machine {
        lex: LexState { pos: 0, heredoc: None },
        state: State::Start,
        stack: Seq::empty(),
        queue: Seq::empty(),
        docs: Seq::empty(),
        expr,
        buffer: Seq::empty(),
    }
}

/// The machine after the first event of its queue was emitted.
pub open spec fn dequeued(m: Machine) -> Machine {
    Machine { queue: m.queue.drop_first(), ..m }
}

/// Emitting an event of the queue comes closer to the end.
pub proof fn lemma_dequeued(src: Seq<u8>, m: Machine)
    requires
        progress::fits(src, m),
        m.queue.len() > 0,
    ensures
        progress::fits(src, dequeued(m)),
        0 <= progress::distance(src, dequeued(m)) < progress::distance(src, m),
        progress::event_fits(src, m.queue[0]),
{
    reveal(progress::lists_fit);
}

/// The next event, if any, and the machine after it: the first of the queue,
/// or else moves are made until there is one or none is left.
pub open spec fn next(src: Seq<u8>, m: Machine) -> Move
    decreases progress::distance(src, m),
    when progress::fits(src, m)
{
    proof {
        if m.state != State::Done {
            progress::lemma_step(src, m);
            reveal(progress::advances);
        }
    }
    if m.queue.len() > 0 {
        (Some(m.queue[0]), dequeued(m))
    } else {
        let (event, after) = machine::step(src, m);
        if event is Some || m.state == State::Done {
            (event, after)
        } else {
            next(src, after)
        }
    }
}

/// The way to the next event stays within the source and comes closer to the end.
pub proof fn lemma_next(src: Seq<u8>, m: Machine)
    requires
        progress::fits(src, m),
    ensures
        progress::fits(src, next(src, m).1),
        next(src, m).0 is Some ==> 0 <= progress::distance(src, next(src, m).1)
            < progress::distance(src, m),
        next(src, m).0 is None ==> {
            &&& next(src, m).1.state == State::Done
            &&& next(src, m).1.queue.len() == 0
        },
        next(src, m).0 matches Some(e) ==> progress::event_fits(src, e),
    decreases progress::distance(src, m),
{
    if m.queue.len() > 0 {
        lemma_dequeued(src, m);
    } else if m.state != State::Done {
        progress::lemma_step(src, m);
        reveal(progress::advances);
        let (event, after) = machine::step(src, m);
        if event is None {
            lemma_next(src, after);
        }
    }
}

/// All events from `m` on.
pub open spec fn run(src: Seq<u8>, m: Machine) -> Seq<EventView>
    decreases progress::distance(src, m),
    when progress::fits(src, m)
{
    proof {
        lemma_next(src, m);
    }
    match next(src, m) {
        (Some(event), after) => seq![event] + run(src, after),
        (None, _) => Seq::empty(),
    }
}

// --- laws ---

/// The machine can come up before its first move.
pub proof fn lemma_start(src: Seq<u8>, expr: bool)
    requires
        lexer::source_fits(src),
    ensures
        progress::fits(src, start(expr)),
{
    reveal(progress::lists_fit);
    text::lemma_boundary(src, 0);
}

/// Once there is no event, there never is one again.
pub proof fn law_done_stays_done(src: Seq<u8>, m: Machine)
    requires
        progress::fits(src, m),
        next(src, m).0 is None,
    ensures
        next(src, next(src, m).1) == (None::<EventView>, next(src, m).1),
        run(src, m) == Seq::<EventView>::empty(),
{
    lemma_next(src, m);
}

/// The events of a queue come out in order, before anything else.
pub proof fn law_queue_first(src: Seq<u8>, m: Machine)
    requires
        progress::fits(src, m),
    ensures
        m.queue.is_prefix_of(run(src, m)),
    decreases m.queue.len(),
{
    if m.queue.len() > 0 {
        lemma_dequeued(src, m);
        law_queue_first(src, dequeued(m));
        let rest = run(src, dequeued(m));
        assert(run(src, m) == seq![m.queue[0]] + rest);
        assert forall|i: int| 0 <= i < m.queue.len() implies m.queue[i] == run(src, m)[i] by {
            if i > 0 {
                assert(dequeued(m).queue[i - 1] == rest[i - 1]);
            }
        }
        assert(m.queue =~= run(src, m).take(m.queue.len() as int));
    }
}

/// Every source, document or value, starts with the start of the document.
pub proof fn law_opening(src: Seq<u8>, expr: bool)
    requires
        lexer::source_fits(src),
    ensures
        run(src, start(expr)).len() >= 1,
        run(src, start(expr))[0] == EventView::DocumentStart,
{
    lemma_start(src, expr);
    lemma_next(src, start(expr));
    let after = next(src, start(expr)).1;
    assert(run(src, start(expr)) == seq![EventView::DocumentStart] + run(src, after));
}

/// What every event speaks of is a range of the source that cuts no character.
/// A bare key or scalar says the text there, which starts with no quote, one in
/// quotes what stands between them, and a raw one too; a tag is written with `@`,
/// and a sequence with round brackets.
pub proof fn law_events_fit(src: Seq<u8>, m: Machine)
    requires
        progress::fits(src, m),
    ensures
        progress::events_fit(src, run(src, m)),
    decreases progress::distance(src, m),
{
    lemma_next(src, m);
    if let (Some(event), after) = next(src, m) {
        law_events_fit(src, after);
        let all = run(src, m);
        let rest = run(src, after);
        assert(all == seq![event] + rest);
        assert forall|i: int| 0 <= i < all.len() implies progress::event_fits(
            src,
            #[trigger] all[i],
        ) by {
            if i > 0 {
                assert(all[i] == rest[i - 1]);
            }
        }
    }
}

} // verus!
