//! How deep events nest objects and sequences.
use crate::event::EventView;
use vstd::prelude::*;

verus! {

/// How many more objects and sequences are open after `e`.
pub open spec fn change(e: EventView) -> int {
    match e {
        EventView::ObjectStart { .. } | EventView::SequenceStart { .. } => 1,
        EventView::ObjectEnd { .. } | EventView::SequenceEnd { .. } => -1,
        _ => 0,
    }
}

/// How many more objects and sequences are open after `events`.
pub open spec fn depth(events: Seq<EventView>) -> int
    decreases events.len(),
{
    if events.len() == 0 {
        0
    } else {
        depth(events.drop_last()) + change(events.last())
    }
}

/// Inside `open` objects and sequences, none of `events` closes more than is open.
pub open spec fn closes_opened(open: int, events: Seq<EventView>) -> bool {
    forall|k: int| 0 <= k <= events.len() ==> open + depth(#[trigger] events.take(k)) >= 0
}

/// Events that come one after the other add up.
pub proof fn lemma_depth_add(a: Seq<EventView>, b: Seq<EventView>)
    ensures
        depth(a + b) == depth(a) + depth(b),
    decreases b.len(),
{
    if b.len() == 0 {
        assert(a + b =~= a);
    } else {
        lemma_depth_add(a, b.drop_last());
        assert((a + b).drop_last() =~= a + b.drop_last());
    }
}

/// What one event changes.
pub proof fn lemma_depth_one(e: EventView)
    ensures
        depth(seq![e]) == change(e),
{
    reveal_with_fuel(depth, 2);
}

/// Events that close no more than is open, one after the other.
pub proof fn lemma_closes_opened_add(open: int, a: Seq<EventView>, b: Seq<EventView>)
    requires
        closes_opened(open, a),
        closes_opened(open + depth(a), b),
    ensures
        closes_opened(open, a + b),
        depth(a + b) == depth(a) + depth(b),
{
    lemma_depth_add(a, b);
    assert forall|k: int| 0 <= k <= (a + b).len() implies open + depth(
        #[trigger] (a + b).take(k),
    ) >= 0 by {
        if k <= a.len() {
            assert((a + b).take(k) =~= a.take(k));
        } else {
            assert((a + b).take(k) =~= a + b.take(k - a.len()));
            lemma_depth_add(a, b.take(k - a.len()));
        }
    }
}

/// One event closes no more than is open, unless nothing is open.
pub proof fn lemma_closes_opened_one(open: int, e: EventView)
    requires
        open >= 0,
        open + change(e) >= 0,
    ensures
        closes_opened(open, seq![e]),
        depth(seq![e]) == change(e),
{
    lemma_depth_one(e);
    assert forall|k: int| 0 <= k <= 1 implies open + depth(#[trigger] seq![e].take(k)) >= 0 by {
        if k == 1 {
            assert(seq![e].take(k) =~= seq![e]);
        }
    }
}

/// Inside more objects and sequences there is more to close.
pub proof fn lemma_closes_opened_more(open: int, more: int, events: Seq<EventView>)
    requires
        closes_opened(open, events),
        open <= more,
    ensures
        closes_opened(more, events),
{
}

} // verus!
