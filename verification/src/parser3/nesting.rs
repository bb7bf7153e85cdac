//! What holds of the events that the machine emits one after the other.
use crate::event::EventView;
use crate::lexer;
use crate::nesting;
use crate::parser3::machine;
use crate::parser3::machine::{Context, Machine, Move, State};
use crate::parser3::progress;
use crate::parser3::run;
use vstd::prelude::*;

verus! {

/// How many contexts are open at least in `state`.
pub open spec fn least_open(state: State) -> int {
    match state {
        State::Start
        | State::EmitRootObjectStart
        | State::EmitEntryEnd
        | State::EmitDocumentEnd
        | State::Done => 0,
        State::EmitAttrEntryStart { .. }
        | State::EmitAttrKey { .. }
        | State::ExpectAttrValue { .. }
        | State::AfterAttrBareValue { .. }
        | State::EmitAttrScalarValue { .. }
        | State::EmitAttrEntryEnd
        | State::AfterAttrEntryEnd
        | State::EmitTagStartInAttr { .. }
        | State::AfterTagStartInAttr { .. }
        | State::EmitTagEndInAttr
        | State::EmitUnitThenTagEndInAttr { .. }
        | State::EmitAttrObjectEnd
        | State::EmitAttrObjectEndThenNewEntry { .. }
        | State::EmitAttrObjectEndThenClose { .. } => 2,
        State::EmitDottedPath { depth, .. }
        | State::EmitDottedPathKey { depth, .. }
        | State::EmitDottedPathKeyThenObject { depth, .. }
        | State::EmitDottedPathObject { depth, .. }
        | State::AfterDottedPathKey { depth, .. }
        | State::AfterDottedPathBareValue { depth, .. }
        | State::EmitDottedPathScalarValue { depth, .. }
        | State::CloseDottedPath { depth }
        | State::EmitEntryEndThenCloseDotted { depth } => depth + 1,
        _ => 1,
    }
}

/// As many contexts are open as the state of `m` needs: entries stand in
/// objects, and attributes in the object of an entry.
pub open spec fn nested(m: Machine) -> bool {
    &&& least_open(m.state) <= m.stack.len()
    &&& m.state == State::Start ==> m.stack.len() == 0
    &&& m.stack.len() > 0 ==> m.stack[0] != Context::AttrObject
    &&& m.state == State::ExpectEntry ==> m.stack.last() is Object
    &&& m.state is EmitUnitKeyValue ==> m.stack.last() is Object
}

/// What the move `mv` from `m` emits fits the contexts that it leaves open, and
/// marks the document only at its ends.
#[verifier::opaque]
pub open spec fn keeps_nested(m: Machine, mv: Move) -> bool {
    &&& nested(mv.1)
    &&& mv.1.state != State::Start
    &&& match mv.0 {
        Some(e) => {
            &&& mv.1.stack.len() <= m.stack.len() + nesting::change(e)
            &&& e == EventView::DocumentStart ==> m.state == State::Start
            &&& e == EventView::DocumentEnd ==> mv.1.state == State::Done
            &&& mv.1.state == State::Done ==> e == EventView::DocumentEnd || e is Error || e
                is DocComment
        },
        None => mv.1.stack.len() <= m.stack.len() && mv.1.state != State::Done,
    }
}

/// See [`lemma_step`].
proof fn lemma_entry(src: Seq<u8>, m: Machine)
    requires
        progress::fits(src, m),
        nested(m),
        m.state == State::ExpectEntry,
    ensures
        keeps_nested(m, machine::step(src, m)),
{
    reveal(keeps_nested);
    reveal(machine::expect_entry);
}

/// See [`lemma_step`].
proof fn lemma_value(src: Seq<u8>, m: Machine)
    requires
        progress::fits(src, m),
        nested(m),
        m.state is EmitEntryStart || m.state is EmitUnitKeyValue || m.state is EmitKey || m.state
            is EmitScalarValue || m.state is AfterBareScalarValue || m.state
            is EmitTooManyAtomsThenEntryEnd || m.state is EmitInvalidEscapes || m.state
            is EmitInvalidEscapesInKey || m.state is AfterQuotedScalarValue,
    ensures
        keeps_nested(m, machine::step(src, m)),
{
    reveal(keeps_nested);
    reveal(machine::emit_entry_start);
    reveal(machine::emit_unit_key_value);
    reveal(machine::emit_key);
    reveal(machine::emit_scalar_value);
    reveal(machine::after_bare_scalar_value);
    reveal(machine::emit_too_many_atoms);
    reveal(machine::emit_invalid_escapes);
    reveal(machine::emit_invalid_escapes_in_key);
    reveal(machine::after_quoted_scalar_value);
}

/// See [`lemma_step`].
proof fn lemma_tag(src: Seq<u8>, m: Machine)
    requires
        progress::fits(src, m),
        nested(m),
        m.state is EmitTagStart || m.state is AfterTagStart || m.state is EmitTagStartInAttr
            || m.state is AfterTagStartInAttr || m.state is ExpectSeqElem,
    ensures
        keeps_nested(m, machine::step(src, m)),
{
    reveal(keeps_nested);
    reveal(machine::emit_tag_start);
    reveal(machine::after_tag_start);
    reveal(machine::emit_tag_start_in_attr);
    reveal(machine::after_tag_start_in_attr);
    reveal(machine::expect_seq_elem);
}

/// See [`lemma_step`].
proof fn lemma_attribute(src: Seq<u8>, m: Machine)
    requires
        progress::fits(src, m),
        nested(m),
        m.state is ExpectAttrValue || m.state is AfterAttrBareValue || m.state
            is AfterAttrEntryEnd,
    ensures
        keeps_nested(m, machine::step(src, m)),
{
    reveal(keeps_nested);
    reveal(machine::expect_attr_value);
    reveal(machine::after_attr_bare_value);
    reveal(machine::after_attr_entry_end);
}

/// See [`lemma_step`].
proof fn lemma_path(src: Seq<u8>, m: Machine)
    requires
        progress::fits(src, m),
        nested(m),
        m.state is EmitDottedPath || m.state is AfterDottedPathKey || m.state
            is AfterDottedPathBareValue || m.state is CloseDottedPath,
    ensures
        keeps_nested(m, machine::step(src, m)),
{
    reveal(keeps_nested);
    reveal(machine::emit_dotted_path);
    reveal(machine::after_dotted_path_key);
    reveal(machine::after_dotted_path_bare_value);
    reveal(machine::close_dotted_path);
}

/// Every move fits the contexts that it leaves open.
pub proof fn lemma_step(src: Seq<u8>, m: Machine)
    requires
        progress::fits(src, m),
        nested(m),
        m.state != State::Done,
    ensures
        keeps_nested(m, machine::step(src, m)),
{
    match m.state {
        State::ExpectEntry => lemma_entry(src, m),
        State::EmitEntryStart { .. }
        | State::EmitUnitKeyValue { .. }
        | State::EmitKey { .. }
        | State::EmitScalarValue { .. }
        | State::AfterBareScalarValue { .. }
        | State::EmitTooManyAtomsThenEntryEnd { .. }
        | State::EmitInvalidEscapes { .. }
        | State::EmitInvalidEscapesInKey { .. }
        | State::AfterQuotedScalarValue { .. } => lemma_value(src, m),
        State::EmitTagStart { .. }
        | State::AfterTagStart { .. }
        | State::EmitTagStartInAttr { .. }
        | State::AfterTagStartInAttr { .. }
        | State::ExpectSeqElem => lemma_tag(src, m),
        State::ExpectAttrValue { .. }
        | State::AfterAttrBareValue { .. }
        | State::AfterAttrEntryEnd => lemma_attribute(src, m),
        State::EmitDottedPath { .. }
        | State::AfterDottedPathKey { .. }
        | State::AfterDottedPathBareValue { .. }
        | State::CloseDottedPath { .. } => lemma_path(src, m),
        _ => {
            reveal(keeps_nested);
        },
    }
}

/// The way to the next event fits the contexts that it leaves open.
pub proof fn lemma_next(src: Seq<u8>, m: Machine)
    requires
        progress::fits(src, m),
        nested(m),
        m.state != State::Done,
    ensures
        run::next(src, m).0 is Some,
        keeps_nested(m, run::next(src, m)),
    decreases progress::distance(src, m),
{
    lemma_step(src, m);
    progress::lemma_step(src, m);
    reveal(progress::advances);
    let (event, after) = machine::step(src, m);
    if event is None {
        assert(nested(after) && after.state != State::Done && after.stack.len() <= m.stack.len())
            by {
            reveal(keeps_nested);
        }
        lemma_next(src, after);
        reveal(keeps_nested);
    }
}

/// `events` mark the document only where they may: none starts it, and none but
/// the last ends it.
pub open spec fn unmarked(events: Seq<EventView>) -> bool {
    &&& forall|i: int| 0 <= i < events.len() ==> #[trigger] events[i] != EventView::DocumentStart
    &&& forall|i: int|
        0 <= i < events.len() - 1 ==> #[trigger] events[i] != EventView::DocumentEnd
}

/// An event that may be the last one.
pub open spec fn may_be_last(e: EventView) -> bool {
    e == EventView::DocumentEnd || e is Error || e is DocComment
}

/// See [`law_nesting`] and [`law_document`].
proof fn lemma_run(src: Seq<u8>, m: Machine)
    requires
        progress::fits(src, m),
        nested(m),
    ensures
        nesting::closes_opened(m.stack.len() as int, run::run(src, m)),
        m.state != State::Start ==> unmarked(run::run(src, m)),
        m.state == State::Start ==> {
            &&& run::run(src, m).len() > 0
            &&& unmarked(run::run(src, m).drop_first())
        },
        m.state == State::Done ==> run::run(src, m).len() == 0,
        m.state != State::Done ==> {
            &&& run::run(src, m).len() > 0
            &&& m.state != State::Start ==> may_be_last(run::run(src, m).last())
        },
    decreases progress::distance(src, m),
{
    let all = run::run(src, m);
    if m.state == State::Done {
        assert(all =~= Seq::empty());
        assert(all.take(0) =~= all);
    } else {
        lemma_next(src, m);
        run::lemma_next(src, m);
        reveal(keeps_nested);
        let event = run::next(src, m).0->0;
        let after = run::next(src, m).1;
        lemma_run(src, after);
        let rest = run::run(src, after);
        assert(all == seq![event] + rest);
        assert(all.drop_first() =~= rest);
        nesting::lemma_closes_opened_one(m.stack.len() as int, event);
        nesting::lemma_closes_opened_more(
            after.stack.len() as int,
            m.stack.len() + nesting::change(event),
            rest,
        );
        nesting::lemma_closes_opened_add(m.stack.len() as int, seq![event], rest);
        assert forall|i: int| 0 < i < all.len() implies #[trigger] all[i] == rest[i - 1] by {}
        if rest.len() > 0 {
            assert(all.last() == rest.last());
        }
    }
}

/// No event closes an object or a sequence where none is open.
pub proof fn law_nesting(src: Seq<u8>)
    requires
        lexer::source_fits(src),
    ensures
        nesting::closes_opened(0, run::run(src, run::start())),
{
    run::lemma_start(src);
    lemma_run(src, run::start());
}

/// The document starts with the first event and with no other. Only the last
/// event can end it, and if that does not, it is an error or a doc comment.
pub proof fn law_document(src: Seq<u8>)
    requires
        lexer::source_fits(src),
    ensures
        ({
            let events = run::run(src, run::start());
            &&& events.len() >= 2
            &&& events[0] == EventView::DocumentStart
            &&& forall|i: int|
                0 < i < events.len() ==> #[trigger] events[i] != EventView::DocumentStart
            &&& forall|i: int|
                0 <= i < events.len() - 1 ==> #[trigger] events[i] != EventView::DocumentEnd
            &&& may_be_last(events.last())
        }),
{
    run::law_opening(src);
    run::lemma_start(src);
    lemma_run(src, run::start());
    let events = run::run(src, run::start());
    let rest = events.drop_first();
    assert forall|i: int| 0 < i < events.len() implies #[trigger] events[i] == rest[i - 1] by {}
    run::lemma_next(src, run::start());
    lemma_run(src, run::next(src, run::start()).1);
}

} // verus!
