//! Where the texts of the events come from.
use crate::ascii;
use crate::emit;
use crate::event::{EventView, ScalarKind};
use crate::lexer;
use crate::lexer::Skip;
use crate::parser3::machine;
use crate::parser3::machine::{Machine, Move, State};
use crate::parser3::progress;
use crate::parser3::run;
use crate::span::Span;
use crate::text;
use crate::token::TokenKind;
use vstd::prelude::*;

verus! {

/// The text of a bare scalar or key is the source at its span, and a tag is `@`
/// and its name there.
pub open spec fn event_reads(src: Seq<u8>, e: EventView) -> bool {
    match e {
        EventView::Scalar { span, value, kind } => kind == ScalarKind::Bare ==> value
            == text::chars_at(src, span),
        EventView::Key { span, payload: Some(value), kind, .. } => kind == ScalarKind::Bare
            ==> value == text::chars_at(src, span),
        EventView::TagStart { span, name } => text::chars_at(src, span) == seq!['@'] + name,
        _ => true,
    }
}

/// The source at `span` is `@`.
pub open spec fn is_at(src: Seq<u8>, span: Span) -> bool {
    &&& span.start < src.len()
    &&& span.end == span.start + 1
    &&& src[span.start as int] == ascii::AT
}

/// The span of an `@` in `state` is that of one in the source.
pub open spec fn state_reads(src: Seq<u8>, state: State) -> bool {
    match state {
        State::EmitUnitKeyValue { at_span } => is_at(src, at_span),
        State::EmitTagStart { tag_span } => is_at(src, tag_span),
        State::EmitTagStartInAttr { tag_span } => is_at(src, tag_span),
        _ => true,
    }
}

/// The text of what the move `mv` emits is that of the source.
#[verifier::opaque]
pub open spec fn reads(src: Seq<u8>, mv: Move) -> bool {
    &&& mv.0 matches Some(e) ==> event_reads(src, e)
    &&& state_reads(src, mv.1.state)
}

/// A tag is `@` and its name.
proof fn lemma_tag_text(src: Seq<u8>, at_span: Span, name: Span)
    requires
        lexer::source_fits(src),
        is_at(src, at_span),
        text::span_fits(src, name),
        name.start == at_span.end,
    ensures
        event_reads(
            src,
            emit::tag_start(src, (Span { start: at_span.start, end: name.end }), name),
        ),
{
    let start = at_span.start as int;
    text::lemma_boundary(src, start);
    text::lemma_boundary(src, start + 1);
    text::lemma_chars_split(src, start, start + 1, name.end as int);
    text::lemma_ascii_char(src, start, '@');
}

/// See [`lemma_step`].
proof fn lemma_values(src: Seq<u8>, m: Machine)
    requires
        progress::fits(src, m),
        state_reads(src, m.state),
        m.state is ExpectEntry || m.state is EmitEntryStart || m.state is EmitKey || m.state
            is EmitScalarValue || m.state is AfterBareScalarValue || m.state
            is EmitTooManyAtomsThenEntryEnd || m.state is EmitInvalidEscapes || m.state
            is EmitInvalidEscapesInKey || m.state is AfterQuotedScalarValue,
    ensures
        reads(src, machine::step(src, m)),
{
    reveal(reads);
    lexer::lemma_at(src, m.lex, Skip::Lines);
    lexer::lemma_at(src, m.lex, Skip::Blanks);
    reveal(machine::expect_entry);
    reveal(machine::emit_entry_start);
    reveal(machine::emit_key);
    reveal(machine::emit_scalar_value);
    reveal(machine::after_bare_scalar_value);
    reveal(machine::emit_too_many_atoms);
    reveal(machine::emit_invalid_escapes);
    reveal(machine::emit_invalid_escapes_in_key);
    reveal(machine::after_quoted_scalar_value);
}

/// See [`lemma_step`].
proof fn lemma_unit_key(src: Seq<u8>, m: Machine, at_span: Span)
    requires
        progress::fits(src, m),
        m.state == (State::EmitUnitKeyValue { at_span }),
        is_at(src, at_span),
    ensures
        reads(src, machine::step(src, m)),
{
    reveal(reads);
    reveal(machine::emit_unit_key_value);
    lexer::lemma_at(src, m.lex, Skip::Blanks);
    lexer::lemma_lex_past(src, m.lex, Skip::Nothing);
    let first = machine::read(src, m, Skip::Nothing).0;
    if first.kind == TokenKind::BareScalar && machine::adjoins(first, at_span) {
        lemma_tag_text(src, at_span, first.span);
    }
}

/// See [`lemma_step`].
proof fn lemma_tag(src: Seq<u8>, m: Machine, at_span: Span)
    requires
        progress::fits(src, m),
        m.state == (State::EmitTagStart { tag_span: at_span }) || m.state == (
        State::EmitTagStartInAttr { tag_span: at_span }),
        is_at(src, at_span),
    ensures
        reads(src, machine::step(src, m)),
{
    reveal(reads);
    reveal(machine::emit_tag_start);
    reveal(machine::emit_tag_start_in_attr);
    lexer::lemma_lex_past(src, m.lex, Skip::Nothing);
    let t = machine::read(src, m, Skip::Nothing).0;
    if t.kind == TokenKind::BareScalar && machine::adjoins(t, at_span) {
        emit::lemma_name_end(src, t.span);
        let end = emit::name_end(src, t.span);
        lemma_tag_text(src, at_span, Span { start: t.span.start, end });
    }
}

/// See [`lemma_step`].
proof fn lemma_nested(src: Seq<u8>, m: Machine)
    requires
        progress::fits(src, m),
        m.state is AfterTagStart || m.state is AfterTagStartInAttr || m.state is ExpectSeqElem
            || m.state is ExpectAttrValue || m.state is AfterAttrBareValue || m.state
            is AfterAttrEntryEnd || m.state is EmitDottedPath || m.state is AfterDottedPathKey
            || m.state is AfterDottedPathBareValue || m.state is CloseDottedPath,
    ensures
        reads(src, machine::step(src, m)),
{
    reveal(reads);
    lexer::lemma_at(src, m.lex, Skip::Lines);
    lexer::lemma_at(src, m.lex, Skip::Blanks);
    lexer::lemma_at(src, m.lex, Skip::Nothing);
    reveal(machine::after_tag_start);
    reveal(machine::after_tag_start_in_attr);
    reveal(machine::expect_seq_elem);
    reveal(machine::expect_attr_value);
    reveal(machine::after_attr_bare_value);
    reveal(machine::after_attr_entry_end);
    reveal(machine::emit_dotted_path);
    reveal(machine::after_dotted_path_key);
    reveal(machine::after_dotted_path_bare_value);
    reveal(machine::close_dotted_path);
}

/// The texts of what every move emits are those of the source.
pub proof fn lemma_step(src: Seq<u8>, m: Machine)
    requires
        progress::fits(src, m),
        state_reads(src, m.state),
    ensures
        reads(src, machine::step(src, m)),
{
    match m.state {
        State::ExpectEntry
        | State::EmitEntryStart { .. }
        | State::EmitKey { .. }
        | State::EmitScalarValue { .. }
        | State::AfterBareScalarValue { .. }
        | State::EmitTooManyAtomsThenEntryEnd { .. }
        | State::EmitInvalidEscapes { .. }
        | State::EmitInvalidEscapesInKey { .. }
        | State::AfterQuotedScalarValue { .. } => lemma_values(src, m),
        State::EmitUnitKeyValue { at_span } => lemma_unit_key(src, m, at_span),
        State::EmitTagStart { tag_span } => lemma_tag(src, m, tag_span),
        State::EmitTagStartInAttr { tag_span } => lemma_tag(src, m, tag_span),
        State::AfterTagStart { .. }
        | State::AfterTagStartInAttr { .. }
        | State::ExpectSeqElem
        | State::ExpectAttrValue { .. }
        | State::AfterAttrBareValue { .. }
        | State::AfterAttrEntryEnd
        | State::EmitDottedPath { .. }
        | State::AfterDottedPathKey { .. }
        | State::AfterDottedPathBareValue { .. }
        | State::CloseDottedPath { .. } => lemma_nested(src, m),
        _ => {
            reveal(reads);
        },
    }
}

/// The texts of the next event are those of the source.
pub proof fn lemma_next(src: Seq<u8>, m: Machine)
    requires
        progress::fits(src, m),
        state_reads(src, m.state),
    ensures
        run::next(src, m).0 matches Some(e) ==> event_reads(src, e),
        state_reads(src, run::next(src, m).1.state),
    decreases progress::distance(src, m),
{
    lemma_step(src, m);
    reveal(reads);
    if m.state != State::Done {
        progress::lemma_step(src, m);
        reveal(progress::advances);
        let (event, after) = machine::step(src, m);
        if event is None {
            lemma_next(src, after);
        }
    }
}

/// See [`law_texts`].
proof fn lemma_run(src: Seq<u8>, m: Machine)
    requires
        progress::fits(src, m),
        state_reads(src, m.state),
    ensures
        forall|i: int|
            0 <= i < run::run(src, m).len() ==> event_reads(src, #[trigger] run::run(src, m)[i]),
    decreases progress::distance(src, m),
{
    run::lemma_next(src, m);
    lemma_next(src, m);
    if let (Some(event), after) = run::next(src, m) {
        lemma_run(src, after);
        let all = run::run(src, m);
        let rest = run::run(src, after);
        assert(all == seq![event] + rest);
        assert forall|i: int| 0 <= i < all.len() implies event_reads(src, #[trigger] all[i]) by {
            if i > 0 {
                assert(all[i] == rest[i - 1]);
            }
        }
    }
}

/// Of every event, the text of a bare scalar or key is the source at its span,
/// and the source at the span of a tag is `@` and the name of the tag.
pub proof fn law_texts(src: Seq<u8>)
    requires
        lexer::source_fits(src),
    ensures
        forall|i: int|
            0 <= i < run::run(src, run::start()).len() ==> event_reads(
                src,
                #[trigger] run::run(src, run::start())[i],
            ),
{
    run::lemma_start(src);
    lemma_run(src, run::start());
}

} // verus!
