//! What holds of every move of the machine: it stays within the source, and it
//! comes closer to the end.
use crate::ascii;
use crate::emit;
use crate::escape;
use crate::event;
use crate::event::{EventView, ScalarKind};
use crate::lexer;
use crate::lexer::Skip;
use crate::parser3::machine;
use crate::parser3::machine::{Machine, Move, State};
use crate::span::Span;
use crate::text;
use crate::token::TokenKind;
use vstd::prelude::*;
use vstd::utf8::*;

verus! {

// --- within the source ---

/// The text at `span` has the form of a bare or a quoted scalar.
pub open spec fn scalar_fits(src: Seq<u8>, span: Span, kind: ScalarKind) -> bool {
    &&& kind == ScalarKind::Bare || kind == ScalarKind::Quoted
    &&& emit::scalar_fits(src, span, kind)
}

/// `offset` is a place in the dotted path at `full_span` that at least `depth`
/// segments stand before.
pub open spec fn path_fits(src: Seq<u8>, full_span: Span, offset: u32, depth: int) -> bool {
    &&& text::span_fits(src, full_span)
    &&& full_span.start + offset <= full_span.end
    &&& is_char_boundary(src, full_span.start + offset)
    &&& depth <= offset
}

/// The spans in `state` are ranges of the source of the form that the state
/// needs.
pub open spec fn state_fits(src: Seq<u8>, state: State) -> bool {
    match state {
        State::EmitEntryStart { key_span, key_kind } => scalar_fits(src, key_span, key_kind),
        State::EmitUnitKeyValue { at_span } => text::span_fits(src, at_span),
        State::EmitKey { key_span, key_kind } => scalar_fits(src, key_span, key_kind),
        State::EmitScalarValue { span, kind } => scalar_fits(src, span, kind),
        State::AfterBareScalarValue { value_span } => text::span_fits(src, value_span),
        State::EmitUnitValue { span } => text::span_fits(src, span),
        State::EmitUnitThenError { unit_span, error_span } => text::span_fits(src, unit_span)
            && text::span_fits(src, error_span),
        State::EmitErrorThenEntryEnd { error_span } => text::span_fits(src, error_span),
        State::EmitTooManyAtomsThenEntryEnd { error_span } => text::span_fits(src, error_span),
        State::EmitUnitThenEntryEndThenObjectEnd { unit_span, rbrace_span } => text::span_fits(
            src,
            unit_span,
        ) && text::span_fits(src, rbrace_span),
        State::EmitEntryEndAfterUnitThenObjectEnd { rbrace_span } => text::span_fits(
            src,
            rbrace_span,
        ),
        State::EmitScalarThenTooManyAtoms { value_span, error_span } => text::span_fits(
            src,
            value_span,
        ) && text::span_fits(src, error_span),
        State::EmitInvalidEscapes { span, kind, error_index } => {
            &&& kind == ScalarKind::Quoted
            &&& scalar_fits(src, span, kind)
            &&& error_index <= machine::escapes(src, span).len()
        },
        State::EmitInvalidEscapesInKey { key_span, key_kind, error_index } => {
            &&& key_kind == ScalarKind::Quoted
            &&& scalar_fits(src, key_span, key_kind)
            &&& error_index <= machine::escapes(src, key_span).len()
        },
        State::EmitEntryEndThenObjectEnd { rbrace_span } => text::span_fits(src, rbrace_span),
        State::EmitObjectEndAfterEntry { rbrace_span } => text::span_fits(src, rbrace_span),
        State::EmitEntryEndThenSeqEnd { rparen_span } => text::span_fits(src, rparen_span),
        State::EmitSeqEndAfterEntry { rparen_span } => text::span_fits(src, rparen_span),
        State::EmitObjectStartValue { span } => text::span_fits(src, span),
        State::EmitSequenceStartValue { span } => text::span_fits(src, span),
        State::EmitTagStart { tag_span } => text::span_fits(src, tag_span),
        State::AfterTagStart { tag_span } => text::span_fits(src, tag_span),
        State::EmitTagEndWithUnit { unit_span } => text::span_fits(src, unit_span),
        State::EmitTagEndThenSeqEnd { rparen_span } => text::span_fits(src, rparen_span),
        State::EmitTagEndThenObjEnd { rbrace_span } => text::span_fits(src, rbrace_span),
        State::EmitAttrEntryStart { attr_key_span } => text::span_fits(src, attr_key_span),
        State::EmitAttrKey { attr_key_span } => text::span_fits(src, attr_key_span),
        State::AfterAttrBareValue { value_span } => text::span_fits(src, value_span),
        State::EmitAttrScalarValue { span, kind } => scalar_fits(src, span, kind),
        State::EmitDottedPath { full_span, offset, depth } => path_fits(
            src,
            full_span,
            offset,
            depth as int,
        ),
        State::EmitDottedPathKey { key_span, full_span, depth } => text::span_fits(src, key_span)
            && text::span_fits(src, full_span),
        State::EmitDottedPathKeyThenObject { key_span, full_span, next_offset, depth } => {
            text::span_fits(src, key_span) && path_fits(src, full_span, next_offset, depth + 1)
        },
        State::EmitDottedPathObject { key_span, full_span, next_offset, depth } => {
            text::span_fits(src, key_span) && path_fits(src, full_span, next_offset, depth + 1)
        },
        State::AfterDottedPathKey { full_span, .. } => text::span_fits(src, full_span),
        State::AfterDottedPathBareValue { value_span, .. } => text::span_fits(src, value_span),
        State::EmitDottedPathScalarValue { span, kind, .. } => scalar_fits(src, span, kind),
        State::EmitTagStartInAttr { tag_span } => text::span_fits(src, tag_span),
        State::AfterTagStartInAttr { tag_span } => text::span_fits(src, tag_span),
        State::EmitUnitThenTagEndInAttr { unit_span } => text::span_fits(src, unit_span),
        State::EmitAttrObjectEndThenNewEntry { next_key_span, next_key_kind } => scalar_fits(
            src,
            next_key_span,
            next_key_kind,
        ),
        State::EmitEntryEndThenNewEntry { next_key_span, next_key_kind } => scalar_fits(
            src,
            next_key_span,
            next_key_kind,
        ),
        State::EmitAttrObjectEndThenClose { rbrace_span } => text::span_fits(src, rbrace_span),
        State::EmitParentObjectEnd { rbrace_span } => text::span_fits(src, rbrace_span),
        _ => true,
    }
}

/// A machine that can come up on `src`.
pub open spec fn fits(src: Seq<u8>, m: Machine) -> bool {
    lexer::lex_fits(src, m.lex) && state_fits(src, m.state)
}

/// What an event speaks of is a range of the source that cuts no character.
pub open spec fn event_fits(src: Seq<u8>, e: EventView) -> bool {
    match event::event_span(e) {
        Some(span) => text::span_fits(src, span),
        None => true,
    }
}

/// The invalid escape that comes next in `state`, if any, is made of whole
/// characters. It is not where a backslash stands before a character beyond
/// ASCII.
pub open spec fn escape_whole(src: Seq<u8>, state: State) -> bool {
    match state {
        State::EmitInvalidEscapes { span, error_index, .. } => error_index < machine::escapes(
            src,
            span,
        ).len() ==> text::span_fits(src, machine::escape_span(src, span, error_index as int)),
        State::EmitInvalidEscapesInKey { key_span, error_index, .. } => error_index
            < machine::escapes(src, key_span).len() ==> text::span_fits(
            src,
            machine::escape_span(src, key_span, error_index as int),
        ),
        _ => true,
    }
}

// --- towards the end ---

/// What one token is worth.
pub const TOKEN: u64 = 0x20_0000_0000;

/// What one open context is worth.
pub const CONTEXT: u64 = 10;

/// What one byte of a dotted path is worth.
pub const PATH_BYTE: u64 = 16;

/// How far a state is from reading or closing something. `empty` tells whether
/// no context is open.
pub open spec fn rank(src: Seq<u8>, state: State, empty: bool) -> int {
    match state {
        State::Start => CONTEXT + 4,
        State::EmitRootObjectStart => CONTEXT + 3,
        State::ExpectEntry => 2,
        State::EmitEntryStart { key_span, key_kind } => 10 + machine::escape_count(
            src,
            key_span,
            key_kind,
        ),
        State::EmitUnitKeyValue { .. } => 7,
        State::EmitKey { .. } => 8,
        State::EmitScalarValue { span, kind } => 8 + machine::escape_count(src, span, kind),
        State::AfterBareScalarValue { .. } => 6,
        State::EmitUnitValue { .. } => 6,
        State::EmitUnitThenError { .. } => 7,
        State::EmitErrorThenEntryEnd { .. } => 6,
        State::EmitTooManyAtomsThenEntryEnd { .. } => 6,
        State::EmitUnitThenEntryEndThenObjectEnd { .. } => 5,
        State::EmitEntryEndAfterUnitThenObjectEnd { .. } => 4,
        State::EmitScalarThenTooManyAtoms { .. } => 7,
        State::AfterQuotedScalarValue { .. } => 6,
        State::EmitInvalidEscapes { span, error_index, .. } => 7 + machine::escapes(
            src,
            span,
        ).len() - error_index,
        State::EmitInvalidEscapesInKey { key_span, error_index, .. } => 9 + machine::escapes(
            src,
            key_span,
        ).len() - error_index,
        State::EmitEntryEnd => if empty {
            2
        } else {
            5
        },
        State::EmitEntryEndThenObjectEnd { .. } => 4,
        State::EmitObjectEndAfterEntry { .. } => 3,
        State::EmitEntryEndThenSeqEnd { .. } => 4,
        State::EmitSeqEndAfterEntry { .. } => 3,
        State::EmitObjectStartValue { .. } => CONTEXT + 3,
        State::EmitSequenceStartValue { .. } => CONTEXT + 3,
        State::ExpectSeqElem => 2,
        State::EmitTagStart { .. } => 6,
        State::AfterTagStart { .. } => 6,
        State::EmitTagEnd => 6,
        State::EmitTagEndWithUnit { .. } => 7,
        State::EmitTagEndThenSeqEnd { .. } => 3,
        State::EmitTagEndThenObjEnd { .. } => 3,
        State::EmitAttrEntryStart { .. } => 6,
        State::EmitAttrKey { .. } => 5,
        State::ExpectAttrValue { .. } => 4,
        State::AfterAttrBareValue { .. } => 6,
        State::EmitAttrScalarValue { .. } => 6,
        State::EmitAttrEntryEnd => 5,
        State::AfterAttrEntryEnd => 4,
        State::EmitDottedPath { full_span, offset, depth } => 9 + 2 * depth + PATH_BYTE * (
        full_span.end - full_span.start - offset),
        State::EmitDottedPathKey { depth, .. } => 8 + 2 * depth,
        State::EmitDottedPathKeyThenObject { full_span, next_offset, depth, .. } => 13 + CONTEXT
            + 2 * depth + PATH_BYTE * (full_span.end - full_span.start - next_offset),
        State::EmitDottedPathObject { full_span, next_offset, depth, .. } => 12 + CONTEXT + 2
            * depth + PATH_BYTE * (full_span.end - full_span.start - next_offset),
        State::AfterDottedPathKey { depth, .. } => 7 + 2 * depth,
        State::AfterDottedPathBareValue { depth, .. } => 7 + 2 * depth,
        State::EmitDottedPathScalarValue { depth, .. } => 7 + 2 * depth,
        State::CloseDottedPath { depth } => 6 + 2 * depth,
        State::EmitEntryEndThenCloseDotted { depth } => 7 + 2 * depth,
        State::EmitTagStartInAttr { .. } => 6,
        State::AfterTagStartInAttr { .. } => 5,
        State::EmitTagEndInAttr => 5,
        State::EmitUnitThenTagEndInAttr { .. } => 6,
        State::EmitAttrObjectEnd => 3,
        State::EmitAttrObjectEndThenNewEntry { next_key_span, next_key_kind } => 12
            + machine::escape_count(src, next_key_span, next_key_kind),
        State::EmitEntryEndThenNewEntry { next_key_span, next_key_kind } => 11
            + machine::escape_count(src, next_key_span, next_key_kind),
        State::EmitAttrObjectEndThenClose { .. } => 4,
        State::EmitParentObjectEnd { .. } => 3,
        State::EmitDocumentEnd => 1,
        State::Done => 0,
    }
}

/// How much the machine has before it. Every move takes from it.
pub open spec fn distance(src: Seq<u8>, m: Machine) -> int {
    TOKEN * lexer::budget(src, m.lex) + CONTEXT * m.stack.len() + rank(
        src,
        m.state,
        m.stack.len() == 0,
    )
}

// --- every move ---

/// The move `mv` from `m` stays within the source and comes closer to the end.
#[verifier::opaque]
pub open spec fn advances(src: Seq<u8>, m: Machine, mv: Move) -> bool {
    &&& fits(src, mv.1)
    &&& 0 <= distance(src, mv.1) < distance(src, m)
    &&& escape_whole(src, m.state) && mv.0 is Some ==> event_fits(src, mv.0->0)
}

/// A quoted scalar has no more invalid escapes than bytes.
proof fn lemma_escape_count(b: Seq<u8>, i: nat)
    requires
        i <= b.len(),
    ensures
        escape::invalid_escapes(b, i).len() <= b.len() - i,
    decreases b.len() - i,
{
    if i < b.len() && b[i as int] != ascii::BACKSLASH {
        lemma_escape_count(b, i + 1);
    } else if i + 1 < b.len() {
        escape::lemma_unicode_bytes_end(b, i + 2);
        lemma_escape_count(b, i + 2);
        lemma_escape_count(b, escape::unicode_end(b, i + 2));
    }
}

/// The rank of a state that fits, but for what a dotted path adds to it.
proof fn lemma_scalar_rank(src: Seq<u8>, span: Span, kind: ScalarKind)
    requires
        lexer::source_fits(src),
        scalar_fits(src, span, kind),
    ensures
        0 <= machine::escape_count(src, span, kind) <= u32::MAX,
{
    if kind == ScalarKind::Quoted {
        lemma_escape_count(src.subrange(span.start + 1, span.end - 1), 0);
    }
}

/// What a machine knows after it has read a token.
proof fn lemma_read(src: Seq<u8>, m: Machine, skip: Skip)
    requires
        fits(src, m),
    ensures
        ({
            let (t, next) = machine::read(src, m, skip);
            &&& fits(src, next)
            &&& lexer::token_fits(src, t)
            &&& t.kind == TokenKind::Eof ==> lexer::budget(src, next.lex) <= lexer::budget(
                src,
                m.lex,
            )
            &&& t.kind != TokenKind::Eof ==> lexer::budget(src, next.lex) < lexer::budget(
                src,
                m.lex,
            )
        }),
{
    lexer::lemma_lex_past(src, m.lex, skip);
    lexer::lemma_past_budget(src, m.lex, skip);
}

/// The ends of the source cut no character.
proof fn lemma_ends_fit(src: Seq<u8>)
    requires
        lexer::source_fits(src),
    ensures
        text::span_fits(src, machine::eof_span(src)),
        text::span_fits(src, machine::root_span()),
{
    text::lemma_boundary(src, 0);
    text::lemma_boundary(src, src.len() as int);
}

/// See [`advances`].
proof fn lemma_expect_entry(src: Seq<u8>, m: Machine)
    requires
        fits(src, m),
        m.state == State::ExpectEntry,
    ensures
        advances(src, m, machine::expect_entry(src, m)),
{
    reveal(machine::expect_entry);
    reveal(advances);
    lemma_read(src, m, Skip::Lines);
    lemma_ends_fit(src);
    let (t, m1) = machine::read(src, m, Skip::Lines);
    if t.kind == TokenKind::QuotedScalar {
        lemma_scalar_rank(src, t.span, ScalarKind::Quoted);
    }
}

/// See [`advances`].
proof fn lemma_emit_unit_key_value(src: Seq<u8>, m: Machine, at_span: Span)
    requires
        fits(src, m),
        m.state == (State::EmitUnitKeyValue { at_span }),
    ensures
        advances(src, m, machine::emit_unit_key_value(src, m, at_span)),
{
    reveal(machine::emit_unit_key_value);
    reveal(advances);
    lemma_read(src, m, Skip::Nothing);
    lemma_read(src, m, Skip::Blanks);
    let (first, m1) = machine::read(src, m, Skip::Nothing);
    lemma_read(src, m1, Skip::RestOfLine);
    let (t, m2) = machine::read(src, m, Skip::Blanks);
    if t.kind == TokenKind::QuotedScalar {
        lemma_scalar_rank(src, t.span, ScalarKind::Quoted);
    }
}

/// See [`advances`].
proof fn lemma_emit_key(src: Seq<u8>, m: Machine, key_span: Span, key_kind: ScalarKind)
    requires
        fits(src, m),
        m.state == (State::EmitKey { key_span, key_kind }),
    ensures
        advances(src, m, machine::emit_key(src, m, key_span, key_kind)),
{
    reveal(machine::emit_key);
    reveal(advances);
    lemma_read(src, m, Skip::Blanks);
    let (t, m1) = machine::read(src, m, Skip::Blanks);
    if t.kind == TokenKind::QuotedScalar {
        lemma_scalar_rank(src, t.span, ScalarKind::Quoted);
    }
}

/// See [`advances`].
proof fn lemma_after_bare_scalar_value(src: Seq<u8>, m: Machine, value_span: Span)
    requires
        fits(src, m),
        m.state == (State::AfterBareScalarValue { value_span }),
    ensures
        advances(src, m, machine::after_bare_scalar_value(src, m, value_span)),
{
    reveal(machine::after_bare_scalar_value);
    reveal(advances);
    lemma_read(src, m, Skip::Nothing);
    let (t, m1) = machine::read(src, m, Skip::Nothing);
    lemma_read(src, m1, Skip::Blanks);
}

/// See [`advances`].
proof fn lemma_emit_too_many_atoms(src: Seq<u8>, m: Machine, error_span: Span)
    requires
        fits(src, m),
        m.state == (State::EmitTooManyAtomsThenEntryEnd { error_span }),
    ensures
        advances(src, m, machine::emit_too_many_atoms(src, m, error_span)),
{
    reveal(machine::emit_too_many_atoms);
    reveal(advances);
    lemma_read(src, m, Skip::RestOfEntry);
}

/// See [`advances`].
proof fn lemma_emit_tag_start(src: Seq<u8>, m: Machine, tag_span: Span)
    requires
        fits(src, m),
        m.state == (State::EmitTagStart { tag_span }),
    ensures
        advances(src, m, machine::emit_tag_start(src, m, tag_span)),
{
    reveal(machine::emit_tag_start);
    reveal(advances);
    lemma_read(src, m, Skip::Nothing);
    let (t, m1) = machine::read(src, m, Skip::Nothing);
    lemma_read(src, m1, Skip::RestOfLine);
    emit::lemma_name_end(src, t.span);
}

/// See [`advances`].
proof fn lemma_after_tag_start(src: Seq<u8>, m: Machine, tag_span: Span)
    requires
        fits(src, m),
        m.state == (State::AfterTagStart { tag_span }),
    ensures
        advances(src, m, machine::after_tag_start(src, m, tag_span)),
{
    reveal(machine::after_tag_start);
    reveal(advances);
    lemma_read(src, m, Skip::Nothing);
}

/// See [`advances`].
proof fn lemma_after_attr_bare_value(src: Seq<u8>, m: Machine, value_span: Span)
    requires
        fits(src, m),
        m.state == (State::AfterAttrBareValue { value_span }),
    ensures
        advances(src, m, machine::after_attr_bare_value(src, m, value_span)),
{
    reveal(machine::after_attr_bare_value);
    reveal(advances);
    lemma_read(src, m, Skip::Nothing);
}

/// See [`advances`].
proof fn lemma_after_attr_entry_end(src: Seq<u8>, m: Machine)
    requires
        fits(src, m),
        m.state == State::AfterAttrEntryEnd,
    ensures
        advances(src, m, machine::after_attr_entry_end(src, m)),
{
    reveal(machine::after_attr_entry_end);
    reveal(advances);
    lemma_read(src, m, Skip::Blanks);
    let (t, m1) = machine::read(src, m, Skip::Blanks);
    lemma_read(src, m1, Skip::Nothing);
}

/// See [`advances`].
proof fn lemma_emit_dotted_path(src: Seq<u8>, m: Machine, full_span: Span, offset: u32, depth: u32)
    requires
        fits(src, m),
        m.state == (State::EmitDottedPath { full_span, offset, depth }),
    ensures
        advances(src, m, machine::emit_dotted_path(src, m, full_span, offset, depth)),
{
    reveal(machine::emit_dotted_path);
    reveal(advances);
    let start = (full_span.start + offset) as nat;
    text::lemma_byte_offset(src, ascii::DOT, start, full_span.end as nat);
    let dot = text::byte_offset(src, ascii::DOT, start, full_span.end as nat);
    if dot < full_span.end {
        text::lemma_boundary(src, dot as int);
        text::lemma_boundary(src, (dot + 1) as int);
    }
}

/// See [`advances`].
proof fn lemma_after_dotted_path_key(src: Seq<u8>, m: Machine, full_span: Span, depth: u32)
    requires
        fits(src, m),
        m.state == (State::AfterDottedPathKey { full_span, depth }),
    ensures
        advances(src, m, machine::after_dotted_path_key(src, m, full_span, depth)),
{
    reveal(machine::after_dotted_path_key);
    reveal(advances);
    lemma_read(src, m, Skip::Blanks);
}

/// See [`advances`].
proof fn lemma_after_dotted_path_bare_value(src: Seq<u8>, m: Machine, value_span: Span, depth: u32)
    requires
        fits(src, m),
        m.state == (State::AfterDottedPathBareValue { value_span, depth }),
    ensures
        advances(src, m, machine::after_dotted_path_bare_value(src, m, value_span, depth)),
{
    reveal(machine::after_dotted_path_bare_value);
    reveal(advances);
    lemma_read(src, m, Skip::Nothing);
}

/// See [`advances`].
proof fn lemma_emit_tag_start_in_attr(src: Seq<u8>, m: Machine, tag_span: Span)
    requires
        fits(src, m),
        m.state == (State::EmitTagStartInAttr { tag_span }),
    ensures
        advances(src, m, machine::emit_tag_start_in_attr(src, m, tag_span)),
{
    reveal(machine::emit_tag_start_in_attr);
    reveal(advances);
    lemma_read(src, m, Skip::Nothing);
    let (t, m1) = machine::read(src, m, Skip::Nothing);
    emit::lemma_name_end(src, t.span);
}

/// See [`advances`].
proof fn lemma_after_tag_start_in_attr(src: Seq<u8>, m: Machine, tag_span: Span)
    requires
        fits(src, m),
        m.state == (State::AfterTagStartInAttr { tag_span }),
    ensures
        advances(src, m, machine::after_tag_start_in_attr(src, m, tag_span)),
{
    reveal(machine::after_tag_start_in_attr);
    reveal(advances);
    lemma_read(src, m, Skip::Nothing);
}

/// See [`advances`].
proof fn lemma_expect_seq_elem(src: Seq<u8>, m: Machine)
    requires
        fits(src, m),
        m.state == State::ExpectSeqElem,
    ensures
        advances(src, m, machine::expect_seq_elem(src, m)),
{
    reveal(machine::expect_seq_elem);
    reveal(advances);
    lemma_read(src, m, Skip::Lines);
    lemma_ends_fit(src);
}

/// See [`advances`].
proof fn lemma_after_quoted_scalar_value(src: Seq<u8>, m: Machine)
    requires
        fits(src, m),
        m.state is AfterQuotedScalarValue,
    ensures
        advances(src, m, machine::after_quoted_scalar_value(src, m)),
{
    reveal(machine::after_quoted_scalar_value);
    reveal(advances);
    lemma_read(src, m, Skip::Blanks);
}

/// See [`advances`].
proof fn lemma_expect_attr_value(src: Seq<u8>, m: Machine)
    requires
        fits(src, m),
        m.state is ExpectAttrValue,
    ensures
        advances(src, m, machine::expect_attr_value(src, m)),
{
    reveal(machine::expect_attr_value);
    reveal(advances);
    lemma_read(src, m, Skip::Nothing);
}

/// See [`advances`].
proof fn lemma_entry_moves(src: Seq<u8>, m: Machine)
    requires
        fits(src, m),
        m.state is EmitEntryStart
            || m.state is EmitScalarValue
            || m.state is EmitUnitValue
            || m.state is EmitUnitThenError
            || m.state is EmitErrorThenEntryEnd
            || m.state is EmitUnitThenEntryEndThenObjectEnd
            || m.state is EmitEntryEndAfterUnitThenObjectEnd
            || m.state is EmitScalarThenTooManyAtoms
            || m.state is EmitInvalidEscapes
            || m.state is EmitInvalidEscapesInKey,
    ensures
        advances(src, m, machine::step(src, m)),
{
    reveal(machine::emit_entry_start);
    reveal(machine::emit_scalar_value);
    reveal(machine::emit_invalid_escapes);
    reveal(machine::emit_invalid_escapes_in_key);
    reveal(advances);
    lemma_ends_fit(src);
    match m.state {
        State::EmitEntryStart { key_span, key_kind } => lemma_scalar_rank(src, key_span, key_kind),
        State::EmitScalarValue { span, kind } => lemma_scalar_rank(src, span, kind),
        State::EmitInvalidEscapes { span, kind, .. } => lemma_scalar_rank(src, span, kind),
        State::EmitInvalidEscapesInKey { key_span, key_kind, .. } => lemma_scalar_rank(
            src,
            key_span,
            key_kind,
        ),
        _ => {},
    }
}

/// See [`advances`].
proof fn lemma_close_moves(src: Seq<u8>, m: Machine)
    requires
        fits(src, m),
        m.state is EmitEntryEnd
            || m.state is EmitEntryEndThenObjectEnd
            || m.state is EmitObjectEndAfterEntry
            || m.state is EmitEntryEndThenSeqEnd
            || m.state is EmitSeqEndAfterEntry
            || m.state is EmitObjectStartValue
            || m.state is EmitSequenceStartValue
            || m.state is EmitTagEnd
            || m.state is EmitTagEndWithUnit
            || m.state is EmitTagEndThenSeqEnd
            || m.state is EmitTagEndThenObjEnd
            || m.state is Start
            || m.state is EmitRootObjectStart
            || m.state is EmitDocumentEnd,
    ensures
        advances(src, m, machine::step(src, m)),
{
    reveal(advances);
    lemma_ends_fit(src);
}

/// See [`advances`].
proof fn lemma_attr_moves(src: Seq<u8>, m: Machine)
    requires
        fits(src, m),
        m.state is EmitAttrEntryStart
            || m.state is EmitAttrKey
            || m.state is EmitAttrScalarValue
            || m.state is EmitAttrEntryEnd
            || m.state is EmitTagEndInAttr
            || m.state is EmitUnitThenTagEndInAttr
            || m.state is EmitAttrObjectEnd
            || m.state is EmitAttrObjectEndThenNewEntry
            || m.state is EmitEntryEndThenNewEntry
            || m.state is EmitAttrObjectEndThenClose
            || m.state is EmitParentObjectEnd,
    ensures
        advances(src, m, machine::step(src, m)),
{
    reveal(advances);
    lemma_ends_fit(src);
    match m.state {
        State::EmitAttrObjectEndThenNewEntry { next_key_span, next_key_kind } => lemma_scalar_rank(
            src,
            next_key_span,
            next_key_kind,
        ),
        State::EmitEntryEndThenNewEntry { next_key_span, next_key_kind } => lemma_scalar_rank(
            src,
            next_key_span,
            next_key_kind,
        ),
        _ => {},
    }
}

/// See [`advances`].
proof fn lemma_path_moves(src: Seq<u8>, m: Machine)
    requires
        fits(src, m),
        m.state is EmitDottedPathKey
            || m.state is EmitDottedPathKeyThenObject
            || m.state is EmitDottedPathObject
            || m.state is EmitDottedPathScalarValue
            || m.state is CloseDottedPath
            || m.state is EmitEntryEndThenCloseDotted,
    ensures
        advances(src, m, machine::step(src, m)),
{
    reveal(machine::close_dotted_path);
    reveal(advances);
    lemma_ends_fit(src);
}

/// Every move but the last stays within the source and comes closer to the end.
pub proof fn lemma_step(src: Seq<u8>, m: Machine)
    requires
        fits(src, m),
        m.state != State::Done,
    ensures
        advances(src, m, machine::step(src, m)),
{
    match m.state {
        State::ExpectEntry => lemma_expect_entry(src, m),
        State::EmitUnitKeyValue { at_span } => lemma_emit_unit_key_value(src, m, at_span),
        State::EmitKey { key_span, key_kind } => lemma_emit_key(src, m, key_span, key_kind),
        State::AfterBareScalarValue { value_span } => lemma_after_bare_scalar_value(
            src,
            m,
            value_span,
        ),
        State::EmitTooManyAtomsThenEntryEnd { error_span } => lemma_emit_too_many_atoms(
            src,
            m,
            error_span,
        ),
        State::AfterQuotedScalarValue { .. } => lemma_after_quoted_scalar_value(src, m),
        State::EmitTagStart { tag_span } => lemma_emit_tag_start(src, m, tag_span),
        State::AfterTagStart { tag_span } => lemma_after_tag_start(src, m, tag_span),
        State::ExpectAttrValue { .. } => lemma_expect_attr_value(src, m),
        State::AfterAttrBareValue { value_span } => lemma_after_attr_bare_value(src, m, value_span),
        State::AfterAttrEntryEnd => lemma_after_attr_entry_end(src, m),
        State::EmitDottedPath { full_span, offset, depth } => lemma_emit_dotted_path(
            src,
            m,
            full_span,
            offset,
            depth,
        ),
        State::AfterDottedPathKey { full_span, depth } => lemma_after_dotted_path_key(
            src,
            m,
            full_span,
            depth,
        ),
        State::AfterDottedPathBareValue { value_span, depth } => lemma_after_dotted_path_bare_value(
            src,
            m,
            value_span,
            depth,
        ),
        State::EmitTagStartInAttr { tag_span } => lemma_emit_tag_start_in_attr(src, m, tag_span),
        State::AfterTagStartInAttr { tag_span } => lemma_after_tag_start_in_attr(src, m, tag_span),
        State::ExpectSeqElem => lemma_expect_seq_elem(src, m),
        State::EmitEntryStart { .. }
        | State::EmitScalarValue { .. }
        | State::EmitUnitValue { .. }
        | State::EmitUnitThenError { .. }
        | State::EmitErrorThenEntryEnd { .. }
        | State::EmitUnitThenEntryEndThenObjectEnd { .. }
        | State::EmitEntryEndAfterUnitThenObjectEnd { .. }
        | State::EmitScalarThenTooManyAtoms { .. }
        | State::EmitInvalidEscapes { .. }
        | State::EmitInvalidEscapesInKey { .. } => lemma_entry_moves(src, m),
        State::EmitEntryEnd
        | State::EmitEntryEndThenObjectEnd { .. }
        | State::EmitObjectEndAfterEntry { .. }
        | State::EmitEntryEndThenSeqEnd { .. }
        | State::EmitSeqEndAfterEntry { .. }
        | State::EmitObjectStartValue { .. }
        | State::EmitSequenceStartValue { .. }
        | State::EmitTagEnd
        | State::EmitTagEndWithUnit { .. }
        | State::EmitTagEndThenSeqEnd { .. }
        | State::EmitTagEndThenObjEnd { .. }
        | State::Start
        | State::EmitRootObjectStart
        | State::EmitDocumentEnd => lemma_close_moves(src, m),
        State::EmitAttrEntryStart { .. }
        | State::EmitAttrKey { .. }
        | State::EmitAttrScalarValue { .. }
        | State::EmitAttrEntryEnd
        | State::EmitTagEndInAttr
        | State::EmitUnitThenTagEndInAttr { .. }
        | State::EmitAttrObjectEnd
        | State::EmitAttrObjectEndThenNewEntry { .. }
        | State::EmitEntryEndThenNewEntry { .. }
        | State::EmitAttrObjectEndThenClose { .. }
        | State::EmitParentObjectEnd { .. } => lemma_attr_moves(src, m),
        State::EmitDottedPathKey { .. }
        | State::EmitDottedPathKeyThenObject { .. }
        | State::EmitDottedPathObject { .. }
        | State::EmitDottedPathScalarValue { .. }
        | State::CloseDottedPath { .. }
        | State::EmitEntryEndThenCloseDotted { .. } => lemma_path_moves(src, m),
        State::Done => {},
    }
}

} // verus!
