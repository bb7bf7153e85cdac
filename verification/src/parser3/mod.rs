//! A pull parser that emits one event per call.
//!
//! It keeps no queue of events and does not look ahead: what a token that was
//! read asks for is kept in the state of the parser.
pub mod machine;
pub mod nesting;
pub mod progress;
pub mod run;
pub mod texts;

use crate::ascii;
use crate::emit;
use crate::escape;
use crate::escape::ShortUnicode;
use crate::event;
use crate::event::{Event, ParseErrorKind, ScalarKind, Separator};
use crate::lexer;
use crate::lexer::{Lexer, Skip};
use crate::parser3::machine::{Context, Machine, Move, State};
use crate::span::Span;
use crate::text;
use crate::token::{Token, TokenKind};
use vstd::prelude::*;
use vstd::string::*;
use vstd::utf8::*;

verus! {

/// A streaming parser for Styx documents.
pub struct Parser3<'src> {
    input: &'src str,
    lexer: Lexer<'src>,
    state: State,
    context_stack: Vec<Context>,
    /// The invalid escapes of the scalar that `state` speaks of.
    escapes: Vec<(usize, usize)>,
}

impl<'src> Parser3<'src> {
    /// The bytes of the source.
    pub closed spec fn src(&self) -> Seq<u8> {
        self.input.spec_bytes()
    }

    /// What the parser knows besides its source.
    pub closed spec fn machine(&self) -> Machine {
        Machine { lex: self.lexer.state(), state: self.state, stack: self.context_stack@ }
    }

    /// The lexer reads the source, and the escapes are those that the state
    /// speaks of.
    pub closed spec fn in_step(&self) -> bool {
        &&& self.lexer.wf()
        &&& self.lexer.src() == self.src()
        &&& match self.state {
            State::EmitInvalidEscapes { span, .. } => escape::ranges(self.escapes@)
                == machine::escapes(self.src(), span),
            State::EmitInvalidEscapesInKey { key_span, .. } => escape::ranges(self.escapes@)
                == machine::escapes(self.src(), key_span),
            _ => true,
        }
    }

    /// The parser is in a state that it can be in.
    pub open spec fn wf(&self) -> bool {
        self.in_step() && progress::fits(self.src(), self.machine())
    }

    /// `after` is what the parser is after the move `mv`, which emitted `e`.
    spec fn made(self, after: Self, e: Option<Event<'src>>, mv: Move) -> bool {
        &&& after.in_step()
        &&& after.src() == self.src()
        &&& event::event_view(e) == mv.0
        &&& after.machine() =~= mv.1
    }

    /// A parser at the start of `source`.
    pub fn new(source: &'src str) -> (parser: Self)
        requires
            source.spec_bytes().len() <= u32::MAX,
        ensures
            parser.wf(),
            parser.src() == source.spec_bytes(),
            parser.machine() == run::start(),
    {
        let parser = Parser3 {
            input: source,
            lexer: Lexer::new(source),
            state: State::Start,
            context_stack: Vec::new(),
            escapes: Vec::new(),
        };
        assert(parser.machine() =~= run::start());
        parser
    }

    /// The empty span at the end of the source.
    fn eof_span(&self) -> (span: Span)
        requires
            self.src().len() <= u32::MAX,
        ensures
            span == machine::eof_span(self.src()),
    {
        let pos = self.input.len() as u32;
        Span::new(pos, pos)
    }

    /// The innermost context.
    fn context(&self) -> (c: Option<Context>)
        ensures
            c == machine::top(self.machine()),
    {
        let n = self.context_stack.len();
        if n > 0 {
            Some(self.context_stack[n - 1])
        } else {
            None
        }
    }

    /// Reads up to the next token that is not passed over.
    fn read(&mut self, skip: Skip) -> (t: Token)
        requires
            old(self).lexer.wf(),
            old(self).lexer.src() == old(self).src(),
        ensures
            final(self).lexer.wf(),
            final(self).lexer.src() == final(self).src(),
            final(self).input == old(self).input,
            final(self).state == old(self).state,
            final(self).context_stack == old(self).context_stack,
            (t, final(self).machine()) == machine::read(
                old(self).src(),
                old(self).machine(),
                skip,
            ),
            lexer::token_fits(old(self).src(), t),
            lexer::lex_fits(final(self).src(), final(self).machine().lex),
    {
        self.lexer.next_past(skip)
    }

    /// Whether the text at `span` is the name of a tag.
    fn is_valid_tag_name(&self, span: Span) -> (r: bool)
        requires
            text::span_fits(self.src(), span),
        ensures
            r == machine::is_tag_name(self.src(), span),
    {
        if span.start >= span.end {
            return false;
        }
        let bytes = self.input.as_bytes();
        let first = bytes[span.start as usize];
        if (ascii::DIGIT_0 <= first && first <= ascii::DIGIT_9) || first == ascii::HYPHEN {
            return false;
        }
        text::find_byte(bytes, ascii::DOT, span.start as usize, span.end as usize)
            == span.end as usize
    }

    /// Emit `event` and go on in `state`.
    fn emit(&mut self, event: Event<'src>, state: State) -> (e: Option<Event<'src>>)
        requires
            !(state is EmitInvalidEscapes) && !(state is EmitInvalidEscapesInKey),
            old(self).lexer.wf(),
            old(self).lexer.src() == old(self).src(),
        ensures
            old(self).made(
                *final(self),
                e,
                machine::emit_to(old(self).machine(), event@, state),
            ),
    {
        self.state = state;
        Some(event)
    }

    /// Emit nothing and go on in `state`.
    fn go(&mut self, state: State) -> (e: Option<Event<'src>>)
        requires
            !(state is EmitInvalidEscapes) && !(state is EmitInvalidEscapesInKey),
            old(self).lexer.wf(),
            old(self).lexer.src() == old(self).src(),
        ensures
            old(self).made(*final(self), e, machine::go_to(old(self).machine(), state)),
    {
        self.state = state;
        None
    }

    /// Enter a context.
    fn push(&mut self, context: Context)
        ensures
            final(self).input == old(self).input,
            final(self).lexer == old(self).lexer,
            final(self).state == old(self).state,
            final(self).escapes == old(self).escapes,
            final(self).machine() =~= machine::push(old(self).machine(), context),
    {
        self.context_stack.push(context);
    }

    /// Leave the innermost context, if there is one.
    fn pop(&mut self)
        ensures
            final(self).input == old(self).input,
            final(self).lexer == old(self).lexer,
            final(self).state == old(self).state,
            final(self).escapes == old(self).escapes,
            final(self).machine() =~= machine::pop(old(self).machine()),
    {
        let _ = self.context_stack.pop();
    }

    /// Read an entry of an object, or what closes the object.
    fn expect_entry(&mut self) -> (e: Option<Event<'src>>)
        requires
            old(self).wf(),
        ensures
            old(self).made(
                *final(self),
                e,
                machine::expect_entry(old(self).src(), old(self).machine()),
            ),
    {
        proof {
            reveal(machine::expect_entry);
        }
        let t = self.read(Skip::Lines);
        match t.kind {
            TokenKind::LineComment => {
                let event = emit::comment_event(self.input, t.span);
                self.emit(event, State::ExpectEntry)
            },
            TokenKind::Eof => {
                self.pop();
                let span = self.eof_span();
                self.emit(Event::ObjectEnd { span }, State::EmitDocumentEnd)
            },
            TokenKind::RBrace => match self.context() {
                Some(Context::Object { implicit: false }) => {
                    self.pop();
                    self.emit(Event::ObjectEnd { span: t.span }, State::EmitEntryEnd)
                },
                Some(Context::Object { implicit: true }) => self.emit(
                    Event::Error { span: t.span, kind: ParseErrorKind::UnexpectedToken },
                    State::ExpectEntry,
                ),
                _ => {
                    self.pop();
                    self.emit(
                        Event::Error { span: t.span, kind: ParseErrorKind::UnexpectedToken },
                        State::ExpectEntry,
                    )
                },
            },
            TokenKind::BareScalar => {
                let dot = text::find_byte(
                    self.input.as_bytes(),
                    ascii::DOT,
                    t.span.start as usize,
                    t.span.end as usize,
                );
                if dot < t.span.end as usize {
                    self.go(State::EmitDottedPath { full_span: t.span, offset: 0, depth: 0 })
                } else {
                    self.go(
                        State::EmitEntryStart { key_span: t.span, key_kind: ScalarKind::Bare },
                    )
                }
            },
            TokenKind::QuotedScalar => self.go(
                State::EmitEntryStart { key_span: t.span, key_kind: ScalarKind::Quoted },
            ),
            TokenKind::LBrace => match self.context() {
                Some(Context::Object { implicit: true }) => {
                    self.pop();
                    self.push(Context::Object { implicit: false });
                    self.emit(
                        Event::ObjectStart { span: t.span, separator: Separator::Comma },
                        State::ExpectEntry,
                    )
                },
                _ => self.emit(
                    Event::Error { span: t.span, kind: ParseErrorKind::UnexpectedToken },
                    State::Done,
                ),
            },
            TokenKind::At => self.emit(
                Event::EntryStart,
                State::EmitUnitKeyValue { at_span: t.span },
            ),
            TokenKind::DocComment => {
                let event = emit::doc_comment_event(self.input, t.span);
                self.emit(event, State::Done)
            },
            _ => self.emit(
                Event::Error { span: t.span, kind: ParseErrorKind::UnexpectedToken },
                State::Done,
            ),
        }
    }

    /// The escapes of the quoted scalar at `span` that mean nothing.
    fn find_invalid_escapes(&self, span: Span) -> (r: Vec<(usize, usize)>)
        requires
            lexer::source_fits(self.src()),
            lexer::quoted_form(self.src(), span),
        ensures
            escape::ranges(r@) == machine::escapes(self.src(), span),
    {
        proof {
            escape::lemma_quoted_inside(self.src(), span);
        }
        let inside = text::slice(self.input, span.start as usize + 1, span.end as usize - 1);
        escape::find_invalid_escapes(inside.as_bytes())
    }

    /// The bare scalar at `span`.
    fn bare(&self, span: Span) -> (e: Event<'src>)
        requires
            text::span_fits(self.src(), span),
        ensures
            e@ == machine::bare(self.src(), span),
    {
        emit::scalar_event(self.input, span, ScalarKind::Bare, ShortUnicode::Dropped)
    }

    /// The scalar at `span`.
    fn scalar(&self, span: Span, kind: ScalarKind) -> (e: Event<'src>)
        requires
            emit::scalar_fits(self.src(), span, kind),
        ensures
            e@ == machine::scalar(self.src(), span, kind),
    {
        emit::scalar_event(self.input, span, kind, ShortUnicode::Dropped)
    }

    /// The key at `span`.
    fn key(&self, span: Span, kind: ScalarKind) -> (e: Event<'src>)
        requires
            emit::scalar_fits(self.src(), span, kind),
        ensures
            e@ == machine::key(self.src(), span, kind),
    {
        emit::key_event(self.input, span, kind, ShortUnicode::Dropped)
    }

    /// Emit the start of an entry, unless its key has invalid escapes.
    fn emit_entry_start(&mut self, key_span: Span, key_kind: ScalarKind) -> (e: Option<Event<'src>>)
        requires
            old(self).wf(),
            old(self).machine().state == (State::EmitEntryStart { key_span, key_kind }),
        ensures
            old(self).made(
                *final(self),
                e,
                machine::emit_entry_start(old(self).src(), old(self).machine(), key_span, key_kind),
            ),
    {
        proof {
            reveal(machine::emit_entry_start);
        }
        if key_kind == ScalarKind::Quoted {
            let escapes = self.find_invalid_escapes(key_span);
            if escapes.len() > 0 {
                self.escapes = escapes;
                self.state = State::EmitInvalidEscapesInKey { key_span, key_kind, error_index: 0 };
                return None;
            }
        }
        self.emit(Event::EntryStart, State::EmitKey { key_span, key_kind })
    }

    /// Read what follows the `@` that starts an entry.
    fn emit_unit_key_value(&mut self, at_span: Span) -> (e: Option<Event<'src>>)
        requires
            old(self).wf(),
            old(self).machine().state == (State::EmitUnitKeyValue { at_span }),
        ensures
            old(self).made(
                *final(self),
                e,
                machine::emit_unit_key_value(old(self).src(), old(self).machine(), at_span),
            ),
    {
        proof {
            reveal(machine::emit_unit_key_value);
        }
        let first = self.read(Skip::Nothing);
        if first.kind == TokenKind::BareScalar && first.span.start == at_span.end {
            if !self.is_valid_tag_name(first.span) {
                let _ = self.read(Skip::RestOfLine);
                return self.emit(
                    Event::Error { span: first.span, kind: ParseErrorKind::InvalidTagName },
                    State::ExpectEntry,
                );
            }
            let span = Span::new(at_span.start, first.span.end);
            let event = emit::tag_start_event(self.input, span, first.span);
            return self.emit(event, State::AfterTagStart { tag_span: first.span });
        }
        let t = if first.kind == TokenKind::Whitespace {
            self.read(Skip::Blanks)
        } else {
            first
        };
        let state = match t.kind {
            TokenKind::BareScalar => State::AfterBareScalarValue { value_span: t.span },
            TokenKind::QuotedScalar => State::EmitScalarValue {
                span: t.span,
                kind: ScalarKind::Quoted,
            },
            TokenKind::Newline | TokenKind::Eof => State::EmitUnitValue { span: at_span },
            TokenKind::LBrace => State::EmitObjectStartValue { span: t.span },
            TokenKind::LParen => State::EmitSequenceStartValue { span: t.span },
            TokenKind::At => State::EmitTagStart { tag_span: t.span },
            _ => {
                return self.emit(
                    Event::Error { span: t.span, kind: ParseErrorKind::UnexpectedToken },
                    State::EmitEntryEnd,
                );
            },
        };
        self.emit(emit::unit_key_event(at_span), state)
    }

    /// Emit a key and read on to its value.
    fn emit_key(&mut self, key_span: Span, key_kind: ScalarKind) -> (e: Option<Event<'src>>)
        requires
            old(self).wf(),
            old(self).machine().state == (State::EmitKey { key_span, key_kind }),
        ensures
            old(self).made(
                *final(self),
                e,
                machine::emit_key(old(self).src(), old(self).machine(), key_span, key_kind),
            ),
    {
        proof {
            reveal(machine::emit_key);
        }
        let first = self.read(Skip::Nothing);
        let spaced = first.kind == TokenKind::Whitespace;
        let t = if spaced {
            self.read(Skip::Blanks)
        } else {
            first
        };
        let state = match t.kind {
            TokenKind::BareScalar => State::AfterBareScalarValue { value_span: t.span },
            TokenKind::QuotedScalar => State::EmitScalarValue {
                span: t.span,
                kind: ScalarKind::Quoted,
            },
            TokenKind::Newline | TokenKind::Eof => State::EmitUnitValue { span: key_span },
            TokenKind::RBrace => State::EmitUnitThenEntryEndThenObjectEnd {
                unit_span: key_span,
                rbrace_span: t.span,
            },
            TokenKind::LBrace => State::EmitObjectStartValue { span: t.span },
            TokenKind::LParen => State::EmitSequenceStartValue { span: t.span },
            TokenKind::At => State::EmitTagStart { tag_span: t.span },
            TokenKind::Gt => State::EmitUnitThenError { unit_span: key_span, error_span: t.span },
            _ => {
                return self.emit(
                    Event::Error { span: t.span, kind: ParseErrorKind::UnexpectedToken },
                    State::EmitEntryEnd,
                );
            },
        };
        let block = t.kind == TokenKind::LBrace || t.kind == TokenKind::LParen;
        if block && !spaced && key_kind == ScalarKind::Bare {
            return self.emit(
                Event::Error {
                    span: t.span,
                    kind: ParseErrorKind::MissingWhitespaceBeforeBlock,
                },
                state,
            );
        }
        let event = self.key(key_span, key_kind);
        self.emit(event, state)
    }

    /// Emit a scalar as the value of an entry, unless it has invalid escapes.
    fn emit_scalar_value(&mut self, span: Span, kind: ScalarKind) -> (e: Option<Event<'src>>)
        requires
            old(self).wf(),
            old(self).machine().state == (State::EmitScalarValue { span, kind }),
        ensures
            old(self).made(
                *final(self),
                e,
                machine::emit_scalar_value(old(self).src(), old(self).machine(), span, kind),
            ),
    {
        proof {
            reveal(machine::emit_scalar_value);
        }
        if kind == ScalarKind::Quoted {
            let escapes = self.find_invalid_escapes(span);
            if escapes.len() > 0 {
                self.escapes = escapes;
                self.state = State::EmitInvalidEscapes { span, kind, error_index: 0 };
                return None;
            }
        }
        let event = self.scalar(span, kind);
        self.emit(event, State::AfterQuotedScalarValue { value_span: span })
    }

    /// Read what follows a bare scalar in the place of a value.
    fn after_bare_scalar_value(&mut self, value_span: Span) -> (e: Option<Event<'src>>)
        requires
            old(self).wf(),
            old(self).machine().state == (State::AfterBareScalarValue { value_span }),
        ensures
            old(self).made(
                *final(self),
                e,
                machine::after_bare_scalar_value(old(self).src(), old(self).machine(), value_span),
            ),
    {
        proof {
            reveal(machine::after_bare_scalar_value);
        }
        let t = self.read(Skip::Nothing);
        match t.kind {
            TokenKind::Gt if t.span.start == value_span.end => {
                self.push(Context::AttrObject);
                self.emit(
                    Event::ObjectStart { span: value_span, separator: Separator::Comma },
                    State::EmitAttrEntryStart { attr_key_span: value_span },
                )
            },
            TokenKind::RBrace => {
                let event = self.bare(value_span);
                self.emit(event, State::EmitEntryEndThenObjectEnd { rbrace_span: t.span })
            },
            TokenKind::RParen => {
                let event = self.bare(value_span);
                self.emit(event, State::EmitEntryEndThenSeqEnd { rparen_span: t.span })
            },
            TokenKind::Newline | TokenKind::Eof | TokenKind::Comma => {
                let event = self.bare(value_span);
                self.emit(event, State::EmitEntryEnd)
            },
            TokenKind::Whitespace => {
                let next = self.read(Skip::Blanks);
                match next.kind {
                    TokenKind::BareScalar | TokenKind::QuotedScalar => self.go(
                        State::EmitScalarThenTooManyAtoms { value_span, error_span: next.span },
                    ),
                    _ => {
                        let event = self.bare(value_span);
                        self.emit(event, State::EmitEntryEnd)
                    },
                }
            },
            _ => self.emit(
                Event::Error { span: t.span, kind: ParseErrorKind::TooManyAtoms },
                State::EmitEntryEnd,
            ),
        }
    }

    /// Emit that there are too many atoms and pass over the rest of the entry.
    fn emit_too_many_atoms(&mut self, error_span: Span) -> (e: Option<Event<'src>>)
        requires
            old(self).wf(),
            old(self).machine().state == (State::EmitTooManyAtomsThenEntryEnd { error_span }),
        ensures
            old(self).made(
                *final(self),
                e,
                machine::emit_too_many_atoms(old(self).src(), old(self).machine(), error_span),
            ),
    {
        proof {
            reveal(machine::emit_too_many_atoms);
        }
        let t = self.read(Skip::RestOfEntry);
        if t.kind == TokenKind::RBrace {
            if let Some(Context::Object { implicit: false }) = self.context() {
                self.pop();
            }
        }
        self.emit(
            Event::Error { span: error_span, kind: ParseErrorKind::TooManyAtoms },
            State::EmitEntryEnd,
        )
    }

    /// Where the invalid escape number `index` of the quoted scalar at `span` stands.
    fn escape_span(&self, span: Span, index: usize) -> (r: Span)
        requires
            lexer::source_fits(self.src()),
            lexer::quoted_form(self.src(), span),
            escape::ranges(self.escapes@) == machine::escapes(self.src(), span),
            index < self.escapes@.len(),
        ensures
            r == machine::escape_span(self.src(), span, index as int),
    {
        let (at, len) = self.escapes[index];
        proof {
            escape::lemma_invalid_escapes(self.src().subrange(span.start + 1, span.end - 1), 0);
            assert(machine::escapes(self.src(), span)[index as int] == (at as int, len as int));
        }
        let start = span.start + 1 + at as u32;
        Span::new(start, start + len as u32)
    }

    /// Whether the next move cuts no escape.
    fn escape_is_whole(&self) -> (r: bool)
        requires
            self.wf(),
        ensures
            r == progress::escape_whole(self.src(), self.machine().state),
    {
        match self.state {
            State::EmitInvalidEscapes { span, error_index, .. } => {
                error_index >= self.escapes.len() || text::fits(
                    self.input,
                    self.escape_span(span, error_index),
                )
            },
            State::EmitInvalidEscapesInKey { key_span, error_index, .. } => {
                error_index >= self.escapes.len() || text::fits(
                    self.input,
                    self.escape_span(key_span, error_index),
                )
            },
            _ => true,
        }
    }

    /// The error for the invalid escape number `index` of the quoted scalar at `span`.
    fn escape_error(&self, span: Span, index: usize) -> (e: Event<'src>)
        requires
            lexer::source_fits(self.src()),
            lexer::quoted_form(self.src(), span),
            escape::ranges(self.escapes@) == machine::escapes(self.src(), span),
            index < self.escapes@.len(),
            text::span_fits(self.src(), machine::escape_span(self.src(), span, index as int)),
        ensures
            e@ == machine::escape_error(self.src(), span, index as int),
    {
        let error_span = self.escape_span(span, index);
        let text = text::slice_at(self.input, error_span).to_owned();
        Event::Error { span: error_span, kind: ParseErrorKind::InvalidEscape(text) }
    }

    /// Emit the next invalid escape of a key, or the start of the entry.
    fn emit_invalid_escapes_in_key(
        &mut self,
        key_span: Span,
        key_kind: ScalarKind,
        error_index: usize,
    ) -> (e: Option<Event<'src>>)
        requires
            old(self).wf(),
            progress::escape_whole(old(self).src(), old(self).machine().state),
            old(self).machine().state == (State::EmitInvalidEscapesInKey {
                key_span,
                key_kind,
                error_index,
            }),
        ensures
            old(self).made(
                *final(self),
                e,
                machine::emit_invalid_escapes_in_key(
                    old(self).src(),
                    old(self).machine(),
                    key_span,
                    key_kind,
                    error_index,
                ),
            ),
    {
        proof {
            reveal(machine::emit_invalid_escapes_in_key);
        }
        if error_index < self.escapes.len() {
            let event = self.escape_error(key_span, error_index);
            self.state = State::EmitInvalidEscapesInKey {
                key_span,
                key_kind,
                error_index: error_index + 1,
            };
            return Some(event);
        }
        self.emit(Event::EntryStart, State::EmitKey { key_span, key_kind })
    }

    /// Emit the next invalid escape of a value, or the value.
    fn emit_invalid_escapes(
        &mut self,
        span: Span,
        kind: ScalarKind,
        error_index: usize,
    ) -> (e: Option<Event<'src>>)
        requires
            old(self).wf(),
            progress::escape_whole(old(self).src(), old(self).machine().state),
            old(self).machine().state == (State::EmitInvalidEscapes { span, kind, error_index }),
        ensures
            old(self).made(
                *final(self),
                e,
                machine::emit_invalid_escapes(
                    old(self).src(),
                    old(self).machine(),
                    span,
                    kind,
                    error_index,
                ),
            ),
    {
        proof {
            reveal(machine::emit_invalid_escapes);
        }
        if error_index < self.escapes.len() {
            let event = self.escape_error(span, error_index);
            self.state = State::EmitInvalidEscapes { span, kind, error_index: error_index + 1 };
            return Some(event);
        }
        let event = self.scalar(span, kind);
        self.emit(event, State::AfterQuotedScalarValue { value_span: span })
    }

    /// Read what follows a quoted scalar that is the value of an entry.
    fn after_quoted_scalar_value(&mut self) -> (e: Option<Event<'src>>)
        requires
            old(self).wf(),
        ensures
            old(self).made(
                *final(self),
                e,
                machine::after_quoted_scalar_value(old(self).src(), old(self).machine()),
            ),
    {
        proof {
            reveal(machine::after_quoted_scalar_value);
        }
        let first = self.read(Skip::Nothing);
        let spaced = first.kind == TokenKind::Whitespace;
        let t = if spaced {
            self.read(Skip::Blanks)
        } else {
            first
        };
        match t.kind {
            TokenKind::Newline | TokenKind::Eof | TokenKind::Comma => self.go(State::EmitEntryEnd),
            TokenKind::LineComment if spaced => self.go(State::EmitEntryEnd),
            TokenKind::RBrace => {
                self.pop();
                self.emit(Event::ObjectEnd { span: t.span }, State::EmitEntryEnd)
            },
            TokenKind::RParen => {
                self.pop();
                self.emit(Event::SequenceEnd { span: t.span }, State::EmitEntryEnd)
            },
            TokenKind::BareScalar if spaced => self.go(
                State::EmitTooManyAtomsThenEntryEnd { error_span: t.span },
            ),
            TokenKind::QuotedScalar if spaced => self.go(
                State::EmitTooManyAtomsThenEntryEnd { error_span: t.span },
            ),
            _ => self.emit(
                Event::Error { span: t.span, kind: ParseErrorKind::UnexpectedToken },
                State::EmitEntryEnd,
            ),
        }
    }

    /// The state in which the parser goes on after an entry.
    fn after_entry(&self) -> (state: State)
        ensures
            state == machine::after_entry(self.machine()),
    {
        match self.context() {
            Some(Context::Object { .. }) => State::ExpectEntry,
            Some(Context::Sequence) => State::ExpectSeqElem,
            Some(Context::AttrObject) => State::AfterAttrEntryEnd,
            None => State::EmitDocumentEnd,
        }
    }

    /// The state in which the parser goes on after a tag.
    fn after_tag(&self) -> (state: State)
        ensures
            state == machine::after_tag(self.machine()),
    {
        match self.context() {
            Some(Context::Object { .. }) => State::EmitEntryEnd,
            Some(Context::Sequence) => State::ExpectSeqElem,
            Some(Context::AttrObject) => State::EmitEntryEnd,
            None => State::EmitDocumentEnd,
        }
    }

    /// Read the name of a tag and emit the start of the tag.
    fn emit_tag_start(&mut self, tag_span: Span) -> (e: Option<Event<'src>>)
        requires
            old(self).wf(),
            old(self).machine().state == (State::EmitTagStart { tag_span }),
        ensures
            old(self).made(
                *final(self),
                e,
                machine::emit_tag_start(old(self).src(), old(self).machine(), tag_span),
            ),
    {
        proof {
            reveal(machine::emit_tag_start);
        }
        let t = self.read(Skip::Nothing);
        if t.kind == TokenKind::BareScalar && t.span.start == tag_span.end {
            let name_end = emit::find_name_end(self.input, t.span);
            let name = Span::new(t.span.start, name_end);
            if !self.is_valid_tag_name(name) {
                let _ = self.read(Skip::RestOfLine);
                return self.emit(
                    Event::Error { span: t.span, kind: ParseErrorKind::InvalidTagName },
                    State::EmitEntryEnd,
                );
            }
            let event = emit::tag_start_event(
                self.input,
                Span::new(tag_span.start, name_end),
                name,
            );
            if name_end < t.span.end {
                let unit_span = Span::new(name_end, name_end + 1);
                return self.emit(event, State::EmitTagEndWithUnit { unit_span });
            }
            return self.emit(event, State::AfterTagStart { tag_span: name });
        }
        self.emit(Event::Unit { span: tag_span }, State::EmitEntryEnd)
    }

    /// Read the payload of a tag, if it has one.
    fn after_tag_start(&mut self, tag_span: Span) -> (e: Option<Event<'src>>)
        requires
            old(self).wf(),
            old(self).machine().state == (State::AfterTagStart { tag_span }),
        ensures
            old(self).made(
                *final(self),
                e,
                machine::after_tag_start(old(self).src(), old(self).machine(), tag_span),
            ),
    {
        proof {
            reveal(machine::after_tag_start);
        }
        let t = self.read(Skip::Nothing);
        match t.kind {
            TokenKind::LBrace if t.span.start == tag_span.end => {
                self.push(Context::Object { implicit: false });
                self.emit(
                    Event::ObjectStart { span: t.span, separator: Separator::Comma },
                    State::ExpectEntry,
                )
            },
            TokenKind::LParen if t.span.start == tag_span.end => {
                self.push(Context::Sequence);
                self.emit(Event::SequenceStart { span: t.span }, State::ExpectSeqElem)
            },
            TokenKind::BareScalar if t.span.start == tag_span.end => {
                let event = self.bare(t.span);
                self.emit(event, State::EmitTagEnd)
            },
            TokenKind::QuotedScalar if t.span.start == tag_span.end => {
                let event = self.scalar(t.span, ScalarKind::Quoted);
                self.emit(event, State::EmitTagEnd)
            },
            TokenKind::At if t.span.start == tag_span.end => self.emit(
                Event::Unit { span: t.span },
                State::EmitTagEnd,
            ),
            TokenKind::RParen => self.emit(
                Event::TagEnd,
                State::EmitTagEndThenSeqEnd { rparen_span: t.span },
            ),
            TokenKind::RBrace => self.emit(
                Event::TagEnd,
                State::EmitTagEndThenObjEnd { rbrace_span: t.span },
            ),
            _ => {
                let state = self.after_tag();
                self.emit(Event::TagEnd, state)
            },
        }
    }

    /// Read the value of an attribute.
    fn expect_attr_value(&mut self) -> (e: Option<Event<'src>>)
        requires
            old(self).wf(),
        ensures
            old(self).made(
                *final(self),
                e,
                machine::expect_attr_value(old(self).src(), old(self).machine()),
            ),
    {
        proof {
            reveal(machine::expect_attr_value);
        }
        let t = self.read(Skip::Nothing);
        match t.kind {
            TokenKind::BareScalar => self.go(State::AfterAttrBareValue { value_span: t.span }),
            TokenKind::QuotedScalar => self.go(
                State::EmitAttrScalarValue { span: t.span, kind: ScalarKind::Quoted },
            ),
            TokenKind::LParen => {
                self.push(Context::Sequence);
                self.emit(Event::SequenceStart { span: t.span }, State::ExpectSeqElem)
            },
            TokenKind::LBrace => {
                self.push(Context::Object { implicit: false });
                self.emit(
                    Event::ObjectStart { span: t.span, separator: Separator::Comma },
                    State::ExpectEntry,
                )
            },
            TokenKind::At => self.go(State::EmitTagStartInAttr { tag_span: t.span }),
            _ => self.emit(
                Event::Error { span: t.span, kind: ParseErrorKind::ExpectedValue },
                State::EmitAttrObjectEnd,
            ),
        }
    }

    /// Read what follows a bare scalar that is the value of an attribute.
    fn after_attr_bare_value(&mut self, value_span: Span) -> (e: Option<Event<'src>>)
        requires
            old(self).wf(),
            old(self).machine().state == (State::AfterAttrBareValue { value_span }),
        ensures
            old(self).made(
                *final(self),
                e,
                machine::after_attr_bare_value(old(self).src(), old(self).machine(), value_span),
            ),
    {
        proof {
            reveal(machine::after_attr_bare_value);
        }
        let t = self.read(Skip::Nothing);
        if t.kind == TokenKind::Gt && t.span.start == value_span.end {
            return self.emit(
                Event::Unit { span: value_span },
                State::EmitAttrEntryStart { attr_key_span: value_span },
            );
        }
        let event = self.bare(value_span);
        self.emit(event, State::EmitAttrEntryEnd)
    }

    /// Read another attribute, or what ends them.
    fn after_attr_entry_end(&mut self) -> (e: Option<Event<'src>>)
        requires
            old(self).wf(),
        ensures
            old(self).made(
                *final(self),
                e,
                machine::after_attr_entry_end(old(self).src(), old(self).machine()),
            ),
    {
        proof {
            reveal(machine::after_attr_entry_end);
        }
        let t = self.read(Skip::Blanks);
        match t.kind {
            TokenKind::BareScalar => {
                let next = self.read(Skip::Nothing);
                if next.kind == TokenKind::Gt && next.span.start == t.span.end {
                    self.go(State::EmitAttrEntryStart { attr_key_span: t.span })
                } else {
                    self.go(
                        State::EmitAttrObjectEndThenNewEntry {
                            next_key_span: t.span,
                            next_key_kind: ScalarKind::Bare,
                        },
                    )
                }
            },
            TokenKind::Newline | TokenKind::Eof => self.go(State::EmitAttrObjectEnd),
            TokenKind::RBrace => self.go(
                State::EmitAttrObjectEndThenClose { rbrace_span: t.span },
            ),
            _ => self.emit(
                Event::Error { span: t.span, kind: ParseErrorKind::UnexpectedToken },
                State::EmitAttrObjectEnd,
            ),
        }
    }

    /// Emit the start of the entry for the next segment of a dotted path.
    fn emit_dotted_path(
        &mut self,
        full_span: Span,
        offset: u32,
        depth: u32,
    ) -> (e: Option<Event<'src>>)
        requires
            old(self).wf(),
            old(self).machine().state == (State::EmitDottedPath { full_span, offset, depth }),
        ensures
            old(self).made(
                *final(self),
                e,
                machine::emit_dotted_path(
                    old(self).src(),
                    old(self).machine(),
                    full_span,
                    offset,
                    depth,
                ),
            ),
    {
        proof {
            reveal(machine::emit_dotted_path);
        }
        let start = full_span.start + offset;
        let end = full_span.end as usize;
        let dot = text::find_byte(self.input.as_bytes(), ascii::DOT, start as usize, end);
        if dot == start as usize || (dot < end && dot + 1 == end) {
            return self.emit(
                Event::Error { span: full_span, kind: ParseErrorKind::InvalidKey },
                State::CloseDottedPath { depth },
            );
        }
        let key_span = Span::new(start, dot as u32);
        if dot == end {
            self.emit(Event::EntryStart, State::EmitDottedPathKey { key_span, full_span, depth })
        } else {
            let next_offset = dot as u32 + 1 - full_span.start;
            self.emit(
                Event::EntryStart,
                State::EmitDottedPathKeyThenObject { key_span, full_span, next_offset, depth },
            )
        }
    }

    /// Read the value at a dotted path.
    fn after_dotted_path_key(&mut self, full_span: Span, depth: u32) -> (e: Option<Event<'src>>)
        requires
            old(self).wf(),
            old(self).machine().state == (State::AfterDottedPathKey { full_span, depth }),
        ensures
            old(self).made(
                *final(self),
                e,
                machine::after_dotted_path_key(
                    old(self).src(),
                    old(self).machine(),
                    full_span,
                    depth,
                ),
            ),
    {
        proof {
            reveal(machine::after_dotted_path_key);
        }
        let t = self.read(Skip::Blanks);
        match t.kind {
            TokenKind::BareScalar => self.go(
                State::AfterDottedPathBareValue { value_span: t.span, depth },
            ),
            TokenKind::QuotedScalar => self.go(
                State::EmitDottedPathScalarValue { span: t.span, kind: ScalarKind::Quoted, depth },
            ),
            TokenKind::Newline | TokenKind::Eof => self.emit(
                Event::Unit { span: full_span },
                State::CloseDottedPath { depth },
            ),
            TokenKind::LBrace => {
                self.push(Context::Object { implicit: false });
                self.emit(
                    Event::ObjectStart { span: t.span, separator: Separator::Comma },
                    State::ExpectEntry,
                )
            },
            TokenKind::LParen => {
                self.push(Context::Sequence);
                self.emit(Event::SequenceStart { span: t.span }, State::ExpectSeqElem)
            },
            TokenKind::At => self.go(State::EmitTagStart { tag_span: t.span }),
            _ => self.emit(
                Event::Error { span: t.span, kind: ParseErrorKind::UnexpectedToken },
                State::CloseDottedPath { depth },
            ),
        }
    }

    /// Read what follows a bare scalar that is the value at a dotted path.
    fn after_dotted_path_bare_value(
        &mut self,
        value_span: Span,
        depth: u32,
    ) -> (e: Option<Event<'src>>)
        requires
            old(self).wf(),
            old(self).machine().state == (State::AfterDottedPathBareValue { value_span, depth }),
        ensures
            old(self).made(
                *final(self),
                e,
                machine::after_dotted_path_bare_value(
                    old(self).src(),
                    old(self).machine(),
                    value_span,
                    depth,
                ),
            ),
    {
        proof {
            reveal(machine::after_dotted_path_bare_value);
        }
        let t = self.read(Skip::Nothing);
        if t.kind == TokenKind::Gt && t.span.start == value_span.end {
            self.push(Context::AttrObject);
            return self.emit(
                Event::ObjectStart { span: value_span, separator: Separator::Comma },
                State::EmitAttrEntryStart { attr_key_span: value_span },
            );
        }
        let event = self.bare(value_span);
        self.emit(event, State::CloseDottedPath { depth })
    }

    /// Emit the end of the innermost object of a dotted path.
    fn close_dotted_path(&mut self, depth: u32) -> (e: Option<Event<'src>>)
        requires
            old(self).wf(),
            old(self).machine().state == (State::CloseDottedPath { depth }),
        ensures
            old(self).made(
                *final(self),
                e,
                machine::close_dotted_path(old(self).src(), old(self).machine(), depth),
            ),
    {
        proof {
            reveal(machine::close_dotted_path);
        }
        if depth == 0 {
            return self.emit(Event::EntryEnd, State::EmitEntryEnd);
        }
        self.pop();
        let span = self.eof_span();
        self.emit(
            Event::ObjectEnd { span },
            State::EmitEntryEndThenCloseDotted { depth: depth - 1 },
        )
    }

    /// Read the name of a tag that is the value of an attribute.
    fn emit_tag_start_in_attr(&mut self, tag_span: Span) -> (e: Option<Event<'src>>)
        requires
            old(self).wf(),
            old(self).machine().state == (State::EmitTagStartInAttr { tag_span }),
        ensures
            old(self).made(
                *final(self),
                e,
                machine::emit_tag_start_in_attr(old(self).src(), old(self).machine(), tag_span),
            ),
    {
        proof {
            reveal(machine::emit_tag_start_in_attr);
        }
        let t = self.read(Skip::Nothing);
        if t.kind == TokenKind::BareScalar && t.span.start == tag_span.end {
            let name_end = emit::find_name_end(self.input, t.span);
            let name = Span::new(t.span.start, name_end);
            let event = emit::tag_start_event(
                self.input,
                Span::new(tag_span.start, name_end),
                name,
            );
            if name_end < t.span.end {
                let unit_span = Span::new(name_end, name_end + 1);
                return self.emit(event, State::EmitUnitThenTagEndInAttr { unit_span });
            }
            return self.emit(event, State::AfterTagStartInAttr { tag_span: name });
        }
        self.emit(Event::Unit { span: tag_span }, State::EmitAttrEntryEnd)
    }

    /// Read the payload of a tag that is the value of an attribute.
    fn after_tag_start_in_attr(&mut self, tag_span: Span) -> (e: Option<Event<'src>>)
        requires
            old(self).wf(),
            old(self).machine().state == (State::AfterTagStartInAttr { tag_span }),
        ensures
            old(self).made(
                *final(self),
                e,
                machine::after_tag_start_in_attr(old(self).src(), old(self).machine(), tag_span),
            ),
    {
        proof {
            reveal(machine::after_tag_start_in_attr);
        }
        let t = self.read(Skip::Nothing);
        match t.kind {
            TokenKind::LBrace if t.span.start == tag_span.end => {
                self.push(Context::Object { implicit: false });
                self.emit(
                    Event::ObjectStart { span: t.span, separator: Separator::Comma },
                    State::ExpectEntry,
                )
            },
            TokenKind::LParen if t.span.start == tag_span.end => {
                self.push(Context::Sequence);
                self.emit(Event::SequenceStart { span: t.span }, State::ExpectSeqElem)
            },
            TokenKind::BareScalar if t.span.start == tag_span.end => {
                let event = self.bare(t.span);
                self.emit(event, State::EmitTagEndInAttr)
            },
            TokenKind::QuotedScalar if t.span.start == tag_span.end => {
                let event = self.scalar(t.span, ScalarKind::Quoted);
                self.emit(event, State::EmitTagEndInAttr)
            },
            _ => self.emit(Event::TagEnd, State::AfterAttrEntryEnd),
        }
    }

    /// Read an element of a sequence, or what closes the sequence.
    fn expect_seq_elem(&mut self) -> (e: Option<Event<'src>>)
        requires
            old(self).wf(),
        ensures
            old(self).made(
                *final(self),
                e,
                machine::expect_seq_elem(old(self).src(), old(self).machine()),
            ),
    {
        proof {
            reveal(machine::expect_seq_elem);
        }
        let t = self.read(Skip::Lines);
        match t.kind {
            TokenKind::LineComment => {
                let event = emit::comment_event(self.input, t.span);
                self.emit(event, State::ExpectSeqElem)
            },
            TokenKind::RParen => {
                self.pop();
                self.emit(Event::SequenceEnd { span: t.span }, State::EmitEntryEnd)
            },
            TokenKind::Eof => {
                let span = self.eof_span();
                self.emit(
                    Event::Error { span, kind: ParseErrorKind::UnclosedSequence },
                    State::Done,
                )
            },
            TokenKind::BareScalar => {
                let event = self.bare(t.span);
                self.emit(event, State::ExpectSeqElem)
            },
            TokenKind::QuotedScalar => {
                let event = self.scalar(t.span, ScalarKind::Quoted);
                self.emit(event, State::ExpectSeqElem)
            },
            TokenKind::LBrace => {
                self.push(Context::Object { implicit: false });
                self.emit(
                    Event::ObjectStart { span: t.span, separator: Separator::Comma },
                    State::ExpectEntry,
                )
            },
            TokenKind::LParen => {
                self.push(Context::Sequence);
                self.emit(Event::SequenceStart { span: t.span }, State::ExpectSeqElem)
            },
            TokenKind::At => self.go(State::EmitTagStart { tag_span: t.span }),
            _ => self.emit(
                Event::Error { span: t.span, kind: ParseErrorKind::UnexpectedToken },
                State::Done,
            ),
        }
    }

    /// Makes one move.
    fn step(&mut self) -> (e: Option<Event<'src>>)
        requires
            old(self).wf(),
            progress::escape_whole(old(self).src(), old(self).machine().state),
        ensures
            old(self).made(*final(self), e, machine::step(old(self).src(), old(self).machine())),
    {
        match self.state {
            State::ExpectEntry => self.expect_entry(),
            State::EmitEntryStart { key_span, key_kind } => self.emit_entry_start(
                key_span,
                key_kind,
            ),
            State::EmitUnitKeyValue { at_span } => self.emit_unit_key_value(at_span),
            State::EmitKey { key_span, key_kind } => self.emit_key(key_span, key_kind),
            State::EmitScalarValue { span, kind } => self.emit_scalar_value(span, kind),
            State::AfterBareScalarValue { value_span } => self.after_bare_scalar_value(value_span),
            State::EmitTooManyAtomsThenEntryEnd { error_span } => self.emit_too_many_atoms(
                error_span,
            ),
            State::AfterQuotedScalarValue { .. } => self.after_quoted_scalar_value(),
            State::EmitInvalidEscapes { span, kind, error_index } => self.emit_invalid_escapes(
                span,
                kind,
                error_index,
            ),
            State::EmitInvalidEscapesInKey { key_span, key_kind, error_index } => {
                self.emit_invalid_escapes_in_key(key_span, key_kind, error_index)
            },
            State::ExpectSeqElem => self.expect_seq_elem(),
            State::EmitTagStart { tag_span } => self.emit_tag_start(tag_span),
            State::AfterTagStart { tag_span } => self.after_tag_start(tag_span),
            State::ExpectAttrValue { .. } => self.expect_attr_value(),
            State::AfterAttrBareValue { value_span } => self.after_attr_bare_value(value_span),
            State::AfterAttrEntryEnd => self.after_attr_entry_end(),
            State::EmitDottedPath { full_span, offset, depth } => self.emit_dotted_path(
                full_span,
                offset,
                depth,
            ),
            State::AfterDottedPathKey { full_span, depth } => self.after_dotted_path_key(
                full_span,
                depth,
            ),
            State::AfterDottedPathBareValue { value_span, depth } => {
                self.after_dotted_path_bare_value(value_span, depth)
            },
            State::CloseDottedPath { depth } => self.close_dotted_path(depth),
            State::EmitTagStartInAttr { tag_span } => self.emit_tag_start_in_attr(tag_span),
            State::AfterTagStartInAttr { tag_span } => self.after_tag_start_in_attr(tag_span),
            State::EmitAttrEntryStart { .. }
            | State::EmitAttrKey { .. }
            | State::EmitAttrScalarValue { .. }
            | State::EmitAttrEntryEnd
            | State::EmitDottedPathKey { .. }
            | State::EmitDottedPathKeyThenObject { .. }
            | State::EmitDottedPathObject { .. }
            | State::EmitDottedPathScalarValue { .. }
            | State::EmitEntryEndThenCloseDotted { .. }
            | State::EmitTagEndInAttr
            | State::EmitUnitThenTagEndInAttr { .. }
            | State::EmitAttrObjectEnd
            | State::EmitAttrObjectEndThenNewEntry { .. }
            | State::EmitEntryEndThenNewEntry { .. }
            | State::EmitAttrObjectEndThenClose { .. }
            | State::EmitParentObjectEnd { .. } => self.step_nested(),
            _ => self.step_plain(),
        }
    }

    /// Makes one move that depends on nothing but the state.
    fn step_plain(&mut self) -> (e: Option<Event<'src>>)
        requires
            old(self).wf(),
            machine::is_plain(old(self).machine().state),
        ensures
            old(self).made(*final(self), e, machine::step(old(self).src(), old(self).machine())),
    {
        match self.state {
            State::Start => self.emit(Event::DocumentStart, State::EmitRootObjectStart),
            State::EmitRootObjectStart => {
                self.push(Context::Object { implicit: true });
                self.emit(
                    Event::ObjectStart { span: Span::new(0, 0), separator: Separator::Newline },
                    State::ExpectEntry,
                )
            },
            State::EmitUnitValue { span } => self.emit(Event::Unit { span }, State::EmitEntryEnd),
            State::EmitUnitThenError { unit_span, error_span } => self.emit(
                Event::Unit { span: unit_span },
                State::EmitErrorThenEntryEnd { error_span },
            ),
            State::EmitErrorThenEntryEnd { error_span } => self.emit(
                Event::Error { span: error_span, kind: ParseErrorKind::UnexpectedToken },
                State::EmitEntryEnd,
            ),
            State::EmitUnitThenEntryEndThenObjectEnd { unit_span, rbrace_span } => self.emit(
                Event::Unit { span: unit_span },
                State::EmitEntryEndAfterUnitThenObjectEnd { rbrace_span },
            ),
            State::EmitEntryEndAfterUnitThenObjectEnd { rbrace_span } => self.emit(
                Event::EntryEnd,
                State::EmitObjectEndAfterEntry { rbrace_span },
            ),
            State::EmitScalarThenTooManyAtoms { value_span, error_span } => {
                let event = self.bare(value_span);
                self.emit(event, State::EmitTooManyAtomsThenEntryEnd { error_span })
            },
            State::EmitEntryEnd => {
                let state = self.after_entry();
                self.emit(Event::EntryEnd, state)
            },
            State::EmitEntryEndThenObjectEnd { rbrace_span } => self.emit(
                Event::EntryEnd,
                State::EmitObjectEndAfterEntry { rbrace_span },
            ),
            State::EmitObjectEndAfterEntry { rbrace_span } => {
                self.pop();
                self.emit(Event::ObjectEnd { span: rbrace_span }, State::EmitEntryEnd)
            },
            State::EmitEntryEndThenSeqEnd { rparen_span } => self.emit(
                Event::EntryEnd,
                State::EmitSeqEndAfterEntry { rparen_span },
            ),
            State::EmitSeqEndAfterEntry { rparen_span } => {
                self.pop();
                self.emit(Event::SequenceEnd { span: rparen_span }, State::EmitEntryEnd)
            },
            State::EmitObjectStartValue { span } => {
                self.push(Context::Object { implicit: false });
                self.emit(
                    Event::ObjectStart { span, separator: Separator::Comma },
                    State::ExpectEntry,
                )
            },
            State::EmitSequenceStartValue { span } => {
                self.push(Context::Sequence);
                self.emit(Event::SequenceStart { span }, State::ExpectSeqElem)
            },
            State::EmitTagEnd => {
                let state = self.after_tag();
                self.emit(Event::TagEnd, state)
            },
            State::EmitTagEndWithUnit { unit_span } => self.emit(
                Event::Unit { span: unit_span },
                State::EmitTagEnd,
            ),
            State::EmitTagEndThenSeqEnd { rparen_span } => {
                self.pop();
                self.emit(Event::SequenceEnd { span: rparen_span }, State::EmitEntryEnd)
            },
            State::EmitTagEndThenObjEnd { rbrace_span } => {
                self.pop();
                self.emit(Event::ObjectEnd { span: rbrace_span }, State::EmitEntryEnd)
            },
            State::EmitDocumentEnd => self.emit(Event::DocumentEnd, State::Done),
            State::Done => self.go(State::Done),
            _ => None,
        }
    }

    /// Makes one move that depends on nothing but the state, in attributes or a dotted path.
    fn step_nested(&mut self) -> (e: Option<Event<'src>>)
        requires
            old(self).wf(),
            machine::is_nested(old(self).machine().state),
        ensures
            old(self).made(*final(self), e, machine::step(old(self).src(), old(self).machine())),
    {
        match self.state {
            State::EmitAttrEntryStart { attr_key_span } => self.emit(
                Event::EntryStart,
                State::EmitAttrKey { attr_key_span },
            ),
            State::EmitAttrKey { attr_key_span } => {
                let event = self.key(attr_key_span, ScalarKind::Bare);
                self.emit(event, State::ExpectAttrValue { attr_key_span })
            },
            State::EmitAttrScalarValue { span, kind } => {
                let event = self.scalar(span, kind);
                self.emit(event, State::EmitAttrEntryEnd)
            },
            State::EmitAttrEntryEnd => self.emit(Event::EntryEnd, State::AfterAttrEntryEnd),
            State::EmitDottedPathKey { key_span, full_span, depth } => {
                let event = self.key(key_span, ScalarKind::Bare);
                self.emit(event, State::AfterDottedPathKey { full_span, depth })
            },
            State::EmitDottedPathKeyThenObject { key_span, full_span, next_offset, depth } => {
                let event = self.key(key_span, ScalarKind::Bare);
                self.emit(
                    event,
                    State::EmitDottedPathObject { key_span, full_span, next_offset, depth },
                )
            },
            State::EmitDottedPathObject { key_span, full_span, next_offset, depth } => {
                self.push(Context::Object { implicit: false });
                self.emit(
                    Event::ObjectStart { span: key_span, separator: Separator::Newline },
                    State::EmitDottedPath { full_span, offset: next_offset, depth: depth + 1 },
                )
            },
            State::EmitDottedPathScalarValue { span, kind, depth } => {
                let event = self.scalar(span, kind);
                self.emit(event, State::CloseDottedPath { depth })
            },
            State::EmitEntryEndThenCloseDotted { depth } => self.emit(
                Event::EntryEnd,
                State::CloseDottedPath { depth },
            ),
            State::EmitTagEndInAttr => self.emit(Event::TagEnd, State::AfterAttrEntryEnd),
            State::EmitUnitThenTagEndInAttr { unit_span } => self.emit(
                Event::Unit { span: unit_span },
                State::EmitTagEndInAttr,
            ),
            State::EmitAttrObjectEnd => {
                self.pop();
                let span = self.eof_span();
                self.emit(Event::ObjectEnd { span }, State::EmitEntryEnd)
            },
            State::EmitAttrObjectEndThenNewEntry { next_key_span, next_key_kind } => {
                self.pop();
                let span = self.eof_span();
                self.emit(
                    Event::ObjectEnd { span },
                    State::EmitEntryEndThenNewEntry { next_key_span, next_key_kind },
                )
            },
            State::EmitEntryEndThenNewEntry { next_key_span, next_key_kind } => self.emit(
                Event::EntryEnd,
                State::EmitEntryStart { key_span: next_key_span, key_kind: next_key_kind },
            ),
            State::EmitAttrObjectEndThenClose { rbrace_span } => {
                self.pop();
                let span = self.eof_span();
                self.emit(Event::ObjectEnd { span }, State::EmitParentObjectEnd { rbrace_span })
            },
            State::EmitParentObjectEnd { rbrace_span } => {
                self.pop();
                self.emit(Event::ObjectEnd { span: rbrace_span }, State::EmitEntryEnd)
            },
            _ => None,
        }
    }

    /// The next event, or nothing once there are no more.
    pub fn next_event(&mut self) -> (e: Option<Event<'src>>)
        requires
            old(self).wf(),
            run::next_whole(old(self).src(), old(self).machine()),
        ensures
            final(self).wf(),
            final(self).src() == old(self).src(),
            event::event_view(e) == run::next(old(self).src(), old(self).machine()).0,
            final(self).machine() == run::next(old(self).src(), old(self).machine()).1,
    {
        let mut event: Option<Event<'src>> = None;
        let ghost src = self.src();
        let ghost goal = run::next(src, self.machine());
        while event.is_none() && self.state != State::Done
            invariant
                self.wf(),
                self.src() == src,
                src == old(self).src(),
                goal == run::next(src, old(self).machine()),
                event is None ==> run::next_whole(src, self.machine()) && goal == run::next(
                    src,
                    self.machine(),
                ),
                event is Some ==> goal == (event::event_view(event), self.machine()),
            decreases progress::distance(src, self.machine()),
        {
            proof {
                progress::lemma_step(src, self.machine());
                reveal(progress::advances);
            }
            event = self.step();
        }
        event
    }

    /// All events.
    pub fn parse_to_vec(self) -> (events: Vec<Event<'src>>)
        requires
            self.wf(),
            run::run_whole(self.src(), self.machine()),
        ensures
            event::event_views(events@) == run::run(self.src(), self.machine()),
    {
        let mut parser = self;
        let mut events: Vec<Event<'src>> = Vec::new();
        let ghost src = self.src();
        let ghost goal = run::run(src, self.machine());
        assert(event::event_views(events@) + goal =~= goal);
        loop
            invariant
                parser.wf(),
                parser.src() == src,
                run::run_whole(src, parser.machine()),
                goal == event::event_views(events@) + run::run(src, parser.machine()),
            ensures
                goal == event::event_views(events@),
            decreases progress::distance(src, parser.machine()),
        {
            proof {
                run::lemma_next(src, parser.machine());
            }
            let ghost before = event::event_views(events@);
            let ghost rest = run::run(src, parser.machine());
            match parser.next_event() {
                Some(e) => {
                    events.push(e);
                    assert(before + rest =~= event::event_views(events@) + run::run(
                        src,
                        parser.machine(),
                    ));
                },
                None => {
                    assert(before + rest =~= before);
                    break;
                },
            }
        }
        events
    }

    /// Whether no escape is cut from here on. Only then can the parser be run to
    /// its end: the error for an invalid escape holds the backslash and one byte
    /// after it, which is no text where that byte is part of a longer character.
    pub fn is_whole(&self) -> (r: bool)
        requires
            self.wf(),
        ensures
            r == run::run_whole(self.src(), self.machine()),
    {
        let mut parser = self.clone();
        let ghost src = self.src();
        while parser.state != State::Done
            invariant
                parser.wf(),
                parser.src() == src,
                src == self.src(),
                run::run_whole(src, self.machine()) == run::run_whole(src, parser.machine()),
            decreases progress::distance(src, parser.machine()),
        {
            proof {
                run::lemma_run_whole(src, parser.machine());
            }
            if !parser.escape_is_whole() {
                return false;
            }
            parser.step();
        }
        true
    }
}

impl<'src> Clone for Parser3<'src> {
    /// A parser that goes on with the same events.
    fn clone(&self) -> (parser: Self)
        ensures
            parser.src() == self.src(),
            parser.machine() == self.machine(),
            self.wf() ==> parser.wf(),
    {
        let mut escapes: Vec<(usize, usize)> = Vec::new();
        let mut i: usize = 0;
        while i < self.escapes.len()
            invariant
                i <= self.escapes@.len(),
                escapes@ == self.escapes@.take(i as int),
            decreases self.escapes@.len() - i,
        {
            escapes.push(self.escapes[i]);
            i += 1;
            assert(self.escapes@.take(i as int) =~= self.escapes@.take(i - 1).push(
                self.escapes@[i - 1],
            ));
        }
        let context_stack = self.context_stack.clone();
        assert(context_stack@ =~= self.context_stack@);
        assert(escapes@ =~= self.escapes@);
        Parser3 { input: self.input, lexer: self.lexer, state: self.state, context_stack, escapes }
    }
}

} // verus!
