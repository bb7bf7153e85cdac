//! A pull parser with a queue of events.
//!
//! A move reads tokens, which it may put back, and queues the events that
//! follow from them.
pub mod machine;
pub mod modes;
pub mod nesting;
pub mod progress;
pub mod run;

use crate::ascii;
use crate::emit;
use crate::escape::ShortUnicode;
use crate::event;
use crate::event::{Event, EventView, ParseErrorKind, ScalarKind, Separator};
use crate::lexer;
use crate::lexer::{Lexer, Skip};
use crate::parser2::machine::{Context, Machine, Move, State};
use crate::span::Span;
use crate::text;
use crate::token::{Token, TokenKind};
use std::borrow::Cow;
use std::collections::VecDeque;
use vstd::prelude::*;
use vstd::string::*;

verus! {

/// A streaming parser for Styx documents and values.
pub struct Parser2<'src> {
    input: &'src str,
    lexer: Lexer<'src>,
    state: State,
    context_stack: Vec<Context>,
    event_queue: VecDeque<Event<'src>>,
    pending_doc: Vec<Span>,
    expr_mode: bool,
    /// Tokens that were put back.
    buffered_tokens: VecDeque<Token>,
}

impl<'src> Parser2<'src> {
    /// The bytes of the source.
    pub closed spec fn src(&self) -> Seq<u8> {
        self.input.spec_bytes()
    }

    /// What the parser knows besides its source.
    pub closed spec fn machine(&self) -> Machine {
        Machine {
            lex: self.lexer.state(),
            state: self.state,
            stack: self.context_stack@,
            queue: event::event_views(self.event_queue@),
            docs: self.pending_doc@,
            expr: self.expr_mode,
            buffer: self.buffered_tokens@,
        }
    }

    /// The lexer reads the source, and the tokens and comments that wait are of
    /// the source.
    pub closed spec fn in_step(&self) -> bool {
        &&& self.lexer.wf()
        &&& self.lexer.src() == self.src()
        &&& forall|i: int|
            0 <= i < self.buffered_tokens@.len() ==> lexer::token_fits(
                self.src(),
                #[trigger] self.buffered_tokens@[i],
            )
        &&& forall|i: int|
            0 <= i < self.pending_doc@.len() ==> text::span_fits(
                self.src(),
                #[trigger] self.pending_doc@[i],
            )
    }

    /// The parser is in a state that it can be in.
    pub open spec fn wf(&self) -> bool {
        self.in_step() && progress::fits(self.src(), self.machine())
    }

    /// `after` is a parser of the same source that knows what `m` says.
    spec fn became(self, after: Self, m: Machine) -> bool {
        &&& after.in_step()
        &&& after.src() == self.src()
        &&& after.machine() =~= m
    }

    /// `after` is what the parser is after the move `mv`, which emitted `e`.
    spec fn made(self, after: Self, e: Option<Event<'src>>, mv: Move) -> bool {
        self.became(after, mv.1) && event::event_view(e) == mv.0
    }

    /// A parser at the start of the document `source`.
    pub fn new(source: &'src str) -> (parser: Self)
        requires
            source.spec_bytes().len() <= u32::MAX,
        ensures
            parser.wf(),
            parser.src() == source.spec_bytes(),
            parser.machine() == run::start(false),
    {
        Self::with_mode(source, false)
    }

    /// A parser at the start of the single value `source`.
    pub fn new_expr(source: &'src str) -> (parser: Self)
        requires
            source.spec_bytes().len() <= u32::MAX,
        ensures
            parser.wf(),
            parser.src() == source.spec_bytes(),
            parser.machine() == run::start(true),
    {
        Self::with_mode(source, true)
    }

    /// A parser at the start of `source`.
    fn with_mode(source: &'src str, expr_mode: bool) -> (parser: Self)
        requires
            source.spec_bytes().len() <= u32::MAX,
        ensures
            parser.wf(),
            parser.src() == source.spec_bytes(),
            parser.machine() == run::start(expr_mode),
    {
        let parser = Parser2 {
            input: source,
            lexer: Lexer::new(source),
            state: State::Start,
            context_stack: Vec::new(),
            event_queue: VecDeque::new(),
            pending_doc: Vec::new(),
            expr_mode,
            buffered_tokens: VecDeque::new(),
        };
        assert(parser.machine() =~= run::start(expr_mode));
        proof {
            run::lemma_start(parser.src(), expr_mode);
        }
        parser
    }

    /// The source text.
    pub fn input(&self) -> (input: &'src str)
        ensures
            input.spec_bytes() == self.src(),
    {
        self.input
    }

    // --- building blocks ---

    /// The next token that is no blank.
    fn next_token(&mut self) -> (t: Token)
        requires
            old(self).in_step(),
        ensures
            old(self).became(*final(self), machine::take(old(self).src(), old(self).machine()).1),
            t == machine::take(old(self).src(), old(self).machine()).0,
            lexer::token_fits(old(self).src(), t),
    {
        match self.buffered_tokens.pop_front() {
            Some(t) => t,
            None => self.lexer.next_past(Skip::Blanks),
        }
    }

    /// The next token that is neither a blank nor a line break.
    fn next_token_skip_newlines(&mut self) -> (t: Token)
        requires
            old(self).in_step(),
        ensures
            old(self).became(
                *final(self),
                machine::take_line(old(self).src(), old(self).machine()).1,
            ),
            t == machine::take_line(old(self).src(), old(self).machine()).0,
            lexer::token_fits(old(self).src(), t),
    {
        let mut t = self.next_token();
        while t.kind == TokenKind::Newline
            invariant
                self.in_step(),
                self.src() == old(self).src(),
                lexer::token_fits(old(self).src(), t),
                machine::take_line(old(self).src(), old(self).machine()) == if t.kind
                    == TokenKind::Newline {
                    machine::take_line(self.src(), self.machine())
                } else {
                    (t, self.machine())
                },
            decreases
                machine::unread_len(self.src(), self.machine()),
                if t.kind == TokenKind::Newline {
                    1int
                } else {
                    0int
                },
        {
            proof {
                machine::lemma_take_shrinks(self.src(), self.machine());
                lexer::lemma_past_budget(self.src(), self.machine().lex, Skip::Blanks);
            }
            t = self.next_token();
        }
        t
    }

    /// Puts the token `t` back.
    fn unread(&mut self, t: Token)
        requires
            old(self).in_step(),
            lexer::token_fits(old(self).src(), t),
        ensures
            old(self).became(*final(self), machine::unread(old(self).machine(), t)),
    {
        self.buffered_tokens.push_front(t);
    }

    /// Queues an event.
    fn queue(&mut self, e: Event<'src>)
        requires
            old(self).in_step(),
        ensures
            old(self).became(*final(self), machine::queued(old(self).machine(), seq![e@])),
    {
        let ghost before = self.event_queue@;
        self.event_queue.push_back(e);
        assert(event::event_views(self.event_queue@) =~= event::event_views(before) + seq![e@]);
    }

    /// Goes on in `state`.
    fn go(&mut self, state: State)
        requires
            old(self).in_step(),
        ensures
            old(self).became(*final(self), machine::to(old(self).machine(), state)),
    {
        self.state = state;
    }

    /// Enters a context.
    fn push(&mut self, context: Context)
        requires
            old(self).in_step(),
        ensures
            old(self).became(*final(self), machine::push(old(self).machine(), context)),
    {
        self.context_stack.push(context);
    }

    /// Leaves the innermost context, if there is one.
    fn pop(&mut self)
        requires
            old(self).in_step(),
        ensures
            old(self).became(*final(self), machine::pop(old(self).machine())),
    {
        let _ = self.context_stack.pop();
    }

    /// The innermost context.
    fn context(&self) -> (c: Option<Context>)
        ensures
            c == machine::top(self.machine()),
    {
        let n = self.context_stack.len();
        if n > 0 {
            Some(self.context_stack[n - 1])
        } else {
            None
        }
    }

    /// The doc comment at `span` waits for an entry.
    fn document(&mut self, span: Span)
        requires
            old(self).in_step(),
            text::span_fits(old(self).src(), span),
        ensures
            old(self).became(*final(self), machine::documented(old(self).machine(), span)),
    {
        self.pending_doc.push(span);
    }

    /// Drops the doc comments that wait for an entry.
    fn undocument(&mut self)
        requires
            old(self).in_step(),
        ensures
            old(self).became(*final(self), machine::undocumented(old(self).machine())),
    {
        self.pending_doc.clear();
    }

    /// The empty span at the end of the source.
    fn eof_span(&self) -> (span: Span)
        requires
            self.in_step(),
        ensures
            span == machine::eof_span(self.src()),
    {
        let pos = self.input.len() as u32;
        Span::new(pos, pos)
    }

    /// The scalar at `span`.
    fn scalar(&self, span: Span, kind: ScalarKind) -> (e: Event<'src>)
        requires
            emit::scalar_fits(self.src(), span, kind),
        ensures
            e@ == machine::scalar(self.src(), span, kind),
    {
        emit::scalar_event(self.input, span, kind, ShortUnicode::Kept)
    }

    /// The key at `span`.
    fn key(&self, span: Span, kind: ScalarKind) -> (e: Event<'src>)
        requires
            emit::scalar_fits(self.src(), span, kind),
        ensures
            e@ == machine::key(self.src(), span, kind),
    {
        emit::key_event(self.input, span, kind, ShortUnicode::Kept)
    }

    /// Whether the text at `span` is the name of a tag.
    fn is_valid_tag_name(&self, span: Span) -> (r: bool)
        requires
            text::span_fits(self.src(), span),
        ensures
            r == machine::is_tag_name(self.src(), span),
    {
        if span.start >= span.end {
            return false;
        }
        let bytes = self.input.as_bytes();
        if !starts_tag_name(bytes[span.start as usize]) {
            return false;
        }
        let mut i: usize = span.start as usize + 1;
        while i < span.end as usize
            invariant
                span.start < i <= span.end <= bytes@.len(),
                bytes@ == self.src(),
                forall|k: int| span.start < k < i ==> machine::in_tag_name(#[trigger] bytes@[k]),
            decreases span.end - i,
        {
            let b = bytes[i];
            if !(starts_tag_name(b) || (ascii::DIGIT_0 <= b && b <= ascii::DIGIT_9) || b
                == ascii::HYPHEN) {
                return false;
            }
            i += 1;
        }
        true
    }

    /// Queues the doc comments that wait for an entry.
    fn emit_pending_docs(&mut self)
        requires
            old(self).in_step(),
        ensures
            old(self).became(
                *final(self),
                machine::with_docs(old(self).src(), old(self).machine()),
            ),
    {
        let mut i: usize = 0;
        let ghost src = self.src();
        let ghost before = self.machine();
        while i < self.pending_doc.len()
            invariant
                self.in_step(),
                self.src() == src,
                i <= before.docs.len(),
                self.machine().docs == before.docs,
                self.machine() =~= machine::queued(
                    before,
                    machine::doc_events(src, before.docs.take(i as int)),
                ),
            decreases before.docs.len() - i,
        {
            let event = emit::doc_comment_event(self.input, self.pending_doc[i]);
            self.queue(event);
            i += 1;
            assert(machine::doc_events(src, before.docs.take(i as int)) =~= machine::doc_events(
                src,
                before.docs.take(i - 1),
            ) + seq![emit::doc_comment(src, before.docs[i - 1])]);
        }
        assert(before.docs.take(i as int) =~= before.docs);
        self.undocument();
    }

    /// Queues an error for the first doc comment that waits in vain.
    fn reject_pending_docs(&mut self)
        requires
            old(self).in_step(),
        ensures
            old(self).became(*final(self), machine::with_dangling_docs(old(self).machine())),
    {
        if self.pending_doc.len() > 0 {
            let span = self.pending_doc[0];
            self.undocument();
            self.queue(Event::Error { span, kind: ParseErrorKind::DanglingDocComment });
        }
    }

    // --- heredocs and scalars ---

    /// Reads the heredoc that starts at `start_span`.
    fn parse_heredoc(&mut self, start_span: Span) -> (e: Event<'src>)
        requires
            old(self).in_step(),
        ensures
            old(self).became(
                *final(self),
                machine::heredoc(old(self).src(), old(self).machine(), start_span).1,
            ),
            e@ == machine::heredoc(old(self).src(), old(self).machine(), start_span).0,
    {
        let ghost src = self.src();
        let ghost start = self.lexer.state();
        let mut content = String::new();
        let mut t = self.lexer.next_token();
        assert(content@ + machine::heredoc_text(src, start) =~= machine::heredoc_text(src, start));
        while t.kind == TokenKind::HeredocContent
            invariant
                self.in_step(),
                self.src() == src,
                src == old(self).src(),
                self.machine() =~= machine::at(old(self).machine(), self.lexer.state()),
                lexer::token_fits(src, t),
                machine::heredoc_text(src, start) == if t.kind == TokenKind::HeredocContent {
                    content@ + text::chars_at(src, t.span) + machine::heredoc_text(
                        src,
                        self.lexer.state(),
                    )
                } else {
                    content@
                },
                lexer::lex_past(src, start, Skip::Heredoc) == if t.kind
                    == TokenKind::HeredocContent {
                    lexer::lex_past(src, self.lexer.state(), Skip::Heredoc)
                } else {
                    (t, self.lexer.state())
                },
            decreases
                lexer::budget(src, self.lexer.state()),
                if t.kind == TokenKind::HeredocContent {
                    1int
                } else {
                    0int
                },
        {
            let ghost rest = machine::heredoc_text(src, self.lexer.state());
            let ghost all = content@ + text::chars_at(src, t.span) + rest;
            proof {
                lexer::lemma_budget(src, self.lexer.state());
            }
            content.append(text::slice_at(self.input, t.span));
            t = self.lexer.next_token();
            assert(content@ + rest =~= all);
            assert(content@ + text::chars_at(src, t.span) + machine::heredoc_text(
                src,
                self.lexer.state(),
            ) =~= content@ + (text::chars_at(src, t.span) + machine::heredoc_text(
                src,
                self.lexer.state(),
            )));
            assert(content@ + Seq::<char>::empty() =~= content@);
        }
        let end = if t.kind == TokenKind::HeredocEnd {
            t.span.end
        } else {
            start_span.end
        };
        Event::Scalar {
            span: Span::new(start_span.start, end),
            value: Cow::Owned(content),
            kind: ScalarKind::Heredoc,
        }
    }

    /// Passes over the heredoc whose start was read.
    fn skip_heredoc(&mut self)
        requires
            old(self).in_step(),
        ensures
            old(self).became(
                *final(self),
                machine::at(
                    old(self).machine(),
                    lexer::lex_past(old(self).src(), old(self).machine().lex, Skip::Heredoc).1,
                ),
            ),
    {
        let _ = self.lexer.next_past(Skip::Heredoc);
    }

    /// Reads the token `t` as a scalar.
    fn token_to_scalar(&mut self, t: Token) -> (e: Event<'src>)
        requires
            old(self).in_step(),
            lexer::token_fits(old(self).src(), t),
        ensures
            old(self).became(
                *final(self),
                machine::token_to_scalar(old(self).src(), old(self).machine(), t).1,
            ),
            e@ == machine::token_to_scalar(old(self).src(), old(self).machine(), t).0,
    {
        match t.kind {
            TokenKind::BareScalar => self.scalar(t.span, ScalarKind::Bare),
            TokenKind::QuotedScalar => self.scalar(t.span, ScalarKind::Quoted),
            TokenKind::RawScalar => self.scalar(t.span, ScalarKind::Raw),
            TokenKind::HeredocStart => self.parse_heredoc(t.span),
            _ => Event::Error { span: t.span, kind: ParseErrorKind::UnexpectedToken },
        }
    }

    // --- passing over ---

    /// Passes over brackets up to the one of kind `closing` that closes them.
    fn skip_nested(&mut self, closing: TokenKind)
        requires
            old(self).in_step(),
        ensures
            old(self).became(
                *final(self),
                machine::at(
                    old(self).machine(),
                    machine::skip_nested(old(self).src(), old(self).machine().lex, closing, 1),
                ),
            ),
    {
        let ghost src = self.src();
        let ghost goal = machine::skip_nested(src, self.lexer.state(), closing, 1);
        let mut depth: u64 = 1;
        while depth > 0
            invariant
                self.in_step(),
                self.src() == src,
                src == old(self).src(),
                src.len() <= u32::MAX,
                self.machine() =~= machine::at(old(self).machine(), self.lexer.state()),
                goal == machine::skip_nested(src, old(self).machine().lex, closing, 1),
                goal == machine::skip_nested(src, self.lexer.state(), closing, depth as nat),
                depth + lexer::budget(src, self.lexer.state()) <= 0x3_0000_0000,
            decreases lexer::budget(src, self.lexer.state()), depth,
        {
            proof {
                lexer::lemma_budget(src, self.lexer.state());
            }
            let t = self.lexer.next_token();
            if t.kind == TokenKind::Eof {
                return;
            }
            if t.kind == TokenKind::LBrace || t.kind == TokenKind::LParen {
                depth += 1;
            } else if t.kind == closing {
                depth -= 1;
            }
        }
    }

    /// Passes over what comes before the end of the entry.
    fn skip_to_entry_boundary(&mut self)
        requires
            old(self).in_step(),
        ensures
            old(self).became(
                *final(self),
                machine::skip_to_entry_boundary(old(self).src(), old(self).machine()),
            ),
    {
        let ghost src = self.src();
        let ghost goal = machine::skip_to_entry_boundary(src, self.machine());
        loop
            invariant
                self.in_step(),
                self.src() == src,
                src == old(self).src(),
                goal == machine::skip_to_entry_boundary(src, self.machine()),
            ensures
                self.in_step(),
                self.src() == src,
                self.machine() =~= goal,
            decreases machine::unread_len(src, self.machine()),
        {
            proof {
                machine::lemma_take_shrinks(src, self.machine());
            }
            let t = self.next_token();
            proof {
                machine::lemma_skip_nested(src, self.machine().lex, TokenKind::RBrace, 1);
                machine::lemma_skip_nested(src, self.machine().lex, TokenKind::RParen, 1);
            }
            match t.kind {
                TokenKind::Newline
                | TokenKind::Eof
                | TokenKind::RBrace
                | TokenKind::RParen
                | TokenKind::Comma => {
                    self.unread(t);
                    break;
                },
                TokenKind::LBrace => self.skip_nested(TokenKind::RBrace),
                TokenKind::LParen => self.skip_nested(TokenKind::RParen),
                _ => {},
            }
        }
    }

    /// Passes over a value.
    fn skip_value(&mut self)
        requires
            old(self).in_step(),
        ensures
            old(self).became(
                *final(self),
                machine::skip_value(old(self).src(), old(self).machine(), 0),
            ),
    {
        let ghost src = self.src();
        let ghost goal = machine::skip_value(src, self.machine(), 0);
        let mut depth: u128 = 0;
        assert(self.buffered_tokens.len() == self.buffered_tokens@.len());
        loop
            invariant_except_break
                goal == machine::skip_value(src, self.machine(), depth as nat),
                depth + machine::unread_len(src, self.machine()) < u128::MAX,
            invariant
                self.in_step(),
                self.src() == src,
                src == old(self).src(),
                goal == machine::skip_value(src, old(self).machine(), 0),
            ensures
                self.in_step(),
                self.src() == src,
                self.machine() =~= goal,
            decreases machine::unread_len(src, self.machine()),
        {
            proof {
                machine::lemma_take_shrinks(src, self.machine());
            }
            let t = self.next_token();
            match t.kind {
                TokenKind::LBrace | TokenKind::LParen => {
                    depth += 1;
                },
                TokenKind::RBrace | TokenKind::RParen => {
                    if depth == 0 {
                        self.unread(t);
                        break;
                    }
                    depth -= 1;
                },
                TokenKind::Eof => {
                    break;
                },
                _ => {
                    if depth == 0 {
                        break;
                    }
                },
            }
        }
    }

    // --- closing ---

    /// The state after an object or a sequence was closed.
    fn state_after_close(&self) -> (state: State)
        ensures
            state == machine::after_close(self.machine()),
    {
        match self.context() {
            Some(Context::Object { .. }) => State::AfterValue,
            Some(Context::Sequence) => State::ExpectingSequenceElement,
            Some(Context::AttributeObject) => State::InAttributeChain {
                obj_start_span: Span::new(0, 0),
            },
            None => State::Done,
        }
    }

    /// Leaves the innermost context, which was closed.
    fn close(&mut self)
        requires
            old(self).in_step(),
        ensures
            old(self).became(*final(self), machine::closed(old(self).machine())),
    {
        self.pop();
        let state = self.state_after_close();
        if let Some(Context::AttributeObject) = self.context() {
            self.queue(Event::EntryEnd);
        }
        self.go(state);
    }

    /// Ends the document if no context is open any more.
    fn end_if_closed(&mut self)
        requires
            old(self).in_step(),
        ensures
            old(self).became(*final(self), machine::ended_if_closed(old(self).machine())),
    {
        if self.context().is_none() {
            self.queue(Event::DocumentEnd);
            self.go(State::Done);
        }
    }

    /// Closes the innermost context at the end of input.
    fn close_contexts_at_eof(&mut self) -> (e: Option<Event<'src>>)
        requires
            old(self).in_step(),
        ensures
            old(self).made(
                *final(self),
                e,
                machine::close_at_eof(old(self).src(), old(self).machine()),
            ),
        decreases old(self).machine().stack.len(),
    {
        self.reject_pending_docs();
        let span = self.eof_span();
        match self.context() {
            Some(Context::Object { implicit }) => {
                self.pop();
                if !implicit {
                    self.queue(
                        Event::Error {
                            span: Span::new(0, 0),
                            kind: ParseErrorKind::UnclosedObject,
                        },
                    );
                }
                proof {
                    let m = machine::pop(machine::with_dangling_docs(old(self).machine()));
                    assert(machine::queued(m, Seq::empty()) =~= m);
                }
                self.end_if_closed();
                Some(Event::ObjectEnd { span })
            },
            Some(Context::Sequence) => {
                self.pop();
                self.queue(
                    Event::Error { span: Span::new(0, 0), kind: ParseErrorKind::UnclosedSequence },
                );
                self.end_if_closed();
                Some(Event::SequenceEnd { span })
            },
            Some(Context::AttributeObject) => {
                self.pop();
                self.queue(Event::ObjectEnd { span });
                self.queue(Event::EntryEnd);
                proof {
                    let m = machine::pop(machine::with_dangling_docs(old(self).machine()));
                    assert(self.machine() =~= machine::queued(
                        m,
                        seq![EventView::ObjectEnd { span }, EventView::EntryEnd],
                    ));
                }
                self.close_contexts_at_eof()
            },
            None => {
                self.go(State::Done);
                Some(Event::DocumentEnd)
            },
        }
    }

    /// Closes an object at the `}` at `span`.
    fn handle_rbrace(&mut self, span: Span) -> (e: Option<Event<'src>>)
        requires
            old(self).in_step(),
        ensures
            old(self).made(
                *final(self),
                e,
                machine::close_brace(old(self).machine(), span),
            ),
    {
        self.reject_pending_docs();
        match self.context() {
            Some(Context::Object { implicit: false }) => {
                self.close();
                Some(Event::ObjectEnd { span })
            },
            _ => Some(Event::Error { span, kind: ParseErrorKind::UnexpectedToken }),
        }
    }

    /// Ends the attributes of a key.
    fn close_attribute_chain(&mut self)
        requires
            old(self).in_step(),
        ensures
            old(self).became(*final(self), machine::chain_closed(old(self).machine())),
    {
        self.pop();
        self.queue(Event::ObjectEnd { span: Span::new(0, 0) });
        self.queue(Event::EntryEnd);
        self.go(State::ExpectingEntry);
    }

    // --- tags ---

    /// Queues an error for `name`, unless it is the name of a tag.
    fn check_tag_name(&mut self, name: Span)
        requires
            old(self).in_step(),
            text::span_fits(old(self).src(), name),
        ensures
            old(self).became(
                *final(self),
                machine::with_checked_name(old(self).src(), old(self).machine(), name),
            ),
    {
        if !self.is_valid_tag_name(name) {
            self.queue(Event::Error { span: name, kind: ParseErrorKind::InvalidTagName });
        }
    }

    /// Reads the payload of the tag whose name stands at `name`.
    fn parse_tag_payload(&mut self, name: Span)
        requires
            old(self).in_step(),
        ensures
            old(self).became(
                *final(self),
                machine::tag_payload(old(self).src(), old(self).machine(), name),
            ),
    {
        proof {
            reveal(machine::tag_payload);
        }
        let next = self.next_token();
        if next.span.start == name.end {
            match next.kind {
                TokenKind::LBrace => {
                    self.push(Context::Object { implicit: false });
                    self.queue(
                        Event::ObjectStart { span: next.span, separator: Separator::Comma },
                    );
                    self.go(State::ExpectingEntry);
                    return;
                },
                TokenKind::LParen => {
                    self.push(Context::Sequence);
                    self.queue(Event::SequenceStart { span: next.span });
                    self.go(State::ExpectingSequenceElement);
                    return;
                },
                TokenKind::QuotedScalar => {
                    let event = self.scalar(next.span, ScalarKind::Quoted);
                    self.queue(event);
                    self.queue(Event::TagEnd);
                    return;
                },
                TokenKind::RawScalar => {
                    let event = self.scalar(next.span, ScalarKind::Raw);
                    self.queue(event);
                    self.queue(Event::TagEnd);
                    return;
                },
                _ => {},
            }
        }
        self.unread(next);
        self.queue(Event::Unit { span: Span::new(name.end, name.end) });
        self.queue(Event::TagEnd);
    }

    /// Reads the value that starts with the `@` at `at_span`.
    fn parse_tag_value(&mut self, at_span: Span) -> (e: Event<'src>)
        requires
            old(self).in_step(),
        ensures
            old(self).became(
                *final(self),
                machine::tag_value(old(self).src(), old(self).machine(), at_span).1,
            ),
            e@ == machine::tag_value(old(self).src(), old(self).machine(), at_span).0,
    {
        proof {
            reveal(machine::tag_value);
        }
        let t = self.next_token();
        if t.kind == TokenKind::BareScalar && t.span.start == at_span.end {
            let name_end = emit::find_name_end(self.input, t.span);
            let name = Span::new(t.span.start, name_end);
            self.check_tag_name(name);
            if name_end < t.span.end {
                self.queue(Event::Unit { span: Span::new(name_end, name_end + 1) });
                self.queue(Event::TagEnd);
                return emit::tag_start_event(
                    self.input,
                    Span::new(at_span.start, name_end + 1),
                    name,
                );
            }
            self.parse_tag_payload(name);
            return emit::tag_start_event(self.input, Span::new(at_span.start, name_end), name);
        }
        self.unread(t);
        Event::Unit { span: at_span }
    }

    /// Whether the text at `span` is `schema`.
    fn is_schema(&self, span: Span) -> (r: bool)
        requires
            text::span_fits(self.src(), span),
        ensures
            r == (text::chars_at(self.src(), span) == "schema"@),
    {
        text::equal(text::slice_at(self.input, span), "schema")
    }

    /// Reads the key that starts with the `@` at `at_span`.
    fn handle_at_as_key(&mut self, at_span: Span) -> (e: Option<Event<'src>>)
        requires
            old(self).in_step(),
        ensures
            old(self).made(
                *final(self),
                e,
                machine::at_key(old(self).src(), old(self).machine(), at_span),
            ),
    {
        proof {
            reveal(machine::at_key);
        }
        let t = self.next_token();
        if t.kind == TokenKind::BareScalar && t.span.start == at_span.end {
            let name_end = emit::find_name_end(self.input, t.span);
            let name = Span::new(t.span.start, name_end);
            if name_end < t.span.end {
                return Some(
                    Event::Error {
                        span: Span::new(at_span.start, name_end + 1),
                        kind: ParseErrorKind::InvalidKey,
                    },
                );
            }
            let key_span = Span::new(at_span.start, name_end);
            let next = self.next_token();
            self.unread(next);
            let block = next.kind == TokenKind::LBrace || next.kind == TokenKind::LParen
                || next.kind == TokenKind::At;
            if block && next.span.start == name_end {
                return Some(Event::Error { span: key_span, kind: ParseErrorKind::InvalidKey });
            }
            if self.is_schema(name) {
                if let Some(Context::Object { implicit: true }) = self.context() {
                    self.skip_value();
                    self.undocument();
                    return None;
                }
            }
            self.check_tag_name(name);
            self.emit_pending_docs();
            let tag = text::slice_at(self.input, name);
            self.queue(
                Event::Key { span: key_span, tag: Some(tag), payload: None, kind: ScalarKind::Bare },
            );
            self.go(State::AfterKey { key_span });
            return Some(Event::EntryStart);
        }
        self.unread(t);
        self.emit_pending_docs();
        self.queue(emit::unit_key_event(at_span));
        self.go(State::AfterKey { key_span: at_span });
        Some(Event::EntryStart)
    }

    // --- attributes ---

    /// Queues the entry of an attribute.
    fn queue_entry(&mut self, key_span: Span, value: Event<'src>)
        requires
            old(self).in_step(),
            text::span_fits(old(self).src(), key_span),
        ensures
            old(self).became(
                *final(self),
                machine::queued(
                    old(self).machine(),
                    machine::entry(old(self).src(), key_span, value@),
                ),
            ),
    {
        self.queue(Event::EntryStart);
        let key = self.key(key_span, ScalarKind::Bare);
        self.queue(key);
        self.queue(value);
        self.queue(Event::EntryEnd);
    }

    /// Reads whether another attribute follows the one of the key at `key_span`.
    /// If so, both are queued; if not, `value` is handed back.
    fn parse_more_attributes(&mut self, key_span: Span, value: Event<'src>) -> (r: Option<
        Event<'src>,
    >)
        requires
            old(self).in_step(),
            text::span_fits(old(self).src(), key_span),
        ensures
            old(self).became(
                *final(self),
                machine::more_attributes(old(self).src(), old(self).machine(), key_span, value@).1,
            ),
            match r {
                Some(back) => back@ == value@ && !machine::more_attributes(
                    old(self).src(),
                    old(self).machine(),
                    key_span,
                    value@,
                ).0,
                None => machine::more_attributes(
                    old(self).src(),
                    old(self).machine(),
                    key_span,
                    value@,
                ).0,
            },
    {
        proof {
            reveal(machine::more_attributes);
        }
        let next = self.next_token();
        if next.kind == TokenKind::BareScalar {
            let after = self.next_token();
            if after.kind == TokenKind::Gt && after.span.start == next.span.end {
                self.queue_entry(key_span, value);
                self.push(Context::AttributeObject);
                let t = self.next_token();
                let value2 = self.token_to_scalar(t);
                self.queue_entry(next.span, value2);
                self.go(State::InAttributeChain { obj_start_span: key_span });
                return None;
            }
            self.unread(after);
            self.unread(next);
        } else {
            self.unread(next);
        }
        Some(value)
    }

    /// Reads what follows `key>` where a key is expected.
    fn parse_attribute_value(&mut self, key_span: Span) -> (e: Option<Event<'src>>)
        requires
            old(self).in_step(),
            text::span_fits(old(self).src(), key_span),
        ensures
            old(self).made(
                *final(self),
                e,
                machine::attribute_value(old(self).src(), old(self).machine(), key_span),
            ),
    {
        proof {
            reveal(machine::attribute_value);
        }
        let t = self.next_token();
        match t.kind {
            TokenKind::BareScalar | TokenKind::QuotedScalar | TokenKind::RawScalar => {
                let value = self.token_to_scalar(t);
                if let Some(value) = self.parse_more_attributes(key_span, value) {
                    self.queue_entry(key_span, value);
                    self.queue(Event::ObjectEnd { span: key_span });
                    self.queue(Event::EntryEnd);
                    self.go(State::ExpectingEntry);
                }
                Some(Event::ObjectStart { span: key_span, separator: Separator::Comma })
            },
            TokenKind::LBrace => {
                self.queue(Event::EntryStart);
                let key = self.key(key_span, ScalarKind::Bare);
                self.queue(key);
                self.push(Context::Object { implicit: false });
                self.queue(Event::ObjectStart { span: t.span, separator: Separator::Comma });
                self.go(State::ExpectingEntry);
                Some(Event::ObjectStart { span: key_span, separator: Separator::Comma })
            },
            TokenKind::LParen => {
                self.queue(Event::EntryStart);
                let key = self.key(key_span, ScalarKind::Bare);
                self.queue(key);
                self.push(Context::Sequence);
                self.queue(Event::SequenceStart { span: t.span });
                self.go(State::ExpectingSequenceElement);
                Some(Event::ObjectStart { span: key_span, separator: Separator::Comma })
            },
            TokenKind::At => {
                let value = self.parse_tag_value(t.span);
                self.queue_entry(key_span, value);
                self.queue(Event::ObjectEnd { span: key_span });
                self.queue(Event::EntryEnd);
                self.go(State::ExpectingEntry);
                Some(Event::ObjectStart { span: key_span, separator: Separator::Comma })
            },
            _ => {
                self.queue(Event::Error { span: t.span, kind: ParseErrorKind::ExpectedValue });
                self.queue(Event::EntryEnd);
                self.go(State::ExpectingEntry);
                None
            },
        }
    }

    /// Reads the value of an attribute that starts with the `@` at `at_span`.
    fn parse_attribute_tag(&mut self, key_span: Span, at_span: Span)
        requires
            old(self).in_step(),
        ensures
            old(self).became(
                *final(self),
                machine::attribute_tag(
                    old(self).src(),
                    old(self).machine(),
                    key_span,
                    at_span,
                ),
            ),
    {
        proof {
            reveal(machine::attribute_tag);
            progress::lemma_tag_appends(self.src(), self.machine(), at_span);
        }
        let waiting = self.event_queue.len();
        let open = self.context_stack.len();
        assert(waiting == self.machine().queue.len());
        let value = self.parse_tag_value(at_span);
        let ghost tagged = self.event_queue@;
        self.event_queue.insert(waiting, value);
        assert(event::event_views(self.event_queue@) =~= event::event_views(tagged).insert(
            waiting as int,
            value@,
        ));
        if self.context_stack.len() <= open {
            self.queue(Event::EntryEnd);
            self.go(State::InAttributeChain { obj_start_span: key_span });
        }
    }

    /// Reads a value that is no scalar and starts with `t`, behind `key>`.
    fn parse_nested_attribute(&mut self, key_span: Span, t: Token)
        requires
            old(self).in_step(),
            text::span_fits(old(self).src(), key_span),
        ensures
            old(self).became(
                *final(self),
                machine::nested_attribute(old(self).src(), old(self).machine(), key_span, t),
            ),
    {
        proof {
            reveal(machine::nested_attribute);
        }
        self.queue(Event::EntryStart);
        let key = self.key(key_span, ScalarKind::Bare);
        self.queue(key);
        self.push(Context::AttributeObject);
        proof {
            let before = old(self).machine();
            let opening = seq![
                EventView::EntryStart,
                machine::key(old(self).src(), key_span, ScalarKind::Bare),
            ];
            assert(self.machine() =~= machine::push(
                machine::queued(before, opening),
                Context::AttributeObject,
            ));
        }
        if t.kind == TokenKind::LBrace {
            self.queue(Event::ObjectStart { span: t.span, separator: Separator::Comma });
            self.push(Context::Object { implicit: false });
            self.go(State::ExpectingEntry);
        } else if t.kind == TokenKind::LParen {
            self.queue(Event::SequenceStart { span: t.span });
            self.push(Context::Sequence);
            self.go(State::ExpectingSequenceElement);
        } else {
            self.parse_attribute_tag(key_span, t.span);
        }
    }

    /// Reads what follows `key>` where a value is expected.
    fn parse_attribute_chain_as_value(&mut self, key_span: Span) -> (e: Option<Event<'src>>)
        requires
            old(self).in_step(),
            text::span_fits(old(self).src(), key_span),
        ensures
            old(self).made(
                *final(self),
                e,
                machine::attribute_chain(old(self).src(), old(self).machine(), key_span),
            ),
    {
        proof {
            reveal(machine::attribute_chain);
        }
        let t = self.next_token();
        if t.kind == TokenKind::LBrace || t.kind == TokenKind::LParen || t.kind == TokenKind::At {
            self.parse_nested_attribute(key_span, t);
            return Some(Event::ObjectStart { span: key_span, separator: Separator::Comma });
        }
        let value = self.token_to_scalar(t);
        if let Some(value) = self.parse_more_attributes(key_span, value) {
            self.queue_entry(key_span, value);
            self.queue(Event::ObjectEnd { span: key_span });
            self.go(State::AfterValue);
        }
        Some(Event::ObjectStart { span: key_span, separator: Separator::Comma })
    }

    // --- moves ---

    /// Reads what starts the root.
    fn step_before_root(&mut self) -> (e: Option<Event<'src>>)
        requires
            old(self).in_step(),
        ensures
            old(self).made(
                *final(self),
                e,
                machine::before_root(old(self).src(), old(self).machine()),
            ),
    {
        let t = self.next_token();
        match t.kind {
            TokenKind::Eof => {
                if self.expr_mode {
                    self.queue(Event::DocumentEnd);
                    self.go(State::Done);
                    return Some(Event::DocumentEnd);
                }
                self.push(Context::Object { implicit: true });
                self.queue(Event::ObjectEnd { span: Span::new(0, 0) });
                self.queue(Event::DocumentEnd);
                self.go(State::Done);
                Some(Event::ObjectStart { span: Span::new(0, 0), separator: Separator::Newline })
            },
            TokenKind::LineComment => Some(emit::comment_event(self.input, t.span)),
            TokenKind::DocComment => {
                self.document(t.span);
                None
            },
            TokenKind::Newline => None,
            TokenKind::LBrace => {
                self.push(Context::Object { implicit: false });
                self.go(State::ExpectingEntry);
                Some(Event::ObjectStart { span: t.span, separator: Separator::Comma })
            },
            _ => {
                self.push(Context::Object { implicit: true });
                self.unread(t);
                self.go(State::ExpectingEntry);
                Some(Event::ObjectStart { span: Span::new(0, 0), separator: Separator::Newline })
            },
        }
    }

    /// Queues the key at `span`.
    fn read_key(&mut self, span: Span, kind: ScalarKind) -> (e: Option<Event<'src>>)
        requires
            old(self).in_step(),
            emit::scalar_fits(old(self).src(), span, kind),
        ensures
            old(self).made(
                *final(self),
                e,
                machine::key_read(old(self).src(), old(self).machine(), span, kind),
            ),
    {
        self.emit_pending_docs();
        let key = self.key(span, kind);
        self.queue(key);
        if kind == ScalarKind::Bare {
            self.go(State::AfterBareKey { key_span: span });
        } else {
            self.go(State::AfterKey { key_span: span });
        }
        Some(Event::EntryStart)
    }

    /// Reads an entry of an object, or what closes the object.
    fn step_expecting_entry(&mut self) -> (e: Option<Event<'src>>)
        requires
            old(self).in_step(),
        ensures
            old(self).made(
                *final(self),
                e,
                machine::expecting_entry(old(self).src(), old(self).machine()),
            ),
    {
        let t = self.next_token_skip_newlines();
        match t.kind {
            TokenKind::Eof => self.close_contexts_at_eof(),
            TokenKind::RBrace => self.handle_rbrace(t.span),
            TokenKind::RParen => Some(
                Event::Error { span: t.span, kind: ParseErrorKind::UnexpectedToken },
            ),
            TokenKind::Comma => None,
            TokenKind::LineComment => Some(emit::comment_event(self.input, t.span)),
            TokenKind::DocComment => {
                self.document(t.span);
                None
            },
            TokenKind::BareScalar => self.read_key(t.span, ScalarKind::Bare),
            TokenKind::QuotedScalar => self.read_key(t.span, ScalarKind::Quoted),
            TokenKind::RawScalar => self.read_key(t.span, ScalarKind::Raw),
            TokenKind::At => self.handle_at_as_key(t.span),
            TokenKind::HeredocStart => {
                self.skip_heredoc();
                Some(Event::Error { span: t.span, kind: ParseErrorKind::InvalidKey })
            },
            _ => Some(Event::Error { span: t.span, kind: ParseErrorKind::ExpectedKey }),
        }
    }

    /// Reads whether a bare key is the key of an attribute.
    fn step_after_bare_key(&mut self, key_span: Span) -> (e: Option<Event<'src>>)
        requires
            old(self).in_step(),
            text::span_fits(old(self).src(), key_span),
        ensures
            old(self).made(
                *final(self),
                e,
                machine::after_bare_key(old(self).src(), old(self).machine(), key_span),
            ),
    {
        let t = self.next_token();
        if t.kind == TokenKind::Gt && t.span.start == key_span.end {
            return self.parse_attribute_value(key_span);
        }
        self.unread(t);
        self.go(State::AfterKey { key_span });
        None
    }

    /// Queues a unit value for the key at `key_span`, and the end of its entry.
    fn end_unit_entry(&mut self, key_span: Span)
        requires
            old(self).in_step(),
        ensures
            old(self).became(*final(self), machine::unit_entry(old(self).machine(), key_span)),
    {
        self.queue(Event::Unit { span: key_span });
        self.queue(Event::EntryEnd);
        self.go(State::ExpectingEntry);
    }

    /// Queues an error for a block at `span` right behind the key at `key_span`.
    fn check_spacing(&mut self, key_span: Span, span: Span)
        requires
            old(self).in_step(),
        ensures
            old(self).became(
                *final(self),
                machine::with_spacing(old(self).machine(), key_span, span),
            ),
    {
        if span.start == key_span.end {
            self.queue(
                Event::Error { span, kind: ParseErrorKind::MissingWhitespaceBeforeBlock },
            );
        }
    }

    /// Reads the value of a key.
    fn step_after_key(&mut self, key_span: Span) -> (e: Option<Event<'src>>)
        requires
            old(self).in_step(),
            text::span_fits(old(self).src(), key_span),
        ensures
            old(self).made(
                *final(self),
                e,
                machine::after_key(old(self).src(), old(self).machine(), key_span),
            ),
    {
        let t = self.next_token();
        match t.kind {
            TokenKind::Newline
            | TokenKind::Eof
            | TokenKind::RBrace
            | TokenKind::RParen
            | TokenKind::Comma => {
                self.unread(t);
                self.end_unit_entry(key_span);
                None
            },
            TokenKind::LBrace => {
                self.check_spacing(key_span, t.span);
                self.push(Context::Object { implicit: false });
                self.go(State::ExpectingEntry);
                Some(Event::ObjectStart { span: t.span, separator: Separator::Comma })
            },
            TokenKind::LParen => {
                self.check_spacing(key_span, t.span);
                self.push(Context::Sequence);
                self.go(State::ExpectingSequenceElement);
                Some(Event::SequenceStart { span: t.span })
            },
            TokenKind::At => {
                let event = self.parse_tag_value(t.span);
                self.go(State::AfterValue);
                Some(event)
            },
            TokenKind::BareScalar => {
                let next = self.next_token();
                if next.kind == TokenKind::Gt && next.span.start == t.span.end {
                    return self.parse_attribute_chain_as_value(t.span);
                }
                self.unread(next);
                self.go(State::AfterValue);
                Some(self.scalar(t.span, ScalarKind::Bare))
            },
            TokenKind::QuotedScalar => {
                self.go(State::AfterValue);
                Some(self.scalar(t.span, ScalarKind::Quoted))
            },
            TokenKind::RawScalar => {
                self.go(State::AfterValue);
                Some(self.scalar(t.span, ScalarKind::Raw))
            },
            TokenKind::HeredocStart => {
                let event = self.parse_heredoc(t.span);
                self.go(State::AfterValue);
                Some(event)
            },
            TokenKind::LineComment => {
                self.end_unit_entry(key_span);
                Some(emit::comment_event(self.input, t.span))
            },
            _ => {
                self.end_unit_entry(key_span);
                Some(Event::Error { span: t.span, kind: ParseErrorKind::UnexpectedToken })
            },
        }
    }

    /// Queues the end of an entry.
    fn end_entry(&mut self)
        requires
            old(self).in_step(),
        ensures
            old(self).became(*final(self), machine::entry_ended(old(self).machine())),
    {
        self.queue(Event::EntryEnd);
        self.go(State::ExpectingEntry);
    }

    /// Reads what follows the value of an entry.
    fn step_after_value(&mut self) -> (e: Option<Event<'src>>)
        requires
            old(self).in_step(),
        ensures
            old(self).made(
                *final(self),
                e,
                machine::after_value(old(self).src(), old(self).machine()),
            ),
    {
        let t = self.next_token();
        match t.kind {
            TokenKind::Newline
            | TokenKind::Eof
            | TokenKind::RBrace
            | TokenKind::RParen
            | TokenKind::Comma => {
                self.unread(t);
                self.end_entry();
                None
            },
            TokenKind::LineComment => {
                self.end_entry();
                Some(emit::comment_event(self.input, t.span))
            },
            TokenKind::BareScalar
            | TokenKind::QuotedScalar
            | TokenKind::RawScalar
            | TokenKind::LBrace
            | TokenKind::LParen
            | TokenKind::At
            | TokenKind::HeredocStart => {
                self.queue(Event::Error { span: t.span, kind: ParseErrorKind::TooManyAtoms });
                self.skip_to_entry_boundary();
                self.end_entry();
                None
            },
            _ => {
                self.end_entry();
                None
            },
        }
    }

    /// Reads another attribute, or what ends them.
    fn step_in_attribute_chain(&mut self, obj_start_span: Span) -> (e: Option<Event<'src>>)
        requires
            old(self).in_step(),
            text::span_fits(old(self).src(), obj_start_span),
        ensures
            old(self).made(
                *final(self),
                e,
                machine::in_attribute_chain(old(self).src(), old(self).machine(), obj_start_span),
            ),
    {
        let t = self.next_token();
        match t.kind {
            TokenKind::BareScalar => {
                let next = self.next_token();
                if next.kind == TokenKind::Gt && next.span.start == t.span.end {
                    let t2 = self.next_token();
                    let value = self.token_to_scalar(t2);
                    self.queue_entry(t.span, value);
                    self.go(State::InAttributeChain { obj_start_span });
                    return None;
                }
                self.unread(next);
                self.queue(Event::Error { span: t.span, kind: ParseErrorKind::TooManyAtoms });
                self.skip_to_entry_boundary();
                self.close_attribute_chain();
                None
            },
            TokenKind::LineComment => {
                self.close_attribute_chain();
                Some(emit::comment_event(self.input, t.span))
            },
            _ => {
                self.unread(t);
                self.close_attribute_chain();
                None
            },
        }
    }

    /// Reads an element of a sequence, or what closes the sequence.
    fn step_expecting_sequence_element(&mut self) -> (e: Option<Event<'src>>)
        requires
            old(self).in_step(),
        ensures
            old(self).made(
                *final(self),
                e,
                machine::expecting_sequence_element(old(self).src(), old(self).machine()),
            ),
    {
        let t = self.next_token_skip_newlines();
        match t.kind {
            TokenKind::RParen => {
                self.close();
                Some(Event::SequenceEnd { span: t.span })
            },
            TokenKind::Eof => {
                self.queue(Event::Error { span: t.span, kind: ParseErrorKind::UnclosedSequence });
                self.close_contexts_at_eof()
            },
            TokenKind::RBrace => Some(
                Event::Error { span: t.span, kind: ParseErrorKind::UnexpectedToken },
            ),
            TokenKind::BareScalar => Some(self.scalar(t.span, ScalarKind::Bare)),
            TokenKind::QuotedScalar => Some(self.scalar(t.span, ScalarKind::Quoted)),
            TokenKind::RawScalar => Some(self.scalar(t.span, ScalarKind::Raw)),
            TokenKind::HeredocStart => {
                let event = self.parse_heredoc(t.span);
                Some(event)
            },
            TokenKind::LBrace => {
                self.push(Context::Object { implicit: false });
                self.go(State::ExpectingEntry);
                Some(Event::ObjectStart { span: t.span, separator: Separator::Comma })
            },
            TokenKind::LParen => {
                self.push(Context::Sequence);
                Some(Event::SequenceStart { span: t.span })
            },
            TokenKind::At => {
                let event = self.parse_tag_value(t.span);
                Some(event)
            },
            TokenKind::LineComment => Some(emit::comment_event(self.input, t.span)),
            _ => None,
        }
    }

    /// Makes one move.
    fn step(&mut self) -> (e: Option<Event<'src>>)
        requires
            old(self).wf(),
        ensures
            old(self).made(*final(self), e, machine::step(old(self).src(), old(self).machine())),
    {
        match self.state {
            State::Start => {
                self.go(State::BeforeRoot);
                Some(Event::DocumentStart)
            },
            State::BeforeRoot => self.step_before_root(),
            State::ExpectingEntry => self.step_expecting_entry(),
            State::AfterBareKey { key_span } => self.step_after_bare_key(key_span),
            State::AfterKey { key_span } => self.step_after_key(key_span),
            State::AfterValue => self.step_after_value(),
            State::InAttributeChain { obj_start_span } => self.step_in_attribute_chain(
                obj_start_span,
            ),
            State::ExpectingSequenceElement => self.step_expecting_sequence_element(),
            State::Done => None,
        }
    }

    /// The next event, or nothing once there are no more.
    pub fn next_event(&mut self) -> (e: Option<Event<'src>>)
        requires
            old(self).wf(),
        ensures
            final(self).wf(),
            final(self).src() == old(self).src(),
            event::event_view(e) == run::next(old(self).src(), old(self).machine()).0,
            final(self).machine() == run::next(old(self).src(), old(self).machine()).1,
    {
        let ghost src = self.src();
        let ghost goal = run::next(src, self.machine());
        loop
            invariant
                self.wf(),
                self.src() == src,
                src == old(self).src(),
                goal == run::next(src, old(self).machine()),
                goal == run::next(src, self.machine()),
            decreases progress::distance(src, self.machine()),
        {
            let ghost before = self.machine();
            let ghost queue = self.event_queue@;
            if let Some(event) = self.event_queue.pop_front() {
                proof {
                    assert(event@ == before.queue[0]);
                    assert(event::event_views(self.event_queue@) =~= before.queue.drop_first());
                    assert(self.machine() =~= run::dequeued(before));
                    run::lemma_dequeued(src, before);
                }
                return Some(event);
            }
            assert(self.machine() =~= before);
            if self.state == State::Done {
                return None;
            }
            proof {
                progress::lemma_step(src, self.machine());
                reveal(progress::advances);
            }
            if let Some(event) = self.step() {
                return Some(event);
            }
        }
    }

    /// All events.
    pub fn parse_to_vec(self) -> (events: Vec<Event<'src>>)
        requires
            self.wf(),
        ensures
            event::event_views(events@) == run::run(self.src(), self.machine()),
    {
        let mut parser = self;
        let mut events: Vec<Event<'src>> = Vec::new();
        let ghost src = self.src();
        let ghost goal = run::run(src, self.machine());
        assert(event::event_views(events@) + goal =~= goal);
        loop
            invariant
                parser.wf(),
                parser.src() == src,
                goal == event::event_views(events@) + run::run(src, parser.machine()),
            ensures
                goal == event::event_views(events@),
            decreases progress::distance(src, parser.machine()),
        {
            proof {
                run::lemma_next(src, parser.machine());
            }
            let ghost before = event::event_views(events@);
            let ghost rest = run::run(src, parser.machine());
            match parser.next_event() {
                Some(e) => {
                    events.push(e);
                    assert(before + rest =~= event::event_views(events@) + run::run(
                        src,
                        parser.machine(),
                    ));
                },
                None => {
                    assert(before + rest =~= before);
                    break;
                },
            }
        }
        events
    }
}

/// Whether `b` may start the name of a tag.
fn starts_tag_name(b: u8) -> (r: bool)
    ensures
        r == machine::starts_tag_name(b),
{
    (ascii::LOWER_A <= b && b <= ascii::LOWER_Z) || (ascii::UPPER_A <= b && b <= ascii::UPPER_Z)
        || b == ascii::UNDERSCORE
}

} // verus!
