//! A pull parser with a stack of frames.
//!
//! It is set up at the start of its source; it does not read events yet.
use crate::lexer::{LexState, Lexer};
use vstd::prelude::*;
use vstd::string::*;

verus! {

/// What surrounds the place where the parser stands.
#[derive(Debug, Clone, Copy, PartialEq, Eq, Structural)]
pub struct Frame {
    /// What it is.
    pub kind: FrameKind,
}

/// What a frame is.
#[derive(Debug, Clone, Copy, PartialEq, Eq, Structural)]
pub enum FrameKind {
    /// An object.
    Object,
    /// A sequence.
    Sequence,
}

/// A pull parser with a stack of frames.
pub struct Parser<'src> {
    input: &'src str,
    lexer: Lexer<'src>,
    stack: Vec<Frame>,
}

impl<'src> Parser<'src> {
    /// The bytes of the source.
    pub closed spec fn src(&self) -> Seq<u8> {
        self.input.spec_bytes()
    }

    /// Where the lexer stands.
    pub closed spec fn lex(&self) -> LexState {
        self.lexer.state()
    }

    /// What surrounds the place, from the outside in.
    pub closed spec fn frames(&self) -> Seq<Frame> {
        self.stack@
    }

    /// The lexer reads the source.
    pub closed spec fn wf(&self) -> bool {
        self.lexer.wf() && self.lexer.src() == self.src()
    }

    /// A parser at the start of the document `source`.
    pub fn new(source: &'src str) -> (parser: Self)
        requires
            source.spec_bytes().len() <= u32::MAX,
        ensures
            parser.wf(),
            parser.src() == source.spec_bytes(),
            parser.lex() == (LexState { pos: 0, heredoc: None }),
            parser.frames() == Seq::<Frame>::empty(),
    {
        Parser { input: source, lexer: Lexer::new(source), stack: Vec::new() }
    }
}

impl<'src> Clone for Parser<'src> {
    /// A parser at the same place.
    fn clone(&self) -> (parser: Self)
        ensures
            parser.src() == self.src(),
            parser.lex() == self.lex(),
            parser.frames() == self.frames(),
            self.wf() ==> parser.wf(),
    {
        let stack = self.stack.clone();
        assert(stack@ =~= self.stack@);
        Parser { input: self.input, lexer: self.lexer, stack }
    }
}

} // verus!
