//! Byte ranges of the source.
use vstd::prelude::*;

verus! {

/// A half-open byte range `start..end` of the source text.
#[derive(Debug, Clone, Copy, PartialEq, Eq, Structural)]
pub struct Span {
    /// Offset of the first byte.
    pub start: u32,
    /// Offset just past the last byte.
    pub end: u32,
}

impl Span {
    /// The span `start..end`.
    pub fn new(start: u32, end: u32) -> (span: Span)
        ensures
            span == (Span { start, end }),
    {
        Span { start, end }
    }
}

} // verus!
