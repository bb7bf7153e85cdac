//! The values of Styx documents.
use crate::span::Span;
use vstd::prelude::*;

verus! {

/// A value.
#[derive(Debug)]
pub enum Value {
    /// A scalar.
    Scalar(Scalar),
    /// The unit value `@`.
    Unit,
    /// A tag with or without a payload.
    Tagged(Tagged),
    /// A sequence.
    Sequence(Sequence),
    /// An object.
    Object(Object),
}

/// A scalar.
#[derive(Debug, Clone)]
pub struct Scalar {
    /// What the scalar says.
    pub text: String,
    /// Where it stands.
    pub span: Option<Span>,
}

/// A tag with or without a payload.
#[derive(Debug)]
pub struct Tagged {
    /// The name of the tag.
    pub tag: String,
    /// The payload.
    pub payload: Option<Box<Value>>,
}

/// A sequence.
#[derive(Debug)]
pub struct Sequence {
    /// The elements.
    pub items: Vec<Value>,
}

/// An object.
#[derive(Debug)]
pub struct Object {
    /// The entries.
    pub entries: Vec<Entry>,
}

/// An entry of an object.
#[derive(Debug)]
pub struct Entry {
    /// The key.
    pub key: Value,
    /// The value.
    pub value: Value,
}

impl Value {
    /// Whether this is the unit value.
    pub fn is_unit(&self) -> (r: bool)
        ensures
            r == (self is Unit),
    {
        matches!(self, Value::Unit)
    }
}

} // verus!
