//! The events that the parsers emit.
use crate::span::Span;
use std::borrow::Cow;
use vstd::prelude::*;

verus! {

/// How a scalar was written.
#[derive(Debug, Clone, Copy, PartialEq, Eq, Structural)]
pub enum ScalarKind {
    /// Without quotes.
    Bare,
    /// `"..."`
    Quoted,
    /// `r"..."` or `r#"..."#`
    Raw,
    /// `<<NAME ... NAME`
    Heredoc,
}

/// What separates the entries of an object.
#[derive(Debug, Clone, Copy, PartialEq, Eq, Structural)]
pub enum Separator {
    /// Line breaks.
    Newline,
    /// Commas.
    Comma,
}

/// What is wrong with the source.
#[derive(Debug, Clone, PartialEq, Eq)]
pub enum ParseErrorKind {
    /// A token that cannot stand where it does.
    UnexpectedToken,
    /// An object that is never closed.
    UnclosedObject,
    /// A sequence that is never closed.
    UnclosedSequence,
    /// Commas and line breaks separate the entries of one object.
    MixedSeparators,
    /// An escape that has no meaning, as it is written.
    InvalidEscape(String),
    /// A key was expected.
    ExpectedKey,
    /// A value was expected.
    ExpectedValue,
    /// The input ends too early.
    UnexpectedEof,
    /// A key occurs twice in one object.
    DuplicateKey {
        /// Where the key first stands.
        original: Span,
    },
    /// A tag whose name is not a name.
    InvalidTagName,
    /// Something that cannot be a key.
    InvalidKey,
    /// A doc comment with no entry after it.
    DanglingDocComment,
    /// More values than one after a key.
    TooManyAtoms,
    /// A dotted path goes back into an object that was left.
    ReopenedPath {
        /// The path that was left.
        closed_path: Vec<String>,
    },
    /// A dotted path goes into a value that is no object.
    NestIntoTerminal {
        /// The path of that value.
        terminal_path: Vec<String>,
    },
    /// A comma in a sequence.
    CommaInSequence,
    /// `{` or `(` directly after a bare key.
    MissingWhitespaceBeforeBlock,
}

/// A [`ParseErrorKind`] with its texts as sequences of characters.
#[verifier::ext_equal]
pub enum ParseErrorKindView {
    /// See [`ParseErrorKind::UnexpectedToken`].
    UnexpectedToken,
    /// See [`ParseErrorKind::UnclosedObject`].
    UnclosedObject,
    /// See [`ParseErrorKind::UnclosedSequence`].
    UnclosedSequence,
    /// See [`ParseErrorKind::MixedSeparators`].
    MixedSeparators,
    /// See [`ParseErrorKind::InvalidEscape`].
    InvalidEscape(Seq<char>),
    /// See [`ParseErrorKind::ExpectedKey`].
    ExpectedKey,
    /// See [`ParseErrorKind::ExpectedValue`].
    ExpectedValue,
    /// See [`ParseErrorKind::UnexpectedEof`].
    UnexpectedEof,
    /// See [`ParseErrorKind::DuplicateKey`].
    DuplicateKey { original: Span },
    /// See [`ParseErrorKind::InvalidTagName`].
    InvalidTagName,
    /// See [`ParseErrorKind::InvalidKey`].
    InvalidKey,
    /// See [`ParseErrorKind::DanglingDocComment`].
    DanglingDocComment,
    /// See [`ParseErrorKind::TooManyAtoms`].
    TooManyAtoms,
    /// See [`ParseErrorKind::ReopenedPath`].
    ReopenedPath { closed_path: Seq<Seq<char>> },
    /// See [`ParseErrorKind::NestIntoTerminal`].
    NestIntoTerminal { terminal_path: Seq<Seq<char>> },
    /// See [`ParseErrorKind::CommaInSequence`].
    CommaInSequence,
    /// See [`ParseErrorKind::MissingWhitespaceBeforeBlock`].
    MissingWhitespaceBeforeBlock,
}

impl View for ParseErrorKind {
    type V = ParseErrorKindView;

    open spec fn view(&self) -> ParseErrorKindView {
        match self {
            ParseErrorKind::UnexpectedToken => ParseErrorKindView::UnexpectedToken,
            ParseErrorKind::UnclosedObject => ParseErrorKindView::UnclosedObject,
            ParseErrorKind::UnclosedSequence => ParseErrorKindView::UnclosedSequence,
            ParseErrorKind::MixedSeparators => ParseErrorKindView::MixedSeparators,
            ParseErrorKind::InvalidEscape(s) => ParseErrorKindView::InvalidEscape(s@),
            ParseErrorKind::ExpectedKey => ParseErrorKindView::ExpectedKey,
            ParseErrorKind::ExpectedValue => ParseErrorKindView::ExpectedValue,
            ParseErrorKind::UnexpectedEof => ParseErrorKindView::UnexpectedEof,
            ParseErrorKind::DuplicateKey { original } => ParseErrorKindView::DuplicateKey {
                original: *original,
            },
            ParseErrorKind::InvalidTagName => ParseErrorKindView::InvalidTagName,
            ParseErrorKind::InvalidKey => ParseErrorKindView::InvalidKey,
            ParseErrorKind::DanglingDocComment => ParseErrorKindView::DanglingDocComment,
            ParseErrorKind::TooManyAtoms => ParseErrorKindView::TooManyAtoms,
            ParseErrorKind::ReopenedPath { closed_path } => ParseErrorKindView::ReopenedPath {
                closed_path: closed_path@.map_values(|s: String| s@),
            },
            ParseErrorKind::NestIntoTerminal { terminal_path } => {
                ParseErrorKindView::NestIntoTerminal {
                    terminal_path: terminal_path@.map_values(|s: String| s@),
                }
            },
            ParseErrorKind::CommaInSequence => ParseErrorKindView::CommaInSequence,
            ParseErrorKind::MissingWhitespaceBeforeBlock => {
                ParseErrorKindView::MissingWhitespaceBeforeBlock
            },
        }
    }
}

/// One step in the structure of a document.
#[derive(Debug, PartialEq)]
pub enum Event<'src> {
    /// The document starts.
    DocumentStart,
    /// The document ends.
    DocumentEnd,
    /// An object starts.
    ObjectStart { span: Span, separator: Separator },
    /// An object ends.
    ObjectEnd { span: Span },
    /// A sequence starts.
    SequenceStart { span: Span },
    /// A sequence ends.
    SequenceEnd { span: Span },
    /// An entry of an object starts.
    EntryStart,
    /// An entry of an object ends.
    EntryEnd,
    /// The key of an entry: a scalar, a tag, or neither for the unit key `@`.
    Key { span: Span, tag: Option<&'src str>, payload: Option<Cow<'src, str>>, kind: ScalarKind },
    /// A scalar.
    Scalar { span: Span, value: Cow<'src, str>, kind: ScalarKind },
    /// The unit value.
    Unit { span: Span },
    /// A tag starts; its payload follows.
    TagStart { span: Span, name: &'src str },
    /// A tag ends.
    TagEnd,
    /// A line comment.
    Comment { span: Span, text: &'src str },
    /// A doc comment.
    DocComment { span: Span, text: &'src str },
    /// Something is wrong with the source.
    Error { span: Span, kind: ParseErrorKind },
}

/// An [`Event`] with its texts as sequences of characters.
#[verifier::ext_equal]
pub enum EventView {
    /// See [`Event::DocumentStart`].
    DocumentStart,
    /// See [`Event::DocumentEnd`].
    DocumentEnd,
    /// See [`Event::ObjectStart`].
    ObjectStart { span: Span, separator: Separator },
    /// See [`Event::ObjectEnd`].
    ObjectEnd { span: Span },
    /// See [`Event::SequenceStart`].
    SequenceStart { span: Span },
    /// See [`Event::SequenceEnd`].
    SequenceEnd { span: Span },
    /// See [`Event::EntryStart`].
    EntryStart,
    /// See [`Event::EntryEnd`].
    EntryEnd,
    /// See [`Event::Key`].
    Key { span: Span, tag: Option<Seq<char>>, payload: Option<Seq<char>>, kind: ScalarKind },
    /// See [`Event::Scalar`].
    Scalar { span: Span, value: Seq<char>, kind: ScalarKind },
    /// See [`Event::Unit`].
    Unit { span: Span },
    /// See [`Event::TagStart`].
    TagStart { span: Span, name: Seq<char> },
    /// See [`Event::TagEnd`].
    TagEnd,
    /// See [`Event::Comment`].
    Comment { span: Span, text: Seq<char> },
    /// See [`Event::DocComment`].
    DocComment { span: Span, text: Seq<char> },
    /// See [`Event::Error`].
    Error { span: Span, kind: ParseErrorKindView },
}

impl<'src> View for Event<'src> {
    type V = EventView;

    open spec fn view(&self) -> EventView {
        match self {
            Event::DocumentStart => EventView::DocumentStart,
            Event::DocumentEnd => EventView::DocumentEnd,
            Event::ObjectStart { span, separator } => EventView::ObjectStart {
                span: *span,
                separator: *separator,
            },
            Event::ObjectEnd { span } => EventView::ObjectEnd { span: *span },
            Event::SequenceStart { span } => EventView::SequenceStart { span: *span },
            Event::SequenceEnd { span } => EventView::SequenceEnd { span: *span },
            Event::EntryStart => EventView::EntryStart,
            Event::EntryEnd => EventView::EntryEnd,
            Event::Key { span, tag, payload, kind } => EventView::Key {
                span: *span,
                tag: match tag {
                    Some(t) => Some(t@),
                    None => None,
                },
                payload: match payload {
                    Some(p) => Some(p@),
                    None => None,
                },
                kind: *kind,
            },
            Event::Scalar { span, value, kind } => EventView::Scalar {
                span: *span,
                value: value@,
                kind: *kind,
            },
            Event::Unit { span } => EventView::Unit { span: *span },
            Event::TagStart { span, name } => EventView::TagStart { span: *span, name: name@ },
            Event::TagEnd => EventView::TagEnd,
            Event::Comment { span, text } => EventView::Comment { span: *span, text: text@ },
            Event::DocComment { span, text } => EventView::DocComment { span: *span, text: text@ },
            Event::Error { span, kind } => EventView::Error { span: *span, kind: kind@ },
        }
    }
}

/// What an emitted event, or none, says.
pub open spec fn event_view(event: Option<Event<'_>>) -> Option<EventView> {
    match event {
        Some(e) => Some(e@),
        None => None,
    }
}

/// What a list of events says.
pub open spec fn event_views(events: Seq<Event<'_>>) -> Seq<EventView> {
    events.map_values(|e: Event<'_>| e@)
}

/// The range of the source that an event speaks of, if it speaks of one.
pub open spec fn event_span(event: EventView) -> Option<Span> {
    match event {
        EventView::ObjectStart { span, .. } => Some(span),
        EventView::ObjectEnd { span } => Some(span),
        EventView::SequenceStart { span } => Some(span),
        EventView::SequenceEnd { span } => Some(span),
        EventView::Key { span, .. } => Some(span),
        EventView::Scalar { span, .. } => Some(span),
        EventView::Unit { span } => Some(span),
        EventView::TagStart { span, .. } => Some(span),
        EventView::Comment { span, .. } => Some(span),
        EventView::DocComment { span, .. } => Some(span),
        EventView::Error { span, .. } => Some(span),
        _ => None,
    }
}

} // verus!
