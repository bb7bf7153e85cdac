//! What validation finds.
use crate::span::Span;
use vstd::prelude::*;
use vstd::string::*;

verus! {

/// What validation found.
#[derive(Debug, Clone)]
pub struct ValidationResult {
    /// The errors. A value without errors is valid.
    pub errors: Vec<ValidationError>,
    /// The warnings. They do not make a value invalid.
    pub warnings: Vec<ValidationWarning>,
}

/// An error.
#[derive(Debug, Clone)]
pub struct ValidationError {
    /// The path to the place, such as `server.tls.cert`.
    pub path: String,
    /// The place in the source.
    pub span: Option<Span>,
    /// What is wrong.
    pub kind: ValidationErrorKind,
    /// What is wrong, for a reader.
    pub message: String,
}

/// What is wrong.
#[derive(Debug, Clone, PartialEq, Eq)]
pub enum ValidationErrorKind {
    /// A field that must be there is not.
    MissingField { field: String },
    /// A field that must not be there is.
    UnknownField { field: String },
    /// A value of another type.
    TypeMismatch { expected: String, got: String },
    /// A value that its type does not have.
    InvalidValue { reason: String },
    /// A type that the schema does not define.
    UnknownType { name: String },
    /// A variant that the enum does not have.
    InvalidVariant { expected: Vec<String>, got: String },
    /// A value of none of the types of a union.
    UnionMismatch { tried: Vec<String> },
    /// Something else than an object.
    ExpectedObject,
    /// Something else than a sequence.
    ExpectedSequence,
    /// Something else than a scalar.
    ExpectedScalar,
    /// Something else than a tag.
    ExpectedTagged,
    /// Another tag.
    WrongTag { expected: String, got: String },
    /// The schema itself is wrong.
    SchemaError { reason: String },
}

/// A warning.
#[derive(Debug, Clone)]
pub struct ValidationWarning {
    /// The path to the place.
    pub path: String,
    /// The place in the source.
    pub span: Option<Span>,
    /// What is to be noted.
    pub kind: ValidationWarningKind,
    /// What is to be noted, for a reader.
    pub message: String,
}

/// What is to be noted.
#[derive(Debug, Clone, PartialEq, Eq)]
pub enum ValidationWarningKind {
    /// A field or type that is no longer to be used.
    Deprecated { reason: String },
    /// A field that has no effect.
    IgnoredField { field: String },
}

/// A [`ValidationErrorKind`] with its texts as sequences of characters.
#[verifier::ext_equal]
pub enum KindView {
    /// See [`ValidationErrorKind::MissingField`].
    MissingField { field: Seq<char> },
    /// See [`ValidationErrorKind::UnknownField`].
    UnknownField { field: Seq<char> },
    /// See [`ValidationErrorKind::TypeMismatch`].
    TypeMismatch { expected: Seq<char>, got: Seq<char> },
    /// See [`ValidationErrorKind::InvalidValue`].
    InvalidValue { reason: Seq<char> },
    /// See [`ValidationErrorKind::UnknownType`].
    UnknownType { name: Seq<char> },
    /// See [`ValidationErrorKind::InvalidVariant`].
    InvalidVariant { expected: Seq<Seq<char>>, got: Seq<char> },
    /// See [`ValidationErrorKind::UnionMismatch`].
    UnionMismatch { tried: Seq<Seq<char>> },
    /// See [`ValidationErrorKind::ExpectedObject`].
    ExpectedObject,
    /// See [`ValidationErrorKind::ExpectedSequence`].
    ExpectedSequence,
    /// See [`ValidationErrorKind::ExpectedScalar`].
    ExpectedScalar,
    /// See [`ValidationErrorKind::ExpectedTagged`].
    ExpectedTagged,
    /// See [`ValidationErrorKind::WrongTag`].
    WrongTag { expected: Seq<char>, got: Seq<char> },
    /// See [`ValidationErrorKind::SchemaError`].
    SchemaError { reason: Seq<char> },
}

/// A [`ValidationError`] with its texts as sequences of characters.
#[verifier::ext_equal]
pub struct ErrorView {
    /// See [`ValidationError::path`].
    pub path: Seq<char>,
    /// See [`ValidationError::span`].
    pub span: Option<Span>,
    /// See [`ValidationError::kind`].
    pub kind: KindView,
    /// See [`ValidationError::message`].
    pub message: Seq<char>,
}

/// Texts as sequences of characters.
pub open spec fn texts(list: Seq<String>) -> Seq<Seq<char>> {
    list.map_values(|s: String| s@)
}

impl View for ValidationErrorKind {
    type V = KindView;

    open spec fn view(&self) -> KindView {
        match self {
            ValidationErrorKind::MissingField { field } => KindView::MissingField {
                field: field@,
            },
            ValidationErrorKind::UnknownField { field } => KindView::UnknownField {
                field: field@,
            },
            ValidationErrorKind::TypeMismatch { expected, got } => KindView::TypeMismatch {
                expected: expected@,
                got: got@,
            },
            ValidationErrorKind::InvalidValue { reason } => KindView::InvalidValue {
                reason: reason@,
            },
            ValidationErrorKind::UnknownType { name } => KindView::UnknownType { name: name@ },
            ValidationErrorKind::InvalidVariant { expected, got } => KindView::InvalidVariant {
                expected: texts(expected@),
                got: got@,
            },
            ValidationErrorKind::UnionMismatch { tried } => KindView::UnionMismatch {
                tried: texts(tried@),
            },
            ValidationErrorKind::ExpectedObject => KindView::ExpectedObject,
            ValidationErrorKind::ExpectedSequence => KindView::ExpectedSequence,
            ValidationErrorKind::ExpectedScalar => KindView::ExpectedScalar,
            ValidationErrorKind::ExpectedTagged => KindView::ExpectedTagged,
            ValidationErrorKind::WrongTag { expected, got } => KindView::WrongTag {
                expected: expected@,
                got: got@,
            },
            ValidationErrorKind::SchemaError { reason } => KindView::SchemaError {
                reason: reason@,
            },
        }
    }
}

impl View for ValidationError {
    type V = ErrorView;

    open spec fn view(&self) -> ErrorView {
        ErrorView {
            path: self.path@,
            span: self.span,
            kind: self.kind@,
            message: self.message@,
        }
    }
}

/// What a list of errors says.
pub open spec fn error_views(errors: Seq<ValidationError>) -> Seq<ErrorView> {
    errors.map_values(|e: ValidationError| e@)
}

impl ValidationResult {
    /// Nothing was found.
    pub fn ok() -> (result: Self)
        ensures
            result.errors@.len() == 0,
            result.warnings@.len() == 0,
            error_views(result.errors@) == Seq::<ErrorView>::empty(),
    {
        let result = ValidationResult { errors: Vec::new(), warnings: Vec::new() };
        assert(error_views(result.errors@) =~= Seq::<ErrorView>::empty());
        result
    }

    /// Whether no error was found.
    pub fn is_valid(&self) -> (r: bool)
        ensures
            r == (self.errors@.len() == 0),
    {
        self.errors.len() == 0
    }

    /// Adds an error.
    pub fn error(&mut self, error: ValidationError)
        ensures
            final(self).errors@ == old(self).errors@.push(error),
            final(self).warnings@ == old(self).warnings@,
            error_views(final(self).errors@) == error_views(old(self).errors@).push(error@),
    {
        let ghost before = self.errors@;
        self.errors.push(error);
        assert(error_views(self.errors@) =~= error_views(before).push(error@));
    }

    /// Adds a warning.
    pub fn warning(&mut self, warning: ValidationWarning)
        ensures
            final(self).warnings@ == old(self).warnings@.push(warning),
            final(self).errors@ == old(self).errors@,
    {
        self.warnings.push(warning);
    }

    /// Adds what another validation found.
    pub fn merge(&mut self, other: ValidationResult)
        ensures
            final(self).errors@ == old(self).errors@ + other.errors@,
            final(self).warnings@ == old(self).warnings@ + other.warnings@,
            error_views(final(self).errors@) == error_views(old(self).errors@) + error_views(
                other.errors@,
            ),
    {
        let ghost before = self.errors@;
        let mut other = other;
        let ghost found = other.errors@;
        self.errors.append(&mut other.errors);
        self.warnings.append(&mut other.warnings);
        assert(error_views(self.errors@) =~= error_views(before) + error_views(found));
    }
}

impl ValidationError {
    /// An error without a place in the source.
    pub fn new(path: &str, kind: ValidationErrorKind, message: &str) -> (error: Self)
        ensures
            error.path@ == path@,
            error.span is None,
            error.kind == kind,
            error.message@ == message@,
    {
        ValidationError { path: path.to_owned(), span: None, kind, message: message.to_owned() }
    }

    /// The error with a place in the source.
    pub fn with_span(self, span: Option<Span>) -> (error: Self)
        ensures
            error == (ValidationError { span, ..self }),
    {
        ValidationError { path: self.path, span, kind: self.kind, message: self.message }
    }

    /// What is wrong and, if it has a path, where.
    pub fn describe(&self) -> (text: String)
        ensures
            text@ == if self.path@.len() == 0 {
                self.message@
            } else {
                self.path@ + ": "@ + self.message@
            },
    {
        if self.path.as_str().is_empty() {
            self.message.clone()
        } else {
            let mut text = self.path.clone();
            text.append(": ");
            text.append(self.message.as_str());
            text
        }
    }
}

impl ValidationWarning {
    /// A warning without a place in the source.
    pub fn new(path: &str, kind: ValidationWarningKind, message: &str) -> (warning: Self)
        ensures
            warning.path@ == path@,
            warning.span is None,
            warning.kind == kind,
            warning.message@ == message@,
    {
        ValidationWarning { path: path.to_owned(), span: None, kind, message: message.to_owned() }
    }
}

} // verus!
