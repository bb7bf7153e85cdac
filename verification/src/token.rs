//! Tokens of the Styx language.
use crate::span::Span;
use vstd::prelude::*;

verus! {

/// What a token is.
#[derive(Debug, Clone, Copy, PartialEq, Eq, Structural)]
pub enum TokenKind {
    /// `{`
    LBrace,
    /// `}`
    RBrace,
    /// `(`
    LParen,
    /// `)`
    RParen,
    /// `,`
    Comma,
    /// `>`
    Gt,
    /// `@`
    At,
    /// An unquoted run of characters.
    BareScalar,
    /// `"..."`, with escapes.
    QuotedScalar,
    /// `r"..."` or `r#"..."#`.
    RawScalar,
    /// `<<NAME` together with the rest of its line.
    HeredocStart,
    /// One line of a heredoc.
    HeredocContent,
    /// The line that closes a heredoc.
    HeredocEnd,
    /// `// ...`
    LineComment,
    /// `/// ...`
    DocComment,
    /// Spaces and tabs.
    Whitespace,
    /// A line break.
    Newline,
    /// End of input.
    Eof,
    /// Text that starts no other token, or a string that is never closed.
    Error,
}

/// A token: what it is and where it stands. Its text is the source at its span.
#[derive(Debug, Clone, Copy, PartialEq, Eq, Structural)]
pub struct Token {
    /// What the token is.
    pub kind: TokenKind,
    /// Where the token stands.
    pub span: Span,
}

} // verus!
