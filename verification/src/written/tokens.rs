//! Which bytes make which token.
use crate::ascii;
use crate::lexer;
use crate::lexer::LexState;
use crate::span::Span;
use crate::token::{Token, TokenKind};
use vstd::prelude::*;

verus! {

/// The lexer at `p`, outside of a heredoc.
pub open spec fn lex_at(p: nat) -> LexState {
    LexState { pos: p, heredoc: None }
}

/// The lexer reads a token of kind `kind` from `p` up to `e`, and then stands
/// behind it.
pub open spec fn reads(src: Seq<u8>, p: nat, kind: TokenKind, e: nat) -> bool {
    lexer::lex(src, lex_at(p)) == (
        Token { kind, span: Span { start: p as u32, end: e as u32 } },
        lex_at(e),
    )
}

// --- bytes on their own ---

/// Each of the brackets, the comma, `>` and `@` is a token, wherever it stands
/// outside of other tokens.
pub proof fn law_marks(src: Seq<u8>, p: nat)
    requires
        p < src.len(),
    ensures
        src[p as int] == ascii::LBRACE ==> reads(src, p, TokenKind::LBrace, p + 1),
        src[p as int] == ascii::RBRACE ==> reads(src, p, TokenKind::RBrace, p + 1),
        src[p as int] == ascii::LPAREN ==> reads(src, p, TokenKind::LParen, p + 1),
        src[p as int] == ascii::RPAREN ==> reads(src, p, TokenKind::RParen, p + 1),
        src[p as int] == ascii::COMMA ==> reads(src, p, TokenKind::Comma, p + 1),
        src[p as int] == ascii::GT ==> reads(src, p, TokenKind::Gt, p + 1),
        src[p as int] == ascii::AT ==> reads(src, p, TokenKind::At, p + 1),
        src[p as int] == ascii::EQUALS ==> reads(src, p, TokenKind::Error, p + 1),
{
}

/// A line feed is a line break, alone and behind a carriage return. A carriage
/// return alone is an error.
pub proof fn law_line_breaks(src: Seq<u8>, p: nat)
    requires
        p < src.len(),
    ensures
        src[p as int] == ascii::LF ==> reads(src, p, TokenKind::Newline, p + 1),
        src[p as int] == ascii::CR ==> if p + 1 < src.len() && src[(p + 1) as int] == ascii::LF {
            reads(src, p, TokenKind::Newline, p + 2)
        } else {
            reads(src, p, TokenKind::Error, p + 1)
        },
{
}

// --- runs of bytes ---

/// A space or a tab.
pub open spec fn is_blank(b: u8) -> bool {
    b == ascii::SPACE || b == ascii::TAB
}

/// See [`law_blanks`].
proof fn lemma_blanks_end(src: Seq<u8>, p: nat, e: nat)
    requires
        p <= e <= src.len(),
        forall|i: int| p <= i < e ==> is_blank(#[trigger] src[i]),
        e == src.len() || !is_blank(src[e as int]),
    ensures
        lexer::blanks_end(src, p) == e,
    decreases e - p,
{
    if p < e {
        assert(is_blank(src[p as int]));
        lemma_blanks_end(src, p + 1, e);
    }
}

/// Spaces and tabs in a row are one token.
pub proof fn law_blanks(src: Seq<u8>, p: nat, e: nat)
    requires
        p < e <= src.len(),
        forall|i: int| p <= i < e ==> is_blank(#[trigger] src[i]),
        e == src.len() || !is_blank(src[e as int]),
    ensures
        reads(src, p, TokenKind::Whitespace, e),
{
    assert(is_blank(src[p as int]));
    lemma_blanks_end(src, p, e);
}

/// A byte that ends a bare scalar: a blank, a line break, or one of
/// `{ } ( ) , " >`.
pub open spec fn ends_bare(b: u8) -> bool {
    ||| b == ascii::SPACE
    ||| b == ascii::TAB
    ||| b == ascii::LF
    ||| b == ascii::CR
    ||| b == ascii::LBRACE
    ||| b == ascii::RBRACE
    ||| b == ascii::LPAREN
    ||| b == ascii::RPAREN
    ||| b == ascii::COMMA
    ||| b == ascii::QUOTE
    ||| b == ascii::GT
}

/// The bytes `p..e` stand for nothing else than themselves: none of them ends a
/// bare scalar, the first is neither `@` nor `=`, and they start neither a comment
/// nor a heredoc.
pub open spec fn is_plain(src: Seq<u8>, p: nat, e: nat) -> bool {
    &&& p < e <= src.len()
    &&& forall|i: int| p <= i < e ==> !ends_bare(#[trigger] src[i])
    &&& src[p as int] != ascii::AT
    &&& src[p as int] != ascii::EQUALS
    &&& !(p + 1 < e && src[p as int] == ascii::SLASH && src[(p + 1) as int] == ascii::SLASH)
    &&& !(p + 2 < e && src[p as int] == ascii::LT && src[(p + 1) as int] == ascii::LT && ascii::UPPER_A
        <= src[(p + 2) as int] <= ascii::UPPER_Z)
}

/// See [`law_bare`].
proof fn lemma_bare_end(src: Seq<u8>, p: nat, e: nat)
    requires
        p <= e <= src.len(),
        forall|i: int| p <= i < e ==> !ends_bare(#[trigger] src[i]),
        e == src.len() || ends_bare(src[e as int]),
    ensures
        lexer::bare_end(src, p) == e,
    decreases e - p,
{
    if p < e {
        assert(!ends_bare(src[p as int]));
        lemma_bare_end(src, p + 1, e);
    }
}

/// Hashes go on up to a byte that is none.
pub proof fn lemma_hashes_end(src: Seq<u8>, p: nat, e: nat)
    requires
        p <= e <= src.len(),
        forall|i: int| p <= i < e ==> #[trigger] src[i] == ascii::HASH,
        e == src.len() || src[e as int] != ascii::HASH,
    ensures
        lexer::hashes_end(src, p) == e,
    decreases e - p,
{
    if p < e {
        lemma_hashes_end(src, p + 1, e);
    }
}

/// Bytes that stand for nothing else are one bare scalar, up to a byte that ends
/// it or the end of the source. A quote must not make a raw scalar of them.
pub proof fn law_bare(src: Seq<u8>, p: nat, e: nat)
    requires
        is_plain(src, p, e),
        e == src.len() || ends_bare(src[e as int]),
        e == src.len() || src[e as int] != ascii::QUOTE || src[p as int] != ascii::LOWER_R || exists|
            i: int,
        |
            p < i < e && #[trigger] src[i] != ascii::HASH,
    ensures
        reads(src, p, TokenKind::BareScalar, e),
{
    lemma_bare_end(src, p, e);
    assert(!ends_bare(src[p as int]));
    if p + 1 < src.len() && src[p as int] == ascii::SLASH && src[(p + 1) as int] == ascii::SLASH {
        assert(p + 1 < e);
    }
    if lexer::opens_heredoc(src, p) {
        assert(p + 1 < e);
        assert(p + 2 < e);
    }
    if lexer::opens_raw(src, p) {
        let q = lexer::hashes_end(src, p + 1);
        lexer::lemma_ends(src, p + 1);
        if q < e {
            assert(!ends_bare(src[q as int]));
        } else if q > e {
            assert(src[e as int] == ascii::HASH);
        } else {
            let i = choose|i: int| p < i < e && #[trigger] src[i] != ascii::HASH;
            assert(src[i] == ascii::HASH);
        }
        assert(false);
    }
}

/// Every bare scalar is made of bytes that do not end one, goes on up to one
/// that does or to the end of the source, and starts with neither `@` nor `=`.
pub proof fn law_bare_only(src: Seq<u8>, p: nat)
    requires
        p < src.len() <= u32::MAX,
        lexer::lex(src, lex_at(p)).0.kind == TokenKind::BareScalar,
    ensures
        ({
            let e = lexer::lex(src, lex_at(p)).1.pos;
            &&& is_plain(src, p, e)
            &&& e == src.len() || ends_bare(src[e as int])
            &&& reads(src, p, TokenKind::BareScalar, e)
        }),
{
    lemma_bare_ends(src, p);
    lexer::lemma_ends(src, p);
}

/// Where a row of bytes ends that do not end a bare scalar.
proof fn lemma_bare_ends(src: Seq<u8>, p: nat)
    requires
        p <= src.len(),
    ensures
        ({
            let e = lexer::bare_end(src, p);
            &&& p <= e <= src.len()
            &&& forall|i: int| p <= i < e ==> !ends_bare(#[trigger] src[i])
            &&& e == src.len() || ends_bare(src[e as int])
        }),
    decreases src.len() - p,
{
    if p < src.len() && lexer::bare(src[p as int]) {
        lemma_bare_ends(src, p + 1);
    }
}

// --- quoted scalars ---

/// The bytes `p..e` can stand between quotes: each quote and each backslash has a
/// backslash before it that belongs to it.
pub open spec fn is_inside(src: Seq<u8>, p: nat, e: nat) -> bool
    decreases e - p,
{
    if p >= e {
        p == e
    } else if src[p as int] == ascii::BACKSLASH {
        p + 2 <= e && is_inside(src, p + 2, e)
    } else {
        src[p as int] != ascii::QUOTE && is_inside(src, p + 1, e)
    }
}

/// See [`law_quoted`].
proof fn lemma_quoted_end(src: Seq<u8>, p: nat, e: nat)
    requires
        p <= e < src.len(),
        is_inside(src, p, e),
        src[e as int] == ascii::QUOTE,
    ensures
        lexer::quoted_end(src, p) == Some(e + 1),
    decreases e - p,
{
    if p < e {
        if src[p as int] == ascii::BACKSLASH {
            lemma_quoted_end(src, p + 2, e);
        } else {
            lemma_quoted_end(src, p + 1, e);
        }
    }
}

/// A quote, what can stand between quotes, and a quote are one quoted scalar.
pub proof fn law_quoted(src: Seq<u8>, p: nat, e: nat)
    requires
        p < e < src.len(),
        src[p as int] == ascii::QUOTE,
        is_inside(src, p + 1, e),
        src[e as int] == ascii::QUOTE,
    ensures
        reads(src, p, TokenKind::QuotedScalar, e + 1),
{
    lemma_quoted_end(src, p + 1, e);
}

/// See [`law_unclosed`].
proof fn lemma_no_quoted_end(src: Seq<u8>, p: nat)
    requires
        forall|e: nat|
            p <= e < src.len() && #[trigger] is_inside(src, p, e) ==> src[e as int]
                != ascii::QUOTE,
    ensures
        lexer::quoted_end(src, p) is None,
    decreases src.len() - p,
{
    if p < src.len() {
        assert(is_inside(src, p, p));
        if src[p as int] == ascii::BACKSLASH {
            assert forall|e: nat| p + 2 <= e < src.len() && #[trigger] is_inside(src, p + 2, e)
                implies src[e as int] != ascii::QUOTE by {
                assert(is_inside(src, p, e));
            }
            if p + 1 < src.len() {
                lemma_no_quoted_end(src, p + 2);
            }
        } else {
            assert forall|e: nat| p + 1 <= e < src.len() && #[trigger] is_inside(src, p + 1, e)
                implies src[e as int] != ascii::QUOTE by {
                assert(is_inside(src, p, e));
            }
            lemma_no_quoted_end(src, p + 1);
        }
    }
}

/// A quote that no other one closes makes an error of the rest of the source.
pub proof fn law_unclosed(src: Seq<u8>, p: nat)
    requires
        p < src.len(),
        src[p as int] == ascii::QUOTE,
        forall|e: nat|
            p < e < src.len() && #[trigger] is_inside(src, p + 1, e) ==> src[e as int]
                != ascii::QUOTE,
    ensures
        reads(src, p, TokenKind::Error, src.len()),
{
    lemma_no_quoted_end(src, p + 1);
}

// --- raw scalars ---

/// A quote and then `n` hashes stand at `p`.
pub open spec fn closes(src: Seq<u8>, p: int, n: nat) -> bool {
    &&& p + n < src.len()
    &&& src[p] == ascii::QUOTE
    &&& forall|i: int| p < i <= p + n ==> #[trigger] src[i] == ascii::HASH
}

/// The hashes from `p` on are at least `n` exactly where the first `n` bytes are.
proof fn lemma_hashes(src: Seq<u8>, p: nat, n: nat)
    requires
        p <= src.len(),
    ensures
        lexer::hashes_end(src, p) >= p + n <==> (p + n <= src.len() && forall|i: int|
            p <= i < p + n ==> #[trigger] src[i] == ascii::HASH),
    decreases n,
{
    lexer::lemma_ends(src, p);
    if n > 0 {
        if p < src.len() && src[p as int] == ascii::HASH {
            lemma_hashes(src, p + 1, (n - 1) as nat);
        } else if p + n <= src.len() {
            assert(src[p as int] != ascii::HASH);
        }
    }
}

/// See [`law_raw`].
proof fn lemma_raw_end(src: Seq<u8>, p: nat, e: nat, n: nat)
    requires
        p <= e < src.len(),
        forall|i: int| p <= i < e ==> !#[trigger] closes(src, i, n),
        closes(src, e as int, n),
    ensures
        lexer::raw_end(src, p, n) == Some(e + 1 + n),
    decreases e - p,
{
    lemma_hashes(src, p + 1, n);
    assert(lexer::closes_raw(src, p, n) == closes(src, p as int, n));
    if p < e {
        assert(!closes(src, p as int, n));
        lemma_raw_end(src, p + 1, e, n);
    }
}

/// `r`, any number of hashes, a quote, and then all up to the first quote that as
/// many hashes follow, are one raw scalar.
pub proof fn law_raw(src: Seq<u8>, p: nat, n: nat, e: nat)
    requires
        p + 1 + n < e < src.len(),
        src[p as int] == ascii::LOWER_R,
        forall|i: int| p < i <= p + n ==> #[trigger] src[i] == ascii::HASH,
        src[(p + 1 + n) as int] == ascii::QUOTE,
        forall|i: int| p + 1 + n < i < e ==> !#[trigger] closes(src, i, n),
        closes(src, e as int, n),
    ensures
        reads(src, p, TokenKind::RawScalar, e + 1 + n),
{
    lemma_hashes_end(src, p + 1, p + 1 + n);
    lemma_raw_end(src, p + 2 + n, e, n);
}

// --- comments ---

/// See [`law_comments`].
pub proof fn lemma_line_feed(src: Seq<u8>, p: nat, e: nat)
    requires
        p <= e <= src.len(),
        forall|i: int| p <= i < e ==> #[trigger] src[i] != ascii::LF,
        e == src.len() || src[e as int] == ascii::LF,
    ensures
        lexer::line_feed(src, p) == e,
    decreases e - p,
{
    if p < e {
        lemma_line_feed(src, p + 1, e);
    }
}

/// Two slashes start a comment, three a doc comment. It goes on up to the line
/// feed at `e`, or to a carriage return right before it, or to the end of the
/// source.
pub proof fn law_comments(src: Seq<u8>, p: nat, e: nat)
    requires
        p + 2 <= e <= src.len(),
        src[p as int] == ascii::SLASH,
        src[(p + 1) as int] == ascii::SLASH,
        forall|i: int| p <= i < e ==> #[trigger] src[i] != ascii::LF,
        e == src.len() || src[e as int] == ascii::LF,
    ensures
        ({
            let kind = if p + 2 < src.len() && src[(p + 2) as int] == ascii::SLASH {
                TokenKind::DocComment
            } else {
                TokenKind::LineComment
            };
            let end = if e < src.len() && src[e - 1] == ascii::CR {
                (e - 1) as nat
            } else {
                e
            };
            reads(src, p, kind, end)
        }),
{
    lemma_line_feed(src, p, e);
}

} // verus!
