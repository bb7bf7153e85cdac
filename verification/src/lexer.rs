//! Splits Styx source text into tokens.
//!
//! The lexer walks the bytes of the source. Every character that means
//! something to it is ASCII, so each token starts and ends between characters.
use crate::ascii;
use crate::span::Span;
use crate::text;
use crate::token::{Token, TokenKind};
use vstd::prelude::*;
use vstd::string::*;
use vstd::utf8::*;

verus! {

/// Where the lexer stands: the next byte to read and, inside a heredoc, where
/// the name that closes it is written.
pub struct LexState {
    /// Offset of the next byte.
    pub pos: nat,
    /// The span of the name of the open heredoc.
    pub heredoc: Option<Span>,
}

// --- character classes ---

/// A space or a tab.
pub open spec fn blank(b: u8) -> bool {
    b == ascii::SPACE || b == ascii::TAB
}

/// A byte that may stand inside a bare scalar: anything but blanks, line
/// breaks and `{ } ( ) , " >`.
pub open spec fn bare(b: u8) -> bool {
    !blank(b) && b != ascii::LF && b != ascii::CR && b != ascii::LBRACE && b != ascii::RBRACE
        && b != ascii::LPAREN && b != ascii::RPAREN
        && b != ascii::COMMA && b != ascii::QUOTE && b != ascii::GT
}

/// A byte that may start a bare scalar: as inside one, except `@` and `=`.
pub open spec fn bare_first(b: u8) -> bool {
    bare(b) && b != ascii::AT && b != ascii::EQUALS
}

/// A byte of the name of a heredoc: `A-Z`, `0-9` or `_`.
pub open spec fn heredoc_name(b: u8) -> bool {
    ascii::UPPER_A <= b <= ascii::UPPER_Z || ascii::DIGIT_0 <= b <= ascii::DIGIT_9
        || b == ascii::UNDERSCORE
}

// --- where runs of bytes end ---

/// The first offset from `p` on that holds no blank.
pub open spec fn blanks_end(src: Seq<u8>, p: nat) -> nat
    decreases src.len() - p,
{
    if p < src.len() && blank(src[p as int]) {
        blanks_end(src, p + 1)
    } else {
        p
    }
}

/// The first offset from `p` on that holds no bare byte.
pub open spec fn bare_end(src: Seq<u8>, p: nat) -> nat
    decreases src.len() - p,
{
    if p < src.len() && bare(src[p as int]) {
        bare_end(src, p + 1)
    } else {
        p
    }
}

/// The first offset from `p` on that holds no byte of a heredoc name.
pub open spec fn heredoc_name_end(src: Seq<u8>, p: nat) -> nat
    decreases src.len() - p,
{
    if p < src.len() && heredoc_name(src[p as int]) {
        heredoc_name_end(src, p + 1)
    } else {
        p
    }
}

/// The first offset from `p` on that holds no `#`.
pub open spec fn hashes_end(src: Seq<u8>, p: nat) -> nat
    decreases src.len() - p,
{
    if p < src.len() && src[p as int] == ascii::HASH {
        hashes_end(src, p + 1)
    } else {
        p
    }
}

/// The first offset from `p` on that holds a line feed, or the end of `src`.
pub open spec fn line_feed(src: Seq<u8>, p: nat) -> nat
    decreases src.len() - p,
{
    if p < src.len() && src[p as int] != ascii::LF {
        line_feed(src, p + 1)
    } else {
        p
    }
}

/// Where the line that holds `p` ends, its line break left out.
pub open spec fn line_end(src: Seq<u8>, p: nat) -> nat {
    let lf = line_feed(src, p);
    if p < lf < src.len() && src[lf - 1] == ascii::CR {
        (lf - 1) as nat
    } else {
        lf
    }
}

/// Where the line after the one that holds `p` starts, or the end of `src`.
pub open spec fn next_line(src: Seq<u8>, p: nat) -> nat {
    let lf = line_feed(src, p);
    if lf < src.len() {
        lf + 1
    } else {
        lf
    }
}

/// Just past the quote that closes a quoted scalar whose inside goes on at
/// `p`. A backslash takes the byte after it along.
pub open spec fn quoted_end(src: Seq<u8>, p: nat) -> Option<nat>
    decreases src.len() - p,
{
    if p >= src.len() {
        None
    } else if src[p as int] == ascii::QUOTE {
        Some(p + 1)
    } else if src[p as int] == ascii::BACKSLASH {
        if p + 1 < src.len() {
            quoted_end(src, p + 2)
        } else {
            None
        }
    } else {
        quoted_end(src, p + 1)
    }
}

/// A quote stands at `p`, and `hashes` times `#` after it.
pub open spec fn closes_raw(src: Seq<u8>, p: nat, hashes: nat) -> bool {
    &&& p < src.len()
    &&& src[p as int] == ascii::QUOTE
    &&& hashes_end(src, p + 1) >= p + 1 + hashes
}

/// Just past the first quote from `p` on that `hashes` times `#` follow.
pub open spec fn raw_end(src: Seq<u8>, p: nat, hashes: nat) -> Option<nat>
    decreases src.len() - p,
{
    if p >= src.len() {
        None
    } else if closes_raw(src, p, hashes) {
        Some(p + 1 + hashes)
    } else {
        raw_end(src, p + 1, hashes)
    }
}

/// A raw scalar opens at `p`: `r`, any number of `#`, and a quote.
pub open spec fn opens_raw(src: Seq<u8>, p: nat) -> bool {
    let q = hashes_end(src, p + 1);
    src[p as int] == ascii::LOWER_R && q < src.len() && src[q as int] == ascii::QUOTE
}

/// A heredoc opens at `p`: `<<` and a capital letter.
pub open spec fn opens_heredoc(src: Seq<u8>, p: nat) -> bool {
    &&& p + 2 < src.len()
    &&& src[p as int] == ascii::LT
    &&& src[(p + 1) as int] == ascii::LT
    &&& ascii::UPPER_A <= src[(p + 2) as int] <= ascii::UPPER_Z
}

// --- tokens ---

/// The token of kind `kind` that stands at `start..end`.
pub open spec fn token(kind: TokenKind, start: nat, end: nat) -> Token {
    Token { kind, span: Span { start: start as u32, end: end as u32 } }
}

/// The kind of the token that starts at `p` outside a heredoc, and where it ends.
pub open spec fn lex_plain(src: Seq<u8>, p: nat) -> (TokenKind, nat) {
    let b = src[p as int];
    if b == ascii::LBRACE {
        (TokenKind::LBrace, p + 1)
    } else if b == ascii::RBRACE {
        (TokenKind::RBrace, p + 1)
    } else if b == ascii::LPAREN {
        (TokenKind::LParen, p + 1)
    } else if b == ascii::RPAREN {
        (TokenKind::RParen, p + 1)
    } else if b == ascii::COMMA {
        (TokenKind::Comma, p + 1)
    } else if b == ascii::GT {
        (TokenKind::Gt, p + 1)
    } else if b == ascii::AT {
        (TokenKind::At, p + 1)
    } else if blank(b) {
        (TokenKind::Whitespace, blanks_end(src, p))
    } else if b == ascii::LF {
        (TokenKind::Newline, p + 1)
    } else if b == ascii::CR && p + 1 < src.len() && src[(p + 1) as int] == ascii::LF {
        (TokenKind::Newline, p + 2)
    } else if b == ascii::QUOTE {
        match quoted_end(src, p + 1) {
            Some(e) => (TokenKind::QuotedScalar, e),
            None => (TokenKind::Error, src.len()),
        }
    } else if b == ascii::SLASH && p + 2 < src.len() && src[(p + 1) as int] == ascii::SLASH
        && src[(p + 2) as int] == ascii::SLASH {
        (TokenKind::DocComment, line_end(src, p))
    } else if b == ascii::SLASH && p + 1 < src.len() && src[(p + 1) as int] == ascii::SLASH {
        (TokenKind::LineComment, line_end(src, p))
    } else if opens_heredoc(src, p) {
        (TokenKind::HeredocStart, next_line(src, p))
    } else if opens_raw(src, p) {
        let q = hashes_end(src, p + 1);
        match raw_end(src, q + 1, (q - p - 1) as nat) {
            Some(e) => (TokenKind::RawScalar, e),
            None => (TokenKind::Error, src.len()),
        }
    } else if bare_first(b) {
        (TokenKind::BareScalar, bare_end(src, p))
    } else {
        (TokenKind::Error, p + 1)
    }
}

/// The line at `p` holds the heredoc name at `name` and nothing else.
pub open spec fn closes_heredoc(src: Seq<u8>, p: nat, name: Span) -> bool {
    src.subrange(p as int, line_end(src, p) as int) == src.subrange(
        name.start as int,
        name.end as int,
    )
}

/// The token that the lexer reads in state `st`, and the state after it.
pub open spec fn lex(src: Seq<u8>, st: LexState) -> (Token, LexState) {
    let p = st.pos;
    if p >= src.len() {
        (token(TokenKind::Eof, p, p), LexState { pos: p, heredoc: None })
    } else {
        match st.heredoc {
            Some(name) => if closes_heredoc(src, p, name) {
                let e = line_end(src, p);
                (token(TokenKind::HeredocEnd, p, e), LexState { pos: e, heredoc: None })
            } else {
                let e = next_line(src, p);
                (token(TokenKind::HeredocContent, p, e), LexState { pos: e, heredoc: st.heredoc })
            },
            None => {
                let (kind, e) = lex_plain(src, p);
                let heredoc = if kind == TokenKind::HeredocStart {
                    Some(Span { start: (p + 2) as u32, end: heredoc_name_end(src, p + 2) as u32 })
                } else {
                    None
                };
                (token(kind, p, e), LexState { pos: e, heredoc })
            },
        }
    }
}

// --- what the tokens of a source have in common ---

/// `src` is a text that spans of 32 bits can address.
pub open spec fn source_fits(src: Seq<u8>) -> bool {
    valid_utf8(src) && src.len() <= u32::MAX
}

/// A state that the lexer can be in on `src`.
pub open spec fn lex_fits(src: Seq<u8>, st: LexState) -> bool {
    &&& source_fits(src)
    &&& st.pos <= src.len()
    &&& is_char_boundary(src, st.pos as int)
    &&& match st.heredoc {
        Some(name) => name.start <= name.end <= src.len(),
        None => true,
    }
}

/// The text at `span` has the form of a quoted scalar: it is enclosed in quotes.
pub open spec fn quoted_form(src: Seq<u8>, span: Span) -> bool {
    &&& span.start + 2 <= span.end <= src.len()
    &&& src[span.start as int] == ascii::QUOTE
    &&& src[span.end - 1] == ascii::QUOTE
}

/// The text at `span` has the form of a raw scalar: `r`, some `#`, a quote,
/// and at the end a quote and as many `#`.
pub open spec fn raw_form(src: Seq<u8>, span: Span) -> bool {
    let q = hashes_end(src, (span.start + 1) as nat);
    let hashes = q - span.start - 1;
    &&& span.start < span.end <= src.len()
    &&& src[span.start as int] == ascii::LOWER_R
    &&& q + 1 < span.end - hashes
    &&& src[q as int] == ascii::QUOTE
    &&& src[span.end - hashes - 1] == ascii::QUOTE
}

/// The text at `span` has the form of a bare scalar: it is not empty, and starts
/// with neither a quote nor `@`.
pub open spec fn bare_form(src: Seq<u8>, span: Span) -> bool {
    &&& span.start < span.end <= src.len()
    &&& src[span.start as int] != ascii::QUOTE
    &&& src[span.start as int] != ascii::AT
}

/// The text at `span` is the byte `b`.
pub open spec fn mark_form(src: Seq<u8>, span: Span, b: u8) -> bool {
    &&& span.end == span.start + 1
    &&& span.end <= src.len()
    &&& src[span.start as int] == b
}

/// A token that the lexer can read from `src`.
pub open spec fn token_fits(src: Seq<u8>, t: Token) -> bool {
    &&& text::span_fits(src, t.span)
    &&& t.kind == TokenKind::QuotedScalar ==> quoted_form(src, t.span)
    &&& t.kind == TokenKind::RawScalar ==> raw_form(src, t.span)
    &&& t.kind == TokenKind::BareScalar ==> bare_form(src, t.span)
    &&& t.kind == TokenKind::At ==> mark_form(src, t.span, ascii::AT)
    &&& t.kind == TokenKind::LParen ==> mark_form(src, t.span, ascii::LPAREN)
    &&& t.kind == TokenKind::RParen ==> mark_form(src, t.span, ascii::RPAREN)
}

/// How much reading is left: it shrinks with every token but the end of input.
pub open spec fn budget(src: Seq<u8>, st: LexState) -> nat {
    let rest: nat = if st.pos < src.len() {
        (2 * (src.len() - st.pos)) as nat
    } else {
        0
    };
    if st.heredoc is Some {
        rest + 1
    } else {
        rest
    }
}

/// Runs of bytes end where they say, within the source.
pub proof fn lemma_ends(src: Seq<u8>, p: nat)
    requires
        p <= src.len(),
    ensures
        p <= blanks_end(src, p) <= src.len(),
        p <= bare_end(src, p) <= src.len(),
        p <= heredoc_name_end(src, p) <= src.len(),
        p <= hashes_end(src, p) <= src.len(),
        p <= line_feed(src, p) <= src.len(),
        p < blanks_end(src, p) ==> blank(src[blanks_end(src, p) - 1]),
        bare_end(src, p) < src.len() ==> src[bare_end(src, p) as int] < 0x80,
        forall|i: int| p <= i < hashes_end(src, p) ==> #[trigger] src[i] == ascii::HASH,
        line_feed(src, p) < src.len() ==> src[line_feed(src, p) as int] == ascii::LF,
    decreases src.len() - p,
{
    if p < src.len() {
        lemma_ends(src, p + 1);
    }
}

/// A quoted scalar that is closed ends with a quote.
proof fn lemma_quoted_end(src: Seq<u8>, p: nat)
    ensures
        quoted_end(src, p) matches Some(e) ==> p < e <= src.len() && src[e - 1] == ascii::QUOTE,
    decreases src.len() - p,
{
    if p < src.len() {
        if src[p as int] == ascii::BACKSLASH {
            if p + 1 < src.len() {
                lemma_quoted_end(src, p + 2);
            }
        } else {
            lemma_quoted_end(src, p + 1);
        }
    }
}

/// A raw scalar that is closed ends with a quote and its `#`.
proof fn lemma_raw_end(src: Seq<u8>, p: nat, hashes: nat)
    ensures
        raw_end(src, p, hashes) matches Some(e) ==> {
            &&& p + 1 + hashes <= e <= src.len()
            &&& src[e - hashes - 1] == ascii::QUOTE
            &&& src[e - 1] < 0x80
        },
    decreases src.len() - p,
{
    if p < src.len() {
        if closes_raw(src, p, hashes) {
            lemma_ends(src, p + 1);
        } else {
            lemma_raw_end(src, p + 1, hashes);
        }
    }
}

/// Every token but the end of input takes from the budget, and the end of
/// input adds nothing to it.
pub proof fn lemma_budget(src: Seq<u8>, st: LexState)
    ensures
        lex(src, st).0.kind == TokenKind::Eof <==> st.pos >= src.len(),
        lex(src, st).0.kind == TokenKind::Eof ==> budget(src, lex(src, st).1) <= budget(src, st),
        lex(src, st).0.kind != TokenKind::Eof ==> budget(src, lex(src, st).1) < budget(src, st),
{
    if st.pos < src.len() {
        let p = st.pos;
        lemma_ends(src, p);
        lemma_ends(src, p + 1);
        lemma_quoted_end(src, p + 1);
        let q = hashes_end(src, p + 1);
        lemma_raw_end(src, q + 1, (q - p - 1) as nat);
    }
}

/// Reading a token keeps the lexer in a state that it can be in; the token
/// starts where the lexer stood and ends where it then stands.
pub proof fn lemma_lex(src: Seq<u8>, st: LexState)
    requires
        lex_fits(src, st),
    ensures
        lex_fits(src, lex(src, st).1),
        token_fits(src, lex(src, st).0),
        lex(src, st).0.span.start == st.pos,
        lex(src, st).0.span.end == lex(src, st).1.pos,
        lex(src, st).0.kind != TokenKind::Eof ==> st.pos <= lex(src, st).1.pos,
{
    let p = st.pos;
    text::lemma_boundary(src, src.len() as int);
    if p < src.len() {
        let (t, next) = lex(src, st);
        lemma_ends(src, p);
        lemma_ends(src, p + 1);
        if p + 2 <= src.len() {
            lemma_ends(src, p + 2);
        }
        lemma_quoted_end(src, p + 1);
        let q = hashes_end(src, p + 1);
        lemma_raw_end(src, q + 1, (q - p - 1) as nat);
        let e = next.pos;
        assert(p <= e <= src.len());
        assert(e == p || e == src.len() || src[e as int] < 0x80 || src[e - 1] < 0x80);
        if e > p {
            text::lemma_boundary(src, e as int);
        }
    }
}

/// Tokens tile the source: each starts where the one before it ends, and the
/// end of input stands at the end of the source.
pub proof fn law_tokens_tile(src: Seq<u8>, st: LexState)
    requires
        lex_fits(src, st),
    ensures
        ({
            let (t, next) = lex(src, st);
            &&& t.span.start == st.pos
            &&& lex(src, next).0.span.start == t.span.end
            &&& t.kind == TokenKind::Eof ==> t.span.start == t.span.end == src.len()
        }),
{
    lemma_lex(src, st);
    lemma_lex(src, lex(src, st).1);
    lemma_budget(src, st);
}

// --- passing over tokens ---

/// Which tokens a reader passes over. It never passes over the end of input.
#[derive(Debug, Clone, Copy, PartialEq, Eq, Structural)]
pub enum Skip {
    /// None.
    Nothing,
    /// Blanks.
    Blanks,
    /// Blanks and line breaks.
    Lines,
    /// Everything up to the end of the line.
    RestOfLine,
    /// Everything up to the end of the line or a closing bracket.
    RestOfEntry,
    /// The lines of a heredoc.
    Heredoc,
}

/// Whether a reader passes over a token of this kind.
pub open spec fn skips(skip: Skip, kind: TokenKind) -> bool {
    match skip {
        Skip::Nothing => false,
        Skip::Blanks => kind == TokenKind::Whitespace,
        Skip::Lines => kind == TokenKind::Whitespace || kind == TokenKind::Newline,
        Skip::RestOfLine => kind != TokenKind::Newline && kind != TokenKind::Eof,
        Skip::RestOfEntry => kind != TokenKind::Newline && kind != TokenKind::Eof && kind
            != TokenKind::RBrace && kind != TokenKind::RParen,
        Skip::Heredoc => kind == TokenKind::HeredocContent,
    }
}

/// The first token from state `st` on that is not passed over, and the state
/// after it.
pub open spec fn lex_past(src: Seq<u8>, st: LexState, skip: Skip) -> (Token, LexState)
    decreases budget(src, st),
{
    let (t, next) = lex(src, st);
    if skips(skip, t.kind) {
        proof {
            lemma_budget(src, st);
        }
        lex_past(src, next, skip)
    } else {
        (t, next)
    }
}

/// What is left to read after [`lex_past`].
pub proof fn lemma_past_budget(src: Seq<u8>, st: LexState, skip: Skip)
    ensures
        lex_past(src, st, skip).0.kind == TokenKind::Eof ==> budget(
            src,
            lex_past(src, st, skip).1,
        ) <= budget(src, st),
        lex_past(src, st, skip).0.kind != TokenKind::Eof ==> budget(
            src,
            lex_past(src, st, skip).1,
        ) < budget(src, st),
    decreases budget(src, st),
{
    lemma_budget(src, st);
    let (t, next) = lex(src, st);
    if skips(skip, t.kind) {
        lemma_past_budget(src, next, skip);
    }
}

/// [`lex_past`] keeps the lexer in a state that it can be in.
pub proof fn lemma_lex_past(src: Seq<u8>, st: LexState, skip: Skip)
    requires
        lex_fits(src, st),
    ensures
        lex_fits(src, lex_past(src, st, skip).1),
        token_fits(src, lex_past(src, st, skip).0),
        !skips(skip, lex_past(src, st, skip).0.kind),
    decreases budget(src, st),
{
    lemma_lex(src, st);
    lemma_budget(src, st);
    let (t, next) = lex(src, st);
    if skips(skip, t.kind) {
        lemma_lex_past(src, next, skip);
    }
}

/// The token `@` is the byte `@`.
pub proof fn lemma_at(src: Seq<u8>, st: LexState, skip: Skip)
    requires
        lex_fits(src, st),
    ensures
        ({
            let t = lex_past(src, st, skip).0;
            t.kind == TokenKind::At ==> {
                &&& t.span.start < src.len()
                &&& t.span.end == t.span.start + 1
                &&& src[t.span.start as int] == ascii::AT
            }
        }),
    decreases budget(src, st),
{
    lemma_lex(src, st);
    lemma_budget(src, st);
    let (t, next) = lex(src, st);
    if skips(skip, t.kind) {
        lemma_at(src, next, skip);
    }
}

// --- the lexer ---

/// Whether `b` may stand inside a bare scalar.
fn is_bare(b: u8) -> (r: bool)
    ensures
        r == bare(b),
{
    !(b == ascii::SPACE || b == ascii::TAB || b == ascii::LF || b == ascii::CR || b == ascii::LBRACE
        || b == ascii::RBRACE || b == ascii::LPAREN || b == ascii::RPAREN || b == ascii::COMMA
        || b == ascii::QUOTE || b == ascii::GT)
}

/// Whether `b` may stand in the name of a heredoc.
fn is_heredoc_name(b: u8) -> (r: bool)
    ensures
        r == heredoc_name(b),
{
    (ascii::UPPER_A <= b && b <= ascii::UPPER_Z) || (ascii::DIGIT_0 <= b && b <= ascii::DIGIT_9)
        || b == ascii::UNDERSCORE
}

/// The first offset from `p` on that holds no blank.
fn find_blanks_end(src: &[u8], p: usize) -> (e: usize)
    requires
        p <= src@.len(),
    ensures
        e == blanks_end(src@, p as nat),
{
    let mut i: usize = p;
    while i < src.len() && (src[i] == ascii::SPACE || src[i] == ascii::TAB)
        invariant
            p <= i <= src@.len(),
            blanks_end(src@, p as nat) == blanks_end(src@, i as nat),
        decreases src@.len() - i,
    {
        i += 1;
    }
    i
}

/// The first offset from `p` on that holds no bare byte.
fn find_bare_end(src: &[u8], p: usize) -> (e: usize)
    requires
        p <= src@.len(),
    ensures
        e == bare_end(src@, p as nat),
{
    let mut i: usize = p;
    while i < src.len() && is_bare(src[i])
        invariant
            p <= i <= src@.len(),
            bare_end(src@, p as nat) == bare_end(src@, i as nat),
        decreases src@.len() - i,
    {
        i += 1;
    }
    i
}

/// The first offset from `p` on that holds no byte of a heredoc name.
fn find_heredoc_name_end(src: &[u8], p: usize) -> (e: usize)
    requires
        p <= src@.len(),
    ensures
        e == heredoc_name_end(src@, p as nat),
{
    let mut i: usize = p;
    while i < src.len() && is_heredoc_name(src[i])
        invariant
            p <= i <= src@.len(),
            heredoc_name_end(src@, p as nat) == heredoc_name_end(src@, i as nat),
        decreases src@.len() - i,
    {
        i += 1;
    }
    i
}

/// The first offset from `p` on that holds no `#`.
pub fn find_hashes_end(src: &[u8], p: usize) -> (e: usize)
    requires
        p <= src@.len(),
    ensures
        e == hashes_end(src@, p as nat),
        p <= e <= src@.len(),
{
    let mut i: usize = p;
    while i < src.len() && src[i] == ascii::HASH
        invariant
            p <= i <= src@.len(),
            hashes_end(src@, p as nat) == hashes_end(src@, i as nat),
        decreases src@.len() - i,
    {
        i += 1;
    }
    i
}

/// The first offset from `p` on that holds a line feed, or the end of `src`.
fn find_line_feed(src: &[u8], p: usize) -> (e: usize)
    requires
        p <= src@.len(),
    ensures
        e == line_feed(src@, p as nat),
        p <= e <= src@.len(),
{
    let mut i: usize = p;
    while i < src.len() && src[i] != ascii::LF
        invariant
            p <= i <= src@.len(),
            line_feed(src@, p as nat) == line_feed(src@, i as nat),
        decreases src@.len() - i,
    {
        i += 1;
    }
    i
}

/// Where the line that holds `p` ends, its line break left out.
fn find_line_end(src: &[u8], p: usize) -> (e: usize)
    requires
        p <= src@.len(),
    ensures
        e == line_end(src@, p as nat),
        p <= e <= src@.len(),
{
    let lf = find_line_feed(src, p);
    if p < lf && lf < src.len() && src[lf - 1] == ascii::CR {
        lf - 1
    } else {
        lf
    }
}

/// Where the line after the one that holds `p` starts, or the end of `src`.
fn find_next_line(src: &[u8], p: usize) -> (e: usize)
    requires
        p <= src@.len(),
    ensures
        e == next_line(src@, p as nat),
        p <= e <= src@.len(),
{
    let lf = find_line_feed(src, p);
    if lf < src.len() {
        lf + 1
    } else {
        lf
    }
}

/// Just past the quote that closes a quoted scalar whose inside goes on at `p`.
fn find_quoted_end(src: &[u8], p: usize) -> (e: Option<usize>)
    requires
        p <= src@.len(),
    ensures
        match e {
            Some(e) => quoted_end(src@, p as nat) == Some(e as nat) && e <= src@.len(),
            None => quoted_end(src@, p as nat) is None,
        },
{
    let mut i: usize = p;
    while i < src.len()
        invariant
            p <= i <= src@.len(),
            quoted_end(src@, p as nat) == quoted_end(src@, i as nat),
        decreases src@.len() - i,
    {
        if src[i] == ascii::QUOTE {
            return Some(i + 1);
        }
        if src[i] == ascii::BACKSLASH {
            if i + 1 >= src.len() {
                return None;
            }
            i += 2;
        } else {
            i += 1;
        }
    }
    None
}

/// Just past the first quote from `p` on that `hashes` times `#` follow.
fn find_raw_end(src: &[u8], p: usize, hashes: usize) -> (e: Option<usize>)
    requires
        p <= src@.len(),
    ensures
        match e {
            Some(e) => raw_end(src@, p as nat, hashes as nat) == Some(e as nat) && e <= src@.len(),
            None => raw_end(src@, p as nat, hashes as nat) is None,
        },
{
    let mut i: usize = p;
    while i < src.len()
        invariant
            p <= i <= src@.len(),
            raw_end(src@, p as nat, hashes as nat) == raw_end(src@, i as nat, hashes as nat),
        decreases src@.len() - i,
    {
        if src[i] == ascii::QUOTE {
            let q = find_hashes_end(src, i + 1);
            if q - (i + 1) >= hashes {
                return Some(i + 1 + hashes);
            }
        }
        i += 1;
    }
    None
}

/// Whether the line at `p` holds the heredoc name at `name` and nothing else.
fn is_heredoc_close(src: &[u8], p: usize, name: Span) -> (r: bool)
    requires
        p <= src@.len(),
        name.start <= name.end <= src@.len(),
    ensures
        r == closes_heredoc(src@, p as nat, name),
{
    let e = find_line_end(src, p);
    let from: usize = name.start as usize;
    let len: usize = name.end as usize - from;
    let ghost line = src@.subrange(p as int, e as int);
    let ghost wanted = src@.subrange(name.start as int, name.end as int);
    if e - p != len {
        assert(line.len() != wanted.len());
        return false;
    }
    let mut i: usize = 0;
    while i < len
        invariant
            p + len == e <= src@.len(),
            from + len == name.end <= src@.len(),
            from == name.start,
            i <= len,
            line == src@.subrange(p as int, e as int),
            wanted == src@.subrange(name.start as int, name.end as int),
            e == line_end(src@, p as nat),
            forall|j: int| 0 <= j < i ==> #[trigger] line[j] == wanted[j],
        decreases len - i,
    {
        if src[p + i] != src[from + i] {
            assert(line[i as int] != wanted[i as int]);
            return false;
        }
        assert(line[i as int] == wanted[i as int]);
        i += 1;
    }
    assert(line =~= wanted);
    true
}

/// The kind of the token that starts at `p` outside a heredoc, and where it ends.
fn scan_plain(src: &[u8], p: usize) -> (r: (TokenKind, usize))
    requires
        p < src@.len(),
    ensures
        r.0 == lex_plain(src@, p as nat).0,
        r.1 == lex_plain(src@, p as nat).1,
{
    let len = src.len();
    let b = src[p];
    proof {
        lemma_ends(src@, (p + 1) as nat);
    }
    if b == ascii::LBRACE {
        (TokenKind::LBrace, p + 1)
    } else if b == ascii::RBRACE {
        (TokenKind::RBrace, p + 1)
    } else if b == ascii::LPAREN {
        (TokenKind::LParen, p + 1)
    } else if b == ascii::RPAREN {
        (TokenKind::RParen, p + 1)
    } else if b == ascii::COMMA {
        (TokenKind::Comma, p + 1)
    } else if b == ascii::GT {
        (TokenKind::Gt, p + 1)
    } else if b == ascii::AT {
        (TokenKind::At, p + 1)
    } else if b == ascii::SPACE || b == ascii::TAB {
        (TokenKind::Whitespace, find_blanks_end(src, p))
    } else if b == ascii::LF {
        (TokenKind::Newline, p + 1)
    } else if b == ascii::CR && len - p > 1 && src[p + 1] == ascii::LF {
        (TokenKind::Newline, p + 2)
    } else if b == ascii::QUOTE {
        match find_quoted_end(src, p + 1) {
            Some(e) => (TokenKind::QuotedScalar, e),
            None => (TokenKind::Error, len),
        }
    } else if b == ascii::SLASH && len - p > 2 && src[p + 1] == ascii::SLASH
        && src[p + 2] == ascii::SLASH {
        (TokenKind::DocComment, find_line_end(src, p))
    } else if b == ascii::SLASH && len - p > 1 && src[p + 1] == ascii::SLASH {
        (TokenKind::LineComment, find_line_end(src, p))
    } else if b == ascii::LT && len - p > 2 && src[p + 1] == ascii::LT
        && ascii::UPPER_A <= src[p + 2] && src[p + 2] <= ascii::UPPER_Z {
        (TokenKind::HeredocStart, find_next_line(src, p))
    } else {
        let q = find_hashes_end(src, p + 1);
        if b == ascii::LOWER_R && q < len && src[q] == ascii::QUOTE {
            match find_raw_end(src, q + 1, q - p - 1) {
                Some(e) => (TokenKind::RawScalar, e),
                None => (TokenKind::Error, len),
            }
        } else if is_bare(b) && b != ascii::EQUALS {
            (TokenKind::BareScalar, find_bare_end(src, p))
        } else {
            (TokenKind::Error, p + 1)
        }
    }
}

/// Reads the tokens of a source text one by one.
#[derive(Debug, Clone, Copy)]
pub struct Lexer<'src> {
    source: &'src str,
    pos: u32,
    heredoc: Option<Span>,
}

impl<'src> Lexer<'src> {
    /// The bytes of the source.
    pub closed spec fn src(&self) -> Seq<u8> {
        self.source.spec_bytes()
    }

    /// Where the lexer stands.
    pub closed spec fn state(&self) -> LexState {
        LexState { pos: self.pos as nat, heredoc: self.heredoc }
    }

    /// The lexer is in a state that it can be in.
    pub open spec fn wf(&self) -> bool {
        lex_fits(self.src(), self.state())
    }

    /// A lexer at the start of `source`.
    pub fn new(source: &'src str) -> (lexer: Self)
        requires
            source.spec_bytes().len() <= u32::MAX,
        ensures
            lexer.wf(),
            lexer.src() == source.spec_bytes(),
            lexer.state() == (LexState { pos: 0, heredoc: None }),
    {
        proof {
            encode_utf8_valid_utf8(source@);
            text::lemma_boundary(source.spec_bytes(), 0);
        }
        Lexer { source, pos: 0, heredoc: None }
    }

    /// The source text.
    pub fn source(&self) -> (source: &'src str)
        ensures
            source.spec_bytes() == self.src(),
    {
        self.source
    }

    /// Reads the next token. At the end of input it reads `Eof` again and again.
    pub fn next_token(&mut self) -> (t: Token)
        requires
            old(self).wf(),
        ensures
            final(self).wf(),
            final(self).src() == old(self).src(),
            (t, final(self).state()) == lex(old(self).src(), old(self).state()),
            token_fits(old(self).src(), t),
    {
        proof {
            lemma_lex(self.src(), self.state());
        }
        let src = self.source.as_bytes();
        let ghost st = self.state();
        let p = self.pos as usize;
        if p >= src.len() {
            self.heredoc = None;
            return Token { kind: TokenKind::Eof, span: Span::new(self.pos, self.pos) };
        }
        let (kind, e) = match self.heredoc {
            Some(name) => if is_heredoc_close(src, p, name) {
                (TokenKind::HeredocEnd, find_line_end(src, p))
            } else {
                (TokenKind::HeredocContent, find_next_line(src, p))
            },
            None => scan_plain(src, p),
        };
        if kind == TokenKind::HeredocEnd {
            self.heredoc = None;
        }
        if kind == TokenKind::HeredocStart {
            proof {
                lemma_ends(src@, (p + 2) as nat);
            }
            let name_end = find_heredoc_name_end(src, p + 2);
            self.heredoc = Some(Span::new(self.pos + 2, name_end as u32));
        }
        let start = self.pos;
        self.pos = e as u32;
        Token { kind, span: Span::new(start, e as u32) }
    }

    /// Reads up to the next token that is not passed over.
    pub fn next_past(&mut self, skip: Skip) -> (t: Token)
        requires
            old(self).wf(),
        ensures
            final(self).wf(),
            final(self).src() == old(self).src(),
            (t, final(self).state()) == lex_past(old(self).src(), old(self).state(), skip),
            token_fits(old(self).src(), t),
    {
        let mut t = self.next_token();
        while skip.passes(t.kind)
            invariant
                self.wf(),
                self.src() == old(self).src(),
                token_fits(old(self).src(), t),
                lex_past(old(self).src(), old(self).state(), skip) == if skips(skip, t.kind) {
                    lex_past(self.src(), self.state(), skip)
                } else {
                    (t, self.state())
                },
            decreases
                budget(self.src(), self.state()),
                if skips(skip, t.kind) {
                    1int
                } else {
                    0int
                },
        {
            proof {
                lemma_budget(self.src(), self.state());
            }
            t = self.next_token();
        }
        t
    }
}

impl Skip {
    /// Whether a reader passes over a token of this kind.
    pub fn passes(self, kind: TokenKind) -> (r: bool)
        ensures
            r == skips(self, kind),
    {
        match self {
            Skip::Nothing => false,
            Skip::Blanks => kind == TokenKind::Whitespace,
            Skip::Lines => kind == TokenKind::Whitespace || kind == TokenKind::Newline,
            Skip::RestOfLine => kind != TokenKind::Newline && kind != TokenKind::Eof,
            Skip::RestOfEntry => kind != TokenKind::Newline && kind != TokenKind::Eof && kind
                != TokenKind::RBrace && kind != TokenKind::RParen,
            Skip::Heredoc => kind == TokenKind::HeredocContent,
        }
    }
}

} // verus!
