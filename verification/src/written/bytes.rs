//! What the bytes of written texts are read as.
use crate::ascii;
use crate::emit;
use crate::escape;
use crate::escape::ShortUnicode;
use crate::lexer;
use crate::lexer::Skip;
use crate::span::Span;
use crate::text;
use crate::token::{Token, TokenKind};
use crate::written::document;
use crate::written::document::{Note, Scalar};
use crate::written::tokens;
use crate::written::tokens::lex_at;
use vstd::prelude::*;
use vstd::utf8::*;

verus! {

// --- where bytes stand ---

/// The bytes `b` stand at `p`.
pub open spec fn stands(src: Seq<u8>, p: nat, b: Seq<u8>) -> bool {
    &&& p + b.len() <= src.len()
    &&& src.subrange(p as int, (p + b.len()) as int) == b
}

/// Each byte stands where it does in the row.
pub proof fn lemma_bytes(src: Seq<u8>, p: nat, b: Seq<u8>)
    requires
        stands(src, p, b),
    ensures
        forall|i: int| 0 <= i < b.len() ==> #[trigger] src[p + i] == b[i],
        forall|i: int| p <= i < p + b.len() ==> #[trigger] src[i] == b[i - p],
{
    assert forall|i: int| 0 <= i < b.len() implies #[trigger] src[p + i] == b[i] by {
        assert(src.subrange(p as int, (p + b.len()) as int)[i] == src[p + i]);
    }
    assert forall|i: int| p <= i < p + b.len() implies #[trigger] src[i] == b[i - p] by {
        assert(src.subrange(p as int, (p + b.len()) as int)[i - p] == src[i]);
    }
}

/// Two rows of bytes stand behind one another.
pub proof fn lemma_split(src: Seq<u8>, p: nat, a: Seq<u8>, b: Seq<u8>)
    requires
        stands(src, p, a + b),
    ensures
        stands(src, p, a),
        stands(src, p + a.len(), b),
{
    let all = src.subrange(p as int, (p + (a + b).len()) as int);
    assert(src.subrange(p as int, (p + a.len()) as int) =~= all.subrange(0, a.len() as int));
    assert((a + b).subrange(0, a.len() as int) =~= a);
    assert(src.subrange((p + a.len()) as int, (p + a.len() + b.len()) as int) =~= all.subrange(
        a.len() as int,
        all.len() as int,
    ));
    assert((a + b).subrange(a.len() as int, (a + b).len() as int) =~= b);
}

/// Three rows of bytes stand behind one another.
pub proof fn lemma_split3(src: Seq<u8>, p: nat, a: Seq<u8>, b: Seq<u8>, c: Seq<u8>)
    requires
        stands(src, p, a + b + c),
    ensures
        stands(src, p, a),
        stands(src, p + a.len(), b),
        stands(src, p + a.len() + b.len(), c),
        (a + b + c).len() == a.len() + b.len() + c.len(),
{
    lemma_split(src, p, a + b, c);
    lemma_split(src, p, a, b);
}

/// A byte stands where it does.
pub proof fn lemma_byte(src: Seq<u8>, p: nat, b: u8)
    requires
        stands(src, p, seq![b]),
    ensures
        p < src.len(),
        src[p as int] == b,
{
    lemma_bytes(src, p, seq![b]);
    assert(src[p + 0int] == b);
}

// --- characters and bytes ---

/// An ASCII character is one byte; the bytes of any other are beyond ASCII.
pub proof fn lemma_encode_char(c: char)
    ensures
        c as u32 <= 0x7f ==> encode_scalar(c as u32) == seq![c as u8],
        c as u32 > 0x7f ==> forall|i: int|
            0 <= i < encode_scalar(c as u32).len() ==> #[trigger] encode_scalar(c as u32)[i]
                >= 0x80,
        encode_scalar(c as u32).len() > 0,
{
    let one = seq![c];
    char_is_scalar(c);
    encode_utf8_first_scalar(one);
    let b = encode_utf8(one);
    lemma_encode_one(c);
    if c as u32 <= 0x7f {
        is_ascii_chars_encode_utf8(one);
        assert(one[0] as u8 == b[0]);
        assert(b =~= seq![c as u8]);
    }
}

/// The byte of an ASCII character has its number.
pub proof fn lemma_ascii_byte(c: char)
    requires
        c as u32 <= 0x7f,
    ensures
        c as u8 == ascii::QUOTE <==> c == '"',
        c as u8 == ascii::BACKSLASH <==> c == '\\',
{
}

/// The bytes of two texts behind one another.
pub proof fn lemma_encode_add(a: Seq<char>, b: Seq<char>)
    ensures
        encode_utf8(a + b) == encode_utf8(a) + encode_utf8(b),
    decreases a.len(),
{
    if a.len() == 0 {
        assert(a + b =~= b);
        assert(encode_utf8(a) + encode_utf8(b) =~= encode_utf8(b));
    } else {
        lemma_encode_add(a.drop_first(), b);
        assert((a + b).drop_first() =~= a.drop_first() + b);
        assert(encode_utf8(a + b) =~= encode_utf8(a) + encode_utf8(b));
    }
}

/// The bytes of one character.
pub proof fn lemma_encode_one(c: char)
    ensures
        encode_utf8(seq![c]) == encode_scalar(c as u32),
{
    let rest = seq![c].drop_first();
    assert(rest =~= Seq::<char>::empty());
    assert(encode_utf8(rest) =~= Seq::<u8>::empty());
    assert(encode_utf8(seq![c]) =~= encode_scalar(c as u32));
}

/// The text at a place where a text is written is that text.
pub proof fn lemma_chars(src: Seq<u8>, p: nat, text: Seq<char>)
    requires
        stands(src, p, encode_utf8(text)),
    ensures
        text::chars_between(src, p as int, (p + encode_utf8(text).len()) as int) == text,
{
    encode_utf8_decode_utf8(text);
}

// --- tokens ---

/// The first token from `p` on that is no blank is of this kind and stands at
/// `q..e`.
pub open spec fn next_is(src: Seq<u8>, p: nat, kind: TokenKind, q: nat, e: nat) -> bool {
    lexer::lex_past(src, lex_at(p), Skip::Blanks) == (
        Token { kind, span: Span { start: q as u32, end: e as u32 } },
        lex_at(e),
    )
}

/// A token that is no blank is the first one.
pub proof fn lemma_next(src: Seq<u8>, p: nat, kind: TokenKind, e: nat)
    requires
        tokens::reads(src, p, kind, e),
        kind != TokenKind::Whitespace,
    ensures
        next_is(src, p, kind, p, e),
{
}

/// A space before something that is no blank is passed over.
pub proof fn lemma_space(src: Seq<u8>, p: nat)
    requires
        p + 1 < src.len(),
        src[p as int] == ascii::SPACE,
        !tokens::is_blank(src[(p + 1) as int]),
    ensures
        lexer::lex_past(src, lex_at(p), Skip::Blanks) == lexer::lex_past(
            src,
            lex_at(p + 1),
            Skip::Blanks,
        ),
{
    tokens::law_blanks(src, p, p + 1);
    lexer::lemma_budget(src, lex_at(p));
}

/// What stands behind a written text: nothing, or a byte that ends a bare scalar
/// and is no quote.
pub open spec fn bounded(src: Seq<u8>, e: nat) -> bool {
    e <= src.len() && (e < src.len() ==> tokens::ends_bare(src[e as int]) && src[e as int]
        != ascii::QUOTE)
}

/// Bytes that stand for nothing else are a bare scalar.
pub proof fn lemma_plain(src: Seq<u8>, p: nat, b: Seq<u8>)
    requires
        tokens::is_plain(b, 0, b.len()),
        stands(src, p, b),
        bounded(src, p + b.len()),
    ensures
        tokens::reads(src, p, TokenKind::BareScalar, p + b.len()),
        next_is(src, p, TokenKind::BareScalar, p, p + b.len()),
        !tokens::is_blank(src[p as int]),
        src[p as int] != ascii::LF,
        b.len() > 0,
{
    lemma_bytes(src, p, b);
    assert(src[p + 0int] == b[0]);
    assert(!tokens::ends_bare(b[0]));
    assert forall|i: int| p <= i < p + b.len() implies !tokens::ends_bare(#[trigger] src[i]) by {
        assert(!tokens::ends_bare(b[i - p]));
    }
    if b.len() > 1 {
        assert(src[p + 1int] == b[1]);
    }
    if b.len() > 2 {
        assert(src[p + 2int] == b[2]);
    }
    tokens::law_bare(src, p, p + b.len());
}

/// A word is a bare scalar.
pub proof fn lemma_word(src: Seq<u8>, p: nat, text: Seq<char>)
    requires
        document::is_word(text),
        stands(src, p, encode_utf8(text)),
        bounded(src, p + encode_utf8(text).len()),
    ensures
        next_is(src, p, TokenKind::BareScalar, p, p + encode_utf8(text).len()),
        !tokens::is_blank(src[p as int]),
        src[p as int] != ascii::LF,
        tokens::reads(src, p, TokenKind::BareScalar, p + encode_utf8(text).len()),
        encode_utf8(text).len() > 0,
{
    lemma_plain(src, p, encode_utf8(text));
}

/// The name of a tag is a word, and holds no `@`.
pub proof fn lemma_name_is_word(name: Seq<char>)
    requires
        document::is_name(name),
    ensures
        document::is_word(name),
        forall|i: int|
            0 <= i < encode_utf8(name).len() ==> #[trigger] encode_utf8(name)[i] != ascii::AT,
{
    let b = encode_utf8(name);
    assert forall|i: int| 0 <= i < b.len() implies !tokens::ends_bare(#[trigger] b[i]) && b[i]
        != ascii::AT by {}
    assert(document::starts_name(b[0]));
}

/// Bytes that are neither quotes nor backslashes can stand between quotes.
proof fn lemma_inside_plain(src: Seq<u8>, p: nat, q: nat, e: nat)
    requires
        p <= q <= e <= src.len(),
        forall|i: int|
            p <= i < q ==> #[trigger] src[i] != ascii::QUOTE && src[i] != ascii::BACKSLASH,
        tokens::is_inside(src, q, e),
    ensures
        tokens::is_inside(src, p, e),
    decreases q - p,
{
    if p < q {
        lemma_inside_plain(src, p + 1, q, e);
    }
}

/// A text with its escapes can stand between quotes.
proof fn lemma_inside(src: Seq<u8>, p: nat, said: Seq<char>, k: nat)
    requires
        k <= said.len(),
        stands(src, p, encode_utf8(escape::escaped(said, k))),
    ensures
        tokens::is_inside(src, p, p + encode_utf8(escape::escaped(said, k)).len()),
    decreases said.len() - k,
{
    let all = encode_utf8(escape::escaped(said, k));
    if k < said.len() {
        let c = said[k as int];
        let one = escape::escaped_char(c);
        let rest = escape::escaped(said, k + 1);
        lemma_encode_add(one, rest);
        let b = encode_utf8(one);
        lemma_split(src, p, b, encode_utf8(rest));
        lemma_inside(src, p + b.len(), said, k + 1);
        lemma_bytes(src, p, b);
        let e = p + all.len();
        if one.len() == 1 {
            lemma_encode_one(c);
            lemma_encode_char(c);
            assert(one =~= seq![c]);
            assert forall|i: int| p <= i < p + b.len() implies #[trigger] src[i] != ascii::QUOTE
                && src[i] != ascii::BACKSLASH by {
                assert(src[i] == b[i - p]);
                if c as u32 <= 0x7f {
                    assert(b =~= seq![c as u8]);
                    lemma_ascii_byte(c);
                } else {
                    assert(b[i - p] >= 0x80);
                }
            }
            lemma_inside_plain(src, p, p + b.len(), e);
        } else {
            assert(is_ascii_chars(one));
            is_ascii_chars_encode_utf8(one);
            assert(one[0] as u8 == b[0]);
            assert(src[p + 0int] == b[0]);
        }
    } else {
        assert(all.len() == 0);
    }
}

/// The kind of the token that a scalar is.
pub open spec fn token_kind(s: Scalar) -> TokenKind {
    match s {
        Scalar::Bare(_) => TokenKind::BareScalar,
        Scalar::Quoted(_) => TokenKind::QuotedScalar,
        Scalar::Raw(_, _) => TokenKind::RawScalar,
    }
}

/// A quoted scalar is read as one.
pub proof fn lemma_quoted(src: Seq<u8>, p: nat, said: Seq<char>)
    requires
        stands(src, p, document::scalar_bytes(Scalar::Quoted(said))),
    ensures
        tokens::reads(
            src,
            p,
            TokenKind::QuotedScalar,
            p + document::scalar_bytes(Scalar::Quoted(said)).len(),
        ),
        src[p as int] == ascii::QUOTE,
        forall|short: ShortUnicode| #[trigger]
            escape::quoted_text(
                src,
                document::span_at(
                    p as int,
                    document::scalar_bytes(Scalar::Quoted(said)).len() as int,
                ),
                short,
            ) == said || src.len() > u32::MAX,
{
    let inside = encode_utf8(escape::escaped(said, 0));
    let quote = seq![ascii::QUOTE];
    lemma_split3(src, p, quote, inside, quote);
    lemma_byte(src, p, ascii::QUOTE);
    lemma_byte(src, p + 1 + inside.len(), ascii::QUOTE);
    lemma_inside(src, p + 1, said, 0);
    tokens::law_quoted(src, p, p + 1 + inside.len());
    lemma_chars(src, p + 1, escape::escaped(said, 0));
    let len = document::scalar_bytes(Scalar::Quoted(said)).len();
    assert(len == inside.len() + 2);
    assert forall|short: ShortUnicode| #[trigger]
        escape::quoted_text(src, document::span_at(p as int, len as int), short) == said || src.len()
            > u32::MAX by {
        escape::law_escaped(said, short);
    }
}

/// A raw scalar is read as one.
proof fn lemma_raw(src: Seq<u8>, p: nat, n: nat, said: Seq<char>)
    requires
        src.len() <= u32::MAX,
        document::scalar_ok(Scalar::Raw(n, said)),
        stands(src, p, document::scalar_bytes(Scalar::Raw(n, said))),
    ensures
        tokens::reads(
            src,
            p,
            TokenKind::RawScalar,
            p + document::scalar_bytes(Scalar::Raw(n, said)).len(),
        ),
        src[p as int] == ascii::LOWER_R,
{
    let inside = encode_utf8(said);
    let row = document::hashes(n);
    let quote = seq![ascii::QUOTE];
    let front = seq![ascii::LOWER_R] + row + quote;
    let back = inside + quote + row;
    let all = document::scalar_bytes(Scalar::Raw(n, said));
    assert(all =~= front + back);
    lemma_split(src, p, front, back);
    lemma_bytes(src, p, front);
    lemma_bytes(src, p + 2 + n, back);
    assert(src[p + 0int] == front[0]);
    assert(src[p + (1 + n) as int] == front[(1 + n) as int]);
    assert forall|i: int| p < i <= p + n implies #[trigger] src[i] == ascii::HASH by {
        assert(src[i] == front[i - p]);
    }
    let q = p + 2 + n;
    let e = q + inside.len();
    assert(src[q + inside.len() as int] == back[inside.len() as int]);
    assert forall|i: int| e < i <= e + n implies #[trigger] src[i] == ascii::HASH by {
        assert(src[i] == back[i - q]);
    }
    assert forall|i: int| p + 1 + n < i < e implies !#[trigger] tokens::closes(src, i, n) by {
        let k = i - q;
        assert(!tokens::closes(back, k, n));
        assert(src[q + k] == back[k]);
        if tokens::closes(src, i, n) {
            assert forall|j: int| k < j <= k + n implies #[trigger] back[j] == ascii::HASH by {
                assert(src[q + j] == back[j]);
            }
            assert(tokens::closes(back, k, n));
        }
    }
    tokens::law_raw(src, p, n, e);
}

/// A scalar is read as one that says its text.
pub proof fn lemma_scalar(src: Seq<u8>, p: nat, s: Scalar)
    requires
        src.len() <= u32::MAX,
        document::scalar_ok(s),
        stands(src, p, document::scalar_bytes(s)),
        bounded(src, p + document::scalar_bytes(s).len()),
    ensures
        tokens::reads(src, p, token_kind(s), p + document::scalar_bytes(s).len()),
        next_is(src, p, token_kind(s), p, p + document::scalar_bytes(s).len()),
        p < src.len(),
        document::scalar_bytes(s).len() > 0,
        !tokens::is_blank(src[p as int]),
        src[p as int] != ascii::LF,
        forall|short: ShortUnicode| #[trigger]
            emit::scalar_text(
                src,
                document::span_at(p as int, document::scalar_bytes(s).len() as int),
                document::kind_of(s),
                short,
            ) == document::text_of(s),
{
    let b = document::scalar_bytes(s);
    let span = document::span_at(p as int, b.len() as int);
    match s {
        Scalar::Bare(said) => {
            lemma_word(src, p, said);
            lemma_chars(src, p, said);
        },
        Scalar::Quoted(said) => {
            lemma_quoted(src, p, said);
        },
        Scalar::Raw(n, said) => {
            lemma_raw(src, p, n, said);
            assert(b =~= emit::raw_text(n, said));
            assert forall|short: ShortUnicode| #[trigger]
                emit::scalar_text(src, span, document::kind_of(s), short) == said by {
                emit::law_raw(src, span, n, said, short);
            }
        },
    }
}

/// A line before an entry is read as a comment, with its text, and a line break.
pub proof fn lemma_note(src: Seq<u8>, p: nat, note: Note)
    requires
        src.len() <= u32::MAX,
        document::note_ok(note),
        stands(src, p, document::note_bytes(note)),
    ensures
        ({
            let len = document::note_bytes(note).len();
            let kind = if note is Doc {
                TokenKind::DocComment
            } else {
                TokenKind::LineComment
            };
            let said = match note {
                Note::Comment(t) => seq!['/', '/'] + t,
                Note::Doc(t) => seq!['/', '/', '/'] + t,
            };
            &&& len > 0
            &&& next_is(src, p, kind, p, (p + len - 1) as nat)
            &&& src[p + len - 1] == ascii::LF
            &&& text::chars_at(src, document::span_at(p as int, len - 1)) == said
            &&& p < src.len()
            &&& src[p as int] == ascii::SLASH
        }),
{
    let slashes = match note {
        Note::Comment(_) => seq!['/', '/'],
        Note::Doc(_) => seq!['/', '/', '/'],
    };
    let said = document::note_text(note);
    let b = encode_utf8(said);
    let front = encode_utf8(slashes);
    assert(is_ascii_chars(slashes));
    is_ascii_chars_encode_utf8(slashes);
    assert(forall|i: int| 0 <= i < slashes.len() ==> slashes[i] as u8 == front[i]);
    assert(front =~= match note {
        Note::Comment(_) => seq![ascii::SLASH, ascii::SLASH],
        Note::Doc(_) => seq![ascii::SLASH, ascii::SLASH, ascii::SLASH],
    }) by {
        assert(slashes[0] as u8 == front[0]);
        assert(slashes[1] as u8 == front[1]);
        if note is Doc {
            assert(slashes[2] as u8 == front[2]);
        }
    }
    let all = document::note_bytes(note);
    assert(all == front + b + seq![ascii::LF]);
    lemma_split3(src, p, front, b, seq![ascii::LF]);
    lemma_split(src, p, front + b, seq![ascii::LF]);
    lemma_bytes(src, p, front);
    lemma_bytes(src, p + front.len(), b);
    lemma_byte(src, p + front.len() + b.len(), ascii::LF);
    let e = p + front.len() + b.len();
    assert(src[p + 0int] == front[0]);
    assert(src[p + 1int] == front[1]);
    if note is Doc {
        assert(src[p + 2int] == front[2]);
    } else if b.len() > 0 {
        assert(src[p + front.len() + 0int] == b[0]);
    }
    assert forall|i: int| p <= i < e implies #[trigger] src[i] != ascii::LF by {
        if i < p + front.len() {
            assert(src[i] == front[i - p]);
            assert(i - p == 0 || i - p == 1 || i - p == 2);
        } else {
            assert(src[i] == b[i - (p + front.len())]);
        }
    }
    if b.len() > 0 {
        assert(src[p + front.len() + (b.len() - 1)] == b[b.len() - 1]);
    } else if note is Doc {
        assert(src[p + 2int] == front[2]);
    }
    tokens::law_comments(src, p, e);
    lemma_encode_add(slashes, said);
    lemma_chars(src, p, slashes + said);
}

} // verus!
