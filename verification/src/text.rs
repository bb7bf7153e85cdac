//! Slices of UTF-8 text by byte offset.
use crate::span::Span;
use vstd::prelude::*;
use vstd::string::*;
use vstd::utf8::*;

verus! {

/// The characters that the bytes `start..end` of `src` encode.
pub open spec fn chars_between(src: Seq<u8>, start: int, end: int) -> Seq<char> {
    decode_utf8(src.subrange(start, end))
}

/// The characters at `span` in `src`.
pub open spec fn chars_at(src: Seq<u8>, span: Span) -> Seq<char> {
    chars_between(src, span.start as int, span.end as int)
}

/// `start..end` is a range of `src` that does not cut a character.
pub open spec fn is_cut(src: Seq<u8>, start: int, end: int) -> bool {
    &&& 0 <= start <= end <= src.len()
    &&& is_char_boundary(src, start)
    &&& is_char_boundary(src, end)
}

/// `span` is a range of `src` that does not cut a character.
pub open spec fn span_fits(src: Seq<u8>, span: Span) -> bool {
    is_cut(src, span.start as int, span.end as int)
}

/// The first offset in `p..end` that holds the byte `b`, or `end`.
pub open spec fn byte_offset(src: Seq<u8>, b: u8, p: nat, end: nat) -> nat
    decreases end - p,
{
    if p < end && src[p as int] != b {
        byte_offset(src, b, p + 1, end)
    } else {
        p
    }
}

/// What [`byte_offset`] finds.
pub proof fn lemma_byte_offset(src: Seq<u8>, b: u8, p: nat, end: nat)
    requires
        p <= end <= src.len(),
    ensures
        p <= byte_offset(src, b, p, end) <= end,
        byte_offset(src, b, p, end) < end ==> src[byte_offset(src, b, p, end) as int] == b,
        forall|i: int| p <= i < byte_offset(src, b, p, end) ==> #[trigger] src[i] != b,
    decreases end - p,
{
    if p < end && src[p as int] != b {
        lemma_byte_offset(src, b, p + 1, end);
    }
}

/// An ASCII byte is a whole character.
proof fn lemma_ascii_is_char(src: Seq<u8>, i: int)
    requires
        valid_utf8(src),
        0 <= i < src.len(),
        src[i] < 0x80,
    ensures
        is_char_boundary(src, i),
        is_char_boundary(src, i + 1),
    decreases src.len(),
{
    reveal_with_fuel(is_char_boundary, 2);
    let n = length_of_first_scalar(src);
    if i < n {
        assert(i == 0);
    } else {
        let rest = pop_first_scalar(src);
        assert(rest[i - n] == src[i]);
        lemma_ascii_is_char(rest, i - n);
    }
}

/// An offset at either end of the text, or next to an ASCII byte, cuts no character.
pub proof fn lemma_boundary(src: Seq<u8>, i: int)
    requires
        valid_utf8(src),
        0 <= i <= src.len(),
        i == 0 || i == src.len() || src[i] < 0x80 || src[i - 1] < 0x80,
    ensures
        is_char_boundary(src, i),
{
    is_char_boundary_start_end_of_seq(src);
    if 0 < i < src.len() {
        if src[i] < 0x80 {
            lemma_ascii_is_char(src, i);
        } else {
            lemma_ascii_is_char(src, i - 1);
        }
    }
}

/// The text at `start..end` is the text up to `mid` and the text from there on.
pub proof fn lemma_chars_split(src: Seq<u8>, start: int, mid: int, end: int)
    requires
        valid_utf8(src),
        is_cut(src, start, end),
        start <= mid <= end,
        is_char_boundary(src, mid),
    ensures
        chars_between(src, start, end) == chars_between(src, start, mid) + chars_between(
            src,
            mid,
            end,
        ),
        valid_utf8(src.subrange(start, mid)),
{
    let head = src.subrange(0, end);
    valid_utf8_split(src, end);
    let part = head.subrange(start, end);
    assert(is_char_boundary(head, start) && is_char_boundary(head, mid)) by {
        is_char_boundary_start_end_of_seq(head);
        if start < end {
            is_char_boundary_iff_not_is_continuation_byte(src, start);
            is_char_boundary_iff_not_is_continuation_byte(head, start);
        }
        if mid < end {
            is_char_boundary_iff_not_is_continuation_byte(src, mid);
            is_char_boundary_iff_not_is_continuation_byte(head, mid);
        }
    }
    valid_utf8_split(head, start);
    assert(part =~= src.subrange(start, end));
    assert(is_char_boundary(part, mid - start)) by {
        is_char_boundary_start_end_of_seq(part);
        if start < mid < end {
            is_char_boundary_iff_not_is_continuation_byte(head, mid);
            is_char_boundary_iff_not_is_continuation_byte(part, mid - start);
        }
    }
    valid_utf8_split(part, mid - start);
    decode_utf8_split(part, mid - start);
    assert(part.subrange(0, mid - start) =~= src.subrange(start, mid));
    assert(part.subrange(mid - start, part.len() as int) =~= src.subrange(mid, end));
}

/// An ASCII byte is the character of its number.
pub proof fn lemma_ascii_char(src: Seq<u8>, i: int, c: char)
    requires
        0 <= i < src.len(),
        src[i] < 0x80,
        c as u32 == src[i] as u32,
    ensures
        chars_between(src, i, i + 1) == seq![c],
{
    let one = src.subrange(i, i + 1);
    let b = src[i];
    assert(b & 0x7f == b) by (bit_vector)
        requires
            b < 0x80,
    ;
    assert(pop_first_scalar(one) =~= Seq::<u8>::empty());
    reveal_with_fuel(valid_utf8, 2);
    reveal_with_fuel(decode_utf8, 2);
    assert(decode_utf8(one) =~= seq![c]);
}

/// The first offset in `p..end` that holds the byte `b`, or `end`.
pub fn find_byte(src: &[u8], b: u8, p: usize, end: usize) -> (r: usize)
    requires
        p <= end <= src@.len(),
    ensures
        r == byte_offset(src@, b, p as nat, end as nat),
        p <= r <= end,
{
    let mut i: usize = p;
    while i < end && src[i] != b
        invariant
            p <= i <= end <= src@.len(),
            byte_offset(src@, b, p as nat, end as nat) == byte_offset(src@, b, i as nat, end as nat),
        decreases end - i,
    {
        i += 1;
    }
    i
}

/// The text of `s` from byte `start` up to byte `end`.
pub fn slice<'a>(s: &'a str, start: usize, end: usize) -> (r: &'a str)
    requires
        is_cut(s.spec_bytes(), start as int, end as int),
    ensures
        r.spec_bytes() == s.spec_bytes().subrange(start as int, end as int),
        r@ == chars_between(s.spec_bytes(), start as int, end as int),
{
    let ghost src = s.spec_bytes();
    proof {
        encode_utf8_valid_utf8(s@);
        valid_utf8_split(src, end as int);
    }
    let (head, _) = s.split_at(end);
    proof {
        let h = head.spec_bytes();
        assert(h == src.subrange(0, end as int));
        if start < end {
            is_char_boundary_iff_not_is_continuation_byte(src, start as int);
            is_char_boundary_iff_not_is_continuation_byte(h, start as int);
        } else {
            is_char_boundary_start_end_of_seq(h);
        }
    }
    let (_, r) = head.split_at(start);
    proof {
        assert(r.spec_bytes() =~= src.subrange(start as int, end as int));
        encode_utf8_decode_utf8(r@);
    }
    r
}

/// The text of `s` at `span`.
pub fn slice_at<'a>(s: &'a str, span: Span) -> (r: &'a str)
    requires
        span_fits(s.spec_bytes(), span),
    ensures
        r.spec_bytes() == s.spec_bytes().subrange(span.start as int, span.end as int),
        r@ == chars_at(s.spec_bytes(), span),
{
    slice(s, span.start as usize, span.end as usize)
}

/// Whether `span` is a range of `s` that does not cut a character.
pub fn fits(s: &str, span: Span) -> (r: bool)
    ensures
        r == span_fits(s.spec_bytes(), span),
{
    proof {
        encode_utf8_valid_utf8(s@);
    }
    span.start <= span.end && s.is_char_boundary(span.start as usize) && s.is_char_boundary(
        span.end as usize,
    )
}

/// The characters of `s`.
pub fn chars_of(s: &str) -> (r: Vec<char>)
    ensures
        r@ == s@,
{
    let mut r: Vec<char> = Vec::new();
    for c in it: s.chars()
        invariant
            it.seq() == s@,
            r@ == s@.take(it.index() as int),
    {
        r.push(c);
    }
    r
}

/// Whether two texts are the same.
pub fn equal(a: &str, b: &str) -> (r: bool)
    ensures
        r == (a@ == b@),
{
    let x = a.as_bytes();
    let y = b.as_bytes();
    if x.len() != y.len() {
        return false;
    }
    let mut i: usize = 0;
    while i < x.len()
        invariant
            i <= x@.len() == y@.len(),
            x@ == a.spec_bytes(),
            y@ == b.spec_bytes(),
            forall|k: int| 0 <= k < i ==> x@[k] == y@[k],
        decreases x@.len() - i,
    {
        if x[i] != y[i] {
            assert(x@[i as int] != y@[i as int]);
            return false;
        }
        i += 1;
    }
    proof {
        assert(x@ =~= y@);
        encode_utf8_decode_utf8(a@);
        encode_utf8_decode_utf8(b@);
    }
    true
}

} // verus!
