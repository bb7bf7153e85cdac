//! Numbers as they are written.
use crate::text;
use vstd::prelude::*;
use vstd::string::*;

verus! {

/// A decimal digit.
pub open spec fn is_digit(c: char) -> bool {
    '0' <= c <= '9'
}

/// Just past the decimal digits of `s` from `i` on.
pub open spec fn digits_end(s: Seq<char>, i: nat) -> nat
    decreases s.len() - i,
{
    if i < s.len() && is_digit(s[i as int]) {
        digits_end(s, i + 1)
    } else {
        i
    }
}

/// Just past the sign at `i`, if there is one.
pub open spec fn sign_end(s: Seq<char>, i: nat) -> nat {
    if i < s.len() && (s[i as int] == '+' || s[i as int] == '-') {
        i + 1
    } else {
        i
    }
}

/// What [`digits_end`] finds lies within `s`.
proof fn lemma_digits_end(s: Seq<char>, i: nat)
    requires
        i <= s.len(),
    ensures
        i <= digits_end(s, i) <= s.len(),
        forall|k: int| i <= k < digits_end(s, i) ==> is_digit(#[trigger] s[k]),
    decreases s.len() - i,
{
    if i < s.len() && is_digit(s[i as int]) {
        lemma_digits_end(s, i + 1);
    }
}

// --- integers ---

/// The number that a row of decimal digits writes.
pub open spec fn digits_value(digits: Seq<char>) -> int
    decreases digits.len(),
{
    if digits.len() == 0 {
        0
    } else {
        10 * digits_value(digits.drop_last()) + (digits.last() as int - '0' as int)
    }
}

/// Whether `s` writes an integer of 64 bits: digits, after a sign if it has one.
pub open spec fn is_integer(s: Seq<char>) -> bool {
    let start = sign_end(s, 0);
    let digits = s.skip(start as int);
    &&& start < s.len()
    &&& digits_end(s, start) == s.len()
    &&& if s[0] == '-' {
        -digits_value(digits) >= i64::MIN
    } else {
        digits_value(digits) <= i64::MAX
    }
}

/// A row of digits writes no negative number, and no smaller one than its start.
proof fn lemma_digits_value(digits: Seq<char>, n: int)
    requires
        0 <= n <= digits.len(),
        forall|i: int| 0 <= i < digits.len() ==> is_digit(#[trigger] digits[i]),
    ensures
        0 <= digits_value(digits.take(n)) <= digits_value(digits),
    decreases digits.len(),
{
    if digits.len() > 0 {
        let front = digits.drop_last();
        if n < digits.len() {
            lemma_digits_value(front, n);
            assert(front.take(n) =~= digits.take(n));
        } else {
            lemma_digits_value(front, front.len() as int);
            assert(front.take(front.len() as int) =~= front);
            assert(digits.take(n) =~= digits);
        }
    } else {
        assert(digits.take(n) =~= digits);
    }
}

/// Just past the decimal digits of `s` from `i` on.
fn find_digits_end(s: &[char], i: usize) -> (r: usize)
    requires
        i <= s@.len(),
    ensures
        r == digits_end(s@, i as nat),
        i <= r <= s@.len(),
{
    let mut k: usize = i;
    while k < s.len() && '0' <= s[k] && s[k] <= '9'
        invariant
            i <= k <= s@.len(),
            digits_end(s@, i as nat) == digits_end(s@, k as nat),
        decreases s@.len() - k,
    {
        k += 1;
    }
    k
}

/// Just past the sign at `i`, if there is one.
fn find_sign_end(s: &[char], i: usize) -> (r: usize)
    requires
        i <= s@.len(),
    ensures
        r == sign_end(s@, i as nat),
        i <= r <= s@.len(),
{
    if i < s.len() && (s[i] == '+' || s[i] == '-') {
        i + 1
    } else {
        i
    }
}

/// Whether `text` writes an integer of 64 bits.
pub fn writes_integer(text: &str) -> (r: bool)
    ensures
        r == is_integer(text@),
{
    let chars = text::chars_of(text);
    let s: &[char] = chars.as_slice();
    let len = s.len();
    let start = find_sign_end(s, 0);
    if start >= len || find_digits_end(s, start) != len {
        return false;
    }
    let limit: u64 = if s[0] == '-' {
        0x8000_0000_0000_0000
    } else {
        0x7fff_ffff_ffff_ffff
    };
    let ghost digits = s@.skip(start as int);
    proof {
        lemma_digits_end(s@, start as nat);
        assert forall|k: int| 0 <= k < digits.len() implies is_digit(#[trigger] digits[k]) by {
            assert(digits[k] == s@[k + start]);
        }
        assert(digits.take(0) =~= Seq::<char>::empty());
    }
    let mut n: u128 = 0;
    let mut i: usize = start;
    while i < len
        invariant
            start <= i <= len == s@.len(),
            s@ == text@,
            digits == s@.skip(start as int),
            start == sign_end(s@, 0),
            start < len,
            digits_end(s@, start as nat) == len,
            limit == if s@[0] == '-' {
                0x8000_0000_0000_0000u64
            } else {
                0x7fff_ffff_ffff_ffffu64
            },
            n == digits_value(digits.take(i - start)),
            n <= limit,
            forall|k: int| 0 <= k < digits.len() ==> is_digit(#[trigger] digits[k]),
        decreases len - i,
    {
        assert(digits[i - start] == s@[i as int]);
        n = n * 10 + (s[i] as u32 - 48) as u128;
        i += 1;
        assert(digits.take(i - start).drop_last() =~= digits.take(i - start - 1));
        if n > limit as u128 {
            proof {
                lemma_digits_value(digits, i - start);
            }
            return false;
        }
    }
    assert(digits.take(i - start) =~= digits);
    true
}

// --- floating-point numbers ---

/// `c` as a small letter, where it is one of the letters `A` to `Z`.
pub open spec fn lower(c: char) -> char {
    if 'A' <= c <= 'Z' {
        ((c as u32 + 32) as u32) as char
    } else {
        c
    }
}

/// `s[i..]` is `word`, whether its letters are capital or small.
pub open spec fn is_word(s: Seq<char>, i: nat, word: Seq<char>) -> bool {
    &&& s.len() - i == word.len()
    &&& forall|k: int| 0 <= k < word.len() ==> lower(s[i + k]) == #[trigger] word[k]
}

/// Just past the digits of a number at `i`, with or without a dot among them,
/// or nothing where there is no digit.
pub open spec fn mantissa_end(s: Seq<char>, i: nat) -> Option<nat> {
    let whole = digits_end(s, i);
    if whole < s.len() && s[whole as int] == '.' {
        let end = digits_end(s, whole + 1);
        if whole > i || end > whole + 1 {
            Some(end)
        } else {
            None
        }
    } else if whole > i {
        Some(whole)
    } else {
        None
    }
}

/// `s[i..]` is nothing, or an exponent: `e`, a sign if it has one, and digits.
pub open spec fn is_exponent(s: Seq<char>, i: nat) -> bool {
    i == s.len() || {
        let start = sign_end(s, i + 1);
        &&& i < s.len()
        &&& s[i as int] == 'e' || s[i as int] == 'E'
        &&& start < s.len()
        &&& digits_end(s, start) == s.len()
    }
}

/// Whether `s` writes a floating-point number: after a sign if it has one,
/// `inf`, `infinity`, `nan` or a decimal number with or without an exponent.
pub open spec fn is_float(s: Seq<char>) -> bool {
    let start = sign_end(s, 0);
    ||| is_word(s, start, "inf"@)
    ||| is_word(s, start, "infinity"@)
    ||| is_word(s, start, "nan"@)
    ||| match mantissa_end(s, start) {
        Some(end) => is_exponent(s, end),
        None => false,
    }
}

/// `c` as a small letter, where it is one of the letters `A` to `Z`.
fn to_lower(c: char) -> (r: char)
    ensures
        r == lower(c),
{
    if 'A' <= c && c <= 'Z' {
        let n: u8 = c as u8 + 32;
        n as char
    } else {
        c
    }
}

/// Whether `s[i..]` is `word`, whether its letters are capital or small.
fn matches_word(s: &[char], i: usize, word: &str) -> (r: bool)
    requires
        i <= s@.len(),
    ensures
        r == is_word(s@, i as nat, word@),
{
    let chars = text::chars_of(word);
    let len = s.len();
    if len - i != chars.len() {
        return false;
    }
    let mut k: usize = 0;
    while k < chars.len()
        invariant
            chars@ == word@,
            i + chars@.len() == len == s@.len(),
            k <= chars@.len(),
            forall|j: int| 0 <= j < k ==> lower(s@[i + j]) == #[trigger] word@[j],
        decreases chars@.len() - k,
    {
        if to_lower(s[i + k]) != chars[k] {
            assert(lower(s@[i + k]) != word@[k as int]);
            return false;
        }
        k += 1;
    }
    true
}

/// Whether `s[i..]` is nothing or an exponent.
fn matches_exponent(s: &[char], i: usize) -> (r: bool)
    requires
        i <= s@.len(),
    ensures
        r == is_exponent(s@, i as nat),
{
    if i == s.len() {
        return true;
    }
    if !(s[i] == 'e' || s[i] == 'E') {
        return false;
    }
    let start = find_sign_end(s, i + 1);
    start < s.len() && find_digits_end(s, start) == s.len()
}

/// Whether `text` writes a floating-point number.
pub fn writes_float(text: &str) -> (r: bool)
    ensures
        r == is_float(text@),
{
    let chars = text::chars_of(text);
    let s: &[char] = chars.as_slice();
    let start = find_sign_end(s, 0);
    if matches_word(s, start, "inf") || matches_word(s, start, "infinity") || matches_word(
        s,
        start,
        "nan",
    ) {
        return true;
    }
    let whole = find_digits_end(s, start);
    if whole < s.len() && s[whole] == '.' {
        let end = find_digits_end(s, whole + 1);
        (whole > start || end > whole + 1) && matches_exponent(s, end)
    } else {
        whole > start && matches_exponent(s, whole)
    }
}

// --- decimal digits ---

/// The decimal digit for `n`.
pub open spec fn digit(n: nat) -> char {
    ((n + 48) as u32) as char
}

/// `n` in decimal digits.
pub open spec fn decimal(n: nat) -> Seq<char>
    decreases n,
{
    if n < 10 {
        seq![digit(n)]
    } else {
        decimal(n / 10).push(digit(n % 10))
    }
}

/// `n` in decimal digits, at the end of `out`.
pub fn push_decimal(n: usize, out: &mut String)
    ensures
        final(out)@ == old(out)@ + decimal(n as nat),
    decreases n,
{
    let ghost before = out@;
    if n >= 10 {
        push_decimal(n / 10, out);
    }
    let last: u8 = (n % 10) as u8 + 48;
    out.push(last as char);
    assert(out@ =~= before + decimal(n as nat));
}

} // verus!
