//! Escapes in quoted scalars.
use crate::ascii;
use crate::lexer;
use crate::span::Span;
use crate::text;
use std::borrow::Cow;
use vstd::prelude::*;
use vstd::string::*;
use vstd::utf8::*;

verus! {

/// `String::push` puts a character at the end of the string.
pub assume_specification[ String::push ](s: &mut String, c: char)
    ensures
        final(s)@ == old(s)@.push(c),
;

/// `char::from_u32` gives the character with that number: there is one unless
/// the number is a surrogate or too large.
pub assume_specification[ char::from_u32 ](n: u32) -> (c: Option<char>)
    ensures
        match c {
            Some(c) => c as u32 == n,
            None => !is_scalar(n),
        },
;

// --- hexadecimal numbers ---

/// A hexadecimal digit.
pub open spec fn is_hex(c: char) -> bool {
    '0' <= c <= '9' || 'a' <= c <= 'f' || 'A' <= c <= 'F'
}

/// The value of a hexadecimal digit.
pub open spec fn hex_digit(c: char) -> int {
    if '0' <= c <= '9' {
        c as int - '0' as int
    } else if 'a' <= c <= 'f' {
        c as int - 'a' as int + 10
    } else {
        c as int - 'A' as int + 10
    }
}

/// The number that a row of hexadecimal digits writes.
pub open spec fn hex_number(digits: Seq<char>) -> int
    decreases digits.len(),
{
    if digits.len() == 0 {
        0
    } else {
        16 * hex_number(digits.drop_last()) + hex_digit(digits.last())
    }
}

/// The digits of a number that may start with `+`.
pub open spec fn unsigned(s: Seq<char>) -> Seq<char> {
    if s.len() > 0 && s[0] == '+' {
        s.skip(1)
    } else {
        s
    }
}

/// A row of digits that writes the number of a character.
pub open spec fn names_char(digits: Seq<char>) -> bool {
    &&& digits.len() > 0
    &&& forall|i: int| 0 <= i < digits.len() ==> is_hex(#[trigger] digits[i])
    &&& hex_number(digits) <= u32::MAX
    &&& is_scalar(hex_number(digits) as u32)
}

/// The character whose number `s` writes, or nothing.
pub open spec fn char_named(s: Seq<char>) -> Seq<char> {
    if names_char(unsigned(s)) {
        seq![(hex_number(unsigned(s)) as u32) as char]
    } else {
        Seq::empty()
    }
}

/// A row of digits writes no negative number, and no smaller one than its start.
proof fn lemma_hex_number(digits: Seq<char>, n: int)
    requires
        0 <= n <= digits.len(),
        forall|i: int| 0 <= i < digits.len() ==> is_hex(#[trigger] digits[i]),
    ensures
        0 <= hex_number(digits.take(n)) <= hex_number(digits),
    decreases digits.len(),
{
    if digits.len() > 0 {
        let front = digits.drop_last();
        if n < digits.len() {
            lemma_hex_number(front, n);
            assert(front.take(n) =~= digits.take(n));
        } else {
            lemma_hex_number(front, front.len() as int);
            assert(front.take(front.len() as int) =~= front);
            assert(digits.take(n) =~= digits);
        }
    } else {
        assert(digits.take(n) =~= digits);
    }
}

/// The value of a hexadecimal digit.
fn hex_digit_value(c: char) -> (v: Option<u32>)
    ensures
        match v {
            Some(v) => is_hex(c) && v == hex_digit(c) && v < 16,
            None => !is_hex(c),
        },
{
    if '0' <= c && c <= '9' {
        Some(c as u32 - 48)
    } else if 'a' <= c && c <= 'f' {
        Some(c as u32 - 87)
    } else if 'A' <= c && c <= 'F' {
        Some(c as u32 - 55)
    } else {
        None
    }
}

/// The character whose number `chars[from..to]` writes.
fn find_char_named(chars: &[char], from: usize, to: usize) -> (c: Option<char>)
    requires
        from <= to <= chars@.len(),
    ensures
        char_named(chars@.subrange(from as int, to as int)) == match c {
            Some(c) => seq![c],
            None => Seq::empty(),
        },
{
    let ghost s = chars@.subrange(from as int, to as int);
    let mut start = from;
    if from < to && chars[from] == '+' {
        start = from + 1;
    }
    let ghost digits = unsigned(s);
    assert(digits =~= chars@.subrange(start as int, to as int));
    if start == to {
        return None;
    }
    let mut n: u64 = 0;
    let mut i: usize = start;
    assert(digits.take(0) =~= Seq::<char>::empty());
    while i < to
        invariant
            from <= start <= i <= to <= chars@.len(),
            s == chars@.subrange(from as int, to as int),
            digits == unsigned(s),
            digits == chars@.subrange(start as int, to as int),
            n == hex_number(digits.take(i - start)),
            n <= u32::MAX,
            forall|j: int| 0 <= j < i - start ==> is_hex(#[trigger] digits[j]),
        decreases to - i,
    {
        assert(digits[i - start] == chars@[i as int]);
        match hex_digit_value(chars[i]) {
            Some(v) => {
                n = n * 16 + v as u64;
            },
            None => {
                return None;
            },
        }
        i += 1;
        assert(digits.take(i - start).drop_last() =~= digits.take(i - start - 1));
        if n > u32::MAX as u64 {
            proof {
                if names_char(digits) {
                    lemma_hex_number(digits, i - start);
                }
            }
            return None;
        }
    }
    assert(digits.take(i - start) =~= digits);
    let c = char::from_u32(n as u32);
    proof {
        if let Some(c) = c {
            char_is_scalar(c);
            char_u32_cast(c, n as u32);
        }
    }
    c
}

// --- what a quoted scalar says ---

/// What becomes of `\u` where four hexadecimal digits do not follow.
#[derive(Debug, Clone, Copy, PartialEq, Eq, Structural)]
pub enum ShortUnicode {
    /// The next four characters, or as many as there are, are dropped unless
    /// they write the number of a character.
    Dropped,
    /// `\u` and the digits that do follow stay as they are.
    Kept,
}

/// The first place from `i` on that holds `c`, or the end of `s`.
pub open spec fn place_of(s: Seq<char>, c: char, i: nat) -> nat
    decreases s.len() - i,
{
    if i < s.len() && s[i as int] != c {
        place_of(s, c, i + 1)
    } else {
        i
    }
}

/// Just past the hexadecimal digits from `i` on, at most `most` of them.
pub open spec fn hex_end(s: Seq<char>, i: nat, most: nat) -> nat
    decreases most,
{
    if most > 0 && i < s.len() && is_hex(s[i as int]) {
        hex_end(s, i + 1, (most - 1) as nat)
    } else {
        i
    }
}

/// The number of a character in braces ends at `i` or with the text.
pub open spec fn past_brace(s: Seq<char>, i: nat) -> nat {
    if i < s.len() {
        i + 1
    } else {
        i
    }
}

/// What `\u` followed by `s[i..]` says, and where it ends.
pub open spec fn unicode_escape(s: Seq<char>, i: nat, short: ShortUnicode) -> (Seq<char>, nat) {
    if i < s.len() && s[i as int] == '{' {
        let close = place_of(s, '}', i + 1);
        (char_named(s.subrange((i + 1) as int, close as int)), past_brace(s, close))
    } else if short == ShortUnicode::Dropped {
        let end = if i + 4 <= s.len() {
            i + 4
        } else {
            s.len()
        };
        (char_named(s.subrange(i as int, end as int)), end)
    } else {
        let end = hex_end(s, i, 4);
        if end == i + 4 {
            (char_named(s.subrange(i as int, end as int)), end)
        } else {
            (seq!['\\', 'u'] + s.subrange(i as int, end as int), end)
        }
    }
}

/// What the inside `s` of a quoted scalar says from `i` on.
pub open spec fn unescape(s: Seq<char>, i: nat, short: ShortUnicode) -> Seq<char>
    decreases s.len() - i,
    via unescape_decreases
{
    if i >= s.len() {
        Seq::empty()
    } else if s[i as int] != '\\' {
        seq![s[i as int]] + unescape(s, i + 1, short)
    } else if i + 1 == s.len() {
        seq!['\\']
    } else {
        let c = s[(i + 1) as int];
        if c == 'n' {
            seq!['\n'] + unescape(s, i + 2, short)
        } else if c == 'r' {
            seq!['\r'] + unescape(s, i + 2, short)
        } else if c == 't' {
            seq!['\t'] + unescape(s, i + 2, short)
        } else if c == '\\' || c == '"' {
            seq![c] + unescape(s, i + 2, short)
        } else if c == 'u' {
            let (said, end) = unicode_escape(s, i + 2, short);
            said + unescape(s, end, short)
        } else {
            seq!['\\', c] + unescape(s, i + 2, short)
        }
    }
}

#[via_fn]
proof fn unescape_decreases(s: Seq<char>, i: nat, short: ShortUnicode) {
    if i + 2 <= s.len() {
        lemma_unicode_end(s, i + 2, short);
    }
}

/// `\u` followed by `s[i..]` ends within `s`.
proof fn lemma_unicode_end(s: Seq<char>, i: nat, short: ShortUnicode)
    requires
        i <= s.len(),
    ensures
        i <= unicode_escape(s, i, short).1 <= s.len(),
{
    if i < s.len() {
        lemma_place_of(s, '}', i + 1);
    }
    lemma_hex_end(s, i, 4);
}

/// What [`place_of`] finds lies within `s`.
proof fn lemma_place_of(s: Seq<char>, c: char, i: nat)
    requires
        i <= s.len(),
    ensures
        i <= place_of(s, c, i) <= s.len(),
    decreases s.len() - i,
{
    if i < s.len() && s[i as int] != c {
        lemma_place_of(s, c, i + 1);
    }
}

/// What [`hex_end`] finds lies within `s`.
proof fn lemma_hex_end(s: Seq<char>, i: nat, most: nat)
    requires
        i <= s.len(),
    ensures
        i <= hex_end(s, i, most) <= s.len(),
        hex_end(s, i, most) <= i + most,
    decreases most,
{
    if most > 0 && i < s.len() && is_hex(s[i as int]) {
        lemma_hex_end(s, i + 1, (most - 1) as nat);
    }
}

/// Text without a backslash says itself.
pub proof fn lemma_unescape_plain(s: Seq<char>, i: nat, short: ShortUnicode)
    requires
        i <= s.len(),
        !s.contains('\\'),
    ensures
        unescape(s, i, short) == s.skip(i as int),
    decreases s.len() - i,
{
    if i < s.len() {
        lemma_unescape_plain(s, i + 1, short);
        assert(s[i as int] != '\\');
        assert(s.skip(i as int) =~= seq![s[i as int]] + s.skip((i + 1) as int));
    } else {
        assert(s.skip(i as int) =~= Seq::<char>::empty());
    }
}

/// How `c` is written inside a quoted scalar.
pub open spec fn escaped_char(c: char) -> Seq<char> {
    if c == '\\' || c == '"' {
        seq!['\\', c]
    } else if c == '\n' {
        seq!['\\', 'n']
    } else if c == '\r' {
        seq!['\\', 'r']
    } else if c == '\t' {
        seq!['\\', 't']
    } else {
        seq![c]
    }
}

/// How the characters of `text` from number `k` on are written inside a quoted
/// scalar.
pub open spec fn escaped(text: Seq<char>, k: nat) -> Seq<char>
    decreases text.len() - k,
{
    if k >= text.len() {
        Seq::empty()
    } else {
        escaped_char(text[k as int]) + escaped(text, k + 1)
    }
}

/// See [`law_escaped`].
proof fn lemma_escaped(s: Seq<char>, i: nat, text: Seq<char>, k: nat, short: ShortUnicode)
    requires
        i <= s.len(),
        k <= text.len(),
        s.skip(i as int) == escaped(text, k),
    ensures
        unescape(s, i, short) == text.skip(k as int),
    decreases text.len() - k,
{
    let rest = s.skip(i as int);
    if k < text.len() {
        let one = escaped_char(text[k as int]);
        let next = i + one.len();
        assert(rest.len() == one.len() + escaped(text, k + 1).len());
        assert(s[i as int] == rest[0] && rest[0] == one[0]);
        if one.len() == 2 {
            assert(s[(i + 1) as int] == rest[1] && rest[1] == one[1]);
        }
        assert(s.skip(next as int) =~= rest.skip(one.len() as int));
        assert(rest.skip(one.len() as int) =~= escaped(text, k + 1));
        lemma_escaped(s, next, text, k + 1, short);
        assert(text.skip(k as int) =~= seq![text[k as int]] + text.skip((k + 1) as int));
    } else {
        assert(rest.len() == 0);
        assert(text.skip(k as int) =~= Seq::<char>::empty());
    }
}

/// A text whose backslashes, quotes, line feeds, carriage returns and tabs are
/// escaped says the text.
pub proof fn law_escaped(text: Seq<char>, short: ShortUnicode)
    ensures
        unescape(escaped(text, 0), 0, short) == text,
{
    let s = escaped(text, 0);
    assert(s.skip(0) =~= s);
    lemma_escaped(s, 0, text, 0, short);
    assert(text.skip(0) =~= text);
}

/// The hexadecimal digit for `n`, which is below 16, with a capital or a small
/// letter.
pub open spec fn hex_char(n: int, capital: bool) -> char {
    if n < 10 {
        (('0' as u32 + n) as u32) as char
    } else if capital {
        (('A' as u32 + n - 10) as u32) as char
    } else {
        (('a' as u32 + n - 10) as u32) as char
    }
}

/// `n` in `count` hexadecimal digits.
pub open spec fn hex_digits(n: int, count: nat, capital: bool) -> Seq<char>
    decreases count,
{
    if count == 0 {
        Seq::empty()
    } else {
        hex_digits(n / 16, (count - 1) as nat, capital).push(hex_char(n % 16, capital))
    }
}

/// A hexadecimal digit has the value that it is written for.
proof fn lemma_hex_char(n: int, capital: bool)
    requires
        0 <= n < 16,
    ensures
        is_hex(hex_char(n, capital)),
        hex_digit(hex_char(n, capital)) == n,
        hex_char(n, capital) != '+',
        hex_char(n, capital) != '{',
        hex_char(n, capital) != '}',
{
}

/// 16 to the power of `count`.
pub open spec fn hex_range(count: nat) -> int
    decreases count,
{
    if count == 0 {
        1
    } else {
        16 * hex_range((count - 1) as nat)
    }
}

/// Hexadecimal digits write the number that they are for.
proof fn lemma_hex_digits(n: int, count: nat, capital: bool)
    requires
        0 <= n < hex_range(count),
    ensures
        hex_digits(n, count, capital).len() == count,
        hex_number(hex_digits(n, count, capital)) == n,
        forall|i: int|
            0 <= i < count ==> is_hex(#[trigger] hex_digits(n, count, capital)[i]) && hex_digits(
                n,
                count,
                capital,
            )[i] != '+' && hex_digits(n, count, capital)[i] != '{' && hex_digits(
                n,
                count,
                capital,
            )[i] != '}',
    decreases count,
{
    if count > 0 {
        let front = hex_digits(n / 16, (count - 1) as nat, capital);
        lemma_hex_digits(n / 16, (count - 1) as nat, capital);
        lemma_hex_char(n % 16, capital);
        assert(hex_digits(n, count, capital).drop_last() =~= front);
        assert(hex_digits(n, count, capital).last() == hex_char(n % 16, capital));
    }
}

/// The digits of a character name it.
proof fn lemma_names(c: char, count: nat, capital: bool)
    requires
        1 <= count <= 8,
        (c as u32) < hex_range(count),
    ensures
        hex_digits(c as int, count, capital).len() == count,
        char_named(hex_digits(c as int, count, capital)) == seq![c],
        forall|i: int|
            0 <= i < count ==> is_hex(#[trigger] hex_digits(c as int, count, capital)[i])
                && hex_digits(c as int, count, capital)[i] != '{' && hex_digits(
                c as int,
                count,
                capital,
            )[i] != '}',
{
    let digits = hex_digits(c as int, count, capital);
    lemma_hex_digits(c as int, count, capital);
    assert(digits[0] != '+');
    assert(unsigned(digits) == digits);
    char_is_scalar(c);
    char_u32_cast(c, c as u32);
}

/// Where a character is found that comes nowhere before.
proof fn lemma_place_is(s: Seq<char>, c: char, i: nat, at: nat)
    requires
        i <= at < s.len(),
        s[at as int] == c,
        forall|k: int| i <= k < at ==> #[trigger] s[k] != c,
    ensures
        place_of(s, c, i) == at,
    decreases at - i,
{
    if i < at {
        lemma_place_is(s, c, i + 1, at);
    }
}

/// Digits go on up to as many as are asked for.
proof fn lemma_hex_end_is(s: Seq<char>, i: nat, most: nat)
    requires
        i + most <= s.len(),
        forall|k: int| i <= k < i + most ==> is_hex(#[trigger] s[k]),
    ensures
        hex_end(s, i, most) == i + most,
    decreases most,
{
    if most > 0 {
        assert(is_hex(s[i as int]));
        lemma_hex_end_is(s, i + 1, (most - 1) as nat);
    }
}

/// Every character can be written by its number: `\u` and the number in braces, in
/// up to eight hexadecimal digits, and where it has at most four digits, `\u` and
/// four digits. Their letters are capital or small.
pub proof fn law_unicode(c: char, count: nat, capital: bool, short: ShortUnicode)
    requires
        1 <= count <= 8,
        (c as u32) < hex_range(count),
    ensures
        unescape(
            seq!['\\', 'u', '{'] + hex_digits(c as int, count, capital) + seq!['}'],
            0,
            short,
        ) == seq![c],
        count == 4 ==> unescape(seq!['\\', 'u'] + hex_digits(c as int, 4, capital), 0, short)
            == seq![c],
{
    let digits = hex_digits(c as int, count, capital);
    lemma_names(c, count, capital);
    let s = seq!['\\', 'u', '{'] + digits + seq!['}'];
    assert(s.len() == count + 4);
    assert(s[0] == '\\' && s[1] == 'u' && s[2] == '{' && s[(count + 3) as int] == '}');
    assert forall|k: int| 3 <= k < count + 3 implies #[trigger] s[k] != '}' by {
        assert(s[k] == digits[k - 3]);
    }
    lemma_place_is(s, '}', 3, count + 3);
    assert(s.subrange(3, count + 3int) =~= digits);
    assert(unicode_escape(s, 2, short) == (seq![c], (count + 4) as nat));
    assert(unescape(s, (count + 4) as nat, short) =~= Seq::<char>::empty());
    assert(unescape(s, 0, short) =~= seq![c]);
    if count == 4 {
        let t = seq!['\\', 'u'] + digits;
        assert(t.len() == 6);
        assert(t[0] == '\\' && t[1] == 'u');
        assert forall|k: int| 2 <= k < 6 implies is_hex(#[trigger] t[k]) by {
            assert(t[k] == digits[k - 2]);
        }
        assert(t[2] == digits[0]);
        lemma_hex_end_is(t, 2, 4);
        assert(t.subrange(2, 6) =~= digits);
        assert(unicode_escape(t, 2, short) == (seq![c], 6nat));
        assert(unescape(t, 6, short) =~= Seq::<char>::empty());
        assert(unescape(t, 0, short) =~= seq![c]);
    }
}

/// Fewer than four digits behind `\u` stay as they are, with it, or say the
/// character whose number they write.
pub proof fn law_short_unicode(c: char, count: nat, capital: bool)
    requires
        1 <= count < 4,
        (c as u32) < hex_range(count),
    ensures
        ({
            let s = seq!['\\', 'u'] + hex_digits(c as int, count, capital);
            &&& unescape(s, 0, ShortUnicode::Kept) == s
            &&& unescape(s, 0, ShortUnicode::Dropped) == seq![c]
        }),
{
    let digits = hex_digits(c as int, count, capital);
    lemma_names(c, count, capital);
    let s = seq!['\\', 'u'] + digits;
    let e = s.len();
    assert(e == count + 2);
    assert(s[0] == '\\' && s[1] == 'u' && s[2] == digits[0]);
    assert forall|k: int| 2 <= k < e implies is_hex(#[trigger] s[k]) by {
        assert(s[k] == digits[k - 2]);
    }
    assert(s.subrange(2, e as int) =~= digits);
    lemma_hex_end_short(s, 2, 4);
    assert(unescape(s, e, ShortUnicode::Kept) =~= Seq::<char>::empty());
    assert(unescape(s, e, ShortUnicode::Dropped) =~= Seq::<char>::empty());
    assert(unescape(s, 0, ShortUnicode::Kept) =~= s);
    assert(unescape(s, 0, ShortUnicode::Dropped) =~= seq![c]);
}

/// Digits go on up to the end of a text that is too short.
proof fn lemma_hex_end_short(s: Seq<char>, i: nat, most: nat)
    requires
        i <= s.len() <= i + most,
        forall|k: int| i <= k < s.len() ==> is_hex(#[trigger] s[k]),
    ensures
        hex_end(s, i, most) == s.len(),
    decreases most,
{
    if i < s.len() {
        assert(is_hex(s[i as int]));
        lemma_hex_end_short(s, i + 1, (most - 1) as nat);
    }
}

/// A number in braces that is a surrogate, or too large, says nothing.
pub proof fn law_no_character(n: int, count: nat, capital: bool, short: ShortUnicode)
    requires
        1 <= count <= 8,
        0 <= n < hex_range(count),
        0xd800 <= n <= 0xdfff || n > 0x10ffff,
    ensures
        unescape(
            seq!['\\', 'u', '{'] + hex_digits(n, count, capital) + seq!['}'],
            0,
            short,
        ) == Seq::<char>::empty(),
{
    let digits = hex_digits(n, count, capital);
    lemma_hex_digits(n, count, capital);
    let s = seq!['\\', 'u', '{'] + digits + seq!['}'];
    assert(s.len() == count + 4);
    assert(s[0] == '\\' && s[1] == 'u' && s[2] == '{' && s[(count + 3) as int] == '}');
    assert forall|k: int| 3 <= k < count + 3 implies #[trigger] s[k] != '}' by {
        assert(s[k] == digits[k - 3]);
    }
    lemma_place_is(s, '}', 3, count + 3);
    assert(s.subrange(3, count + 3int) =~= digits);
    assert(digits[0] != '+');
    assert(unsigned(digits) == digits);
    assert(unicode_escape(s, 2, short) == (Seq::<char>::empty(), (count + 4) as nat));
    assert(unescape(s, (count + 4) as nat, short) =~= Seq::<char>::empty());
    assert(unescape(s, 0, short) =~= Seq::<char>::empty());
}

/// A backslash before any other character stays, with the character.
pub proof fn law_other_escapes(c: char, short: ShortUnicode)
    requires
        c != 'n' && c != 'r' && c != 't' && c != 'u' && c != '"' && c != '\\',
    ensures
        unescape(seq!['\\', c], 0, short) == seq!['\\', c],
{
    let s = seq!['\\', c];
    assert(unescape(s, 2, short) =~= Seq::<char>::empty());
    assert(unescape(s, 0, short) =~= s);
}

/// The first place from `i` on that holds `c`, or the end of `chars`.
fn find_place(chars: &[char], c: char, i: usize) -> (r: usize)
    requires
        i <= chars@.len(),
    ensures
        r == place_of(chars@, c, i as nat),
        i <= r <= chars@.len(),
{
    let mut k: usize = i;
    while k < chars.len() && chars[k] != c
        invariant
            i <= k <= chars@.len(),
            place_of(chars@, c, i as nat) == place_of(chars@, c, k as nat),
        decreases chars@.len() - k,
    {
        k += 1;
    }
    k
}

/// Just past the hexadecimal digits from `i` on, at most `most` of them.
fn find_hex_end(chars: &[char], i: usize, most: usize) -> (r: usize)
    requires
        i <= chars@.len(),
    ensures
        r == hex_end(chars@, i as nat, most as nat),
        i <= r <= chars@.len(),
{
    let mut k: usize = i;
    let mut left: usize = most;
    while left > 0 && k < chars.len() && hex_digit_value(chars[k]).is_some()
        invariant
            i <= k <= chars@.len(),
            hex_end(chars@, i as nat, most as nat) == hex_end(chars@, k as nat, left as nat),
        decreases left,
    {
        k += 1;
        left -= 1;
    }
    k
}

/// Puts `chars[from..to]` at the end of `out`.
fn push_chars(chars: &[char], from: usize, to: usize, out: &mut String)
    requires
        from <= to <= chars@.len(),
    ensures
        final(out)@ == old(out)@ + chars@.subrange(from as int, to as int),
{
    let ghost before = out@;
    let mut i: usize = from;
    assert(chars@.subrange(from as int, i as int) =~= Seq::<char>::empty());
    while i < to
        invariant
            from <= i <= to <= chars@.len(),
            out@ == before + chars@.subrange(from as int, i as int),
        decreases to - i,
    {
        out.push(chars[i]);
        i += 1;
        assert(chars@.subrange(from as int, i as int) =~= chars@.subrange(
            from as int,
            i - 1,
        ).push(chars@[i - 1]));
    }
}

/// Puts the character whose number `chars[from..to]` writes at the end of `out`.
fn push_char_named(chars: &[char], from: usize, to: usize, out: &mut String)
    requires
        from <= to <= chars@.len(),
    ensures
        final(out)@ == old(out)@ + char_named(chars@.subrange(from as int, to as int)),
{
    if let Some(c) = find_char_named(chars, from, to) {
        out.push(c);
    }
}

/// Puts what `\u` followed by `chars[i..]` says at the end of `out`, and tells
/// where it ends.
fn push_unicode(chars: &[char], i: usize, short: ShortUnicode, out: &mut String) -> (end: usize)
    requires
        i <= chars@.len(),
    ensures
        final(out)@ == old(out)@ + unicode_escape(chars@, i as nat, short).0,
        end == unicode_escape(chars@, i as nat, short).1,
        i <= end <= chars@.len(),
{
    if i < chars.len() && chars[i] == '{' {
        let close = find_place(chars, '}', i + 1);
        push_char_named(chars, i + 1, close, out);
        if close < chars.len() {
            close + 1
        } else {
            close
        }
    } else if short == ShortUnicode::Dropped {
        let end = if chars.len() - i >= 4 {
            i + 4
        } else {
            chars.len()
        };
        push_char_named(chars, i, end, out);
        end
    } else {
        let end = find_hex_end(chars, i, 4);
        proof {
            lemma_hex_end(chars@, i as nat, 4);
        }
        if end - i == 4 {
            push_char_named(chars, i, end, out);
        } else {
            let ghost before = out@;
            out.push('\\');
            out.push('u');
            assert(out@ =~= before + seq!['\\', 'u']);
            push_chars(chars, i, end, out);
        }
        end
    }
}

/// What `inside`, the text between the quotes of a quoted scalar, says.
pub fn unescape_text<'a>(inside: &'a str, short: ShortUnicode) -> (r: Cow<'a, str>)
    ensures
        r@ == unescape(inside@, 0, short),
{
    let chars = text::chars_of(inside);
    let chars: &[char] = chars.as_slice();
    let ghost s = inside@;
    let len = chars.len();
    if find_place(chars, '\\', 0) == len {
        proof {
            lemma_place_missing(s, '\\', 0);
            lemma_unescape_plain(s, 0, short);
            assert(s.skip(0) =~= s);
        }
        return Cow::Borrowed(inside);
    }
    let mut out = String::new();
    let mut i: usize = 0;
    while i < len
        invariant
            i <= len,
            len == chars@.len(),
            chars@ == s,
            unescape(s, 0, short) == out@ + unescape(s, i as nat, short),
        decreases len - i,
    {
        let ghost before = out@;
        let ghost rest = unescape(s, i as nat, short);
        if chars[i] != '\\' {
            out.push(chars[i]);
            i += 1;
            assert(before + rest =~= out@ + unescape(s, i as nat, short));
        } else if i + 1 == len {
            out.push('\\');
            i += 1;
            assert(before + rest =~= out@ + unescape(s, i as nat, short));
        } else {
            let c = chars[i + 1];
            if c == 'u' {
                i = push_unicode(chars, i + 2, short, &mut out);
            } else {
                if c == 'n' {
                    out.push('\n');
                } else if c == 'r' {
                    out.push('\r');
                } else if c == 't' {
                    out.push('\t');
                } else if c == '\\' || c == '"' {
                    out.push(c);
                } else {
                    out.push('\\');
                    out.push(c);
                }
                i += 2;
            }
            assert(before + rest =~= out@ + unescape(s, i as nat, short));
        }
    }
    Cow::Owned(out)
}

/// A character that is found nowhere is not there.
proof fn lemma_place_missing(s: Seq<char>, c: char, i: nat)
    requires
        i <= s.len(),
        place_of(s, c, i) == s.len(),
        forall|k: int| 0 <= k < i ==> s[k] != c,
    ensures
        !s.contains(c),
    decreases s.len() - i,
{
    if i < s.len() {
        lemma_place_of(s, c, i);
        lemma_place_missing(s, c, i + 1);
    }
}

/// What the quoted scalar at `span` says.
pub open spec fn quoted_text(src: Seq<u8>, span: Span, short: ShortUnicode) -> Seq<char> {
    unescape(text::chars_between(src, span.start + 1, span.end - 1), 0, short)
}

/// The inside of a quoted scalar cuts no character.
pub proof fn lemma_quoted_inside(src: Seq<u8>, span: Span)
    requires
        valid_utf8(src),
        lexer::quoted_form(src, span),
    ensures
        text::is_cut(src, span.start + 1, span.end - 1),
{
    text::lemma_boundary(src, span.start + 1);
    text::lemma_boundary(src, span.end - 1);
}

/// What the quoted scalar at `span` says.
pub fn unescape_quoted<'a>(source: &'a str, span: Span, short: ShortUnicode) -> (r: Cow<'a, str>)
    requires
        lexer::quoted_form(source.spec_bytes(), span),
    ensures
        r@ == quoted_text(source.spec_bytes(), span, short),
{
    proof {
        encode_utf8_valid_utf8(source@);
        lemma_quoted_inside(source.spec_bytes(), span);
    }
    unescape_text(text::slice(source, span.start as usize + 1, span.end as usize - 1), short)
}

// --- escapes that mean nothing ---

/// The byte of an escape of two characters: `n`, `r`, `t`, a backslash or a quote.
pub open spec fn simple_escape(b: u8) -> bool {
    b == ascii::LOWER_N || b == ascii::LOWER_R || b == ascii::LOWER_T || b == ascii::BACKSLASH
        || b == ascii::QUOTE
}

/// The byte of a hexadecimal digit.
pub open spec fn hex_byte(b: u8) -> bool {
    ascii::DIGIT_0 <= b <= ascii::DIGIT_9 || ascii::LOWER_A <= b <= ascii::LOWER_F
        || ascii::UPPER_A <= b <= ascii::UPPER_F
}

/// Just past the hexadecimal digits of `b` from `i` on, at most `most` of them.
pub open spec fn hex_bytes_end(b: Seq<u8>, i: nat, most: nat) -> nat
    decreases most,
{
    if most > 0 && i < b.len() && hex_byte(b[i as int]) {
        hex_bytes_end(b, i + 1, (most - 1) as nat)
    } else {
        i
    }
}

/// Where `\u` followed by `b[i..]` ends.
pub open spec fn unicode_end(b: Seq<u8>, i: nat) -> nat {
    if i < b.len() && b[i as int] == ascii::LBRACE {
        let close = text::byte_offset(b, ascii::RBRACE, i, b.len());
        if close < b.len() {
            close + 1
        } else {
            close
        }
    } else {
        hex_bytes_end(b, i, 4)
    }
}

/// The escapes from `i` on in `b` that mean nothing: where each starts and how
/// many bytes of it there are.
pub open spec fn invalid_escapes(b: Seq<u8>, i: nat) -> Seq<(int, int)>
    decreases b.len() - i,
    via invalid_escapes_decreases
{
    if i >= b.len() {
        Seq::empty()
    } else if b[i as int] != ascii::BACKSLASH {
        invalid_escapes(b, i + 1)
    } else if i + 1 == b.len() {
        seq![(i as int, 1)]
    } else if simple_escape(b[(i + 1) as int]) {
        invalid_escapes(b, i + 2)
    } else if b[(i + 1) as int] == ascii::LOWER_U {
        invalid_escapes(b, unicode_end(b, i + 2))
    } else {
        seq![(i as int, 2)] + invalid_escapes(b, i + 2)
    }
}

#[via_fn]
proof fn invalid_escapes_decreases(b: Seq<u8>, i: nat) {
    if i + 2 <= b.len() {
        lemma_unicode_bytes_end(b, i + 2);
    }
}

/// `\u` followed by `b[i..]` ends within `b`.
pub proof fn lemma_unicode_bytes_end(b: Seq<u8>, i: nat)
    requires
        i <= b.len(),
    ensures
        i <= unicode_end(b, i) <= b.len(),
{
    text::lemma_byte_offset(b, ascii::RBRACE, i, b.len());
    lemma_hex_bytes_end(b, i, 4);
}

/// What [`hex_bytes_end`] finds lies within `b`.
proof fn lemma_hex_bytes_end(b: Seq<u8>, i: nat, most: nat)
    requires
        i <= b.len(),
    ensures
        i <= hex_bytes_end(b, i, most) <= b.len(),
    decreases most,
{
    if most > 0 && i < b.len() && hex_byte(b[i as int]) {
        lemma_hex_bytes_end(b, i + 1, (most - 1) as nat);
    }
}

/// `e` is one or two bytes of `b`, from `i` on, the first of them a backslash.
pub open spec fn escape_in(b: Seq<u8>, i: nat, e: (int, int)) -> bool {
    &&& i <= e.0
    &&& 1 <= e.1 <= 2
    &&& e.0 + e.1 <= b.len()
    &&& b[e.0] == ascii::BACKSLASH
}

/// An escape that means nothing starts with a backslash and has one byte or two.
pub proof fn lemma_invalid_escapes(b: Seq<u8>, i: nat)
    ensures
        forall|k: int|
            0 <= k < invalid_escapes(b, i).len() ==> escape_in(
                b,
                i,
                #[trigger] invalid_escapes(b, i)[k],
            ),
    decreases b.len() - i,
{
    let all = invalid_escapes(b, i);
    if i < b.len() && b[i as int] != ascii::BACKSLASH {
        lemma_invalid_escapes(b, i + 1);
        assert(all == invalid_escapes(b, i + 1));
    } else if i + 1 < b.len() {
        let tail = invalid_escapes(b, i + 2);
        lemma_invalid_escapes(b, i + 2);
        if simple_escape(b[(i + 1) as int]) {
            assert(all == tail);
        } else if b[(i + 1) as int] == ascii::LOWER_U {
            lemma_unicode_bytes_end(b, i + 2);
            lemma_invalid_escapes(b, unicode_end(b, i + 2));
            assert(all == invalid_escapes(b, unicode_end(b, i + 2)));
        } else {
            assert(all == seq![(i as int, 2int)] + tail);
            assert forall|k: int| 0 <= k < all.len() implies escape_in(b, i, #[trigger] all[k]) by {
                if k > 0 {
                    assert(all[k] == tail[k - 1]);
                }
            }
        }
    }
}

/// Just past the hexadecimal digits of `b` from `i` on, at most `most` of them.
fn find_hex_bytes_end(b: &[u8], i: usize, most: usize) -> (r: usize)
    requires
        i <= b@.len(),
    ensures
        r == hex_bytes_end(b@, i as nat, most as nat),
        i <= r <= b@.len(),
{
    let mut k: usize = i;
    let mut left: usize = most;
    while left > 0 && k < b.len() && is_hex_byte(b[k])
        invariant
            i <= k <= b@.len(),
            hex_bytes_end(b@, i as nat, most as nat) == hex_bytes_end(b@, k as nat, left as nat),
        decreases left,
    {
        k += 1;
        left -= 1;
    }
    k
}

/// Whether `b` is the byte of a hexadecimal digit.
fn is_hex_byte(b: u8) -> (r: bool)
    ensures
        r == hex_byte(b),
{
    (ascii::DIGIT_0 <= b && b <= ascii::DIGIT_9) || (ascii::LOWER_A <= b && b <= ascii::LOWER_F)
        || (ascii::UPPER_A <= b && b <= ascii::UPPER_F)
}

/// Where `\u` followed by `b[i..]` ends.
fn find_unicode_end(b: &[u8], i: usize) -> (r: usize)
    requires
        i <= b@.len(),
    ensures
        r == unicode_end(b@, i as nat),
        i <= r <= b@.len(),
{
    if i < b.len() && b[i] == ascii::LBRACE {
        let close = text::find_byte(b, ascii::RBRACE, i, b.len());
        if close < b.len() {
            close + 1
        } else {
            close
        }
    } else {
        find_hex_bytes_end(b, i, 4)
    }
}

/// Offsets and lengths as integers.
pub open spec fn ranges(list: Seq<(usize, usize)>) -> Seq<(int, int)> {
    list.map_values(|r: (usize, usize)| (r.0 as int, r.1 as int))
}

/// The escapes in `b`, the inside of a quoted scalar, that mean nothing: where
/// each starts and how many bytes of it there are.
pub fn find_invalid_escapes(b: &[u8]) -> (r: Vec<(usize, usize)>)
    ensures
        ranges(r@) == invalid_escapes(b@, 0),
{
    let mut r: Vec<(usize, usize)> = Vec::new();
    let mut i: usize = 0;
    assert(ranges(r@) + invalid_escapes(b@, 0) =~= invalid_escapes(b@, 0));
    while i < b.len()
        invariant
            i <= b@.len(),
            invalid_escapes(b@, 0) == ranges(r@) + invalid_escapes(b@, i as nat),
        decreases b@.len() - i,
    {
        let ghost before = ranges(r@);
        let ghost rest = invalid_escapes(b@, i as nat);
        if b[i] != ascii::BACKSLASH {
            i += 1;
        } else if i + 1 == b.len() {
            r.push((i, 1));
            i += 1;
            assert(before + rest =~= ranges(r@) + invalid_escapes(b@, i as nat));
        } else {
            let c = b[i + 1];
            if c == ascii::LOWER_N || c == ascii::LOWER_R || c == ascii::LOWER_T || c
                == ascii::BACKSLASH || c == ascii::QUOTE {
                i += 2;
            } else if c == ascii::LOWER_U {
                i = find_unicode_end(b, i + 2);
            } else {
                r.push((i, 2));
                i += 2;
                assert(before + rest =~= ranges(r@) + invalid_escapes(b@, i as nat));
            }
        }
    }
    assert(ranges(r@) + Seq::<(int, int)>::empty() =~= ranges(r@));
    r
}

} // verus!
