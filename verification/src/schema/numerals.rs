//! What numbers look like, and what they are.
use crate::schema::number;
use vstd::arithmetic::power::{lemma_pow0, lemma_pow_adds, lemma_pow1, pow};
use vstd::prelude::*;

verus! {

/// A row of decimal digits.
pub open spec fn is_row(s: Seq<char>) -> bool {
    forall|i: int| 0 <= i < s.len() ==> '0' <= #[trigger] s[i] <= '9'
}

/// The number that a row of decimal digits is: each digit counts as much as its
/// place does, from the ones on the right.
pub open spec fn place_value(row: Seq<char>) -> int
    decreases row.len(),
{
    if row.len() == 0 {
        0
    } else {
        (row[0] as int - 48) * pow(10, (row.len() - 1) as nat) + place_value(row.drop_first())
    }
}

/// A sign, or none.
pub open spec fn is_sign(sign: Seq<char>) -> bool {
    sign.len() == 0 || sign == seq!['+'] || sign == seq!['-']
}

/// One more digit on the right of a row.
proof fn lemma_push(row: Seq<char>, c: char)
    ensures
        place_value(row.push(c)) == 10 * place_value(row) + (c as int - 48),
    decreases row.len(),
{
    let all = row.push(c);
    if row.len() == 0 {
        assert(all.drop_first() =~= Seq::<char>::empty());
        lemma_pow0(10);
        let p = pow(10, 0);
        let x = c as int - 48;
        assert(x * p == x) by (nonlinear_arith)
            requires
                p == 1,
        ;
        assert(all[0] == c && (all.len() - 1) as nat == 0);
        assert(place_value(Seq::<char>::empty()) == 0);
        assert(place_value(all) == x * p + place_value(all.drop_first()));
        assert(place_value(row) == 0);
    } else {
        let rest = row.drop_first();
        lemma_push(rest, c);
        assert(all.drop_first() =~= rest.push(c));
        let p = pow(10, rest.len());
        let x = row[0] as int - 48;
        lemma_pow_adds(10, 1, rest.len());
        lemma_pow1(10);
        assert(pow(10, row.len()) == 10 * p);
        let q = pow(10, row.len());
        assert(x * q == 10 * (x * p)) by (nonlinear_arith)
            requires
                q == 10 * p,
        ;
        assert(all[0] == row[0] && (all.len() - 1) as nat == row.len());
        assert((row.len() - 1) as nat == rest.len());
        assert(place_value(row) == x * p + place_value(rest));
        assert(place_value(all) == x * q + place_value(rest.push(c)));
    }
}

/// A row of digits writes the number that its places make up.
proof fn lemma_row(row: Seq<char>)
    ensures
        number::digits_value(row) == place_value(row),
    decreases row.len(),
{
    if row.len() > 0 {
        lemma_row(row.drop_last());
        lemma_push(row.drop_last(), row.last());
        assert(row.drop_last().push(row.last()) =~= row);
    }
}

/// The digits end where a row of them does.
proof fn lemma_row_end(s: Seq<char>, i: nat, e: nat)
    requires
        i <= e <= s.len(),
        forall|k: int| i <= k < e ==> '0' <= #[trigger] s[k] <= '9',
        e == s.len() || !('0' <= s[e as int] <= '9'),
    ensures
        number::digits_end(s, i) == e,
    decreases e - i,
{
    if i < e {
        lemma_row_end(s, i + 1, e);
    }
}

/// The digits that end at `e` are a row.
proof fn lemma_end_row(s: Seq<char>, i: nat)
    requires
        i <= s.len(),
    ensures
        i <= number::digits_end(s, i) <= s.len(),
        is_row(s.subrange(i as int, number::digits_end(s, i) as int)),
    decreases s.len() - i,
{
    if i < s.len() && number::is_digit(s[i as int]) {
        lemma_end_row(s, i + 1);
        let e = number::digits_end(s, i);
        let row = s.subrange(i as int, e as int);
        let rest = s.subrange(i + 1int, e as int);
        assert forall|k: int| 0 <= k < row.len() implies '0' <= #[trigger] row[k] <= '9' by {
            if k > 0 {
                assert(row[k] == rest[k - 1]);
            }
        }
    }
}

// --- integers ---

/// A sign, if there is one, and a row of digits write an integer exactly where the
/// number that they are fits into 64 bits.
pub proof fn law_integers(sign: Seq<char>, row: Seq<char>)
    requires
        is_sign(sign),
        is_row(row),
    ensures
        number::is_integer(sign + row) <==> row.len() > 0 && if sign == seq!['-'] {
            -place_value(row) >= -0x8000_0000_0000_0000
        } else {
            place_value(row) <= 0x7fff_ffff_ffff_ffff
        },
{
    let s = sign + row;
    lemma_row(row);
    let n = sign.len();
    assert(s.skip(n as int) =~= row);
    if n > 0 {
        assert(s[0] == sign[0]);
        assert(sign == seq!['-'] <==> sign[0] == '-') by {
            if sign[0] == '-' {
                assert(sign =~= seq!['-']);
            }
        }
        assert(sign[0] == '+' || sign[0] == '-');
    } else if row.len() > 0 {
        assert(s[0] == row[0]);
        assert(sign != seq!['-']) by {
            assert(seq!['-'].len() == 1);
        }
    } else {
        assert(sign != seq!['-']) by {
            assert(seq!['-'].len() == 1);
        }
    }
    assert(number::sign_end(s, 0) == n);
    assert forall|k: int| n <= k < s.len() implies '0' <= #[trigger] s[k] <= '9' by {
        assert(s[k] == row[k - n]);
    }
    lemma_row_end(s, n, s.len());
}

/// Nothing writes an integer but a sign, if there is one, and a row of digits.
pub proof fn law_integer_form(s: Seq<char>) -> (r: (Seq<char>, Seq<char>))
    requires
        number::is_integer(s),
    ensures
        s == r.0 + r.1,
        is_sign(r.0),
        is_row(r.1),
        r.1.len() > 0,
{
    let start = number::sign_end(s, 0);
    lemma_end_row(s, start);
    let sign = s.take(start as int);
    let row = s.subrange(start as int, s.len() as int);
    assert(s =~= sign + row);
    if start > 0 {
        assert(sign =~= seq![s[0]]);
    }
    (sign, row)
}

// --- numbers that need not be whole ---

/// The parts of a decimal number: a sign, the digits before and after the dot, and
/// an exponent of a letter, a sign and digits.
pub struct Decimal {
    /// The sign, if there is one.
    pub sign: Seq<char>,
    /// The digits before the dot.
    pub whole: Seq<char>,
    /// The digits after the dot, if there is one.
    pub fraction: Option<Seq<char>>,
    /// The letter, the sign and the digits of the exponent, if there is one.
    pub exponent: Option<(char, Seq<char>, Seq<char>)>,
}

/// How the parts before the exponent are written, without the sign.
pub open spec fn mantissa(d: Decimal) -> Seq<char> {
    match d.fraction {
        Some(fraction) => d.whole + seq!['.'] + fraction,
        None => d.whole,
    }
}

/// How the exponent is written.
pub open spec fn exponent(d: Decimal) -> Seq<char> {
    match d.exponent {
        Some((letter, sign, row)) => seq![letter] + sign + row,
        None => Seq::empty(),
    }
}

/// How a decimal number is written.
pub open spec fn written(d: Decimal) -> Seq<char> {
    d.sign + mantissa(d) + exponent(d)
}

/// Each part is what it should be, and there is a digit before the exponent, and
/// one in it.
pub open spec fn decimal_ok(d: Decimal) -> bool {
    &&& is_sign(d.sign)
    &&& is_row(d.whole)
    &&& match d.fraction {
        Some(fraction) => is_row(fraction) && d.whole.len() + fraction.len() > 0,
        None => d.whole.len() > 0,
    }
    &&& d.exponent matches Some((letter, sign, row)) ==> {
        &&& letter == 'e' || letter == 'E'
        &&& is_sign(sign)
        &&& is_row(row)
        &&& row.len() > 0
    }
}

/// Where the sign of a number ends.
proof fn lemma_sign(s: Seq<char>, i: nat, sign: Seq<char>)
    requires
        is_sign(sign),
        i + sign.len() <= s.len(),
        s.subrange(i as int, i + sign.len() as int) == sign,
        sign.len() == 0 && i < s.len() ==> s[i as int] != '+' && s[i as int] != '-',
    ensures
        number::sign_end(s, i) == i + sign.len(),
{
    if sign.len() > 0 {
        assert(s.subrange(i as int, i + sign.len() as int)[0] == s[i as int]);
        assert(sign[0] == '+' || sign[0] == '-');
        assert(sign.len() == 1);
    }
}

/// The exponent of a number at its end.
proof fn lemma_exponent(s: Seq<char>, i: nat, d: Decimal)
    requires
        decimal_ok(d),
        i + exponent(d).len() == s.len(),
        s.subrange(i as int, s.len() as int) == exponent(d),
    ensures
        number::is_exponent(s, i),
{
    if let Some((letter, sign, row)) = d.exponent {
        let all = exponent(d);
        let tail = s.subrange(i as int, s.len() as int);
        assert(tail[0] == s[i as int]);
        assert(all[0] == letter);
        assert(s.subrange(i + 1int, i + 1 + sign.len() as int) =~= sign) by {
            assert forall|k: int| 0 <= k < sign.len() implies s[i + 1 + k] == sign[k] by {
                assert(tail[1 + k] == s[i + 1 + k]);
                assert(all[1 + k] == sign[k]);
            }
        }
        let start = i + 1 + sign.len();
        assert forall|k: int| start <= k < s.len() implies '0' <= #[trigger] s[k] <= '9' by {
            assert(tail[k - i] == s[k]);
            assert(all[k - i] == row[k - start]);
        }
        lemma_sign(s, i + 1, sign);
        lemma_row_end(s, start, s.len());
    }
}

/// Every decimal number is a number.
pub proof fn law_floats(d: Decimal)
    requires
        decimal_ok(d),
    ensures
        number::is_float(written(d)),
{
    let s = written(d);
    let front = mantissa(d);
    let back = exponent(d);
    let n = d.sign.len();
    assert(s.subrange(0, n as int) =~= d.sign);
    assert forall|k: int| 0 <= k < front.len() implies s[n + k] == #[trigger] front[k] by {}
    assert(s[n as int] == front[0]);
    if d.whole.len() > 0 {
        assert(front[0] == d.whole[0]);
    }
    lemma_sign(s, 0, d.sign);
    let w = n + d.whole.len();
    assert forall|k: int| n <= k < w implies '0' <= #[trigger] s[k] <= '9' by {
        assert(s[k] == front[k - n]);
        assert(front[k - n] == d.whole[k - n]);
    }
    let e = n + front.len();
    assert(s.subrange(e as int, s.len() as int) =~= back);
    if back.len() > 0 {
        assert(s[e as int] == back[0]);
    }
    if let Some(fraction) = d.fraction {
        assert(s[w as int] == front[d.whole.len() as int]);
        lemma_row_end(s, n, w);
        assert forall|k: int| w + 1 <= k < e implies '0' <= #[trigger] s[k] <= '9' by {
            assert(s[k] == front[k - n]);
            assert(front[k - n] == fraction[k - w - 1]);
        }
        lemma_row_end(s, w + 1, e);
    } else {
        lemma_row_end(s, n, w);
    }
    lemma_exponent(s, e, d);
}

/// A letter, whether it is capital or small.
pub open spec fn either_case(c: char, small: char, capital: char) -> bool {
    c == small || c == capital
}

/// `inf`, in capital or small letters.
pub open spec fn is_inf(w: Seq<char>) -> bool {
    &&& w.len() == 3
    &&& either_case(w[0], 'i', 'I')
    &&& either_case(w[1], 'n', 'N')
    &&& either_case(w[2], 'f', 'F')
}

/// `infinity`, in capital or small letters.
pub open spec fn is_infinity(w: Seq<char>) -> bool {
    &&& w.len() == 8
    &&& is_inf(w.take(3))
    &&& either_case(w[3], 'i', 'I')
    &&& either_case(w[4], 'n', 'N')
    &&& either_case(w[5], 'i', 'I')
    &&& either_case(w[6], 't', 'T')
    &&& either_case(w[7], 'y', 'Y')
}

/// `nan`, in capital or small letters.
pub open spec fn is_nan(w: Seq<char>) -> bool {
    &&& w.len() == 3
    &&& either_case(w[0], 'n', 'N')
    &&& either_case(w[1], 'a', 'A')
    &&& either_case(w[2], 'n', 'N')
}

/// A small letter is the small form of itself and of its capital, and of nothing
/// else.
proof fn lemma_lower(c: char, small: char, capital: char)
    requires
        'a' <= small <= 'z',
        small as int == capital as int + 32,
    ensures
        number::lower(c) == small <==> either_case(c, small, capital),
{
}

/// What the words are, letter by letter.
proof fn lemma_words(s: Seq<char>, i: nat)
    requires
        i <= s.len(),
    ensures
        number::is_word(s, i, "inf"@) <==> is_inf(s.skip(i as int)),
        number::is_word(s, i, "infinity"@) <==> is_infinity(s.skip(i as int)),
        number::is_word(s, i, "nan"@) <==> is_nan(s.skip(i as int)),
{
    reveal_strlit("inf");
    reveal_strlit("infinity");
    reveal_strlit("nan");
    let w = s.skip(i as int);
    assert forall|k: int| 0 <= k < w.len() implies #[trigger] w[k] == s[i + k] by {}
    if w.len() == 3 {
        lemma_lower(w[0], 'i', 'I');
        lemma_lower(w[1], 'n', 'N');
        lemma_lower(w[2], 'f', 'F');
        lemma_lower(w[0], 'n', 'N');
        lemma_lower(w[1], 'a', 'A');
        lemma_lower(w[2], 'n', 'N');
        assert("inf"@[0] == 'i' && "inf"@[1] == 'n' && "inf"@[2] == 'f');
        assert("nan"@[0] == 'n' && "nan"@[1] == 'a' && "nan"@[2] == 'n');
    }
    if w.len() == 8 {
        let v = w.take(3);
        assert(v[0] == w[0] && v[1] == w[1] && v[2] == w[2]);
        lemma_lower(w[0], 'i', 'I');
        lemma_lower(w[1], 'n', 'N');
        lemma_lower(w[2], 'f', 'F');
        lemma_lower(w[3], 'i', 'I');
        lemma_lower(w[4], 'n', 'N');
        lemma_lower(w[5], 'i', 'I');
        lemma_lower(w[6], 't', 'T');
        lemma_lower(w[7], 'y', 'Y');
        let x = "infinity"@;
        assert(x[0] == 'i' && x[1] == 'n' && x[2] == 'f' && x[3] == 'i');
        assert(x[4] == 'n' && x[5] == 'i' && x[6] == 't' && x[7] == 'y');
    }
}

/// After a sign, if there is one, the words for infinity and for no number are
/// numbers, whether their letters are capital or small.
pub proof fn law_float_words(sign: Seq<char>, word: Seq<char>)
    requires
        is_sign(sign),
        is_inf(word) || is_infinity(word) || is_nan(word),
    ensures
        number::is_float(sign + word),
{
    let s = sign + word;
    assert(s.subrange(0, sign.len() as int) =~= sign);
    assert(s[sign.len() as int] == word[0]);
    if is_infinity(word) {
        assert(word.take(3)[0] == word[0]);
    }
    lemma_sign(s, 0, sign);
    assert(s.skip(sign.len() as int) =~= word);
    lemma_words(s, sign.len());
}

/// The exponent that ends a number, in its parts.
proof fn lemma_exponent_form(s: Seq<char>, i: nat) -> (r: Option<(char, Seq<char>, Seq<char>)>)
    requires
        i <= s.len(),
        number::is_exponent(s, i),
    ensures
        r is None ==> i == s.len(),
        r matches Some((letter, sign, row)) ==> {
            &&& letter == 'e' || letter == 'E'
            &&& is_sign(sign)
            &&& is_row(row)
            &&& row.len() > 0
            &&& s.subrange(i as int, s.len() as int) == seq![letter] + sign + row
        },
{
    if i == s.len() {
        None
    } else {
        let start = number::sign_end(s, i + 1);
        lemma_end_row(s, start);
        let sign = s.subrange(i + 1int, start as int);
        let row = s.subrange(start as int, s.len() as int);
        if start > i + 1 {
            assert(sign =~= seq![s[i + 1int]]);
        }
        assert(s.subrange(i as int, s.len() as int) =~= seq![s[i as int]] + sign + row);
        Some((s[i as int], sign, row))
    }
}

/// Nothing is a number but a decimal number, or one of those words after a sign,
/// if there is one.
pub proof fn law_float_form(s: Seq<char>) -> (r: Decimal)
    requires
        number::is_float(s),
    ensures
        ({
            let w = s.skip(r.sign.len() as int);
            ||| decimal_ok(r) && s == written(r)
            ||| is_sign(r.sign) && r.sign.is_prefix_of(s) && (is_inf(w) || is_infinity(w) || is_nan(
                w,
            ))
        }),
{
    let start = number::sign_end(s, 0);
    let sign = s.take(start as int);
    if start > 0 {
        assert(sign =~= seq![s[0]]);
    }
    lemma_words(s, start);
    let word = s.skip(start as int);
    if is_inf(word) || is_infinity(word) || is_nan(word) {
        Decimal { sign, whole: Seq::empty(), fraction: None, exponent: None }
    } else {
        let end = number::mantissa_end(s, start)->0;
        let w = number::digits_end(s, start);
        lemma_end_row(s, start);
        let whole = s.subrange(start as int, w as int);
        let fraction = if w < s.len() && s[w as int] == '.' {
            lemma_end_row(s, w + 1);
            Some(s.subrange(w + 1int, end as int))
        } else {
            None
        };
        let exponent_parts = lemma_exponent_form(s, end);
        let r = Decimal { sign, whole, fraction, exponent: exponent_parts };
        assert(s.subrange(start as int, end as int) =~= mantissa(r));
        assert(s.subrange(end as int, s.len() as int) =~= exponent(r));
        assert(s =~= s.take(start as int) + s.subrange(start as int, end as int) + s.subrange(
            end as int,
            s.len() as int,
        ));
        r
    }
}

/// Whatever writes an integer is a number.
pub proof fn law_integers_are_numbers(s: Seq<char>)
    requires
        number::is_integer(s),
    ensures
        number::is_float(s),
{
    let (sign, row) = law_integer_form(s);
    let d = Decimal { sign, whole: row, fraction: None, exponent: None };
    assert(written(d) =~= s);
    law_floats(d);
}

// --- decimal digits ---

/// The digits of a number are those that make it up, without a zero in front.
pub proof fn law_decimal(n: nat)
    ensures
        is_row(number::decimal(n)),
        number::decimal(n).len() > 0,
        place_value(number::decimal(n)) == n,
        number::decimal(n).len() > 1 ==> number::decimal(n)[0] != '0',
        n > 0 ==> number::decimal(n)[0] != '0',
    decreases n,
{
    let c = number::digit(n % 10);
    assert('0' <= c <= '9' && c as int == n % 10 + 48);
    if n < 10 {
        assert(seq![c] =~= Seq::<char>::empty().push(c));
        lemma_push(Seq::empty(), c);
        assert(n % 10 == n);
    } else {
        law_decimal(n / 10);
        lemma_push(number::decimal(n / 10), c);
    }
}

} // verus!
