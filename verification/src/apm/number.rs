//! Numbers of an exposition. A number is carried as its text or as the bit
//! pattern of its binary64 value; arithmetic on it is left to the caller,
//! comparisons are here.

use vstd::prelude::*;

use crate::text::{chars_of, decimal};

verus! {

/// Bit pattern of positive infinity. Larger patterns without the sign bit are
/// not numbers.
pub const INFINITY_BITS: u64 = 0x7ff0_0000_0000_0000;

/// Bit pattern of one.
pub const ONE_BITS: u64 = 0x3ff0_0000_0000_0000;

/// The sign bit alone: the pattern of negative zero.
pub const SIGN_BIT: u64 = 0x8000_0000_0000_0000;

/// Place of a pattern in the total order of binary64: negative values before
/// positive ones, larger magnitudes of negative values first.
pub open spec fn order_key(bits: u64) -> int {
    if bits < SIGN_BIT {
        bits as int
    } else {
        SIGN_BIT - bits - 1
    }
}

/// Whether a pattern comes before another in the total order.
pub fn ordered_before(a: u64, b: u64) -> (before: bool)
    ensures
        before == (order_key(a) < order_key(b)),
{
    if a < SIGN_BIT {
        b < SIGN_BIT && a < b
    } else {
        b < SIGN_BIT || a > b
    }
}

/// Whether a pattern is no number.
pub open spec fn is_nan(bits: u64) -> bool {
    INFINITY_BITS < bits < SIGN_BIT || bits > SIGN_BIT + INFINITY_BITS
}

/// Whether a pattern is a zero of either sign.
pub open spec fn is_zero(bits: u64) -> bool {
    bits == 0 || bits == SIGN_BIT
}

/// Whether one number is less than another. Nothing is less than, or greater
/// than, what is no number; zeros of either sign are equal.
pub open spec fn less(a: u64, b: u64) -> bool {
    !is_nan(a) && !is_nan(b) && !(is_zero(a) && is_zero(b)) && order_key(a) < order_key(b)
}

/// Whether two numbers are equal. What is no number equals nothing.
pub open spec fn equal(a: u64, b: u64) -> bool {
    !is_nan(a) && !is_nan(b) && (a == b || (is_zero(a) && is_zero(b)))
}

fn not_a_number(bits: u64) -> (nan: bool)
    ensures
        nan == is_nan(bits),
{
    (INFINITY_BITS < bits && bits < SIGN_BIT) || bits > SIGN_BIT + INFINITY_BITS
}

pub fn less_than(a: u64, b: u64) -> (is_less: bool)
    ensures
        is_less == less(a, b),
{
    let zeros: bool = (a == 0 || a == SIGN_BIT) && (b == 0 || b == SIGN_BIT);
    !not_a_number(a) && !not_a_number(b) && !zeros && ordered_before(a, b)
}

pub fn equals(a: u64, b: u64) -> (same: bool)
    ensures
        same == equal(a, b),
{
    let zeros: bool = (a == 0 || a == SIGN_BIT) && (b == 0 || b == SIGN_BIT);
    !not_a_number(a) && !not_a_number(b) && (a == b || zeros)
}

/// Whether one number is at least another.
pub fn at_least(a: u64, b: u64) -> (reaches: bool)
    ensures
        reaches == (less(b, a) || equal(a, b)),
{
    less_than(b, a) || equals(a, b)
}

/// Among numbers, exactly one of less, equal and greater holds.
pub proof fn law_numbers_are_ordered(a: u64, b: u64)
    requires
        !is_nan(a),
        !is_nan(b),
    ensures
        less(a, b) || equal(a, b) || less(b, a),
        !(less(a, b) && less(b, a)),
        !(less(a, b) && equal(a, b)),
{
}

/// The order of patterns: of two that are not negative the smaller pattern is the
/// smaller number, of two negative ones the larger pattern; a negative number is
/// below every one that is not, zeros aside, which are equal.
pub proof fn law_patterns_order_as_numbers(a: u64, b: u64)
    ensures
        a <= 0x7ff0_0000_0000_0000 && b <= 0x7ff0_0000_0000_0000 ==> (less(a, b) <==> a < b) && (
        equal(a, b) <==> a == b),
        0x8000_0000_0000_0000 <= a <= 0xfff0_0000_0000_0000 && 0x8000_0000_0000_0000 <= b
            <= 0xfff0_0000_0000_0000 ==> (less(a, b) <==> a > b) && (equal(a, b) <==> a == b),
        0x8000_0000_0000_0000 <= a <= 0xfff0_0000_0000_0000 && b <= 0x7ff0_0000_0000_0000 ==> (less(
            a,
            b,
        ) <==> !(a == 0x8000_0000_0000_0000 && b == 0)) && (equal(a, b) <==> a
            == 0x8000_0000_0000_0000 && b == 0) && !less(b, a),
        a % 0x8000_0000_0000_0000 > 0x7ff0_0000_0000_0000 ==> !less(a, b) && !less(b, a) && !equal(
            a,
            b,
        ),
{
}

/// Whether a number is above zero and finite.
pub open spec fn finite_positive(bits: u64) -> bool {
    0 < bits < INFINITY_BITS
}

pub fn is_finite_positive(bits: u64) -> (yes: bool)
    ensures
        yes == finite_positive(bits),
{
    0 < bits && bits < INFINITY_BITS
}

pub open spec fn is_digit(c: char) -> bool {
    '0' <= c <= '9'
}

fn digit_char(c: char) -> (yes: bool)
    ensures
        yes == is_digit(c),
{
    '0' <= c && c <= '9'
}

/// Place behind the digits that stand from a place on.
pub open spec fn digits_end(text: Seq<char>, from: int) -> int
    decreases text.len() - from,
{
    if 0 <= from < text.len() && is_digit(text[from]) {
        digits_end(text, from + 1)
    } else {
        from
    }
}

proof fn lemma_digits_end(text: Seq<char>, from: int)
    requires
        0 <= from <= text.len(),
    ensures
        from <= digits_end(text, from) <= text.len(),
    decreases text.len() - from,
{
    if from < text.len() && is_digit(text[from]) {
        lemma_digits_end(text, from + 1);
    }
}

fn skip_digits(text: &Vec<char>, from: usize) -> (end: usize)
    requires
        from <= text.len(),
    ensures
        end == digits_end(text@, from as int),
        from <= end <= text.len(),
{
    let mut i: usize = from;
    while i < text.len() && digit_char(text[i])
        invariant
            from <= i <= text.len(),
            digits_end(text@, from as int) == digits_end(text@, i as int),
        decreases text.len() - i,
    {
        i = i + 1;
    }
    i
}

/// Place behind a sign at a place, or the place.
pub open spec fn sign_end(text: Seq<char>, from: int) -> int {
    if 0 <= from < text.len() && (text[from] == '+' || text[from] == '-') {
        from + 1
    } else {
        from
    }
}

fn skip_sign(text: &Vec<char>, from: usize) -> (end: usize)
    requires
        from <= text.len(),
    ensures
        end == sign_end(text@, from as int),
        from <= end <= text.len(),
{
    if from < text.len() && (text[from] == '+' || text[from] == '-') {
        from + 1
    } else {
        from
    }
}

/// A letter in lower case.
pub open spec fn lowered(c: char) -> char {
    if 'A' <= c <= 'Z' {
        (c as nat + 32) as char
    } else {
        c
    }
}

/// Whether a text, from a place on, is a word in either case.
pub open spec fn rest_is(text: Seq<char>, from: int, word: Seq<char>) -> bool {
    text.len() == from + word.len() && forall|i: int|
        0 <= i < word.len() ==> lowered(#[trigger] text[from + i]) == word[i]
}

fn rest_is_word(text: &Vec<char>, from: usize, word: &str) -> (yes: bool)
    requires
        from <= text.len(),
    ensures
        yes == rest_is(text@, from as int, word@),
{
    let chars = chars_of(word);
    if text.len() - from != chars.len() {
        return false;
    }
    let mut i: usize = 0;
    while i < chars.len()
        invariant
            i <= chars.len(),
            text.len() == from + chars.len(),
            chars@ == word@,
            forall|j: int| 0 <= j < i ==> lowered(#[trigger] text@[from + j]) == chars@[j],
        decreases chars.len() - i,
    {
        let c: char = text[from + i];
        let low: char = if 'A' <= c && c <= 'Z' {
            ((c as u8) + 32) as char
        } else {
            c
        };
        if low != chars[i] {
            assert(lowered(text@[from + i]) != word@[i as int]);
            return false;
        }
        i = i + 1;
    }
    true
}

/// Whether digits, an optional point with digits, and an optional exponent
/// stand from a place to the end: at least one digit before the exponent, and
/// at least one in it.
pub open spec fn rest_is_decimal(text: Seq<char>, from: int) -> bool {
    let whole = digits_end(text, from);
    let pointed = 0 <= whole < text.len() && text[whole] == '.';
    let fraction = if pointed {
        digits_end(text, whole + 1)
    } else {
        whole
    };
    let has_digit = whole > from || (pointed && fraction > whole + 1);
    if !has_digit {
        false
    } else if fraction == text.len() {
        true
    } else if text[fraction] == 'e' || text[fraction] == 'E' {
        let start = sign_end(text, fraction + 1);
        digits_end(text, start) > start && digits_end(text, start) == text.len()
    } else {
        false
    }
}

fn rest_is_decimal_number(text: &Vec<char>, from: usize) -> (yes: bool)
    requires
        from <= text.len(),
    ensures
        yes == rest_is_decimal(text@, from as int),
{
    let whole: usize = skip_digits(text, from);
    let pointed: bool = whole < text.len() && text[whole] == '.';
    let fraction: usize = if pointed {
        skip_digits(text, whole + 1)
    } else {
        whole
    };
    if !(whole > from || (pointed && fraction > whole + 1)) {
        return false;
    }
    if fraction == text.len() {
        return true;
    }
    if text[fraction] == 'e' || text[fraction] == 'E' {
        let start: usize = skip_sign(text, fraction + 1);
        let end: usize = skip_digits(text, start);
        end > start && end == text.len()
    } else {
        false
    }
}

/// Whether a text is a number: an optional sign, then a decimal number, or
/// infinity or not-a-number by name.
pub open spec fn is_number(text: Seq<char>) -> bool {
    let from = sign_end(text, 0);
    ||| rest_is(text, from, "inf"@)
    ||| rest_is(text, from, "infinity"@)
    ||| rest_is(text, from, "nan"@)
    ||| rest_is_decimal(text, from)
}

/// Whether a text is a number.
pub fn number_text(text: &str) -> (yes: bool)
    ensures
        yes == is_number(text@),
{
    let chars = chars_of(text);
    let from: usize = skip_sign(&chars, 0);
    rest_is_word(&chars, from, "inf") || rest_is_word(&chars, from, "infinity") || rest_is_word(
        &chars,
        from,
        "nan",
    ) || rest_is_decimal_number(&chars, from)
}

/// What decimal digits stand for.
pub open spec fn digits_value(digits: Seq<char>) -> nat
    decreases digits.len(),
{
    if digits.len() == 0 {
        0
    } else {
        10 * digits_value(digits.drop_last()) + (digits.last() as nat - 48) as nat
    }
}

/// The digits of a whole number: all of the text but a leading plus.
pub open spec fn whole_digits(text: Seq<char>) -> Seq<char> {
    if text.len() > 0 && text[0] == '+' {
        text.skip(1)
    } else {
        text
    }
}

/// Whether a text is a whole number that fits 64 bits.
pub open spec fn is_whole(text: Seq<char>) -> bool {
    let digits = whole_digits(text);
    &&& digits.len() > 0
    &&& forall|i: int| 0 <= i < digits.len() ==> is_digit(#[trigger] digits[i])
    &&& digits_value(digits) <= u64::MAX
}

proof fn lemma_digits_value_grows(digits: Seq<char>, n: int)
    requires
        0 <= n <= digits.len(),
        forall|i: int| 0 <= i < digits.len() ==> is_digit(#[trigger] digits[i]),
    ensures
        digits_value(digits.take(n)) <= digits_value(digits),
    decreases digits.len() - n,
{
    if n == digits.len() {
        assert(digits.take(n) =~= digits);
    } else {
        lemma_digits_value_grows(digits, n + 1);
        assert(digits.take(n + 1).drop_last() =~= digits.take(n));
    }
}

/// The whole number that a text is, where it fits 64 bits.
pub fn parse_whole(text: &str) -> (value: Option<u64>)
    ensures
        match value {
            Some(value) => is_whole(text@) && value == digits_value(whole_digits(text@)),
            None => !is_whole(text@),
        },
{
    let chars = chars_of(text);
    let from: usize = if chars.len() > 0 && chars[0] == '+' {
        1
    } else {
        0
    };
    let ghost digits = whole_digits(text@);
    assert(digits =~= chars@.skip(from as int));
    if from == chars.len() {
        return None;
    }
    let mut value: u64 = 0;
    let mut i: usize = from;
    assert(digits.take(0).len() == 0);
    while i < chars.len()
        invariant
            from <= i <= chars.len(),
            digits == whole_digits(text@),
            digits == chars@.skip(from as int),
            forall|j: int| 0 <= j < i - from ==> is_digit(#[trigger] digits[j]),
            value == digits_value(digits.take(i - from)),
        decreases chars.len() - i,
    {
        let c: char = chars[i];
        let ghost n = i - from;
        assert(digits[n] == c);
        if !digit_char(c) {
            return None;
        }
        assert(digits.take(n + 1).drop_last() =~= digits.take(n));
        let low: u64 = ((c as u8) - 48) as u64;
        proof {
            assert(digits_value(digits.take(n + 1)) == 10 * value + low);
            if forall|j: int| 0 <= j < digits.len() ==> is_digit(#[trigger] digits[j]) {
                lemma_digits_value_grows(digits, n + 1);
            }
        }
        if value > (u64::MAX - low) / 10 {
            return None;
        }
        value = 10 * value + low;
        i = i + 1;
    }
    assert(digits.take(i - from) =~= digits);
    Some(value)
}

/// Digits are passed over up to the first character that is none.
pub proof fn law_digits_are_passed_over(text: Seq<char>, from: int)
    requires
        0 <= from <= text.len(),
    ensures
        from <= digits_end(text, from) <= text.len(),
        forall|i: int| from <= i < digits_end(text, from) ==> '0' <= #[trigger] text[i] <= '9',
        digits_end(text, from) < text.len() ==> !('0' <= text[digits_end(text, from)] <= '9'),
    decreases text.len() - from,
{
    if from < text.len() && is_digit(text[from]) {
        law_digits_are_passed_over(text, from + 1);
    }
}

/// A number that was written in decimal is read as the same number.
pub proof fn law_decimals_are_read_back(n: nat)
    requires
        n <= u64::MAX,
    ensures
        is_whole(decimal(n)),
        is_number(decimal(n)),
        digits_value(whole_digits(decimal(n))) == n,
{
    lemma_decimal_digits(n);
    let text = decimal(n);
    assert(is_digit(text[0]));
    assert(sign_end(text, 0) == 0);
    lemma_all_digits(text, 0);
}

proof fn lemma_decimal_digits(n: nat)
    ensures
        decimal(n).len() > 0,
        forall|i: int| 0 <= i < decimal(n).len() ==> is_digit(#[trigger] decimal(n)[i]),
        digits_value(decimal(n)) == n,
    decreases n,
{
    if n < 10 {
        reveal_with_fuel(digits_value, 2);
        assert(decimal(n).drop_last() =~= Seq::empty());
        assert(decimal(n).last() == (48 + n) as char);
    } else {
        lemma_decimal_digits(n / 10);
        let head = decimal(n / 10);
        let all = decimal(n);
        assert(all.drop_last() =~= head);
        assert(all.last() == (48 + n % 10) as char);
        assert forall|i: int| 0 <= i < all.len() implies is_digit(#[trigger] all[i]) by {
            if i < head.len() {
                assert(all[i] == head[i]);
            }
        }
    }
}

proof fn lemma_all_digits(text: Seq<char>, from: int)
    requires
        0 <= from <= text.len(),
        forall|i: int| 0 <= i < text.len() ==> is_digit(#[trigger] text[i]),
    ensures
        digits_end(text, from) == text.len(),
    decreases text.len() - from,
{
    if from < text.len() {
        lemma_all_digits(text, from + 1);
    }
}

/// Digits with a point before, between or behind them are a number, with an exponent or
/// without, as long as there is a digit.
pub proof fn law_decimal_fractions_are_numbers(
    whole: Seq<char>,
    fraction: Seq<char>,
    exponent: Seq<char>,
)
    requires
        whole.len() + fraction.len() > 0,
        exponent.len() > 0,
        forall|i: int| 0 <= i < whole.len() ==> '0' <= #[trigger] whole[i] <= '9',
        forall|i: int| 0 <= i < fraction.len() ==> '0' <= #[trigger] fraction[i] <= '9',
        forall|i: int| 0 <= i < exponent.len() ==> '0' <= #[trigger] exponent[i] <= '9',
    ensures
        is_number(whole + seq!['.'] + fraction),
        is_number(whole + seq!['.'] + fraction + seq!['e'] + exponent),
        is_number(whole + seq!['.'] + fraction + seq!['E', '-'] + exponent),
        is_number(seq!['-'] + whole + seq!['.'] + fraction),
{
    let a = whole + seq!['.'] + fraction;
    let b = a + seq!['e'] + exponent;
    let c = a + seq!['E', '-'] + exponent;
    let d = seq!['-'] + whole + seq!['.'] + fraction;
    let w = whole.len() as int;
    let f = fraction.len() as int;
    let e = exponent.len() as int;
    assert forall|i: int| 0 <= i < w implies is_digit(#[trigger] whole[i]) by {}
    assert forall|i: int| 0 <= i < f implies is_digit(#[trigger] fraction[i]) by {}
    assert forall|i: int| 0 <= i < e implies is_digit(#[trigger] exponent[i]) by {}
    lemma_run(a, 0, w, whole);
    lemma_run(a, w + 1, w + 1 + f, fraction);
    lemma_run(b, 0, w, whole);
    lemma_run(b, w + 1, w + 1 + f, fraction);
    lemma_run(b, w + f + 2, w + f + 2 + e, exponent);
    lemma_run(c, 0, w, whole);
    lemma_run(c, w + 1, w + 1 + f, fraction);
    lemma_run(c, w + f + 3, w + f + 3 + e, exponent);
    lemma_run(d, 1, 1 + w, whole);
    lemma_run(d, w + 2, w + 2 + f, fraction);
    assert(w > 0 ==> a[0] == whole[0] && is_digit(whole[0]));
    assert(w > 0 ==> b[0] == whole[0]);
    assert(w > 0 ==> c[0] == whole[0]);
    assert(w == 0 ==> a[0] == '.' && b[0] == '.' && c[0] == '.');
    assert(sign_end(a, 0) == 0 && sign_end(b, 0) == 0 && sign_end(c, 0) == 0);
    assert(d[0] == '-' && sign_end(d, 0) == 1);
    assert(a[w] == '.' && b[w] == '.' && c[w] == '.' && d[w + 1] == '.');
    assert(b[w + 1 + f] == 'e' && c[w + 1 + f] == 'E' && c[w + 2 + f] == '-');
    assert(b[w + 2 + f] == exponent[0] && is_digit(exponent[0]));
    assert(sign_end(b, w + f + 2) == w + f + 2);
    assert(sign_end(c, w + f + 2) == w + f + 3);
    assert(rest_is_decimal(a, 0));
    assert(rest_is_decimal(b, 0));
    assert(rest_is_decimal(c, 0));
    assert(rest_is_decimal(d, 1));
}

proof fn lemma_run(text: Seq<char>, from: int, to: int, digits: Seq<char>)
    requires
        0 <= from <= to <= text.len(),
        to - from == digits.len(),
        forall|i: int| 0 <= i < digits.len() ==> is_digit(#[trigger] digits[i]),
        forall|i: int| from <= i < to ==> #[trigger] text[i] == digits[i - from],
        to < text.len() ==> !is_digit(text[to]),
    ensures
        digits_end(text, from) == to,
    decreases to - from,
{
    if from < to {
        assert(text[from] == digits[0]);
        let rest = digits.drop_first();
        assert forall|i: int| 0 <= i < rest.len() implies is_digit(#[trigger] rest[i]) by {
            assert(rest[i] == digits[i + 1]);
        }
        lemma_run(text, from + 1, to, rest);
    }
}

} // verus!
