//! Decimal digits and the integers they denote.

use crate::chars::spec_is_digit;
use vstd::prelude::*;

verus! {

/// The value of one decimal digit.
pub open spec fn digit_value(ch: char) -> int {
    ch as int - '0' as int
}

/// The natural number that the decimal digits `digits` denote, the most
/// significant digit first; 0 for no digits.
pub open spec fn digits_value(digits: Seq<char>) -> int
    decreases digits.len(),
{
    if digits.len() == 0 {
        0
    } else {
        10 * digits_value(digits.drop_last()) + digit_value(digits.last())
    }
}

/// The integer that `digits` denote behind a minus sign, or without one.
pub open spec fn signed_value(negative: bool, digits: Seq<char>) -> int {
    if negative {
        -digits_value(digits)
    } else {
        digits_value(digits)
    }
}

/// Every symbol of `digits` is a decimal digit.
pub open spec fn all_digits(digits: Seq<char>) -> bool {
    forall|i: int| 0 <= i < digits.len() ==> spec_is_digit(#[trigger] digits[i])
}

/// Digits denote a natural number, and a longer numeral denotes no less than
/// any of its prefixes.
pub proof fn lemma_digits_value_grows(digits: Seq<char>, n: int)
    requires
        all_digits(digits),
        0 <= n <= digits.len(),
    ensures
        0 <= digits_value(digits.take(n)) <= digits_value(digits),
    decreases digits.len() - n,
{
    if n == digits.len() {
        assert(digits.take(n) =~= digits);
        lemma_digits_value_nonnegative(digits);
    } else {
        lemma_digits_value_grows(digits, n + 1);
        assert(digits.take(n + 1).drop_last() =~= digits.take(n));
        assert(digits.take(n + 1).last() == digits[n]);
        lemma_digits_value_nonnegative(digits.take(n));
    }
}

/// Digits denote a natural number.
pub proof fn lemma_digits_value_nonnegative(digits: Seq<char>)
    requires
        all_digits(digits),
    ensures
        0 <= digits_value(digits),
    decreases digits.len(),
{
    if digits.len() > 0 {
        lemma_digits_value_nonnegative(digits.drop_last());
    }
}

/// The value of the digit `ch`, from 0 to 9.
pub fn digit_of(ch: char) -> (d: i64)
    requires
        spec_is_digit(ch),
    ensures
        d == digit_value(ch),
        0 <= d <= 9,
{
    (ch as u32 - '0' as u32) as i64
}

/// The integer that the digits `text[from..to]` denote, negated if
/// `negative`; `None` if and only if that integer does not fit in 64 bits.
pub fn integer_of(text: &Vec<char>, from: usize, to: usize, negative: bool) -> (value: Option<i64>)
    requires
        from <= to <= text.len(),
        all_digits(text@.subrange(from as int, to as int)),
    ensures
        value == integer_in_range(signed_value(negative, text@.subrange(from as int, to as int))),
{
    let ghost digits = text@.subrange(from as int, to as int);
    let mut acc: i64 = 0;
    let mut i: usize = from;
    while i < to
        invariant
            from <= i <= to <= text.len(),
            digits == text@.subrange(from as int, to as int),
            all_digits(digits),
            acc == signed_value(negative, digits.take(i - from)),
        decreases to - i,
    {
        let ch = text[i];
        assert(ch == digits[i - from]);
        let d = digit_of(ch);
        proof {
            let next = digits.take(i + 1 - from);
            assert(next.drop_last() =~= digits.take(i - from));
            assert(next.last() == ch);
            lemma_digits_value_grows(digits, i + 1 - from);
        }
        let step = if negative {
            match acc.checked_mul(10) {
                Some(tens) => tens.checked_sub(d),
                None => None,
            }
        } else {
            match acc.checked_mul(10) {
                Some(tens) => tens.checked_add(d),
                None => None,
            }
        };
        match step {
            Some(next) => {
                acc = next;
            },
            None => {
                return None;
            },
        }
        i += 1;
    }
    assert(digits.take(to - from) =~= digits);
    Some(acc)
}

/// `value` as a 64-bit integer, if it is one.
pub open spec fn integer_in_range(value: int) -> Option<i64> {
    if i64::MIN <= value <= i64::MAX {
        Some(value as i64)
    } else {
        None
    }
}

} // verus!
