//! Unsigned numbers written in octal or decimal digits.

use crate::text::code_point;
use vstd::prelude::*;

verus! {

/// Whether `c` is a digit of the given radix, which is at most ten.
pub open spec fn is_digit(c: char, radix: nat) -> bool {
    0 <= (c as int) - ('0' as int) < radix
}

/// The value of a digit.
pub open spec fn digit_value(c: char) -> nat {
    (c as int - '0' as int) as nat
}

/// The value of a sequence of digits, the most significant first.
pub open spec fn digits_value(digits: Seq<char>, radix: nat) -> nat
    decreases digits.len(),
{
    if digits.len() == 0 {
        0
    } else {
        digits_value(digits.drop_last(), radix) * radix + digit_value(digits.last())
    }
}

/// Whether `digits` is one digit or more, and nothing else.
pub open spec fn all_digits(digits: Seq<char>, radix: nat) -> bool {
    &&& digits.len() > 0
    &&& forall|i: int| 0 <= i < digits.len() ==> is_digit(#[trigger] digits[i], radix)
}

/// The digits of a numeral: what follows an optional plus sign.
pub open spec fn unsigned_part(numeral: Seq<char>) -> Seq<char> {
    if numeral.len() > 0 && numeral[0] == '+' {
        numeral.drop_first()
    } else {
        numeral
    }
}

/// The number that a numeral stands for: an optional plus sign and one digit or
/// more make a number, as long as it fits in a `usize`. Anything else is no number.
pub open spec fn numeral_value(numeral: Seq<char>, radix: nat) -> Option<nat> {
    let digits = unsigned_part(numeral);
    if all_digits(digits, radix) && digits_value(digits, radix) <= usize::MAX {
        Some(digits_value(digits, radix))
    } else {
        None
    }
}

/// A number is no smaller than what its leading digits alone stand for.
proof fn lemma_digits_value_grows(digits: Seq<char>, radix: nat, n: int)
    requires
        0 <= n <= digits.len(),
        radix >= 1,
    ensures
        digits_value(digits.take(n), radix) <= digits_value(digits, radix),
    decreases digits.len(),
{
    if n == digits.len() {
        assert(digits.take(n) == digits);
    } else {
        lemma_digits_value_grows(digits.drop_last(), radix, n);
        assert(digits.drop_last().take(n) == digits.take(n));
        let high = digits_value(digits.drop_last(), radix);
        assert(high * radix >= high) by (nonlinear_arith)
            requires
                radix >= 1,
                high >= 0,
        ;
    }
}

/// Reads a numeral in the given radix.
pub fn parse_numeral(numeral: &[char], radix: u32) -> (number: Option<usize>)
    requires
        2 <= radix <= 10,
    ensures
        number matches Some(n) ==> numeral_value(numeral@, radix as nat) == Some(n as nat),
        number is None ==> numeral_value(numeral@, radix as nat) is None,
{
    let start: usize = if numeral.len() > 0 && numeral[0] == '+' {
        1
    } else {
        0
    };
    let ghost digits = unsigned_part(numeral@);
    assert(digits == numeral@.skip(start as int));
    if start == numeral.len() {
        return None;
    }
    let mut value: usize = 0;
    let mut i: usize = start;
    while i < numeral.len()
        invariant
            start <= i <= numeral@.len(),
            2 <= radix <= 10,
            start < numeral@.len(),
            digits == unsigned_part(numeral@),
            digits == numeral@.skip(start as int),
            forall|j: int|
                0 <= j < i - start ==> is_digit(#[trigger] digits[j], radix as nat),
            value == digits_value(digits.take(i - start), radix as nat),
        decreases numeral@.len() - i,
    {
        let digit = code_point(numeral[i]);
        let ghost seen = digits.take(i - start + 1);
        assert(digits[i - start] == numeral@[i as int]);
        if digit < '0' as u32 || digit >= '0' as u32 + radix {
            assert(!is_digit(digits[i - start], radix as nat));
            return None;
        }
        let digit: usize = (digit - '0' as u32) as usize;
        assert(seen.drop_last() == digits.take(i - start));
        assert(seen.last() == digits[i - start]);
        assert(digits_value(seen, radix as nat) == value * radix + digit);
        proof {
            lemma_digits_value_grows(digits, radix as nat, i - start + 1);
        }
        let shifted: usize = match value.checked_mul(radix as usize) {
            Some(shifted) => shifted,
            None => {
                return None;
            },
        };
        value = match shifted.checked_add(digit) {
            Some(sum) => sum,
            None => {
                return None;
            },
        };
        i += 1;
    }
    assert(digits.take(i - start) == digits);
    Some(value)
}

} // verus!
