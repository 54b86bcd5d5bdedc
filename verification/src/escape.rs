//! Single characters, backslash escapes and ranges in the writing of a set.

use crate::numeral;
use crate::numeral::parse_numeral;
use crate::operand::{push_literals, Operand};
use crate::range;
use crate::range::push_range;
use crate::scanner::Scanner;
use crate::text;
use crate::text::{code_point, push_all, push_escaped};
use crate::warning::Warning;
use vstd::prelude::*;

verus! {

/// One character, as it is read from the start of some text.
pub struct Reading {
    /// The character that is meant.
    pub char: char,
    /// How many characters of the text have been read for it.
    pub read: nat,
    /// The remarks on the way it is written.
    pub warnings: Seq<Warning>,
}

/// A piece of a set, as it is read from the start of some text.
pub struct Piece {
    /// The elements that the piece adds to the set, or why there is none.
    pub operands: Result<Seq<Operand>, Seq<char>>,
    /// How many characters of the text have been read for it.
    pub read: nat,
    /// The remarks on the way it is written.
    pub warnings: Seq<Warning>,
}

/// Whether `c` is an octal digit.
pub open spec fn is_octal(c: char) -> bool {
    '0' <= c <= '7'
}

/// The value of two octal digits.
pub open spec fn octal2(first: char, second: char) -> nat {
    8 * numeral::digit_value(first) + numeral::digit_value(second)
}

/// The value of three octal digits.
pub open spec fn octal3(first: char, second: char, third: char) -> nat {
    8 * octal2(first, second) + numeral::digit_value(third)
}

/// The byte that an octal escape with the first digit `first` stands for, where
/// `rest` follows that digit. It takes up to three digits. Where three digits are
/// more than a byte holds, two make the byte.
pub open spec fn octal_escape(first: char, rest: Seq<char>) -> Reading {
    let two = rest.len() >= 1 && is_octal(rest[0]);
    let three = two && rest.len() >= 2 && is_octal(rest[1]);
    if !two {
        Reading { char: numeral::digit_value(first) as char, read: 0, warnings: Seq::empty() }
    } else if three && octal3(first, rest[0], rest[1]) <= 255 {
        Reading {
            char: octal3(first, rest[0], rest[1]) as char,
            read: 2,
            warnings: Seq::empty(),
        }
    } else {
        Reading {
            char: octal2(first, rest[0]) as char,
            read: 1,
            warnings: if three {
                seq![
                    Warning::AmbiguousOctalEscape { first, second: rest[0], third: rest[1] },
                ]
            } else {
                Seq::empty()
            },
        }
    }
}

/// The characters that are read as an octal number: `first`, and up to two octal
/// digits of `rest`, which follows it.
pub open spec fn octal_candidate(first: char, rest: Seq<char>) -> Seq<char> {
    let two = rest.len() >= 1 && is_octal(rest[0]);
    let three = two && rest.len() >= 2 && is_octal(rest[1]);
    if three {
        seq![first, rest[0], rest[1]]
    } else if two {
        seq![first, rest[0]]
    } else {
        seq![first]
    }
}

/// What is reported for an octal escape that is no number.
pub open spec fn octal_message(candidate: Seq<char>) -> Seq<char> {
    "tr: failed to parse octal sequence '"@ + candidate + "' (invalid digit found in string)"@
}

/// The character that a backslash before `c` stands for, where `c` is no octal
/// digit.
pub open spec fn escape_char(c: char) -> char {
    if c == 'a' {
        '\x07'
    } else if c == 'b' {
        '\x08'
    } else if c == 't' {
        '\x09'
    } else if c == 'n' {
        '\x0A'
    } else if c == 'v' {
        '\x0B'
    } else if c == 'f' {
        '\x0C'
    } else if c == 'r' {
        '\x0D'
    } else {
        c
    }
}

/// The character at the start of `rest`, which is not empty.
pub open spec fn single_char(rest: Seq<char>) -> Reading {
    if rest[0] != '\\' {
        Reading { char: rest[0], read: 1, warnings: Seq::empty() }
    } else if rest.len() == 1 {
        Reading { char: '\\', read: 1, warnings: seq![Warning::TrailingBackslash] }
    } else if is_octal(rest[1]) {
        let octal = octal_escape(rest[1], rest.skip(2));
        Reading { char: octal.char, read: 2 + octal.read, warnings: octal.warnings }
    } else {
        Reading { char: escape_char(rest[1]), read: 2, warnings: Seq::empty() }
    }
}

/// What is reported for a range that ends before it starts.
pub open spec fn reverse_range_message(first: char, last: char) -> Seq<char> {
    "tr: range-endpoints of '"@ + text::escaped(first) + "-"@ + text::escaped(last)
        + "' are in reverse collating sequence order"@
}

/// The piece of a set that starts with the character `first`, where `rest` follows
/// it: a range, where a hyphen and another character come next, or else the
/// character alone.
pub open spec fn range_or_single_char(first: char, rest: Seq<char>) -> Piece {
    if rest.len() == 0 || rest[0] != '-' {
        Piece { operands: Ok(Operand::literals(seq![first])), read: 0, warnings: Seq::empty() }
    } else if rest.len() == 1 {
        Piece {
            operands: Ok(Operand::literals(seq![first, '-'])),
            read: 1,
            warnings: Seq::empty(),
        }
    } else {
        let last = single_char(rest.skip(1));
        Piece {
            operands: if first <= last.char {
                Ok(Operand::literals(range::char_range(first, last.char)))
            } else {
                Err(reverse_range_message(first, last.char))
            },
            read: 1 + last.read,
            warnings: last.warnings,
        }
    }
}

/// A single character is written with one character or more of the text, and
/// with no more than there are.
pub proof fn lemma_single_char_read(rest: Seq<char>)
    requires
        rest.len() > 0,
    ensures
        1 <= single_char(rest).read <= rest.len(),
{
}

/// Reads no more characters than there are.
pub proof fn lemma_range_read(first: char, rest: Seq<char>)
    ensures
        range_or_single_char(first, rest).read <= rest.len(),
{
    if rest.len() > 1 {
        lemma_single_char_read(rest.skip(1));
    }
}

/// The number that up to three octal digits stand for.
proof fn lemma_octal_value(first: char, rest: Seq<char>)
    requires
        is_octal(first),
    ensures
        ({
            let candidate = octal_candidate(first, rest);
            let value = numeral::digits_value(candidate, 8);
            &&& numeral::numeral_value(candidate, 8) == Some(value)
            &&& candidate.len() == 1 ==> value == numeral::digit_value(first)
            &&& candidate.len() == 2 ==> value == octal2(first, rest[0])
            &&& candidate.len() == 3 ==> value == octal3(first, rest[0], rest[1])
        }),
{
    let candidate = octal_candidate(first, rest);
    reveal_with_fuel(numeral::digits_value, 4);
    assert(numeral::unsigned_part(candidate) == candidate);
    if candidate.len() == 1 {
        assert(candidate.drop_last() =~= Seq::<char>::empty());
    } else if candidate.len() == 2 {
        assert(candidate.drop_last() =~= seq![first]);
        assert(candidate.drop_last().drop_last() =~= Seq::<char>::empty());
    } else {
        assert(candidate.drop_last() =~= seq![first, rest[0]]);
        assert(candidate.drop_last().drop_last() =~= seq![first]);
        assert(candidate.drop_last().drop_last().drop_last() =~= Seq::<char>::empty());
    }
}

/// What a sign or another character and up to two octal digits stand for, if it is
/// a number at all.
proof fn lemma_signed_value(first: char, rest: Seq<char>)
    requires
        !is_octal(first),
    ensures
        numeral::numeral_value(octal_candidate(first, rest), 8) matches Some(value) ==> value
            <= 255,
{
    let candidate = octal_candidate(first, rest);
    reveal_with_fuel(numeral::digits_value, 4);
    if first == '+' {
        let digits = numeral::unsigned_part(candidate);
        if candidate.len() == 2 {
            assert(digits =~= seq![rest[0]]);
            assert(digits.drop_last() =~= Seq::<char>::empty());
        } else if candidate.len() == 3 {
            assert(digits =~= seq![rest[0], rest[1]]);
            assert(digits.drop_last() =~= seq![rest[0]]);
            assert(digits.drop_last().drop_last() =~= Seq::<char>::empty());
        }
    } else {
        assert(!numeral::is_digit(candidate[0], 8));
    }
}

/// Reads an octal escape whose backslash and first digit have been read.
///
/// # Errors
///
/// `first_octal_digit` is no octal digit, and what is read is no number.
pub fn parse_octal_sequence(
    first_octal_digit: char,
    scanner: &mut Scanner,
    warnings: &mut Vec<Warning>,
) -> (result: Result<char, String>)
    ensures
        is_octal(first_octal_digit) ==> {
            let octal = octal_escape(first_octal_digit, old(scanner)@);
            &&& result matches Ok(c)
            &&& c == octal.char
            &&& final(scanner)@ == old(scanner)@.skip(octal.read as int)
            &&& final(warnings)@ == old(warnings)@ + octal.warnings
        },
        !is_octal(first_octal_digit) ==> {
            let candidate = octal_candidate(first_octal_digit, old(scanner)@);
            &&& final(warnings)@ == old(warnings)@
            &&& match numeral::numeral_value(candidate, 8) {
                Some(value) => {
                    &&& result matches Ok(c)
                    &&& c == value as char
                    &&& final(scanner)@ == old(scanner)@.skip(candidate.len() - 1)
                },
                None => {
                    &&& result matches Err(text)
                    &&& text@ == octal_message(candidate)
                    &&& final(scanner)@ == old(scanner)@.skip(
                        if candidate.len() == 1 {
                            0
                        } else {
                            1
                        },
                    )
                },
            }
        },
{
    let ghost rest = scanner@;
    let ghost candidate = octal_candidate(first_octal_digit, rest);
    let mut digits: Vec<char> = Vec::new();
    digits.push(first_octal_digit);
    let has_second = match scanner.peek() {
        Some(c) => '0' <= c && c <= '7',
        None => false,
    };
    let mut has_third = false;
    if has_second {
        digits.push(scanner.get(0));
        scanner.skip(1);
        has_third =
        match scanner.peek() {
            Some(c) => '0' <= c && c <= '7',
            None => false,
        };
        if has_third {
            digits.push(scanner.get(0));
        }
    } else {
        assert(scanner@ == rest.skip(0));
    }
    assert(digits@ == candidate);
    proof {
        if is_octal(first_octal_digit) {
            lemma_octal_value(first_octal_digit, rest);
        } else {
            lemma_signed_value(first_octal_digit, rest);
        }
    }
    let value = match parse_numeral(digits.as_slice(), 8) {
        Some(value) => value,
        None => {
            let mut message = "tr: failed to parse octal sequence '".to_owned();
            push_all(&mut message, digits.as_slice());
            message.append("' (invalid digit found in string)");
            return Err(message);
        },
    };
    if value <= 255 {
        if has_third {
            scanner.skip(1);
            assert(scanner@ == rest.skip(2));
        }
        return Ok((value as u8) as char);
    }
    let byte: u32 = 8 * (code_point(digits[0]) - code_point('0')) + (code_point(digits[1])
        - code_point('0'));
    warnings.push(
        Warning::AmbiguousOctalEscape { first: digits[0], second: digits[1], third: digits[2] },
    );
    Ok((byte as u8) as char)
}

/// Reads one character, which may be written as an escape. At the end of the text
/// there is none.
pub fn parse_single_char(scanner: &mut Scanner, warnings: &mut Vec<Warning>) -> (result: Result<
    Option<char>,
    String,
>)
    ensures
        old(scanner)@.len() == 0 ==> {
            &&& result matches Ok(c)
            &&& c is None
            &&& final(scanner)@ == old(scanner)@
            &&& final(warnings)@ == old(warnings)@
        },
        old(scanner)@.len() > 0 ==> {
            let single = single_char(old(scanner)@);
            &&& result matches Ok(c)
            &&& c == Some(single.char)
            &&& final(scanner)@ == old(scanner)@.skip(single.read as int)
            &&& final(warnings)@ == old(warnings)@ + single.warnings
        },
{
    let first = match scanner.next() {
        Some(c) => c,
        None => {
            return Ok(None);
        },
    };
    if first != '\\' {
        return Ok(Some(first));
    }
    let escaped = match scanner.next() {
        Some(c) => c,
        None => {
            warnings.push(Warning::TrailingBackslash);
            return Ok(Some('\\'));
        },
    };
    assert(scanner@ == old(scanner)@.skip(2));
    if '0' <= escaped && escaped <= '7' {
        let ghost octal = octal_escape(escaped, scanner@);
        let c = parse_octal_sequence(escaped, scanner, warnings)?;
        assert(scanner@ == old(scanner)@.skip(2 + octal.read as int));
        return Ok(Some(c));
    }
    let c = match escaped {
        'a' => '\x07',
        'b' => '\x08',
        't' => '\x09',
        'n' => '\x0A',
        'v' => '\x0B',
        'f' => '\x0C',
        'r' => '\x0D',
        other => other,
    };
    Ok(Some(c))
}

/// Reads what follows the character `starting_char`, and appends the range that
/// they make, or the character alone, to the set.
pub fn parse_range_or_single_char(
    starting_char: char,
    scanner: &mut Scanner,
    operand_vec: &mut Vec<Operand>,
    warnings: &mut Vec<Warning>,
) -> (result: Result<(), String>)
    ensures
        ({
            let piece = range_or_single_char(starting_char, old(scanner)@);
            &&& final(scanner)@ == old(scanner)@.skip(piece.read as int)
            &&& final(warnings)@ == old(warnings)@ + piece.warnings
            &&& match piece.operands {
                Ok(operands) => result is Ok && final(operand_vec)@ == old(operand_vec)@
                    + operands,
                Err(message) => {
                    &&& result matches Err(text)
                    &&& text@ == message
                    &&& final(operand_vec)@ == old(operand_vec)@
                },
            }
        }),
{
    let ghost piece = range_or_single_char(starting_char, scanner@);
    let mut chars: Vec<char> = Vec::new();
    if scanner.peek() == Some('-') {
        scanner.skip(1);
        match parse_single_char(scanner, warnings)? {
            Some(after_hyphen) => {
                if after_hyphen < starting_char {
                    let mut message = "tr: range-endpoints of '".to_owned();
                    push_escaped(&mut message, starting_char);
                    message.append("-");
                    push_escaped(&mut message, after_hyphen);
                    message.append("' are in reverse collating sequence order");
                    assert(scanner@ == old(scanner)@.skip(piece.read as int));
                    return Err(message);
                }
                push_range(&mut chars, starting_char, after_hyphen);
                assert(chars@ == range::char_range(starting_char, after_hyphen));
            },
            None => {
                chars.push(starting_char);
                chars.push('-');
                assert(chars@ == seq![starting_char, '-']);
            },
        }
    } else {
        chars.push(starting_char);
        assert(chars@ == seq![starting_char]);
    }
    assert(scanner@ == old(scanner)@.skip(piece.read as int));
    assert(piece.operands == Ok::<Seq<Operand>, Seq<char>>(Operand::literals(chars@)));
    push_literals(operand_vec, chars.as_slice());
    Ok(())
}

} // verus!
