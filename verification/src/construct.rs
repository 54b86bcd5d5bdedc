//! The bracketed constructs `[=equiv=]` and `[x*n]`.

use crate::numeral;
use crate::numeral::parse_numeral;
use crate::operand::{CharRepetition, Operand};
use crate::text::push_all;
use vstd::prelude::*;
use vstd::slice::slice_subrange;

verus! {

/// The start of `chars` up to the first equals sign, or all of it where there is
/// none.
pub open spec fn before_equals(chars: Seq<char>) -> Seq<char>
    decreases chars.len(),
{
    if chars.len() == 0 || chars[0] == '=' {
        Seq::empty()
    } else {
        seq![chars[0]] + before_equals(chars.drop_first())
    }
}

/// What is reported for an equivalence class that is empty or not closed.
pub open spec fn equiv_message(between: Seq<char>) -> Seq<char> {
    "tr: "@ + between
        + ": equivalence class operand must be one character or more, followed by '=' and ']'"@
}

/// The elements that an `[=equiv=]` construct stands for: one for each character
/// between the first two equals signs. A closing bracket stands behind these.
pub open spec fn equiv_operands(construct: Seq<char>) -> Result<Seq<Operand>, Seq<char>> {
    let between = before_equals(construct.skip(2));
    let closed = exists|i: int|
        between.len() + 2 < i < construct.len() && #[trigger] construct[i] == ']';
    if between.len() > 0 && closed {
        Ok(Operand::equivalents(between))
    } else {
        Err(equiv_message(between))
    }
}

/// The repetition that a count stands for: octal with a leading zero, and decimal
/// without. No count, or zero, is as many as needed.
pub open spec fn repetition(count: Seq<char>) -> Option<CharRepetition> {
    if count.len() == 0 {
        Some(CharRepetition::AsManyAsNeeded)
    } else {
        let radix: nat = if count[0] == '0' {
            8
        } else {
            10
        };
        match numeral::numeral_value(count, radix) {
            Some(n) => if n == 0 {
                Some(CharRepetition::AsManyAsNeeded)
            } else {
                Some(CharRepetition::N(n as usize))
            },
            None => None,
        }
    }
}

/// What is reported for a count that is no number.
pub open spec fn repeat_count_message(count: Seq<char>) -> Seq<char> {
    "tr: invalid repeat count ‘"@ + count + "’ in [c*n] construct"@
}

/// The element that a `[x*n]` construct stands for.
pub open spec fn repeated_operand(construct: Seq<char>) -> Result<Operand, Seq<char>> {
    let count = construct.subrange(3, construct.len() - 1);
    match repetition(count) {
        Some(char_repetition) => Ok(Operand::Char { char: construct[1], char_repetition }),
        None => Err(repeat_count_message(count)),
    }
}

/// The start of `chars` up to the place `n`, where the first equals sign is, or
/// the end.
pub proof fn lemma_before_equals(chars: Seq<char>, n: int)
    requires
        0 <= n <= chars.len(),
        forall|i: int| 0 <= i < n ==> chars[i] != '=',
        n < chars.len() ==> chars[n] == '=',
    ensures
        before_equals(chars) == chars.take(n),
    decreases chars.len(),
{
    if n > 0 {
        lemma_before_equals(chars.drop_first(), n - 1);
        assert(seq![chars[0]] + chars.drop_first().take(n - 1) == chars.take(n));
    }
}

/// Reads a construct in the format `[=equiv=]`, and makes one element for each
/// character between the `=` signs.
///
/// # Errors
///
/// - The construct has no closing `=` before the `]`.
/// - The construct has no closing `]`.
/// - There is no character between the `=` signs.
pub fn parse_equiv(square_bracket_constructs_buffer: &[char]) -> (result: Result<
    Vec<Operand>,
    String,
>)
    requires
        square_bracket_constructs_buffer@.len() >= 2,
        square_bracket_constructs_buffer@[0] == '[',
        square_bracket_constructs_buffer@[1] == '=',
    ensures
        match equiv_operands(square_bracket_constructs_buffer@) {
            Ok(operands) => result matches Ok(list) && list@ == operands,
            Err(message) => result matches Err(text) && text@ == message,
        },
{
    let ghost tail = square_bracket_constructs_buffer@.skip(2);
    let len = square_bracket_constructs_buffer.len();
    let mut end: usize = 2;
    while end < len && square_bracket_constructs_buffer[end] != '='
        invariant
            2 <= end <= len,
            len == square_bracket_constructs_buffer@.len(),
            tail == square_bracket_constructs_buffer@.skip(2),
            forall|i: int| 0 <= i < end - 2 ==> tail[i] != '=',
        decreases len - end,
    {
        end += 1;
    }
    proof {
        lemma_before_equals(tail, end - 2);
        assert(tail.take(end - 2) == square_bracket_constructs_buffer@.subrange(2, end as int));
    }
    let between = slice_subrange(square_bracket_constructs_buffer, 2, end);
    let mut closing = end;
    if closing < len {
        closing += 1;
    }
    while closing < len && square_bracket_constructs_buffer[closing] != ']'
        invariant
            end <= closing <= len,
            len == square_bracket_constructs_buffer@.len(),
            forall|i: int|
                end < i < closing ==> #[trigger] square_bracket_constructs_buffer@[i] != ']',
            closing > end || closing == len,
        decreases len - closing,
    {
        closing += 1;
    }
    if end == 2 || closing == len {
        let mut message = "tr: ".to_owned();
        push_all(&mut message, between);
        message.append(
            ": equivalence class operand must be one character or more, followed by '=' and ']'",
        );
        return Err(message);
    }
    let mut list: Vec<Operand> = Vec::new();
    let mut i: usize = 0;
    while i < between.len()
        invariant
            i <= between@.len(),
            list@ == Operand::equivalents(between@.take(i as int)),
        decreases between@.len() - i,
    {
        list.push(Operand::Equiv { char: between[i] });
        i += 1;
        assert(Operand::equivalents(between@.take(i as int)) == Operand::equivalents(
            between@.take(i - 1),
        ).push(Operand::equivalent(between@[i - 1])));
    }
    assert(between@.take(i as int) == between@);
    Ok(list)
}

/// Reads a construct in the format `[x*n]`.
pub fn parse_repeated_char(square_bracket_constructs_buffer: &[char]) -> (result: Result<
    Operand,
    String,
>)
    requires
        square_bracket_constructs_buffer@.len() >= 4,
        square_bracket_constructs_buffer@[0] == '[',
        square_bracket_constructs_buffer@[2] == '*',
        square_bracket_constructs_buffer@[square_bracket_constructs_buffer@.len() - 1] == ']',
        forall|i: int|
            3 <= i < square_bracket_constructs_buffer@.len() - 1
                ==> square_bracket_constructs_buffer@[i] != ']',
    ensures
        match repeated_operand(square_bracket_constructs_buffer@) {
            Ok(operand) => result matches Ok(o) && o == operand,
            Err(message) => result matches Err(text) && text@ == message,
        },
{
    let char = square_bracket_constructs_buffer[1];
    let count = slice_subrange(
        square_bracket_constructs_buffer,
        3,
        square_bracket_constructs_buffer.len() - 1,
    );
    if count.len() == 0 {
        return Ok(Operand::Char { char, char_repetition: CharRepetition::AsManyAsNeeded });
    }
    let radix: u32 = if count[0] == '0' {
        8
    } else {
        10
    };
    match parse_numeral(count, radix) {
        Some(0) => Ok(Operand::Char { char, char_repetition: CharRepetition::AsManyAsNeeded }),
        Some(n) => Ok(Operand::Char { char, char_repetition: CharRepetition::N(n) }),
        None => {
            let mut message = "tr: invalid repeat count ‘".to_owned();
            push_all(&mut message, count);
            message.append("’ in [c*n] construct");
            Err(message)
        },
    }
}

} // verus!
