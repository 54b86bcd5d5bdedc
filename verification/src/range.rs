//! Ranges of characters.

use crate::text::code_point;
use vstd::prelude::*;

verus! {

/// The position of a character among all characters. The numbers from 0xD800 to
/// 0xDFFF are no characters.
pub open spec fn ordinal(c: char) -> int {
    if c as int <= 0xD7FF {
        c as int
    } else {
        c as int - 0x800
    }
}

/// The character at a position among all characters.
pub open spec fn at_ordinal(n: int) -> char {
    if n <= 0xD7FF {
        n as char
    } else {
        (n + 0x800) as char
    }
}

/// The characters from `first` to `last`, both of them among them, in order.
pub open spec fn char_range(first: char, last: char) -> Seq<char> {
    if first <= last {
        Seq::new(
            (ordinal(last) - ordinal(first) + 1) as nat,
            |i: int| at_ordinal(ordinal(first) + i),
        )
    } else {
        Seq::empty()
    }
}

/// Appends the characters from `first` to `last` to `chars`.
pub fn push_range(chars: &mut Vec<char>, first: char, last: char)
    ensures
        final(chars)@ == old(chars)@ + char_range(first, last),
{
    let end = code_point(last);
    let mut number = code_point(first);
    let ghost start = number;
    let ghost range = char_range(first, last);
    while number <= end
        invariant
            start == first as int,
            end == last as int,
            range == char_range(first, last),
            start < 0xD800 || 0xE000 <= start,
            end < 0xD800 || 0xE000 <= end <= 0x10FFFF,
            start <= number,
            start <= end ==> number <= end + 1,
            number <= 0xD800 || 0xE000 <= number,
            start <= end && number <= 0xD800 ==> chars@ == old(chars)@ + range.take(number - start),
            start <= end && number > 0xD800 ==> chars@ == old(chars)@ + range.take(
                number - 0x800 - ordinal(first),
            ),
            start > end ==> chars@ == old(chars)@,
        decreases end + 1 - number,
    {
        if number == 0xD800 {
            number = 0xE000;
        }
        let ghost position = if number < 0xD800 {
            number - start
        } else {
            number - 0x800 - ordinal(first)
        };
        match std::char::from_u32(number) {
            Some(c) => {
                assert(c == range[position]);
                chars.push(c);
                assert(range.take(position + 1) == range.take(position).push(c));
            },
            None => {},
        }
        number += 1;
    }
    proof {
        if start <= end {
            assert(range.take(range.len() as int) == range);
        } else {
            assert(range == Seq::<char>::empty());
        }
    }
    assert(chars@ == old(chars)@ + range);
}

} // verus!
