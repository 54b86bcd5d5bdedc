//! Text as sequences of characters: building strings, walking them, and the
//! printable form of a single character.

use vstd::prelude::*;

verus! {

/// `String::push` appends one character to the end of the string.
pub assume_specification[ String::push ](string: &mut String, ch: char)
    ensures
        final(string)@ == old(string)@.push(ch),
;

/// `std::char::from_u32` gives the character with the given code point, and `None`
/// for a number that is not a Unicode scalar value.
pub assume_specification[ std::char::from_u32 ](i: u32) -> (character: Option<char>)
    ensures
        character is Some <==> i < 0xD800 || 0xE000 <= i <= 0x10FFFF,
        character matches Some(c) ==> c as int == i,
;

/// The number of a character.
pub fn code_point(c: char) -> (number: u32)
    ensures
        number == c as int,
        number < 0xD800 || 0xE000 <= number <= 0x10FFFF,
{
    c as u32
}

/// The characters of a string, in order.
pub fn chars_of(string: &str) -> (chars: Vec<char>)
    ensures
        chars@ == string@,
{
    let mut chars: Vec<char> = Vec::new();
    for ch in iter: string.chars()
        invariant
            iter.seq() == string@,
            chars@ == string@.take(iter.index() as int),
    {
        chars.push(ch);
        assert(chars@ == string@.take(iter.index() as int + 1));
    }
    assert(string@.take(string@.len() as int) == string@);
    chars
}

/// Appends every character of `chars` to `string`.
pub fn push_all(string: &mut String, chars: &[char])
    ensures
        final(string)@ == old(string)@ + chars@,
{
    let mut i: usize = 0;
    while i < chars.len()
        invariant
            i <= chars@.len(),
            string@ == old(string)@ + chars@.take(i as int),
        decreases chars@.len() - i,
    {
        string.push(chars[i]);
        i += 1;
        assert(chars@.take(i as int) == chars@.take(i - 1).push(chars@[i - 1]));
    }
    assert(chars@.take(i as int) == chars@);
}

/// The string made of the given characters.
pub fn string_of(chars: &[char]) -> (string: String)
    ensures
        string@ == chars@,
{
    let mut string = String::new();
    push_all(&mut string, chars);
    assert(string@ == chars@);
    string
}

/// Whether the given characters make up `text`.
pub fn is_text(chars: &[char], text: &str) -> (equal: bool)
    ensures
        equal == (chars@ == text@),
{
    string_of(chars) == text.to_owned()
}

/// The hexadecimal digit of a value below sixteen.
pub open spec fn hex_digit(value: nat) -> char {
    if value < 10 {
        ('0' as int + value) as char
    } else {
        ('a' as int + value - 10) as char
    }
}

/// A number in hexadecimal digits, without leading zeros.
pub open spec fn hex(value: nat) -> Seq<char>
    decreases value,
{
    if value < 16 {
        seq![hex_digit(value)]
    } else {
        hex(value / 16).push(hex_digit(value % 16))
    }
}

/// A character in printable ASCII: a tab, a carriage return, a newline, a quote
/// and a backslash by a backslash escape, another visible character or a space by
/// itself, and every other character by its number.
pub open spec fn escaped(c: char) -> Seq<char> {
    if c == '\t' {
        seq!['\\', 't']
    } else if c == '\r' {
        seq!['\\', 'r']
    } else if c == '\n' {
        seq!['\\', 'n']
    } else if c == '\'' || c == '"' || c == '\\' {
        seq!['\\', c]
    } else if ' ' <= c <= '~' {
        seq![c]
    } else {
        seq!['\\', 'u', '{'] + hex(c as nat) + seq!['}']
    }
}

fn push_hex(string: &mut String, value: u32)
    ensures
        final(string)@ == old(string)@ + hex(value as nat),
    decreases value,
{
    if value >= 16 {
        push_hex(string, value / 16);
    }
    let digit: u8 = (value % 16) as u8;
    let c: char = if digit < 10 {
        ('0' as u8 + digit) as char
    } else {
        ('a' as u8 + (digit - 10)) as char
    };
    assert(c == hex_digit((value % 16) as nat));
    string.push(c);
    assert(string@ == old(string)@ + hex(value as nat));
}

/// Appends a character in printable ASCII.
pub fn push_escaped(string: &mut String, c: char)
    ensures
        final(string)@ == old(string)@ + escaped(c),
{
    if c == '\t' {
        string.push('\\');
        string.push('t');
    } else if c == '\r' {
        string.push('\\');
        string.push('r');
    } else if c == '\n' {
        string.push('\\');
        string.push('n');
    } else if c == '\'' || c == '"' || c == '\\' {
        string.push('\\');
        string.push(c);
    } else if ' ' <= c && c <= '~' {
        string.push(c);
    } else {
        string.push('\\');
        string.push('u');
        string.push('{');
        push_hex(string, c as u32);
        string.push('}');
    }
    assert(string@ == old(string)@ + escaped(c));
}

} // verus!
