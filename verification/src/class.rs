//! Character classes such as `[:alpha:]`.

use crate::operand::{push_literals, Operand};
use crate::range;
use crate::range::push_range;
use crate::text::is_text;
use vstd::prelude::*;
use vstd::slice::slice_subrange;

verus! {

/// The characters of the class with the given name, in order, or `None` where no
/// class has that name.
pub open spec fn class_chars(name: Seq<char>) -> Option<Seq<char>> {
    if name == "alnum"@ {
        Some(
            range::char_range('0', '9') + range::char_range('A', 'Z')
                + range::char_range('a', 'z'),
        )
    } else if name == "alpha"@ {
        Some(range::char_range('A', 'Z') + range::char_range('a', 'z'))
    } else if name == "digit"@ {
        Some(range::char_range('0', '9'))
    } else if name == "lower"@ {
        Some(range::char_range('a', 'z'))
    } else if name == "upper"@ {
        Some(range::char_range('A', 'Z'))
    } else if name == "space"@ {
        Some(seq![' ', '\t', '\n', '\r', '\x0b', '\x0c'])
    } else if name == "blank"@ {
        Some(seq![' ', '\t'])
    } else if name == "cntrl"@ {
        Some(range::char_range('\0', '\x1f').push('\x7f'))
    } else if name == "graph"@ {
        Some(range::char_range('!', '~'))
    } else if name == "print"@ {
        Some(range::char_range(' ', '~'))
    } else if name == "punct"@ {
        Some(
            range::char_range('!', '/') + range::char_range(':', '@')
                + range::char_range('[', '`') + range::char_range('{', '~'),
        )
    } else if name == "xdigit"@ {
        Some(
            range::char_range('0', '9') + range::char_range('A', 'F')
                + range::char_range('a', 'f'),
        )
    } else {
        None
    }
}

/// What is reported for a class name that does not exist.
pub open spec fn invalid_class_message() -> Seq<char> {
    "Error: Invalid class name "@
}

/// The set that a `[:class:]` construct stands for.
pub open spec fn class_operands(construct: Seq<char>) -> Result<Seq<Operand>, Seq<char>> {
    match class_chars(construct.subrange(2, construct.len() - 2)) {
        Some(chars) => Ok(Operand::literals(chars)),
        None => Err(invalid_class_message()),
    }
}

/// The characters of a class.
pub fn class_members(name: &[char]) -> (members: Option<Vec<char>>)
    ensures
        members matches Some(chars) ==> class_chars(name@) == Some(chars@),
        members is None ==> class_chars(name@) is None,
{
    let mut chars: Vec<char> = Vec::new();
    if is_text(name, "alnum") {
        push_range(&mut chars, '0', '9');
        push_range(&mut chars, 'A', 'Z');
        push_range(&mut chars, 'a', 'z');
    } else if is_text(name, "alpha") {
        push_range(&mut chars, 'A', 'Z');
        push_range(&mut chars, 'a', 'z');
    } else if is_text(name, "digit") {
        push_range(&mut chars, '0', '9');
    } else if is_text(name, "lower") {
        push_range(&mut chars, 'a', 'z');
    } else if is_text(name, "upper") {
        push_range(&mut chars, 'A', 'Z');
    } else if is_text(name, "space") {
        chars.push(' ');
        chars.push('\t');
        chars.push('\n');
        chars.push('\r');
        chars.push('\x0b');
        chars.push('\x0c');
    } else if is_text(name, "blank") {
        chars.push(' ');
        chars.push('\t');
    } else if is_text(name, "cntrl") {
        push_range(&mut chars, '\0', '\x1f');
        chars.push('\x7f');
    } else if is_text(name, "graph") {
        push_range(&mut chars, '!', '~');
    } else if is_text(name, "print") {
        push_range(&mut chars, ' ', '~');
    } else if is_text(name, "punct") {
        push_range(&mut chars, '!', '/');
        push_range(&mut chars, ':', '@');
        push_range(&mut chars, '[', '`');
        push_range(&mut chars, '{', '~');
    } else if is_text(name, "xdigit") {
        push_range(&mut chars, '0', '9');
        push_range(&mut chars, 'A', 'F');
        push_range(&mut chars, 'a', 'f');
    } else {
        return None;
    }
    assert(chars@ =~= class_chars(name@)->0);
    Some(chars)
}

/// Appends the characters of a `[:class:]` construct to the set.
pub fn expand_character_class(
    square_bracket_constructs_buffer: &[char],
    operand_vec: &mut Vec<Operand>,
) -> (result: Result<(), String>)
    requires
        square_bracket_constructs_buffer@.len() >= 4,
        square_bracket_constructs_buffer@[0] == '[',
        square_bracket_constructs_buffer@[1] == ':',
        square_bracket_constructs_buffer@[square_bracket_constructs_buffer@.len() - 2] == ':',
        square_bracket_constructs_buffer@[square_bracket_constructs_buffer@.len() - 1] == ']',
    ensures
        match class_operands(square_bracket_constructs_buffer@) {
            Ok(operands) => result is Ok && final(operand_vec)@ == old(operand_vec)@ + operands,
            Err(message) => {
                &&& result matches Err(text)
                &&& text@ == message
                &&& final(operand_vec)@ == old(operand_vec)@
            },
        },
{
    let name = slice_subrange(
        square_bracket_constructs_buffer,
        2,
        square_bracket_constructs_buffer.len() - 2,
    );
    match class_members(name) {
        Some(members) => {
            push_literals(operand_vec, members.as_slice());
            Ok(())
        },
        None => Err("Error: Invalid class name ".to_owned()),
    }
}

} // verus!
