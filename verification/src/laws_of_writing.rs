//! What the writing of a set stands for, told as a grammar: how each way of writing
//! a piece adds to the set that the rest of the text stands for.

use crate::class;
use crate::construct;
use crate::escape;
use crate::numeral;
use crate::operand::{CharRepetition, Operand};
use crate::parse;
use crate::range;
use crate::text;
use crate::warning::Warning;
use vstd::prelude::*;

verus! {

/// One occurrence of a character.
pub open spec fn single(c: char) -> Operand {
    Operand::Char { char: c, char_repetition: CharRepetition::N(1) }
}

/// Whether `c` is one of the eight octal digits.
pub open spec fn is_octal_digit(c: char) -> bool {
    '0' <= c <= '7'
}

/// The value of a digit.
pub open spec fn value(c: char) -> int {
    c as int - '0' as int
}

/// Whether `unit`, with `rest` behind it, is a way to write the character `c`:
///
/// - the character itself, or a backslash at the end of the text;
/// - a backslash and a letter of an escape, or any other character but an octal
///   digit;
/// - a backslash and one octal digit, two or three. It takes as many as there are, up
///   to three, and as long as the value fits in a byte.
pub open spec fn spells(unit: Seq<char>, rest: Seq<char>, c: char) -> bool {
    let goes_on = rest.len() > 0 && is_octal_digit(rest[0]);
    if unit.len() == 1 {
        unit[0] == c && (c == '\\' ==> rest.len() == 0)
    } else if unit.len() == 0 || unit[0] != '\\' {
        false
    } else if unit.len() == 2 && !is_octal_digit(unit[1]) {
        ||| unit[1] == 'a' && c as int == 7
        ||| unit[1] == 'b' && c as int == 8
        ||| unit[1] == 't' && c as int == 9
        ||| unit[1] == 'n' && c as int == 10
        ||| unit[1] == 'v' && c as int == 11
        ||| unit[1] == 'f' && c as int == 12
        ||| unit[1] == 'r' && c as int == 13
        ||| !seq!['a', 'b', 't', 'n', 'v', 'f', 'r'].contains(unit[1]) && c == unit[1]
    } else if unit.len() == 2 {
        !goes_on && c as int == value(unit[1])
    } else if unit.len() == 3 {
        &&& is_octal_digit(unit[1]) && is_octal_digit(unit[2])
        &&& goes_on ==> 64 * value(unit[1]) + 8 * value(unit[2]) + value(rest[0]) > 255
        &&& c as int == 8 * value(unit[1]) + value(unit[2])
    } else {
        &&& unit.len() == 4
        &&& is_octal_digit(unit[1]) && is_octal_digit(unit[2]) && is_octal_digit(unit[3])
        &&& c as int == 64 * value(unit[1]) + 8 * value(unit[2]) + value(unit[3])
        &&& c as int <= 255
    }
}

/// The remarks on a character that is written as `unit`, with `rest` behind it: on
/// a backslash at the end, and on two octal digits with a third behind them.
pub open spec fn remarks(unit: Seq<char>, rest: Seq<char>) -> Seq<Warning> {
    if unit == seq!['\\'] {
        seq![Warning::TrailingBackslash]
    } else if unit.len() == 3 && rest.len() > 0 && is_octal_digit(rest[0]) {
        seq![
            Warning::AmbiguousOctalEscape { first: unit[1], second: unit[2], third: rest[0] },
        ]
    } else {
        Seq::empty()
    }
}

/// Whether the text stands for the given elements, and then for what `rest` stands
/// for.
pub open spec fn adds(
    text: Seq<char>,
    operands: Seq<Operand>,
    warnings: Seq<Warning>,
    rest: Seq<char>,
) -> bool {
    &&& parse::parsed(text).operands == match parse::parsed(rest).operands {
        Ok(more) => Ok::<Seq<Operand>, Seq<char>>(operands + more),
        Err(message) => Err(message),
    }
    &&& parse::parsed(text).warnings == warnings + parse::parsed(rest).warnings
}

/// Whether the text is refused with the given message.
pub open spec fn refuses(text: Seq<char>, message: Seq<char>, warnings: Seq<Warning>) -> bool {
    &&& parse::parsed(text).operands == Err::<Seq<Operand>, Seq<char>>(message)
    &&& parse::parsed(text).warnings == warnings
}

/// Whether the first closing bracket from the fourth character on is at `end`.
pub open spec fn closes_at(text: Seq<char>, end: int) -> bool {
    &&& 3 <= end < text.len()
    &&& text[end] == ']'
    &&& forall|i: int| 3 <= i < end ==> text[i] != ']'
}

/// Whether a `[:class:]`, `[=equiv=]` or `[x*n]` construct starts the text.
pub open spec fn opens_construct(text: Seq<char>) -> bool {
    &&& text.len() > 0
    &&& text[0] == '['
    &&& exists|end: int|
        #[trigger] closes_at(text, end) && (text[1] == ':' && text[end - 1] == ':' || text[1] == '='
            && text[end - 1] == '=' || text[2] == '*')
}

// ---------------------------------------------------------------------------
// Characters
// ---------------------------------------------------------------------------
/// A written character is read as the character that it spells.
pub proof fn law_spelling(unit: Seq<char>, rest: Seq<char>, c: char)
    requires
        spells(unit, rest, c),
    ensures
        escape::single_char(unit + rest).char == c,
        escape::single_char(unit + rest).read == unit.len(),
        escape::single_char(unit + rest).warnings == remarks(unit, rest),
{
    let whole = unit + rest;
    assert(whole[0] == unit[0]);
    if unit.len() == 1 {
        assert(unit == seq!['\\'] <==> c == '\\') by {
            if c == '\\' {
                assert(unit =~= seq!['\\']);
            }
        }
    } else {
        assert(unit != seq!['\\']);
        assert(whole[1] == unit[1]);
        let behind = whole.skip(2);
        if unit.len() == 2 {
            assert(behind =~= rest);
            if !is_octal_digit(unit[1]) {
                lemma_escape_letters(unit[1]);
            }
        } else if unit.len() == 3 {
            assert(behind =~= seq![unit[2]] + rest);
            if rest.len() > 0 {
                assert(behind[1] == rest[0]);
            }
        } else {
            assert(behind =~= seq![unit[2], unit[3]] + rest);
            assert(behind[0] == unit[2] && behind[1] == unit[3]);
        }
    }
    assert(escape::single_char(whole).warnings =~= remarks(unit, rest));
}

proof fn lemma_escape_letters(c: char)
    ensures
        seq!['a', 'b', 't', 'n', 'v', 'f', 'r'].contains(c) <==> c == 'a' || c == 'b' || c == 't'
            || c == 'n' || c == 'v' || c == 'f' || c == 'r',
{
    let letters = seq!['a', 'b', 't', 'n', 'v', 'f', 'r'];
    assert(letters[0] == 'a' && letters[1] == 'b' && letters[2] == 't' && letters[3] == 'n'
        && letters[4] == 'v' && letters[5] == 'f' && letters[6] == 'r');
}

/// Every text starts with a written character.
pub proof fn law_every_text_spells(text: Seq<char>) -> (found: (int, char))
    requires
        text.len() > 0,
    ensures
        0 < found.0 <= text.len(),
        spells(text.take(found.0), text.skip(found.0), found.1),
{
    let first = text[0];
    if first != '\\' || text.len() == 1 {
        (1, first)
    } else if !is_octal_digit(text[1]) {
        lemma_escape_letters(text[1]);
        (2, escape::escape_char(text[1]))
    } else if text.len() == 2 || !is_octal_digit(text[2]) {
        (2, value(text[1]) as char)
    } else if text.len() > 3 && is_octal_digit(text[3]) && 64 * value(text[1]) + 8 * value(text[2])
        + value(text[3]) <= 255 {
        (4, (64 * value(text[1]) + 8 * value(text[2]) + value(text[3])) as char)
    } else {
        (3, (8 * value(text[1]) + value(text[2])) as char)
    }
}

/// What follows a character decides whether it stands alone or starts a range. A
/// range holds the characters from the one to the other. A hyphen at the end of the
/// text stands for itself.
pub proof fn law_range_after_character(
    first: char,
    unit: Seq<char>,
    last: char,
    rest: Seq<char>,
)
    ensures
        rest.len() == 0 || rest[0] != '-' ==> {
            let piece = escape::range_or_single_char(first, rest);
            &&& piece.operands == Ok::<Seq<Operand>, Seq<char>>(seq![single(first)])
            &&& piece.read == 0
            &&& piece.warnings == Seq::<Warning>::empty()
        },
        ({
            let piece = escape::range_or_single_char(first, seq!['-']);
            &&& piece.operands == Ok::<Seq<Operand>, Seq<char>>(seq![single(first), single('-')])
            &&& piece.read == 1
            &&& piece.warnings == Seq::<Warning>::empty()
        }),
        spells(unit, rest, last) ==> {
            let piece = escape::range_or_single_char(first, seq!['-'] + unit + rest);
            &&& first <= last ==> piece.operands == Ok::<Seq<Operand>, Seq<char>>(
                Operand::literals(range::char_range(first, last)),
            )
            &&& first > last ==> piece.operands == Err::<Seq<Operand>, Seq<char>>(
                "tr: range-endpoints of '"@ + text::escaped(first) + "-"@ + text::escaped(last)
                    + "' are in reverse collating sequence order"@,
            )
            &&& piece.read == 1 + unit.len()
            &&& piece.warnings == remarks(unit, rest)
        },
{
    assert(Operand::literals(seq![first]) =~= seq![single(first)]);
    assert(Operand::literals(seq![first, '-']) =~= seq![single(first), single('-')]);
    if spells(unit, rest, last) {
        law_spelling(unit, rest, last);
        assert((seq!['-'] + unit + rest).skip(1) =~= unit + rest);
    }
}

// ---------------------------------------------------------------------------
// Pieces of a text
// ---------------------------------------------------------------------------
/// The piece at the start of a text, where no construct starts it.
proof fn lemma_plain(text: Seq<char>)
    requires
        text.len() > 0,
        !opens_construct(text),
    ensures
        parse::next_piece(text) == parse::plain_piece(text),
{
    parse::lemma_closing_bracket(text, 3);
    match parse::bracketed(text) {
        Some(bracketed) => {
            let end = parse::closing_bracket(text, 3)->0;
            assert(closes_at(text, end));
            assert(bracketed[bracketed.len() - 2] == text[end - 1]);
        },
        None => {},
    }
}

/// A construct at the start of a text.
proof fn lemma_construct(text: Seq<char>, end: int)
    requires
        text.len() > 0,
        text[0] == '[',
        closes_at(text, end),
    ensures
        parse::bracketed(text) == Some(text.take(end + 1)),
{
    parse::lemma_first_closing_bracket(text, 3, end);
}

/// The text that follows the first piece.
proof fn lemma_unfold(text: Seq<char>, rest: Seq<char>)
    requires
        text.len() > 0,
        rest == text.skip(parse::next_piece(text).read as int),
    ensures
        parse::next_piece(text).operands matches Ok(operands) ==> adds(
            text,
            operands,
            parse::next_piece(text).warnings,
            rest,
        ),
        parse::next_piece(text).operands matches Err(message) ==> refuses(
            text,
            message,
            parse::next_piece(text).warnings,
        ),
{
}

/// The empty text stands for the empty set.
pub proof fn law_empty_text()
    ensures
        parse::parsed(Seq::empty()).operands == Ok::<Seq<Operand>, Seq<char>>(Seq::empty()),
        parse::parsed(Seq::empty()).warnings == Seq::<Warning>::empty(),
{
}

/// A character that no hyphen follows stands for itself, once.
pub proof fn law_character_in_text(unit: Seq<char>, c: char, rest: Seq<char>)
    requires
        spells(unit, rest, c),
        rest.len() == 0 || rest[0] != '-',
        !opens_construct(unit + rest),
    ensures
        adds(unit + rest, seq![single(c)], remarks(unit, rest), rest),
{
    let text = unit + rest;
    lemma_plain(text);
    law_spelling(unit, rest, c);
    assert(text.skip(unit.len() as int) =~= rest);
    law_range_after_character(c, unit, c, rest);
    assert(parse::next_piece(text).warnings =~= remarks(unit, rest));
    lemma_unfold(text, rest);
}

/// Two characters with a hyphen between them stand for the characters from the one
/// to the other, both of them among them. They must not be in reverse order.
pub proof fn law_range_in_text(
    first_unit: Seq<char>,
    first: char,
    last_unit: Seq<char>,
    last: char,
    rest: Seq<char>,
)
    requires
        spells(first_unit, seq!['-'] + last_unit + rest, first),
        spells(last_unit, rest, last),
        !opens_construct(first_unit + (seq!['-'] + last_unit + rest)),
    ensures
        ({
            let text = first_unit + (seq!['-'] + last_unit + rest);
            &&& first <= last ==> adds(
                text,
                Operand::literals(range::char_range(first, last)),
                remarks(last_unit, rest),
                rest,
            )
            &&& first > last ==> refuses(
                text,
                "tr: range-endpoints of '"@ + text::escaped(first) + "-"@ + text::escaped(last)
                    + "' are in reverse collating sequence order"@,
                remarks(last_unit, rest),
            )
        }),
{
    let behind = seq!['-'] + last_unit + rest;
    let text = first_unit + behind;
    lemma_plain(text);
    law_spelling(first_unit, behind, first);
    assert(behind[0] == '-');
    assert(first_unit == seq!['\\'] ==> first_unit[0] == '\\');
    assert(remarks(first_unit, behind) =~= Seq::<Warning>::empty());
    assert(text.skip(first_unit.len() as int) =~= behind);
    law_range_after_character(first, last_unit, last, rest);
    assert(text.skip((first_unit.len() + 1 + last_unit.len()) as int) =~= rest);
    assert(parse::next_piece(text).warnings =~= remarks(last_unit, rest));
    lemma_unfold(text, rest);
}

/// Two plain characters with a hyphen between them, whatever follows.
pub proof fn law_plain_range(first: char, last: char, rest: Seq<char>)
    requires
        first <= last,
        first != '[',
        first != '\\',
        last != '\\',
    ensures
        adds(
            seq![first, '-', last] + rest,
            Operand::literals(range::char_range(first, last)),
            Seq::empty(),
            rest,
        ),
        parse::parsed(seq![first, '-', last]).operands == Ok::<Seq<Operand>, Seq<char>>(
            Operand::literals(range::char_range(first, last)),
        ),
{
    law_range_in_text(seq![first], first, seq![last], last, rest);
    assert(seq![first] + (seq!['-'] + seq![last] + rest) =~= seq![first, '-', last] + rest);
    assert(seq![last][0] != seq!['\\'][0]);
    law_range_in_text(seq![first], first, seq![last], last, Seq::empty());
    assert(seq![first] + (seq!['-'] + seq![last] + Seq::<char>::empty()) =~= seq![first, '-', last]);
    let operands = Operand::literals(range::char_range(first, last));
    assert(operands + Seq::<Operand>::empty() =~= operands);
}

/// A hyphen at the end of the text stands for itself.
pub proof fn law_hyphen_at_the_end(unit: Seq<char>, c: char)
    requires
        spells(unit, seq!['-'], c),
        !opens_construct(unit + seq!['-']),
    ensures
        parse::parsed(unit + seq!['-']).operands == Ok::<Seq<Operand>, Seq<char>>(
            seq![single(c), single('-')],
        ),
        parse::parsed(unit + seq!['-']).warnings == Seq::<Warning>::empty(),
{
    let text = unit + seq!['-'];
    lemma_plain(text);
    law_spelling(unit, seq!['-'], c);
    assert(unit == seq!['\\'] ==> unit[0] == '\\');
    assert(remarks(unit, seq!['-']) =~= Seq::<Warning>::empty());
    assert(text.skip(unit.len() as int) =~= seq!['-']);
    law_range_after_character(c, unit, c, Seq::empty());
    assert(text.skip((unit.len() + 1) as int) =~= Seq::<char>::empty());
    assert(parse::next_piece(text).warnings =~= Seq::<Warning>::empty());
    lemma_unfold(text, Seq::empty());
    assert(seq![single(c), single('-')] + Seq::<Operand>::empty() =~= seq![single(c), single('-')]);
}

// ---------------------------------------------------------------------------
// Constructs
// ---------------------------------------------------------------------------
/// A `[:class:]` construct stands for the members of the class that it names.
pub proof fn law_class_construct(name: Seq<char>)
    ensures
        class::class_operands(seq!['[', ':'] + name + seq![':', ']'])
            == match class::class_chars(name) {
            Some(members) => Ok::<Seq<Operand>, Seq<char>>(Operand::literals(members)),
            None => Err("Error: Invalid class name "@),
        },
{
    let construct = seq!['[', ':'] + name + seq![':', ']'];
    assert(construct.subrange(2, construct.len() - 2) =~= name);
}

/// A class in a text.
pub proof fn law_class_in_text(name: Seq<char>, rest: Seq<char>)
    requires
        forall|i: int| 0 < i < name.len() ==> name[i] != ']',
    ensures
        ({
            let text = seq!['[', ':'] + name + seq![':', ']'] + rest;
            match class::class_chars(name) {
                Some(members) => adds(text, Operand::literals(members), Seq::empty(), rest),
                None => refuses(text, "Error: Invalid class name "@, Seq::empty()),
            }
        }),
{
    let construct = seq!['[', ':'] + name + seq![':', ']'];
    let text = construct + rest;
    let end = name.len() as int + 3;
    assert forall|i: int| 3 <= i < end implies text[i] != ']' by {
        if i < name.len() + 2 {
            assert(text[i] == name[i - 2]);
        }
    }
    assert(closes_at(text, end));
    lemma_construct(text, end);
    assert(text.take(end + 1) =~= construct);
    law_class_construct(name);
    assert(text.skip(end + 1) =~= rest);
    lemma_unfold(text, rest);
}

/// An `[=equiv=]` construct stands for the equivalence classes of the characters up
/// to the second equals sign. There must be such characters, and such a sign, and a
/// closing bracket behind it.
pub proof fn law_equivalents_construct(chars: Seq<char>, behind: Seq<char>)
    requires
        forall|i: int| 0 <= i < chars.len() ==> chars[i] != '=',
    ensures
        ({
            let construct = seq!['[', '='] + chars + seq!['='] + behind;
            let message = "tr: "@ + chars
                + ": equivalence class operand must be one character or more, followed by '=' and ']'"@;
            &&& chars.len() > 0 && behind.contains(']') ==> construct::equiv_operands(construct)
                == Ok::<Seq<Operand>, Seq<char>>(Operand::equivalents(chars))
            &&& chars.len() == 0 || !behind.contains(']') ==> construct::equiv_operands(construct)
                == Err::<Seq<Operand>, Seq<char>>(message)
            &&& construct::equiv_operands(seq!['[', '='] + chars) == Err::<
                Seq<Operand>,
                Seq<char>,
            >(message)
        }),
{
    let construct = seq!['[', '='] + chars + seq!['='] + behind;
    let n = chars.len() as int;
    let tail = construct.skip(2);
    assert forall|i: int| 0 <= i < n implies tail[i] != '=' by {
        assert(tail[i] == chars[i]);
    }
    assert(tail[n] == '=');
    construct::lemma_before_equals(tail, n);
    assert(tail.take(n) =~= chars);
    if behind.contains(']') {
        let i = choose|i: int| 0 <= i < behind.len() && behind[i] == ']';
        assert(construct[n + 3 + i] == ']');
    }
    if exists|i: int| n + 2 < i < construct.len() && #[trigger] construct[i] == ']' {
        let i = choose|i: int| n + 2 < i < construct.len() && #[trigger] construct[i] == ']';
        assert(behind[i - n - 3] == ']');
    }
    let open = seq!['[', '='] + chars;
    assert(open.skip(2) =~= chars);
    construct::lemma_before_equals(chars, n);
    assert(chars.take(n) =~= chars);
}

/// Equivalence classes in a text. What stands between the second equals sign and
/// the last one is left out.
pub proof fn law_equivalents_in_text(chars: Seq<char>, left_out: Seq<char>, rest: Seq<char>)
    requires
        forall|i: int| 0 <= i < chars.len() ==> chars[i] != '=',
        forall|i: int| 0 < i < chars.len() ==> chars[i] != ']',
        forall|i: int| 0 <= i < left_out.len() ==> left_out[i] != ']',
        left_out.len() > 0 ==> left_out.last() == '=',
    ensures
        ({
            let text = seq!['[', '='] + chars + seq!['='] + left_out + seq![']'] + rest;
            &&& chars.len() > 0 ==> adds(text, Operand::equivalents(chars), Seq::empty(), rest)
            &&& chars.len() == 0 ==> refuses(
                text,
                "tr: "@ + chars
                    + ": equivalence class operand must be one character or more, followed by '=' and ']'"@,
                Seq::empty(),
            )
        }),
{
    let construct = seq!['[', '='] + chars + seq!['='] + left_out + seq![']'];
    let text = construct + rest;
    let n = chars.len() as int;
    let end = n + 3 + left_out.len();
    assert forall|i: int| 3 <= i < end implies text[i] != ']' by {
        if i < n + 2 {
            assert(text[i] == chars[i - 2]);
        } else if i > n + 2 {
            assert(text[i] == left_out[i - n - 3]);
        }
    }
    assert(closes_at(text, end));
    lemma_construct(text, end);
    assert(text.take(end + 1) =~= construct);
    let behind = left_out + seq![']'];
    assert(construct =~= seq!['[', '='] + chars + seq!['='] + behind);
    assert(behind[left_out.len() as int] == ']');
    law_equivalents_construct(chars, behind);
    if left_out.len() > 0 {
        assert(construct[end - 1] == left_out.last());
    }
    assert(construct[1] == '=' && construct[end - 1] == '=');
    assert(text.skip(end + 1) =~= rest);
    lemma_unfold(text, rest);
}

/// The count of a `[x*n]` construct. It is octal where it starts with a zero, and
/// decimal else. None, or zero, is as many as needed.
pub proof fn law_repeat_construct(x: char, count: Seq<char>)
    ensures
        ({
            let outcome = construct::repeated_operand(seq!['[', x, '*'] + count + seq![']']);
            let number = numeral::numeral_value(
                count,
                if count.len() > 0 && count[0] == '0' {
                    8
                } else {
                    10
                },
            );
            &&& count.len() == 0 || number == Some(0nat) ==> outcome == Ok::<Operand, Seq<char>>(
                Operand::Char { char: x, char_repetition: CharRepetition::AsManyAsNeeded },
            )
            &&& number matches Some(n) ==> n > 0 ==> outcome == Ok::<Operand, Seq<char>>(
                Operand::Char { char: x, char_repetition: CharRepetition::N(n as usize) },
            ) && n <= usize::MAX
            &&& count.len() > 0 && number is None ==> outcome == Err::<Operand, Seq<char>>(
                "tr: invalid repeat count ‘"@ + count + "’ in [c*n] construct"@,
            )
        }),
{
    let construct = seq!['[', x, '*'] + count + seq![']'];
    assert(construct.subrange(3, construct.len() - 1) =~= count);
}

/// A repeated character in a text.
pub proof fn law_repeat_in_text(x: char, count: Seq<char>, rest: Seq<char>)
    requires
        forall|i: int| 0 <= i < count.len() ==> count[i] != ']',
        !(count.len() > 0 && (x == ':' || x == '=') && count.last() == x),
    ensures
        ({
            let text = seq!['[', x, '*'] + count + seq![']'] + rest;
            match construct::repeated_operand(seq!['[', x, '*'] + count + seq![']']) {
                Ok(operand) => adds(text, seq![operand], Seq::empty(), rest),
                Err(message) => refuses(text, message, Seq::empty()),
            }
        }),
{
    let construct = seq!['[', x, '*'] + count + seq![']'];
    let text = construct + rest;
    let end = count.len() as int + 3;
    assert forall|i: int| 3 <= i < end implies text[i] != ']' by {
        assert(text[i] == count[i - 3]);
    }
    assert(closes_at(text, end));
    lemma_construct(text, end);
    assert(text.take(end + 1) =~= construct);
    assert(construct[1] == x && construct[2] == '*');
    if count.len() > 0 {
        assert(construct[end - 1] == count.last());
    } else {
        assert(construct[end - 1] == '*');
    }
    assert(text.skip(end + 1) =~= rest);
    lemma_unfold(text, rest);
}

/// A character that is no octal digit makes an octal number only as a plus sign, and
/// what is tried is that character and up to two octal digits.
pub proof fn law_octal_candidates(first: char, rest: Seq<char>)
    ensures
        rest.len() == 0 || !is_octal_digit(rest[0]) ==> escape::octal_candidate(first, rest)
            == seq![first],
        rest.len() > 0 && is_octal_digit(rest[0]) && (rest.len() == 1 || !is_octal_digit(rest[1]))
            ==> escape::octal_candidate(first, rest) == seq![first, rest[0]],
        rest.len() > 1 && is_octal_digit(rest[0]) && is_octal_digit(rest[1])
            ==> escape::octal_candidate(first, rest) == seq![first, rest[0], rest[1]],
        escape::octal_message(rest) == "tr: failed to parse octal sequence '"@ + rest
            + "' (invalid digit found in string)"@,
{
}

/// An octal escape behind its first digit: the character that it spells, and how
/// many of the following digits it takes.
pub proof fn law_octal_escapes(first: char, digits: Seq<char>, rest: Seq<char>, c: char)
    requires
        is_octal_digit(first),
        spells(seq!['\\', first] + digits, rest, c),
    ensures
        escape::octal_escape(first, digits + rest).char == c,
        escape::octal_escape(first, digits + rest).read == digits.len(),
        escape::octal_escape(first, digits + rest).warnings == remarks(
            seq!['\\', first] + digits,
            rest,
        ),
{
    let unit = seq!['\\', first] + digits;
    law_spelling(unit, rest, c);
    assert((unit + rest).skip(2) =~= digits + rest);
    assert((unit + rest)[1] == first);
}

} // verus!
