//! What holds of the library as a whole.

use crate::args::Args;
use crate::class;
use crate::complement;
use crate::construct;
use crate::escape;
use crate::operand;
use crate::operand::Operand;
use crate::parse;
use crate::range;
use crate::sort;
use crate::squeeze;
use crate::tr;
use crate::translate;
use crate::warning::Warning;
use vstd::arithmetic::div_mod::lemma_mod_add_multiples_vanish;
use vstd::prelude::*;

verus! {

// ---------------------------------------------------------------------------
// Options
// ---------------------------------------------------------------------------
/// Options that go together never lack the second set: without one, characters
/// are deleted or squeezed.
pub proof fn law_valid_args_have_their_sets(args: Args)
    requires
        args.conflict() is None,
    ensures
        !tr::lacks_second_set(args, args.string2 is Some),
        args.string2 is None ==> args.delete || args.squeeze_repeats,
{
}

// ---------------------------------------------------------------------------
// Writing of sets
// ---------------------------------------------------------------------------
/// Every element of a set that has been read is well formed: a counted character
/// is there at least once.
pub proof fn law_parsed_sets_are_well_formed(string: Seq<char>)
    ensures
        parse::parsed(string).operands matches Ok(operands) ==> Operand::all_well_formed(operands),
{
    parse::lemma_parsed_well_formed(string);
}

/// Text without brackets, backslashes and hyphens.
pub open spec fn is_plain(string: Seq<char>) -> bool {
    forall|i: int|
        0 <= i < string.len() ==> string[i] != '[' && string[i] != '\\' && string[i] != '-'
}

/// Text without brackets, backslashes and hyphens stands for its own characters.
pub proof fn law_plain_text_is_literal(string: Seq<char>)
    requires
        is_plain(string),
    ensures
        parse::parsed(string).operands == Ok::<Seq<Operand>, Seq<char>>(Operand::literals(string)),
        parse::parsed(string).warnings == Seq::<Warning>::empty(),
    decreases string.len(),
{
    if string.len() > 0 {
        let tail = string.skip(1);
        law_plain_text_is_literal(tail);
        let piece = parse::next_piece(string);
        assert(string[0] != '[');
        assert(string.skip(1) == tail);
        if tail.len() > 0 {
            assert(tail[0] == string[1]);
        }
        assert(piece.operands == Ok::<Seq<Operand>, Seq<char>>(Operand::literals(seq![string[0]])));
        assert(piece.read == 1);
        assert(piece.warnings =~= Seq::<Warning>::empty());
        assert(Operand::literals(seq![string[0]]) + Operand::literals(tail) =~= Operand::literals(
            string,
        ));
    } else {
        assert(Operand::literals(string) =~= Seq::<Operand>::empty());
    }
}

/// A set that is written without a backslash gives rise to no remark.
pub proof fn law_no_backslash_no_warning(string: Seq<char>)
    requires
        forall|i: int| 0 <= i < string.len() ==> string[i] != '\\',
    ensures
        parse::parsed(string).warnings == Seq::<Warning>::empty(),
    decreases string.len(),
{
    if string.len() > 0 {
        parse::lemma_next_piece_read(string);
        let piece = parse::next_piece(string);
        law_no_backslash_no_warning(string.skip(piece.read as int));
        assert(string[0] != '\\');
        if string.len() > 2 {
            assert(string.skip(1).skip(1)[0] == string[2]);
        }
        assert(piece.warnings =~= Seq::<Warning>::empty());
    }
}

/// The octal digit of a value below eight.
pub open spec fn octal_digit(value: int) -> char {
    ('0' as int + value) as char
}

/// Every byte can be written as a backslash and three octal digits.
pub proof fn law_every_byte_has_an_octal_escape(byte: u8)
    ensures
        ({
            let string = seq![
                '\\',
                octal_digit(byte as int / 64),
                octal_digit(byte as int / 8 % 8),
                octal_digit(byte as int % 8),
            ];
            &&& parse::parsed(string).operands == Ok::<Seq<Operand>, Seq<char>>(
                Operand::literals(seq![byte as char]),
            )
            &&& parse::parsed(string).warnings == Seq::<Warning>::empty()
        }),
{
    let first = octal_digit(byte as int / 64);
    let second = octal_digit(byte as int / 8 % 8);
    let third = octal_digit(byte as int % 8);
    let string = seq!['\\', first, second, third];
    assert(escape::octal3(first, second, third) == byte);
    assert(string.skip(2) =~= seq![second, third]);
    let single = escape::single_char(string);
    assert(single.char == byte as char && single.read == 4);
    assert(string.skip(4) =~= Seq::<char>::empty());
    let piece = parse::next_piece(string);
    assert(piece.read == 4);
    assert(piece.warnings =~= Seq::<Warning>::empty());
    assert(parse::parsed(string.skip(4)).operands == Ok::<Seq<Operand>, Seq<char>>(Seq::empty()));
    assert(Operand::literals(seq![byte as char]) + Seq::<Operand>::empty() =~= Operand::literals(
        seq![byte as char],
    ));
}

/// A backslash before a character that makes no escape with it stands for that
/// character, whatever it would mean without the backslash.
pub proof fn law_backslash_makes_literal(c: char)
    requires
        !escape::is_octal(c),
        !seq!['a', 'b', 't', 'n', 'v', 'f', 'r'].contains(c),
    ensures
        parse::parsed(seq!['\\', c]).operands == Ok::<Seq<Operand>, Seq<char>>(
            Operand::literals(seq![c]),
        ),
        parse::parsed(seq!['\\', c]).warnings == Seq::<Warning>::empty(),
{
    let string = seq!['\\', c];
    let escapes = seq!['a', 'b', 't', 'n', 'v', 'f', 'r'];
    assert(c != escapes[0] && c != escapes[1] && c != escapes[2] && c != escapes[3] && c
        != escapes[4] && c != escapes[5] && c != escapes[6]);
    assert(string.skip(2) =~= Seq::<char>::empty());
    assert(escape::single_char(string).char == c);
    assert(escape::single_char(string).read == 2);
    assert(parse::next_piece(string).read == 2);
    assert(parse::next_piece(string).warnings =~= Seq::<Warning>::empty());
    assert(parse::parsed(string.skip(2)).operands == Ok::<Seq<Operand>, Seq<char>>(Seq::empty()));
    assert(Operand::literals(seq![c]) + Seq::<Operand>::empty() =~= Operand::literals(seq![c]));
}

/// Three octal digits that are more than a byte holds are read like a zero and the
/// first two of them, and then the third. A remark says so.
pub proof fn law_ambiguous_octal_escape(first: char, second: char, third: char)
    requires
        '4' <= first <= '7',
        escape::is_octal(second),
        escape::is_octal(third),
    ensures
        parse::parsed(seq!['\\', first, second, third]).operands == parse::parsed(
            seq!['\\', '0', first, second, third],
        ).operands,
        parse::parsed(seq!['\\', first, second, third]).operands == Ok::<
            Seq<Operand>,
            Seq<char>,
        >(Operand::literals(seq![escape::octal2(first, second) as char, third])),
        parse::parsed(seq!['\\', first, second, third]).warnings == seq![
            Warning::AmbiguousOctalEscape { first, second, third },
        ],
        parse::parsed(seq!['\\', '0', first, second, third]).warnings == Seq::<Warning>::empty(),
{
    let short = seq!['\\', first, second, third];
    let long = seq!['\\', '0', first, second, third];
    let byte = escape::octal2(first, second) as char;
    let both = Operand::literals(seq![byte]) + Operand::literals(seq![third]);
    assert(both =~= Operand::literals(seq![byte, third]));
    law_plain_text_is_literal(seq![third]);
    assert(short.skip(2) =~= seq![second, third]);
    assert(short.skip(3) =~= seq![third]);
    assert(escape::single_char(short).char == byte);
    assert(escape::single_char(short).read == 3);
    assert(long.skip(2) =~= seq![first, second, third]);
    assert(long.skip(4) =~= seq![third]);
    assert(escape::single_char(long).char == byte);
    assert(escape::single_char(long).read == 4);
    assert(parse::next_piece(short).warnings =~= seq![
        Warning::AmbiguousOctalEscape { first, second, third },
    ]);
    assert(parse::next_piece(long).warnings =~= Seq::<Warning>::empty());
    assert(parse::parsed(short).warnings =~= parse::next_piece(short).warnings);
    assert(parse::parsed(long).warnings =~= parse::next_piece(long).warnings);
}

/// A range holds the characters that lie between its ends, in ascending order.
pub proof fn law_range_members(first: char, last: char, c: char, i: int, j: int)
    ensures
        range::char_range(first, last).contains(c) <==> first <= c <= last,
        0 <= i < j < range::char_range(first, last).len() ==> range::char_range(first, last)[i]
            < range::char_range(first, last)[j],
{
    let chars = range::char_range(first, last);
    if first <= c && c <= last {
        let k = range::ordinal(c) - range::ordinal(first);
        assert(chars[k] == c);
    }
    if chars.contains(c) {
        let k = choose|k: int| 0 <= k < chars.len() && chars[k] == c;
        assert(chars[k] == range::at_ordinal(range::ordinal(first) + k));
    }
}

/// The members of a class, as a set.
pub open spec fn in_class(name: Seq<char>, c: char) -> bool {
    class::class_chars(name) matches Some(chars) && chars.contains(c)
}

/// The names of the classes are told apart.
pub proof fn lemma_class_names()
    ensures
        class::class_chars("alnum"@) == Some(
            range::char_range('0', '9') + range::char_range('A', 'Z') + range::char_range(
                'a',
                'z',
            ),
        ),
        class::class_chars("alpha"@) == Some(
            range::char_range('A', 'Z') + range::char_range('a', 'z'),
        ),
        class::class_chars("digit"@) == Some(range::char_range('0', '9')),
        class::class_chars("lower"@) == Some(range::char_range('a', 'z')),
        class::class_chars("upper"@) == Some(range::char_range('A', 'Z')),
        class::class_chars("space"@) == Some(seq![' ', '\t', '\n', '\r', '\x0b', '\x0c']),
        class::class_chars("blank"@) == Some(seq![' ', '\t']),
        class::class_chars("cntrl"@) == Some(range::char_range('\0', '\x1f').push('\x7f')),
        class::class_chars("graph"@) == Some(range::char_range('!', '~')),
        class::class_chars("print"@) == Some(range::char_range(' ', '~')),
        class::class_chars("punct"@) == Some(
            range::char_range('!', '/') + range::char_range(':', '@') + range::char_range(
                '[',
                '`',
            ) + range::char_range('{', '~'),
        ),
        class::class_chars("xdigit"@) == Some(
            range::char_range('0', '9') + range::char_range('A', 'F') + range::char_range(
                'a',
                'f',
            ),
        ),
{
    reveal_strlit("alnum");
    reveal_strlit("alpha");
    reveal_strlit("digit");
    reveal_strlit("lower");
    reveal_strlit("upper");
    reveal_strlit("space");
    reveal_strlit("blank");
    reveal_strlit("cntrl");
    reveal_strlit("graph");
    reveal_strlit("print");
    reveal_strlit("punct");
    reveal_strlit("xdigit");
    assert("alnum"@[2] == 'n' && "alpha"@[2] == 'p' && "digit"@[2] == 'g' && "lower"@[2] == 'w');
    assert("upper"@[0] == 'u' && "space"@[0] == 's' && "blank"@[0] == 'b' && "cntrl"@[0] == 'c');
    assert("graph"@[0] == 'g' && "print"@[1] == 'r' && "punct"@[1] == 'u');
    assert("alnum"@[0] == 'a' && "alpha"@[0] == 'a' && "digit"@[0] == 'd' && "lower"@[0] == 'l');
    assert("print"@[0] == 'p' && "punct"@[0] == 'p' && "xdigit"@[0] == 'x');
}

/// Two rows of characters, one after the other.
proof fn lemma_add_contains(a: Seq<char>, b: Seq<char>, c: char)
    ensures
        (a + b).contains(c) <==> a.contains(c) || b.contains(c),
{
    if a.contains(c) {
        let i = choose|i: int| 0 <= i < a.len() && a[i] == c;
        assert((a + b)[i] == c);
    }
    if b.contains(c) {
        let i = choose|i: int| 0 <= i < b.len() && b[i] == c;
        assert((a + b)[a.len() + i] == c);
    }
    if (a + b).contains(c) {
        let i = choose|i: int| 0 <= i < (a + b).len() && (a + b)[i] == c;
        if i < a.len() {
            assert(a[i] == c);
        } else {
            assert(b[i - a.len()] == c);
        }
    }
}

/// The members of each class, and how the classes go together.
pub proof fn law_classes(c: char)
    ensures
        in_class("lower"@, c) <==> 'a' <= c <= 'z',
        in_class("upper"@, c) <==> 'A' <= c <= 'Z',
        in_class("digit"@, c) <==> '0' <= c <= '9',
        in_class("alpha"@, c) <==> in_class("lower"@, c) || in_class("upper"@, c),
        in_class("alnum"@, c) <==> in_class("alpha"@, c) || in_class("digit"@, c),
        in_class("xdigit"@, c) <==> in_class("digit"@, c) || 'a' <= c <= 'f' || 'A' <= c <= 'F',
        in_class("graph"@, c) <==> '!' <= c <= '~',
        in_class("punct"@, c) <==> in_class("graph"@, c) && !in_class("alnum"@, c),
        in_class("print"@, c) <==> in_class("graph"@, c) || c == ' ',
        in_class("cntrl"@, c) <==> c <= '\x7f' && !in_class("print"@, c),
        in_class("blank"@, c) <==> c == ' ' || c == '\t',
        in_class("space"@, c) <==> c == ' ' || '\t' <= c <= '\r',
{
    lemma_class_names();
    law_range_members('0', '9', c, 0, 0);
    law_range_members('A', 'Z', c, 0, 0);
    law_range_members('a', 'z', c, 0, 0);
    law_range_members('A', 'F', c, 0, 0);
    law_range_members('a', 'f', c, 0, 0);
    law_range_members('\0', '\x1f', c, 0, 0);
    law_range_members('!', '~', c, 0, 0);
    law_range_members(' ', '~', c, 0, 0);
    law_range_members('!', '/', c, 0, 0);
    law_range_members(':', '@', c, 0, 0);
    law_range_members('[', '`', c, 0, 0);
    law_range_members('{', '~', c, 0, 0);
    let digit = range::char_range('0', '9');
    let upper = range::char_range('A', 'Z');
    let lower = range::char_range('a', 'z');
    lemma_add_contains(upper, lower, c);
    lemma_add_contains(digit, upper, c);
    lemma_add_contains(digit + upper, lower, c);
    lemma_add_contains(digit, range::char_range('A', 'F'), c);
    lemma_add_contains(digit + range::char_range('A', 'F'), range::char_range('a', 'f'), c);
    let signs = range::char_range('!', '/');
    let more = range::char_range(':', '@');
    let brackets = range::char_range('[', '`');
    lemma_add_contains(signs, more, c);
    lemma_add_contains(signs + more, brackets, c);
    lemma_add_contains(signs + more + brackets, range::char_range('{', '~'), c);
    lemma_push_contains(range::char_range('\0', '\x1f'), '\x7f', c);
    let blank = seq![' ', '\t'];
    assert(blank[0] == ' ' && blank[1] == '\t');
    let space = seq![' ', '\t', '\n', '\r', '\x0b', '\x0c'];
    assert(space[0] == ' ' && space[1] == '\t' && space[2] == '\n' && space[3] == '\r' && space[4]
        == '\x0b' && space[5] == '\x0c');
}

// ---------------------------------------------------------------------------
// Membership
// ---------------------------------------------------------------------------
/// An equivalence class holds its own character, and two characters are in the
/// same class both ways.
pub proof fn law_equivalence_classes(c: char, d: char, e: char)
    ensures
        (Operand::Equiv { char: c }).lists(c),
        (Operand::Equiv { char: c }).lists(d) == (Operand::Equiv { char: d }).lists(c),
        (Operand::Equiv { char: c }).lists(d) && (Operand::Equiv { char: d }).lists(e) ==> (
        Operand::Equiv { char: c }).lists(e),
{
}

/// An `[=equiv=]` construct stands for one equivalence class for each of its
/// characters. A character is in it where it is equivalent to one of them.
pub proof fn law_equivalence_construct(chars: Seq<char>, c: char)
    requires
        chars.len() > 0,
        forall|i: int| 0 <= i < chars.len() ==> chars[i] != '=',
        forall|i: int| 0 < i < chars.len() ==> chars[i] != ']',
    ensures
        parse::parsed(seq!['[', '='] + chars + seq!['=', ']']).operands == Ok::<
            Seq<Operand>,
            Seq<char>,
        >(Operand::equivalents(chars)),
        Operand::listed(Operand::equivalents(chars), c) <==> exists|i: int|
            0 <= i < chars.len() && operand::deunicoded(#[trigger] chars[i]) == operand::deunicoded(c),
{
    let string = seq!['[', '='] + chars + seq!['=', ']'];
    let end = chars.len() as int + 3;
    let operands = Operand::equivalents(chars);
    assert forall|i: int| 3 <= i < end implies string[i] != ']' by {
        if i < chars.len() + 2 {
            assert(string[i] == chars[i - 2]);
        }
    }
    parse::lemma_first_closing_bracket(string, 3, end);
    assert(string.take(end + 1) =~= string);
    assert forall|i: int| 0 <= i < chars.len() implies string.skip(2)[i] != '=' by {
        assert(string.skip(2)[i] == chars[i]);
    }
    construct::lemma_before_equals(string.skip(2), chars.len() as int);
    assert(string.skip(2).take(chars.len() as int) =~= chars);
    assert(string[end] == ']');
    assert(parse::next_piece(string).operands == Ok::<Seq<Operand>, Seq<char>>(operands));
    assert(string.skip(end + 1) =~= Seq::<char>::empty());
    assert(parse::parsed(string.skip(end + 1)).operands == Ok::<Seq<Operand>, Seq<char>>(
        Seq::empty(),
    ));
    assert(operands + Seq::<Operand>::empty() =~= operands);
    if exists|i: int| 0 <= i < chars.len() && operand::deunicoded(#[trigger] chars[i]) == operand::deunicoded(c) {
        let i = choose|i: int|
            0 <= i < chars.len() && operand::deunicoded(#[trigger] chars[i]) == operand::deunicoded(c);
        assert(operands[i].lists(c));
    }
    if Operand::listed(operands, c) {
        let i = choose|i: int| 0 <= i < operands.len() && (#[trigger] operands[i]).lists(c);
        assert(operand::deunicoded(chars[i]) == operand::deunicoded(c));
    }
}

/// A set of plain characters holds those characters and no others.
pub proof fn law_literals_list_their_characters(chars: Seq<char>, c: char)
    ensures
        Operand::listed(Operand::literals(chars), c) == chars.contains(c),
{
    let operands = Operand::literals(chars);
    if chars.contains(c) {
        let i = choose|i: int| 0 <= i < chars.len() && chars[i] == c;
        assert(operands[i].lists(c));
    }
    if Operand::listed(operands, c) {
        let i = choose|i: int| 0 <= i < operands.len() && (#[trigger] operands[i]).lists(c);
        assert(chars[i] == c);
    }
}

// ---------------------------------------------------------------------------
// Deleting
// ---------------------------------------------------------------------------
/// What is kept is in the set, or is not, as it is asked for, and it was there
/// before. Nothing else that was there is lost.
pub proof fn law_retained_members(
    input: Seq<char>,
    operands: Seq<Operand>,
    listed: bool,
    c: char,
)
    ensures
        tr::retained(input, operands, listed).contains(c) <==> input.contains(c)
            && Operand::listed(operands, c) == listed,
    decreases input.len(),
{
    reveal(Seq::filter);
    if input.len() > 0 {
        let init = input.drop_last();
        law_retained_members(init, operands, listed, c);
        let kept = tr::retained(init, operands, listed);
        assert(input == init.push(input.last()));
        lemma_push_contains(init, input.last(), c);
        lemma_push_contains(kept, input.last(), c);
    }
}

/// A sequence and one more character.
proof fn lemma_push_contains(chars: Seq<char>, last: char, c: char)
    ensures
        chars.push(last).contains(c) <==> chars.contains(c) || c == last,
{
    let longer = chars.push(last);
    if chars.contains(c) {
        let i = choose|i: int| 0 <= i < chars.len() && chars[i] == c;
        assert(longer[i] == c);
    }
    if c == last {
        assert(longer[chars.len() as int] == c);
    }
    if longer.contains(c) && c != last {
        let i = choose|i: int| 0 <= i < longer.len() && longer[i] == c;
        assert(chars[i] == c);
    }
}

/// Whether `whole` is made of the characters of `a` and those of `b`, each in their
/// order.
pub open spec fn interleaves(a: Seq<char>, b: Seq<char>, whole: Seq<char>) -> bool
    decreases whole.len(),
{
    if whole.len() == 0 {
        a.len() == 0 && b.len() == 0
    } else {
        ||| a.len() > 0 && a.last() == whole.last() && interleaves(
            a.drop_last(),
            b,
            whole.drop_last(),
        )
        ||| b.len() > 0 && b.last() == whole.last() && interleaves(
            a,
            b.drop_last(),
            whole.drop_last(),
        )
    }
}

/// Deleting a set and deleting its complement share the input between them: each
/// character goes to one of the two, and its order is kept in both.
pub proof fn law_deletion_splits_the_input(input: Seq<char>, operands: Seq<Operand>)
    ensures
        interleaves(
            tr::retained(input, operands, true),
            tr::retained(input, operands, false),
            input,
        ),
        tr::retained(input, operands, true).len() + tr::retained(input, operands, false).len()
            == input.len(),
    decreases input.len(),
{
    reveal(Seq::filter);
    if input.len() > 0 {
        let init = input.drop_last();
        law_deletion_splits_the_input(init, operands);
        let listed = tr::retained(init, operands, true);
        let unlisted = tr::retained(init, operands, false);
        assert(listed.push(input.last()).drop_last() == listed);
        assert(unlisted.push(input.last()).drop_last() == unlisted);
    }
}

/// Deleting once more changes nothing.
pub proof fn law_deletion_is_idempotent(input: Seq<char>, operands: Seq<Operand>, listed: bool)
    ensures
        tr::retained(tr::retained(input, operands, listed), operands, listed) == tr::retained(
            input,
            operands,
            listed,
        ),
    decreases input.len(),
{
    reveal(Seq::filter);
    if input.len() > 0 {
        let init = input.drop_last();
        law_deletion_is_idempotent(init, operands, listed);
        let kept = tr::retained(init, operands, listed);
        assert(kept.push(input.last()).drop_last() == kept);
    }
}

// ---------------------------------------------------------------------------
// Translating
// ---------------------------------------------------------------------------
/// The second set is filled up to the length of the first, and stays as it is
/// where it is long enough.
pub proof fn law_second_set_is_filled_up(operands: Seq<Operand>, wanted: nat)
    requires
        translate::string2_error(operands) is None,
        operands.len() > 0 || wanted == 0,
    ensures
        translate::filled(operands, wanted).len() >= wanted,
        translate::flattened(operands, 0).len() < wanted ==> translate::filled(
            operands,
            wanted,
        ).len() == wanted,
        translate::flattened(operands, 0).len() >= wanted ==> translate::filled(operands, wanted)
            == translate::flattened(operands, 0),
{
    let given = translate::flattened(operands, 0);
    if given.len() < wanted {
        translate::lemma_fill_length(operands, (wanted - given.len()) as nat);
    }
}

/// A set of plain characters stands for these characters.
pub proof fn law_literals_flatten(chars: Seq<char>, fill: nat)
    ensures
        translate::flattened(Operand::literals(chars), fill) == chars,
    decreases chars.len(),
{
    let operands = Operand::literals(chars);
    if chars.len() > 0 {
        law_literals_flatten(chars.drop_last(), fill);
        assert(operands.drop_last() =~= Operand::literals(chars.drop_last()));
        assert(translate::occurrences(operands.last(), fill) =~= seq![chars.last()]);
        assert(chars =~= chars.drop_last() + seq![chars.last()]);
    }
}

/// Plain characters make two sets that can be translated.
proof fn lemma_literals_no_error(chars: Seq<char>)
    requires
        chars.len() <= usize::MAX,
    ensures
        translate::string1_error(Operand::literals(chars)) is None,
        translate::string2_error(Operand::literals(chars)) is None,
        !translate::has_fill(Operand::literals(chars)),
    decreases chars.len(),
{
    if chars.len() > 0 {
        lemma_literals_no_error(chars.drop_last());
        law_literals_flatten(chars, 0);
        assert(Operand::literals(chars).drop_last() =~= Operand::literals(chars.drop_last()));
    }
}

/// Plain characters are translated one for one. A second set that is too short is
/// filled up with its last character.
pub proof fn law_plain_translation(from: Seq<char>, to: Seq<char>)
    requires
        from.len() <= usize::MAX,
        0 < to.len() <= usize::MAX,
    ensures
        translate::transformation(Operand::literals(from), Operand::literals(to)) == Ok::<
            Map<char, char>,
            Seq<char>,
        >(
            translate::mapping(
                from,
                if from.len() <= to.len() {
                    to
                } else {
                    to + translate::repeated(to.last(), (from.len() - to.len()) as nat)
                },
            ),
        ),
{
    law_literals_flatten(from, 0);
    law_literals_flatten(to, 0);
    lemma_literals_no_error(from);
    lemma_literals_no_error(to);
}

/// The last place of a character is a place of it.
proof fn lemma_last_position(chars: Seq<char>, c: char)
    requires
        chars.contains(c),
    ensures
        0 <= translate::last_position(chars, c) < chars.len(),
        chars[translate::last_position(chars, c)] == c,
        forall|i: int| translate::last_position(chars, c) < i < chars.len() ==> chars[i] != c,
    decreases chars.len(),
{
    let init = chars.drop_last();
    if chars.last() != c {
        let i = choose|i: int| 0 <= i < chars.len() && chars[i] == c;
        assert(init[i] == c);
        lemma_last_position(init, c);
        assert forall|i: int|
            translate::last_position(chars, c) < i < chars.len() implies chars[i] != c by {
            if i < init.len() {
                assert(init[i] != c);
            }
        }
    }
}

/// A character that stands in several places of the first set is translated as in
/// the last of them.
pub proof fn law_last_place_counts(from: Seq<char>, to: Seq<char>, i: int)
    requires
        0 <= i < from.len(),
        forall|j: int| i < j < from.len() ==> from[j] != from[i],
    ensures
        translate::mapping(from, to).contains_key(from[i]),
        translate::mapping(from, to)[from[i]] == to[i],
{
    assert(from.contains(from[i]));
    lemma_last_position(from, from[i]);
    let last = translate::last_position(from, from[i]);
    if last < i {
        assert(from[i] != from[i]);
    } else if last > i {
        assert(from[last] != from[i]);
    }
}

/// A character of the first set is among those that the set stands for.
proof fn lemma_flattened_contains(operands: Seq<Operand>, c: char)
    requires
        translate::string1_error(operands) is None,
        Operand::all_well_formed(operands),
    ensures
        translate::flattened(operands, 0).contains(c) <==> Operand::listed(operands, c),
    decreases operands.len(),
{
    if operands.len() > 0 {
        let init = operands.drop_last();
        let before = translate::flattened(init, 0);
        let last = translate::occurrences(operands.last(), 0);
        let all = translate::flattened(operands, 0);
        assert forall|i: int| 0 <= i < init.len() implies (#[trigger] init[i]).well_formed() by {
            assert(operands[i].well_formed());
        }
        lemma_flattened_contains(init, c);
        assert(operands[operands.len() - 1].well_formed());
        assert(last.len() > 0);
        assert(all == before + last);
        if Operand::listed(operands, c) {
            let i = choose|i: int| 0 <= i < operands.len() && (#[trigger] operands[i]).lists(c);
            if i < init.len() {
                assert(init[i].lists(c));
                let j = choose|j: int| 0 <= j < before.len() && before[j] == c;
                assert(all[j] == c);
            } else {
                assert(last[0] == c);
                assert(all[before.len() as int] == c);
            }
        }
        if all.contains(c) {
            let j = choose|j: int| 0 <= j < all.len() && all[j] == c;
            if j < before.len() {
                assert(before[j] == c);
                let i = choose|i: int| 0 <= i < init.len() && (#[trigger] init[i]).lists(c);
                assert(operands[i].lists(c));
            } else {
                assert(last[j - before.len()] == c);
                assert(operands[operands.len() - 1].lists(c));
            }
        }
    }
}

/// A character is translated where it is in the first set, and stays as it is
/// where it is not.
pub proof fn law_translated_where_listed(
    string1_operands: Seq<Operand>,
    string2_operands: Seq<Operand>,
    c: char,
)
    requires
        Operand::all_well_formed(string1_operands),
    ensures
        translate::transformation(string1_operands, string2_operands) matches Ok(map) ==> {
            &&& map.contains_key(c) == Operand::listed(string1_operands, c)
            &&& !Operand::listed(string1_operands, c) ==> translate::translated(map, seq![c])
                == seq![c]
        },
{
    if translate::transformation(string1_operands, string2_operands) is Ok {
        lemma_flattened_contains(string1_operands, c);
        let map = translate::transformation(string1_operands, string2_operands)->Ok_0;
        if !Operand::listed(string1_operands, c) {
            assert(translate::translated(map, seq![c]) =~= seq![c]);
        }
    }
}

/// Each character is translated for itself: the input may be cut anywhere.
pub proof fn law_translation_is_charwise(map: Map<char, char>, a: Seq<char>, b: Seq<char>)
    ensures
        translate::translated(map, a + b) == translate::translated(map, a)
            + translate::translated(map, b),
        translate::translated(map, a).len() == a.len(),
{
    assert(translate::translated(map, a + b) =~= translate::translated(map, a)
        + translate::translated(map, b));
}

/// Translating a set to itself changes nothing.
pub proof fn law_translation_to_itself(operands: Seq<Operand>, input: Seq<char>)
    ensures
        translate::transformation(operands, operands) matches Ok(map) ==> translate::translated(
            map,
            input,
        ) == input,
{
    if translate::transformation(operands, operands) is Ok {
        let map = translate::transformation(operands, operands)->Ok_0;
        let from = translate::flattened(operands, 0);
        assert forall|i: int| 0 <= i < input.len() implies translate::translated(map, input)[i]
            == input[i] by {
            if from.contains(input[i]) {
                lemma_last_position(from, input[i]);
            }
        }
        assert(translate::translated(map, input) =~= input);
    }
}

// ---------------------------------------------------------------------------
// Complement
// ---------------------------------------------------------------------------
/// A replacement is a character of the second set.
proof fn lemma_replacement_member(operands: Seq<Operand>, k: nat) -> (j: int)
    requires
        operands.len() > 0,
    ensures
        0 <= j < operands.len(),
        complement::nth_replacement(operands, k) == operands[j].spec_char(),
    decreases operands.len(),
{
    if operands.len() > 1 && complement::uses(operands[0]) is Some && k >= complement::uses(
        operands[0],
    )->0 {
        let tail = operands.drop_first();
        let j = lemma_replacement_member(tail, (k - complement::uses(operands[0])->0) as nat);
        assert(tail[j] == operands[j + 1]);
        j + 1
    } else {
        0
    }
}

/// The complement of a set is replaced by characters of the second set. The
/// characters of the set stay as they are, and no character is added or lost.
pub proof fn law_complement_replaces_the_rest(
    input: Seq<char>,
    chars1: Seq<Operand>,
    chars2: Seq<Operand>,
    i: int,
)
    requires
        chars2.len() > 0,
        0 <= i < input.len(),
    ensures
        ({
            let output = complement::complemented(input, chars1, chars2);
            &&& output.len() == input.len()
            &&& Operand::listed(chars1, input[i]) ==> output[i] == input[i]
            &&& !Operand::listed(chars1, input[i]) ==> exists|j: int|
                0 <= j < chars2.len() && output[i] == (#[trigger] chars2[j]).spec_char()
        }),
{
    let k = complement::unlisted_count(chars1, input.take(i));
    match complement::period(chars2) {
        Some(p) => {
            let j = lemma_replacement_member(chars2, k % p);
            assert(0 <= j < chars2.len() && chars2[j].spec_char() == complement::replacement(
                chars2,
                k,
            ));
        },
        None => {
            let j = lemma_replacement_member(chars2, k);
            assert(0 <= j < chars2.len() && chars2[j].spec_char() == complement::replacement(
                chars2,
                k,
            ));
        },
    }
}

/// When all characters of the second set have been used, the first one comes next
/// again.
pub proof fn law_replacements_start_again(operands: Seq<Operand>, k: nat)
    requires
        complement::period(operands) is Some,
        complement::period(operands)->0 > 0,
    ensures
        complement::replacement(operands, k + complement::period(operands)->0)
            == complement::replacement(operands, k),
{
    let p = complement::period(operands)->0;
    lemma_mod_add_multiples_vanish(k as int, p as int);
    assert((k + p) % p == k % p);
}

/// Plain characters replace in their order, and from the start again when all have
/// been used.
pub proof fn law_plain_replacements(chars: Seq<char>, k: nat)
    requires
        chars.len() > 0,
    ensures
        complement::replacement(Operand::literals(chars), k) == chars[(k % chars.len()) as int],
{
    lemma_literals_period(chars);
    assert(0 <= k % chars.len() < chars.len()) by (nonlinear_arith)
        requires
            chars.len() > 0,
    ;
    lemma_literals_nth(chars, k % chars.len());
}

proof fn lemma_literals_period(chars: Seq<char>)
    ensures
        complement::period(Operand::literals(chars)) == Some(chars.len()),
    decreases chars.len(),
{
    if chars.len() > 0 {
        lemma_literals_period(chars.drop_last());
        assert(Operand::literals(chars).drop_last() =~= Operand::literals(chars.drop_last()));
    }
}

proof fn lemma_literals_nth(chars: Seq<char>, k: nat)
    requires
        k < chars.len(),
    ensures
        complement::nth_replacement(Operand::literals(chars), k) == chars[k as int],
    decreases chars.len(),
{
    if k > 0 {
        lemma_literals_nth(chars.drop_first(), (k - 1) as nat);
        assert(Operand::literals(chars).drop_first() =~= Operand::literals(chars.drop_first()));
    }
}

/// A set that is in the order of its characters is left as it is.
pub proof fn law_ordered_set_stays(operands: Seq<Operand>)
    requires
        sort::sorted_by_char(operands),
    ensures
        sort::in_char_order(operands) == operands,
{
    let chosen = sort::in_char_order(operands);
    assert(sort::is_stable_sort(operands, operands));
    sort::lemma_stable_sort_unique(operands, chosen);
}

/// The complement by value and the complement by character are the same where the
/// second set is in the order of its characters.
pub proof fn law_complements_agree_on_ordered_sets(
    by_value: Args,
    by_character: Args,
    string1_operands: Seq<Operand>,
    string2_operands: Seq<Operand>,
    input: Seq<char>,
)
    requires
        by_value.complement_val && !by_value.complement_char,
        by_character.complement_char,
        sort::sorted_by_char(string2_operands),
    ensures
        tr::replaced(by_value, string1_operands, Some(string2_operands), input) == tr::replaced(
            by_character,
            string1_operands,
            Some(string2_operands),
            input,
        ),
{
    law_ordered_set_stays(string2_operands);
}

// ---------------------------------------------------------------------------
// Squeezing
// ---------------------------------------------------------------------------
/// Squeezing keeps the last character.
proof fn lemma_squeezed_last(chars: Seq<char>, operands: Seq<Operand>)
    requires
        chars.len() > 0,
    ensures
        squeeze::squeezed(chars, operands).len() > 0,
        squeeze::squeezed(chars, operands).last() == chars.last(),
    decreases chars.len(),
{
    if squeeze::continues_run(chars, operands) {
        lemma_squeezed_last(chars.drop_last(), operands);
    }
}

/// After squeezing, no character of the set stands next to itself.
pub proof fn law_squeezed_has_no_runs(chars: Seq<char>, operands: Seq<Operand>, i: int)
    requires
        0 < i < squeeze::squeezed(chars, operands).len(),
        Operand::listed(operands, squeeze::squeezed(chars, operands)[i]),
    ensures
        squeeze::squeezed(chars, operands)[i - 1] != squeeze::squeezed(chars, operands)[i],
    decreases chars.len(),
{
    let init = chars.drop_last();
    if squeeze::continues_run(chars, operands) || i < squeeze::squeezed(init, operands).len() {
        law_squeezed_has_no_runs(init, operands, i);
    } else {
        assert(init.len() > 0);
        lemma_squeezed_last(init, operands);
    }
}

/// Squeezing once more changes nothing.
pub proof fn law_squeezing_is_idempotent(chars: Seq<char>, operands: Seq<Operand>)
    ensures
        squeeze::squeezed(squeeze::squeezed(chars, operands), operands) == squeeze::squeezed(
            chars,
            operands,
        ),
    decreases chars.len(),
{
    if chars.len() > 0 {
        let init = chars.drop_last();
        law_squeezing_is_idempotent(init, operands);
        let before = squeeze::squeezed(init, operands);
        if !squeeze::continues_run(chars, operands) {
            let after = before.push(chars.last());
            assert(after.drop_last() == before);
            if init.len() > 0 {
                lemma_squeezed_last(init, operands);
            }
        }
    }
}

/// Squeezing leaves the characters that are not in the set as they are, and loses
/// no character altogether.
pub proof fn law_squeezing_spares_the_rest(chars: Seq<char>, operands: Seq<Operand>, c: char)
    ensures
        tr::retained(squeeze::squeezed(chars, operands), operands, false) == tr::retained(
            chars,
            operands,
            false,
        ),
        squeeze::squeezed(chars, operands).contains(c) <==> chars.contains(c),
    decreases chars.len(),
{
    reveal(Seq::filter);
    if chars.len() > 0 {
        let init = chars.drop_last();
        let before = squeeze::squeezed(init, operands);
        law_squeezing_spares_the_rest(init, operands, c);
        assert(chars == init.push(chars.last()));
        lemma_push_contains(init, chars.last(), c);
        if squeeze::continues_run(chars, operands) {
            assert(init[chars.len() - 2] == chars.last());
        } else {
            lemma_push_contains(before, chars.last(), c);
            assert(before.push(chars.last()).drop_last() == before);
        }
    }
}

/// A run of a character of the set becomes a single occurrence.
pub proof fn law_run_becomes_one(c: char, n: nat, operands: Seq<Operand>)
    requires
        n > 0,
        Operand::listed(operands, c),
    ensures
        squeeze::squeezed(translate::repeated(c, n), operands) == seq![c],
    decreases n,
{
    let run = translate::repeated(c, n);
    assert(run.drop_last() =~= translate::repeated(c, (n - 1) as nat));
    if n > 1 {
        law_run_becomes_one(c, (n - 1) as nat, operands);
    } else {
        assert(squeeze::squeezed(run.drop_last(), operands) == Seq::<char>::empty());
        assert(squeeze::squeezed(run, operands) == Seq::<char>::empty().push(c));
    }
}

// ---------------------------------------------------------------------------
// Whole runs
// ---------------------------------------------------------------------------
/// A run that deletes always succeeds. What is left was in the input, and is
/// outside the first set, or inside it where the complement is deleted.
pub proof fn law_delete_run(
    args: Args,
    string1_operands: Seq<Operand>,
    string2_operands: Option<Seq<Operand>>,
    input: Seq<char>,
    c: char,
)
    requires
        args.delete,
    ensures
        tr::transformed(args, string1_operands, string2_operands, input) matches Ok(output)
            && (output.contains(c) <==> input.contains(c) && Operand::listed(string1_operands, c)
            == args.complements()),
{
    let kept = tr::retained(input, string1_operands, args.complements());
    law_retained_members(input, string1_operands, args.complements(), c);
    law_squeezing_spares_the_rest(kept, tr::last_set(string1_operands, string2_operands), c);
}

/// In the output of a run that squeezes, no character of the last set that is
/// given stands next to itself.
pub proof fn law_squeeze_run(
    args: Args,
    string1_operands: Seq<Operand>,
    string2_operands: Option<Seq<Operand>>,
    input: Seq<char>,
    i: int,
)
    requires
        args.squeeze_repeats,
    ensures
        tr::transformed(args, string1_operands, string2_operands, input) matches Ok(output) ==> (
        0 < i < output.len() && output[i - 1] == output[i] ==> !Operand::listed(
            tr::last_set(string1_operands, string2_operands),
            output[i],
        )),
{
    let set = tr::last_set(string1_operands, string2_operands);
    let outcome = if args.delete {
        Ok(tr::retained(input, string1_operands, args.complements()))
    } else if string2_operands is None {
        Ok(input)
    } else {
        tr::replaced(args, string1_operands, string2_operands, input)
    };
    if outcome is Ok {
        let output = squeeze::squeezed(outcome->Ok_0, set);
        if 0 < i < output.len() && Operand::listed(set, output[i]) {
            law_squeezed_has_no_runs(outcome->Ok_0, set, i);
        }
    }
}

/// A run that only replaces gives one character for each character of the input.
/// Of these, it changes none that is outside the set to be replaced.
pub proof fn law_replace_run(
    args: Args,
    string1_operands: Seq<Operand>,
    string2_operands: Option<Seq<Operand>>,
    input: Seq<char>,
    i: int,
)
    requires
        !args.delete,
        !args.squeeze_repeats,
        Operand::all_well_formed(string1_operands),
        0 <= i < input.len(),
    ensures
        tr::transformed(args, string1_operands, string2_operands, input) matches Ok(output) ==> {
            &&& output.len() == input.len()
            &&& Operand::listed(string1_operands, input[i]) == args.complements() ==> output[i]
                == input[i]
        },
{
    if string2_operands is Some && !args.complements() {
        law_translated_where_listed(string1_operands, string2_operands->0, input[i]);
    }
}

/// Without options, and with sets of plain text, each character of the first
/// string becomes the one in the same place of the second. A second string that is
/// too short is filled up with its last character.
pub proof fn law_plain_translate_run(args: Args, string2: Seq<char>, input: Seq<char>)
    requires
        !args.delete,
        !args.squeeze_repeats,
        !args.complements(),
        args.string2 matches Some(text) && text@ == string2,
        is_plain(args.string1@),
        is_plain(string2),
        args.string1@.len() <= usize::MAX,
        0 < string2.len() <= usize::MAX,
    ensures
        ({
            let string1 = args.string1@;
            let set1 = Operand::literals(string1);
            let set2 = Operand::literals(string2);
            let to = if string1.len() <= string2.len() {
                string2
            } else {
                string2 + translate::repeated(
                    string2.last(),
                    (string1.len() - string2.len()) as nat,
                )
            };
            &&& tr::parsed_sets(args).sets == Ok::<
                (Seq<Operand>, Option<Seq<Operand>>),
                Seq<char>,
            >((set1, Some(set2)))
            &&& tr::transformed(args, set1, Some(set2), input) == Ok::<Seq<char>, Seq<char>>(
                translate::translated(translate::mapping(string1, to), input),
            )
        }),
{
    law_plain_text_is_literal(args.string1@);
    law_plain_text_is_literal(string2);
    law_plain_translation(args.string1@, string2);
}

/// With a set of plain text, deleting takes the characters of the text out of the
/// input, and leaves all others.
pub proof fn law_plain_delete_run(args: Args, input: Seq<char>)
    requires
        args.delete,
        !args.squeeze_repeats,
        !args.complements(),
        args.string2 is None,
        is_plain(args.string1@),
    ensures
        ({
            let set1 = Operand::literals(args.string1@);
            &&& tr::parsed_sets(args).sets == Ok::<
                (Seq<Operand>, Option<Seq<Operand>>),
                Seq<char>,
            >((set1, None))
            &&& tr::transformed(args, set1, None, input) == Ok::<Seq<char>, Seq<char>>(
                input.filter(|c: char| !args.string1@.contains(c)),
            )
        }),
{
    let set1 = Operand::literals(args.string1@);
    law_plain_text_is_literal(args.string1@);
    let unlisted = |c: char| Operand::listed(set1, c) == false;
    let absent = |c: char| !args.string1@.contains(c);
    assert forall|c: char| #[trigger] unlisted(c) == absent(c) by {
        law_literals_list_their_characters(args.string1@, c);
    }
    assert(unlisted =~= absent);
}

} // verus!
