//! What holds of the parts of a run, each told by how it goes together from smaller
//! cases.

use crate::class;
use crate::complement;
use crate::laws;
use crate::numeral;
use crate::operand;
use crate::operand::{CharRepetition, Operand};
use crate::sort;
use crate::squeeze;
use crate::text;
use crate::translate;
use crate::warning::Warning;
use vstd::prelude::*;

verus! {

// ---------------------------------------------------------------------------
// Sets
// ---------------------------------------------------------------------------
/// A set holds what its parts hold. A character stands for itself however often it
/// is repeated, and an equivalence class for the characters with the same
/// transliteration.
pub proof fn law_membership(
    a: Seq<Operand>,
    b: Seq<Operand>,
    member: char,
    char_repetition: CharRepetition,
    c: char,
)
    ensures
        !Operand::listed(Seq::empty(), c),
        Operand::listed(a + b, c) <==> Operand::listed(a, c) || Operand::listed(b, c),
        Operand::listed(seq![Operand::Char { char: member, char_repetition }], c) <==> c == member,
        Operand::listed(seq![Operand::Equiv { char: member }], c) <==> operand::deunicoded(c)
            == operand::deunicoded(member),
{
    if Operand::listed(a, c) {
        let i = choose|i: int| 0 <= i < a.len() && (#[trigger] a[i]).lists(c);
        assert((a + b)[i].lists(c));
    }
    if Operand::listed(b, c) {
        let i = choose|i: int| 0 <= i < b.len() && (#[trigger] b[i]).lists(c);
        assert((a + b)[a.len() + i].lists(c));
    }
    if Operand::listed(a + b, c) {
        let i = choose|i: int| 0 <= i < (a + b).len() && (#[trigger] (a + b)[i]).lists(c);
        if i < a.len() {
            assert(a[i].lists(c));
        } else {
            assert(b[i - a.len()].lists(c));
        }
    }
    let one = seq![Operand::Char { char: member, char_repetition }];
    assert(one[0].lists(c) <==> c == member);
    let equiv = seq![Operand::Equiv { char: member }];
    assert(equiv[0].lists(c) <==> operand::deunicoded(c) == operand::deunicoded(member));
}

/// The sets that are made of given characters, element by element.
pub proof fn law_elements(chars: Seq<char>, i: int)
    requires
        0 <= i < chars.len(),
    ensures
        Operand::literals(chars).len() == chars.len(),
        Operand::literals(chars)[i] == (Operand::Char {
            char: chars[i],
            char_repetition: CharRepetition::N(1),
        }),
        Operand::equivalents(chars).len() == chars.len(),
        Operand::equivalents(chars)[i] == (Operand::Equiv { char: chars[i] }),
{
}

/// The character of an element is the one that it is written with, and only a
/// count of zero makes an element that is not well formed.
pub proof fn law_element_characters(c: char, char_repetition: CharRepetition)
    ensures
        (Operand::Char { char: c, char_repetition }).spec_char() == c,
        (Operand::Equiv { char: c }).spec_char() == c,
        (Operand::Char { char: c, char_repetition }).well_formed() <==> char_repetition
            != CharRepetition::N(0),
        (Operand::Equiv { char: c }).well_formed(),
{
}

/// A transliteration that is there is seen with all its characters. The characters
/// that stand for themselves are those from the space to the tilde. A set is made of
/// these, or is well formed, where all its elements are.
pub proof fn law_transliterations(transliteration: &str, c: char, operands: Seq<Operand>)
    ensures
        operand::text_of(Some(transliteration)) == Some(transliteration@),
        operand::text_of(None) is None,
        operand::is_visible_ascii(c) <==> 0x20 <= c as int <= 0x7e,
        Operand::all_visible_ascii(operands) <==> (forall|i: int|
            0 <= i < operands.len() ==> 0x20 <= (#[trigger] operands[i]).spec_char() as int
                <= 0x7e),
        Operand::all_well_formed(operands) <==> (forall|i: int|
            0 <= i < operands.len() ==> (#[trigger] operands[i]).well_formed()),
{
}

/// A class name that exists is one of twelve. The members of a class are in
/// ascending order, but for those of `space` and `blank`.
pub proof fn law_class_order(name: Seq<char>, i: int, j: int)
    ensures
        class::class_chars(name) is Some <==> (name == "alnum"@ || name == "alpha"@ || name
            == "digit"@ || name == "lower"@ || name == "upper"@ || name == "space"@ || name
            == "blank"@ || name == "cntrl"@ || name == "graph"@ || name == "print"@ || name
            == "punct"@ || name == "xdigit"@),
        class::class_chars("space"@) == Some(seq![' ', '\t', '\n', '\r', '\x0b', '\x0c']),
        class::class_chars("blank"@) == Some(seq![' ', '\t']),
        class::class_chars(name) matches Some(chars) ==> (name != "space"@ && name != "blank"@
            && 0 <= i < j < chars.len() ==> chars[i] < chars[j]),
{
    laws::lemma_class_names();
}

// ---------------------------------------------------------------------------
// Numbers and printable characters
// ---------------------------------------------------------------------------
/// One more digit makes a number `radix` times as great, plus the digit, as long as
/// it fits. Nothing but digits makes a number, after at most one plus sign.
pub proof fn law_numerals(numeral: Seq<char>, digit: char, radix: nat)
    requires
        2 <= radix <= 10,
    ensures
        numeral::numeral_value(Seq::empty(), radix) is None,
        numeral::numeral_value(seq!['+'], radix) is None,
        '0' <= digit && (digit as int) < '0' as int + radix ==> {
            &&& numeral::numeral_value(seq![digit], radix) == Some((digit as int - '0' as int) as nat)
            &&& numeral::numeral_value(seq!['+', digit], radix) == Some(
                (digit as int - '0' as int) as nat,
            )
            &&& numeral::numeral_value(numeral, radix) matches Some(n) ==> numeral::numeral_value(
                numeral.push(digit),
                radix,
            ) == (if n * radix + (digit as int - '0' as int) <= usize::MAX {
                Some((n * radix + (digit as int - '0' as int)) as nat)
            } else {
                None
            })
        },
        !('0' <= digit && (digit as int) < '0' as int + radix) && !(numeral.len() == 0 && digit
            == '+') ==> numeral::numeral_value(numeral.push(digit), radix) is None,
        numeral.len() > 0 && numeral != seq!['+'] && numeral::numeral_value(numeral, radix) is None
            ==> numeral::numeral_value(numeral.push(digit), radix) is None,
{
    let longer = numeral.push(digit);
    reveal_with_fuel(numeral::digits_value, 2);
    assert(seq!['+'].drop_first() =~= Seq::<char>::empty());
    assert(seq!['+', digit].drop_first() =~= seq![digit]);
    assert(seq![digit].drop_last() =~= Seq::<char>::empty());
    assert(seq![digit][0] == digit);
    let digits = numeral::unsigned_part(numeral);
    let more = numeral::unsigned_part(longer);
    if numeral.len() > 0 {
        assert(more =~= digits.push(digit));
    } else {
        assert(longer =~= seq![digit]);
    }
    if numeral.len() > 0 {
        assert(more.drop_last() =~= digits);
        assert(more[more.len() - 1] == digit);
        assert forall|i: int| 0 <= i < digits.len() implies digits[i] == more[i] by {}
        if numeral::all_digits(digits, radix) && numeral::is_digit(digit, radix) {
            assert forall|i: int| 0 <= i < more.len() implies numeral::is_digit(
                #[trigger] more[i],
                radix,
            ) by {
                if i < digits.len() {
                    assert(numeral::is_digit(digits[i], radix));
                }
            }
        }
        if numeral::all_digits(more, radix) && digits.len() > 0 {
            assert forall|i: int| 0 <= i < digits.len() implies numeral::is_digit(
                #[trigger] digits[i],
                radix,
            ) by {
                assert(numeral::is_digit(more[i], radix));
            }
            let high = numeral::digits_value(digits, radix);
            assert(high * radix >= high) by (nonlinear_arith)
                requires
                    radix >= 2,
                    high >= 0,
            ;
        }
        if digits.len() == 0 {
            assert(numeral =~= seq!['+']);
        }
    }
}

/// The value of a hexadecimal digit, if it is one.
pub open spec fn hex_digit_value(c: char) -> Option<nat> {
    if '0' <= c <= '9' {
        Some((c as int - '0' as int) as nat)
    } else if 'a' <= c <= 'f' {
        Some((c as int - 'a' as int + 10) as nat)
    } else {
        None
    }
}

/// The number that hexadecimal digits stand for, if they are that.
pub open spec fn hex_value(digits: Seq<char>) -> Option<nat>
    decreases digits.len(),
{
    if digits.len() == 0 {
        Some(0)
    } else {
        match (hex_value(digits.drop_last()), hex_digit_value(digits.last())) {
            (Some(high), Some(low)) => Some(16 * high + low),
            _ => None,
        }
    }
}

/// The hexadecimal digits of a number stand for it, without a zero too many.
pub proof fn law_hex(value: nat)
    ensures
        hex_value(text::hex(value)) == Some(value),
        text::hex(value).len() > 0,
        value > 0 ==> text::hex(value)[0] != '0',
        text::hex(0) == seq!['0'],
    decreases value,
{
    reveal_with_fuel(hex_value, 2);
    assert(seq!['0'].drop_last() =~= Seq::<char>::empty());
    if value < 16 {
        assert(text::hex(value).drop_last() =~= Seq::<char>::empty());
    } else {
        law_hex(value / 16);
        let high = text::hex(value / 16);
        assert(text::hex(value).drop_last() =~= high);
        assert(text::hex(value)[0] == high[0]);
    }
}

/// The printable form of a character: visible ASCII characters and the space stand
/// for themselves, quotes and backslashes behind a backslash, three control
/// characters by a letter, and all others by their number.
pub proof fn law_printable_form(c: char)
    ensures
        ' ' <= c <= '~' && c != '\'' && c != '"' && c != '\\' ==> text::escaped(c) == seq![c],
        c == '\'' || c == '"' || c == '\\' ==> text::escaped(c) == seq!['\\', c],
        text::escaped('\t') == seq!['\\', 't'],
        text::escaped('\r') == seq!['\\', 'r'],
        text::escaped('\n') == seq!['\\', 'n'],
        !(' ' <= c <= '~') && c != '\t' && c != '\r' && c != '\n' ==> {
            let digits = text::escaped(c).subrange(3, text::escaped(c).len() - 1);
            &&& text::escaped(c) == seq!['\\', 'u', '{'] + digits + seq!['}']
            &&& hex_value(digits) == Some(c as nat)
            &&& digits.len() > 0
            &&& c != '\0' ==> digits[0] != '0'
            &&& c == '\0' ==> digits == seq!['0']
        },
{
    if !(' ' <= c && c <= '~') && c != '\t' && c != '\r' && c != '\n' {
        law_hex(c as nat);
        let form = text::escaped(c);
        assert(form.subrange(3, form.len() - 1) =~= text::hex(c as nat));
    }
}

/// The wording of the remarks.
pub proof fn law_remarks(first: char, second: char, third: char)
    ensures
        (Warning::AmbiguousOctalEscape { first, second, third }).spec_message()
            == "tr: warning: the ambiguous octal escape \\"@ + seq![first, second, third]
            + " is being interpreted as the 2-byte sequence \\0"@ + seq![first, second] + ", "@
            + seq![third],
        Warning::TrailingBackslash.spec_message()
            == "tr: warning: an unescaped backslash at end of string is not portable"@,
{
}

// ---------------------------------------------------------------------------
// Order
// ---------------------------------------------------------------------------
/// A set in the order of its characters is ascending. For each character, it has
/// the elements of the set that are written with that character, in their order.
pub proof fn law_char_order(operands: Seq<Operand>, c: char, i: int, j: int)
    ensures
        0 <= i < j < sort::in_char_order(operands).len() ==> sort::in_char_order(
            operands,
        )[i].spec_char() <= sort::in_char_order(operands)[j].spec_char(),
        sort::in_char_order(operands).filter(|o: Operand| o.spec_char() == c) == operands.filter(
            |o: Operand| o.spec_char() == c,
        ),
{
    sort::lemma_in_char_order(operands);
    let sorted = sort::in_char_order(operands);
    assert(sort::with_char(sorted, c) == sort::with_char(operands, c));
}

// ---------------------------------------------------------------------------
// Squeezing
// ---------------------------------------------------------------------------
/// Two texts are squeezed each for itself. Only where the second goes on with the
/// character of the set that the first ends with, one of the two is left out.
pub proof fn law_squeezing_concatenates(a: Seq<char>, b: Seq<char>, c: char, operands: Seq<Operand>)
    ensures
        squeeze::squeezed(Seq::empty(), operands) == Seq::<char>::empty(),
        squeeze::squeezed(seq![c], operands) == seq![c],
        a.len() > 0 && b.len() > 0 ==> squeeze::squeezed(a + b, operands) == squeeze::squeezed(
            a,
            operands,
        ) + (if a.last() == b[0] && Operand::listed(operands, b[0]) {
            squeeze::squeezed(b, operands).drop_first()
        } else {
            squeeze::squeezed(b, operands)
        }),
    decreases b.len(),
{
    reveal_with_fuel(squeeze::squeezed, 2);
    assert(seq![c].drop_last() =~= Seq::<char>::empty());
    if a.len() > 0 && b.len() > 0 {
        let init = b.drop_last();
        assert((a + b).drop_last() =~= a + init);
        assert((a + b).last() == b.last());
        if init.len() == 0 {
            assert(a + init =~= a);
            assert(init =~= Seq::<char>::empty());
            assert((a + b)[a.len() - 1] == a.last());
            assert(squeeze::squeezed(b, operands) =~= seq![b[0]]);
            assert(squeeze::squeezed(b, operands).drop_first() =~= Seq::<char>::empty());
            assert(squeeze::squeezed(a, operands) + Seq::<char>::empty() =~= squeeze::squeezed(
                a,
                operands,
            ));
            assert(squeeze::squeezed(a, operands).push(b[0]) =~= squeeze::squeezed(a, operands)
                + seq![b[0]]);
        } else {
            law_squeezing_concatenates(a, init, c, operands);
            lemma_squeezed_nonempty(init, operands);
            assert((a + b)[a.len() + b.len() - 2] == b[b.len() - 2]);
            assert(init[0] == b[0]);
            let left = squeeze::squeezed(a, operands);
            let right = squeeze::squeezed(init, operands);
            let d = b.last();
            assert(left + right.push(d) =~= (left + right).push(d));
            assert(right.push(d).drop_first() =~= right.drop_first().push(d));
            assert(left + right.drop_first().push(d) =~= (left + right.drop_first()).push(d));
        }
    }
}

proof fn lemma_squeezed_nonempty(chars: Seq<char>, operands: Seq<Operand>)
    requires
        chars.len() > 0,
    ensures
        squeeze::squeezed(chars, operands).len() > 0,
    decreases chars.len(),
{
    if squeeze::continues_run(chars, operands) {
        lemma_squeezed_nonempty(chars.drop_last(), operands);
    }
}

/// Occurrences add up, and a character that occurs is counted.
pub proof fn law_counting(a: Seq<char>, b: Seq<char>, c: char, d: char)
    requires
        a.len() <= usize::MAX,
    ensures
        squeeze::times(Seq::empty(), c) == 0,
        squeeze::times(seq![d], c) == (if c == d {
            1nat
        } else {
            0nat
        }),
        squeeze::times(a + b, c) == squeeze::times(a, c) + squeeze::times(b, c),
        squeeze::counts(a).contains_key(c) <==> a.contains(c),
        a.contains(c) ==> squeeze::counts(a)[c] == squeeze::times(a, c),
    decreases b.len(),
{
    reveal_with_fuel(squeeze::times, 2);
    lemma_times_bound(a, c);
    assert(seq![d].drop_last() =~= Seq::<char>::empty());
    if b.len() > 0 {
        law_counting(a, b.drop_last(), c, d);
        assert((a + b).drop_last() =~= a + b.drop_last());
        assert((a + b).last() == b.last());
    } else {
        assert(a + b =~= a);
    }
}

proof fn lemma_times_bound(chars: Seq<char>, c: char)
    ensures
        squeeze::times(chars, c) <= chars.len(),
    decreases chars.len(),
{
    if chars.len() > 0 {
        lemma_times_bound(chars.drop_last(), c);
    }
}

// ---------------------------------------------------------------------------
// Translating
// ---------------------------------------------------------------------------
/// A set stands for the characters of its parts, one after the other: a counted
/// character as often as it is counted, and a `[c*]` construct as often as needed.
pub proof fn law_flattening(
    a: Seq<Operand>,
    b: Seq<Operand>,
    c: char,
    n: usize,
    fill: nat,
    i: int,
)
    ensures
        translate::flattened(Seq::empty(), fill) == Seq::<char>::empty(),
        translate::flattened(a + b, fill) == translate::flattened(a, fill) + translate::flattened(
            b,
            fill,
        ),
        ({
            let counted = translate::flattened(
                seq![Operand::Char { char: c, char_repetition: CharRepetition::N(n) }],
                fill,
            );
            &&& counted.len() == n
            &&& 0 <= i < n ==> counted[i] == c
        }),
        ({
            let filling = translate::flattened(
                seq![Operand::Char { char: c, char_repetition: CharRepetition::AsManyAsNeeded }],
                fill,
            );
            &&& filling.len() == fill
            &&& 0 <= i < fill ==> filling[i] == c
        }),
        translate::flattened(seq![Operand::Equiv { char: c }], fill) == Seq::<char>::empty(),
    decreases b.len(),
{
    reveal_with_fuel(translate::flattened, 2);
    assert(seq![Operand::Char { char: c, char_repetition: CharRepetition::N(n) }].drop_last()
        =~= Seq::<Operand>::empty());
    assert(seq![
        Operand::Char { char: c, char_repetition: CharRepetition::AsManyAsNeeded },
    ].drop_last() =~= Seq::<Operand>::empty());
    assert(seq![Operand::Equiv { char: c }].drop_last() =~= Seq::<Operand>::empty());
    if b.len() > 0 {
        law_flattening(a, b.drop_last(), c, n, fill, i);
        assert((a + b).drop_last() =~= a + b.drop_last());
        assert((a + b).last() == b.last());
        assert(translate::flattened(a + b, fill) =~= translate::flattened(a, fill)
            + translate::flattened(b, fill));
    } else {
        assert(a + b =~= a);
        assert(translate::flattened(a, fill) + Seq::<char>::empty() =~= translate::flattened(
            a,
            fill,
        ));
    }
}

/// A character becomes the one that it is mapped to, whatever that one would become,
/// and stays where it is not mapped.
pub proof fn law_mapped_once(map: Map<char, char>, input: Seq<char>, i: int)
    requires
        0 <= i < input.len(),
    ensures
        translate::translated(map, input).len() == input.len(),
        map.contains_key(input[i]) ==> translate::translated(map, input)[i] == map[input[i]],
        !map.contains_key(input[i]) ==> translate::translated(map, input)[i] == input[i],
{
}

/// An element that is there a given number of times.
pub open spec fn is_counted(operand: Operand) -> bool {
    operand matches Operand::Char { char_repetition: CharRepetition::N(_), .. }
}

/// An element that is there as many times as needed.
pub open spec fn is_filling(operand: Operand) -> bool {
    operand matches Operand::Char { char_repetition: CharRepetition::AsManyAsNeeded, .. }
}

/// A first set that can be translated: counted characters, and no more of them than
/// a number holds.
pub open spec fn translatable(operands: Seq<Operand>) -> bool {
    &&& forall|i: int| 0 <= i < operands.len() ==> is_counted(#[trigger] operands[i])
    &&& translate::flattened(operands, 0).len() <= usize::MAX
}

/// A second set that can be translated to: counted characters, no more of them than
/// a number holds, and at most one `[c*]` construct.
pub open spec fn targetable(operands: Seq<Operand>) -> bool {
    &&& forall|i: int|
        0 <= i < operands.len() ==> is_counted(#[trigger] operands[i]) || is_filling(operands[i])
    &&& forall|i: int, j: int|
        0 <= i < j < operands.len() ==> !(is_filling(#[trigger] operands[i]) && is_filling(
            #[trigger] operands[j],
        ))
    &&& translate::flattened(operands, 0).len() <= usize::MAX
}

/// The start of a set is no longer than the set.
proof fn lemma_flattened_grows(operands: Seq<Operand>)
    requires
        operands.len() > 0,
    ensures
        translate::flattened(operands.drop_last(), 0).len() <= translate::flattened(
            operands,
            0,
        ).len(),
{
}

pub proof fn lemma_translatable(operands: Seq<Operand>)
    requires
        translatable(operands),
    ensures
        translate::string1_error(operands) is None,
    decreases operands.len(),
{
    if operands.len() > 0 {
        lemma_flattened_grows(operands);
        assert(is_counted(operands[operands.len() - 1]));
        assert forall|i: int| 0 <= i < operands.drop_last().len() implies is_counted(
            #[trigger] operands.drop_last()[i],
        ) by {
            assert(is_counted(operands[i]));
        }
        lemma_translatable(operands.drop_last());
    }
}

pub proof fn lemma_targetable(operands: Seq<Operand>)
    requires
        targetable(operands),
    ensures
        translate::string2_error(operands) is None,
    decreases operands.len(),
{
    if operands.len() > 0 {
        let init = operands.drop_last();
        lemma_flattened_grows(operands);
        let last = operands[operands.len() - 1];
        assert(is_counted(last) || is_filling(last));
        assert forall|i: int| 0 <= i < init.len() implies is_counted(#[trigger] init[i])
            || is_filling(init[i]) by {
            assert(is_counted(operands[i]) || is_filling(operands[i]));
        }
        assert forall|i: int, j: int| 0 <= i < j < init.len() implies !(is_filling(
            #[trigger] init[i],
        ) && is_filling(#[trigger] init[j])) by {
            assert(!(is_filling(operands[i]) && is_filling(operands[j])));
        }
        lemma_targetable(init);
        if translate::is_fill(last) && translate::has_fill(init) {
            let i = choose|i: int| 0 <= i < init.len() && translate::is_fill(#[trigger] init[i]);
            assert(is_filling(operands[i]));
            assert(is_filling(operands[operands.len() - 1]));
        }
    }
}

/// Where both sets can be translated, a character of the first set becomes the one
/// in the place of the second set where it stands last in the first. A second set
/// that is too short is filled up by its `[c*]` construct, or else goes on with its
/// last character.
pub proof fn law_translation_map(
    string1_operands: Seq<Operand>,
    string2_operands: Seq<Operand>,
    c: char,
    place: int,
)
    requires
        translatable(string1_operands),
        targetable(string2_operands),
        string2_operands.len() > 0,
    ensures
        ({
            let from = translate::flattened(string1_operands, 0);
            let given = translate::flattened(string2_operands, 0);
            &&& translate::transformation(string1_operands, string2_operands) matches Ok(map)
            &&& map.contains_key(c) <==> from.contains(c)
            &&& 0 <= place < from.len() && from[place] == c && (forall|q: int|
                place < q < from.len() ==> from[q] != c) ==> {
                &&& given.len() >= from.len() ==> map[c] == given[place]
                &&& given.len() < from.len() && (exists|k: int|
                    0 <= k < string2_operands.len() && is_filling(#[trigger] string2_operands[k]))
                    ==> {
                    let filled = translate::flattened(
                        string2_operands,
                        (from.len() - given.len()) as nat,
                    );
                    filled.len() == from.len() && map[c] == filled[place]
                }
                &&& given.len() < from.len() && !(exists|k: int|
                    0 <= k < string2_operands.len() && is_filling(#[trigger] string2_operands[k]))
                    ==> map[c] == (if place < given.len() {
                    given[place]
                } else {
                    string2_operands.last().spec_char()
                })
            }
        }),
{
    let from = translate::flattened(string1_operands, 0);
    let given = translate::flattened(string2_operands, 0);
    lemma_translatable(string1_operands);
    lemma_targetable(string2_operands);
    let to = translate::filled(string2_operands, from.len());
    if 0 <= place < from.len() && from[place] == c && (forall|q: int|
        place < q < from.len() ==> from[q] != c) {
        laws::law_last_place_counts(from, to, place);
    }
    if given.len() < from.len() {
        translate::lemma_fill_length(string2_operands, (from.len() - given.len()) as nat);
    }
    if translate::has_fill(string2_operands) {
        let k = choose|k: int|
            0 <= k < string2_operands.len() && translate::is_fill(#[trigger] string2_operands[k]);
        assert(is_filling(string2_operands[k]));
    }
    if exists|k: int| 0 <= k < string2_operands.len() && is_filling(#[trigger] string2_operands[k]) {
        let k = choose|k: int|
            0 <= k < string2_operands.len() && is_filling(#[trigger] string2_operands[k]);
        assert(translate::is_fill(string2_operands[k]));
    }
}

/// The first element of the first set that cannot be translated decides on the
/// error. If there is none, the first such element of the second set does.
pub proof fn law_translation_errors(
    string1_operands: Seq<Operand>,
    string2_operands: Seq<Operand>,
    j: int,
)
    ensures
        0 <= j < string1_operands.len() && translatable(string1_operands.take(j)) ==> {
            let outcome = translate::transformation(string1_operands, string2_operands);
            &&& is_filling(string1_operands[j]) ==> outcome == Err::<Map<char, char>, Seq<char>>(
                "tr: the [c*] repeat construct may not appear in string1"@,
            )
            &&& string1_operands[j] is Equiv ==> outcome == Err::<Map<char, char>, Seq<char>>(
                "Expectation violated"@,
            )
            &&& is_counted(string1_operands[j]) && translate::flattened(
                string1_operands.take(j + 1),
                0,
            ).len() > usize::MAX ==> outcome == Err::<Map<char, char>, Seq<char>>(
                "Arithmetic overflow"@,
            )
        },
        translatable(string1_operands) && 0 <= j < string2_operands.len() && targetable(
            string2_operands.take(j),
        ) ==> {
            let outcome = translate::transformation(string1_operands, string2_operands);
            &&& is_filling(string2_operands[j]) && (exists|k: int|
                0 <= k < j && is_filling(#[trigger] string2_operands[k])) ==> outcome == Err::<
                Map<char, char>,
                Seq<char>,
            >("tr: only one [c*] repeat construct may appear in string2"@)
            &&& string2_operands[j] is Equiv ==> outcome == Err::<Map<char, char>, Seq<char>>(
                "Expectation violated"@,
            )
            &&& is_counted(string2_operands[j]) && translate::flattened(
                string2_operands.take(j + 1),
                0,
            ).len() > usize::MAX ==> outcome == Err::<Map<char, char>, Seq<char>>(
                "Arithmetic overflow"@,
            )
        },
        translatable(string1_operands) && string2_operands.len() == 0 && translate::flattened(
            string1_operands,
            0,
        ).len() > 0 ==> translate::transformation(string1_operands, string2_operands) == Err::<
            Map<char, char>,
            Seq<char>,
        >("Unexpected empty collection"@),
{
    if 0 <= j < string1_operands.len() && translatable(string1_operands.take(j)) {
        let seen = string1_operands.take(j + 1);
        lemma_translatable(string1_operands.take(j));
        assert(seen.drop_last() =~= string1_operands.take(j));
        assert(seen.last() == string1_operands[j]);
        if translate::string1_error(seen) is Some {
            translate::lemma_string1_error_stays(string1_operands, j + 1);
        }
    }
    if translatable(string1_operands) {
        lemma_translatable(string1_operands);
    }
    if 0 <= j < string2_operands.len() && targetable(string2_operands.take(j)) {
        let init = string2_operands.take(j);
        let seen = string2_operands.take(j + 1);
        lemma_targetable(init);
        assert(seen.drop_last() =~= init);
        assert(seen.last() == string2_operands[j]);
        if exists|k: int| 0 <= k < j && is_filling(#[trigger] string2_operands[k]) {
            let k = choose|k: int| 0 <= k < j && is_filling(#[trigger] string2_operands[k]);
            assert(translate::is_fill(init[k]));
        }
        if translate::string2_error(seen) is Some {
            translate::lemma_string2_error_stays(string2_operands, j + 1);
        }
    }
}

// ---------------------------------------------------------------------------
// Replacing the complement
// ---------------------------------------------------------------------------
/// The characters of the elements of a set, one after the other, each as often as
/// it is counted. An equivalence class gives the character that it is written with.
pub open spec fn spelled_out(operands: Seq<Operand>) -> Seq<char>
    decreases operands.len(),
{
    if operands.len() == 0 {
        Seq::empty()
    } else {
        spelled_out(operands.drop_last()) + match operands.last() {
            Operand::Char { char, char_repetition: CharRepetition::N(n) } => Seq::new(
                n as nat,
                |i: int| char,
            ),
            Operand::Char { char_repetition: CharRepetition::AsManyAsNeeded, .. } => Seq::empty(),
            Operand::Equiv { char } => seq![char],
        }
    }
}

proof fn lemma_spelled_out_front(operands: Seq<Operand>)
    requires
        operands.len() > 0,
    ensures
        spelled_out(operands) == spelled_out(seq![operands[0]]) + spelled_out(
            operands.drop_first(),
        ),
    decreases operands.len(),
{
    let first = seq![operands[0]];
    let tail = operands.drop_first();
    if operands.len() == 1 {
        assert(operands =~= first);
        assert(tail =~= Seq::<Operand>::empty());
        assert(spelled_out(first) + spelled_out(tail) =~= spelled_out(first));
    } else {
        lemma_spelled_out_front(operands.drop_last());
        assert(operands.drop_last().drop_first() =~= tail.drop_last());
        assert(tail.last() == operands.last());
        assert(spelled_out(operands) =~= spelled_out(first) + spelled_out(tail));
    }
}

proof fn lemma_spelled_out_one(operand: Operand, i: int)
    ensures
        complement::uses(operand) matches Some(n) ==> spelled_out(seq![operand]).len() == n,
        0 <= i < spelled_out(seq![operand]).len() ==> spelled_out(seq![operand])[i]
            == operand.spec_char(),
{
    reveal_with_fuel(spelled_out, 2);
    assert(seq![operand].drop_last() =~= Seq::<Operand>::empty());
    assert(seq![operand].last() == operand);
}

proof fn lemma_period_spelled_out(operands: Seq<Operand>)
    requires
        forall|i: int| 0 <= i < operands.len() ==> !is_filling(#[trigger] operands[i]),
    ensures
        complement::period(operands) == Some(spelled_out(operands).len()),
    decreases operands.len(),
{
    if operands.len() > 0 {
        let init = operands.drop_last();
        assert forall|i: int| 0 <= i < init.len() implies !is_filling(#[trigger] init[i]) by {
            assert(!is_filling(operands[i]));
        }
        assert(!is_filling(operands[operands.len() - 1]));
        lemma_period_spelled_out(init);
    }
}

proof fn lemma_nth_spelled_out(operands: Seq<Operand>, k: nat)
    requires
        forall|i: int| 0 <= i < operands.len() ==> !is_filling(#[trigger] operands[i]),
        k < spelled_out(operands).len(),
    ensures
        complement::nth_replacement(operands, k) == spelled_out(operands)[k as int],
    decreases operands.len(),
{
    if operands.len() > 0 {
        let tail = operands.drop_first();
        lemma_spelled_out_front(operands);
        assert(!is_filling(operands[0]));
        let n = complement::uses(operands[0])->0;
        lemma_spelled_out_one(operands[0], k as int);
        if k >= n {
            assert forall|i: int| 0 <= i < tail.len() implies !is_filling(#[trigger] tail[i]) by {
                assert(!is_filling(operands[i + 1]));
            }
            assert(spelled_out(tail).len() > 0);
            lemma_nth_spelled_out(tail, (k - n) as nat);
        }
    }
}

proof fn lemma_nth_before_filling(operands: Seq<Operand>, j: int, k: nat)
    requires
        0 <= j < operands.len(),
        is_filling(operands[j]),
        forall|i: int| 0 <= i < j ==> !is_filling(#[trigger] operands[i]),
    ensures
        complement::nth_replacement(operands, k) == (if k < spelled_out(operands.take(j)).len() {
            spelled_out(operands.take(j))[k as int]
        } else {
            operands[j].spec_char()
        }),
        complement::period(operands) is None,
    decreases j,
{
    let before = operands.take(j);
    if j == 0 {
        assert(before =~= Seq::<Operand>::empty());
    } else {
        let tail = operands.drop_first();
        assert(before[0] == operands[0]);
        assert(before.drop_first() =~= tail.take(j - 1));
        lemma_spelled_out_front(before);
        assert(!is_filling(operands[0]));
        lemma_spelled_out_one(operands[0], k as int);
        let n = complement::uses(operands[0])->0;
        assert forall|i: int| 0 <= i < j - 1 implies !is_filling(#[trigger] tail[i]) by {
            assert(!is_filling(operands[i + 1]));
        }
        if k >= n {
            lemma_nth_before_filling(tail, j - 1, (k - n) as nat);
        }
    }
    let seen = operands.take(j + 1);
    assert(seen.last() == operands[j]);
    complement::lemma_period_endless(operands, j + 1);
}

/// The replacements of a set are its characters one after the other, and from the
/// start again when all have been used. A `[c*]` construct never is.
pub proof fn law_replacements_in_order(operands: Seq<Operand>, k: nat, j: int)
    ensures
        (forall|i: int| 0 <= i < operands.len() ==> !is_filling(#[trigger] operands[i]))
            && spelled_out(operands).len() > 0 ==> complement::replacement(operands, k)
            == spelled_out(operands)[(k % spelled_out(operands).len()) as int],
        0 <= j < operands.len() && is_filling(operands[j]) && (forall|i: int|
            0 <= i < j ==> !is_filling(#[trigger] operands[i])) ==> complement::replacement(
            operands,
            k,
        ) == (if k < spelled_out(operands.take(j)).len() {
            spelled_out(operands.take(j))[k as int]
        } else {
            operands[j].spec_char()
        }),
{
    if (forall|i: int| 0 <= i < operands.len() ==> !is_filling(#[trigger] operands[i]))
        && spelled_out(operands).len() > 0 {
        let p = spelled_out(operands).len();
        lemma_period_spelled_out(operands);
        assert(0 <= k % p < p) by (nonlinear_arith)
            requires
                p > 0,
        ;
        lemma_nth_spelled_out(operands, k % p);
    }
    if 0 <= j < operands.len() && is_filling(operands[j]) && (forall|i: int|
        0 <= i < j ==> !is_filling(#[trigger] operands[i])) {
        lemma_nth_before_filling(operands, j, k);
    }
}

/// A character that is in the first set stays. One that is not becomes the next
/// replacement, after as many as there are such characters before it. Without
/// replacements, there must be no such character.
pub proof fn law_complement_places(
    input: Seq<char>,
    chars1: Seq<Operand>,
    chars2: Seq<Operand>,
    i: int,
)
    requires
        0 <= i < input.len(),
    ensures
        chars2.len() > 0 || (forall|j: int|
            0 <= j < input.len() ==> Operand::listed(chars1, #[trigger] input[j])) ==> {
            &&& complement::complement_outcome(input, chars1, chars2) matches Ok(output)
            &&& output.len() == input.len()
            &&& Operand::listed(chars1, input[i]) ==> output[i] == input[i]
            &&& !Operand::listed(chars1, input[i]) ==> output[i] == complement::replacement(
                chars2,
                input.take(i).filter(|c: char| !Operand::listed(chars1, c)).len(),
            )
        },
        chars2.len() == 0 && !Operand::listed(chars1, input[i]) ==> complement::complement_outcome(
            input,
            chars1,
            chars2,
        ) == Err::<Seq<char>, Seq<char>>("Indexing failed"@),
        complement::complement_outcome(Seq::empty(), chars1, chars2) == Ok::<
            Seq<char>,
            Seq<char>,
        >(Seq::empty()),
{
    lemma_unlisted(input, chars1);
    lemma_unlisted(Seq::empty(), chars1);
    assert(complement::complemented(Seq::empty(), chars1, chars2) =~= Seq::<char>::empty());
}

proof fn lemma_unlisted(input: Seq<char>, operands: Seq<Operand>)
    ensures
        complement::unlisted_count(operands, input) == 0 <==> (forall|j: int|
            0 <= j < input.len() ==> Operand::listed(operands, #[trigger] input[j])),
    decreases input.len(),
{
    reveal(Seq::filter);
    if input.len() > 0 {
        let init = input.drop_last();
        lemma_unlisted(init, operands);
        assert(input[input.len() - 1] == input.last());
        assert(forall|j: int| 0 <= j < init.len() ==> init[j] == input[j]);
        if forall|j: int| 0 <= j < input.len() ==> Operand::listed(operands, #[trigger] input[j]) {
            assert forall|j: int| 0 <= j < init.len() implies Operand::listed(
                operands,
                #[trigger] init[j],
            ) by {
                assert(Operand::listed(operands, input[j]));
            }
        }
        if complement::unlisted_count(operands, input) == 0 {
            assert forall|j: int| 0 <= j < input.len() implies Operand::listed(
                operands,
                #[trigger] input[j],
            ) by {
                if j < init.len() {
                    assert(Operand::listed(operands, init[j]));
                }
            }
        }
    }
}

/// Sets that are well formed never fall short of replacements, and nor does any set
/// where nothing is replaced.
pub proof fn law_well_formed_sets_suffice(operands: Seq<Operand>, count: nat)
    ensures
        Operand::all_well_formed(operands) ==> complement::suffices(operands, count),
        complement::suffices(operands, 0),
{
}

} // verus!
