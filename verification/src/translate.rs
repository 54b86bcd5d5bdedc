//! Translation: which character each character of the first set becomes.

use crate::char_map::CharMap;
use crate::operand::{CharRepetition, Operand};
use vstd::prelude::*;

verus! {

/// A character, `n` times.
pub open spec fn repeated(c: char, n: nat) -> Seq<char> {
    Seq::new(n, |i: int| c)
}

/// The characters that an element stands for, where as many as needed is `fill`.
/// An equivalence class stands for no fixed character.
pub open spec fn occurrences(operand: Operand, fill: nat) -> Seq<char> {
    match operand {
        Operand::Char { char, char_repetition: CharRepetition::N(n) } => repeated(char, n as nat),
        Operand::Char { char, char_repetition: CharRepetition::AsManyAsNeeded } => repeated(
            char,
            fill,
        ),
        Operand::Equiv { .. } => Seq::empty(),
    }
}

/// The characters that a set stands for, in order, where as many as needed is
/// `fill`.
pub open spec fn flattened(operands: Seq<Operand>, fill: nat) -> Seq<char>
    decreases operands.len(),
{
    if operands.len() == 0 {
        Seq::empty()
    } else {
        flattened(operands.drop_last(), fill) + occurrences(operands.last(), fill)
    }
}

/// Whether an element is a `[c*]` construct.
pub open spec fn is_fill(operand: Operand) -> bool {
    operand matches Operand::Char { char_repetition: CharRepetition::AsManyAsNeeded, .. }
}

/// Whether a set holds a `[c*]` construct.
pub open spec fn has_fill(operands: Seq<Operand>) -> bool {
    exists|i: int| 0 <= i < operands.len() && is_fill(#[trigger] operands[i])
}

/// Why a set cannot be the first of a translation. The first element that is out
/// of place counts.
pub open spec fn string1_error(operands: Seq<Operand>) -> Option<Seq<char>>
    decreases operands.len(),
{
    if operands.len() == 0 {
        None
    } else if string1_error(operands.drop_last()) is Some {
        string1_error(operands.drop_last())
    } else if is_fill(operands.last()) {
        Some("tr: the [c*] repeat construct may not appear in string1"@)
    } else if operands.last() is Equiv {
        Some("Expectation violated"@)
    } else if flattened(operands, 0).len() > usize::MAX {
        Some("Arithmetic overflow"@)
    } else {
        None
    }
}

/// Why a set cannot be the second of a translation. The first element that is out
/// of place counts.
pub open spec fn string2_error(operands: Seq<Operand>) -> Option<Seq<char>>
    decreases operands.len(),
{
    if operands.len() == 0 {
        None
    } else if string2_error(operands.drop_last()) is Some {
        string2_error(operands.drop_last())
    } else if is_fill(operands.last()) && has_fill(operands.drop_last()) {
        Some("tr: only one [c*] repeat construct may appear in string2"@)
    } else if operands.last() is Equiv {
        Some("Expectation violated"@)
    } else if flattened(operands, 0).len() > usize::MAX {
        Some("Arithmetic overflow"@)
    } else {
        None
    }
}

/// The characters of the second set, filled up to `wanted` characters: by its
/// `[c*]` construct where it has one, and else by its last character.
pub open spec fn filled(operands: Seq<Operand>, wanted: nat) -> Seq<char> {
    let given = flattened(operands, 0);
    if given.len() >= wanted {
        given
    } else if has_fill(operands) {
        flattened(operands, (wanted - given.len()) as nat)
    } else {
        given + repeated(operands.last().spec_char(), (wanted - given.len()) as nat)
    }
}

/// The last place where `c` stands in `chars`.
pub open spec fn last_position(chars: Seq<char>, c: char) -> int
    decreases chars.len(),
{
    if chars.len() == 0 {
        -1
    } else if chars.last() == c {
        chars.len() - 1
    } else {
        last_position(chars.drop_last(), c)
    }
}

/// Each character of `from`, mapped to the one in the same place of `to`. The last
/// place counts.
pub open spec fn mapping(from: Seq<char>, to: Seq<char>) -> Map<char, char> {
    Map::new(|c: char| from.contains(c), |c: char| to[last_position(from, c)])
}

/// The translation of the characters of the first set to those of the second.
pub open spec fn transformation(
    string1_operands: Seq<Operand>,
    string2_operands: Seq<Operand>,
) -> Result<Map<char, char>, Seq<char>> {
    let from = flattened(string1_operands, 0);
    if string1_error(string1_operands) is Some {
        Err(string1_error(string1_operands)->0)
    } else if string2_error(string2_operands) is Some {
        Err(string2_error(string2_operands)->0)
    } else if string2_operands.len() == 0 && from.len() > 0 {
        Err("Unexpected empty collection"@)
    } else {
        Ok(mapping(from, filled(string2_operands, from.len())))
    }
}

/// `input` with each character replaced by the one it is mapped to, if any.
pub open spec fn translated(map: Map<char, char>, input: Seq<char>) -> Seq<char> {
    Seq::new(
        input.len(),
        |i: int|
            if map.contains_key(input[i]) {
                map[input[i]]
            } else {
                input[i]
            },
    )
}

/// The error of the start of a set is the error of the set.
pub proof fn lemma_string1_error_stays(operands: Seq<Operand>, n: int)
    requires
        0 <= n <= operands.len(),
        string1_error(operands.take(n)) is Some,
    ensures
        string1_error(operands) == string1_error(operands.take(n)),
    decreases operands.len(),
{
    if n == operands.len() {
        assert(operands.take(n) == operands);
    } else {
        assert(operands.drop_last().take(n) == operands.take(n));
        lemma_string1_error_stays(operands.drop_last(), n);
    }
}

/// The error of the start of a set is the error of the set.
pub proof fn lemma_string2_error_stays(operands: Seq<Operand>, n: int)
    requires
        0 <= n <= operands.len(),
        string2_error(operands.take(n)) is Some,
    ensures
        string2_error(operands) == string2_error(operands.take(n)),
    decreases operands.len(),
{
    if n == operands.len() {
        assert(operands.take(n) == operands);
    } else {
        assert(operands.drop_last().take(n) == operands.take(n));
        lemma_string2_error_stays(operands.drop_last(), n);
    }
}

/// A `[c*]` construct makes the second set longer by what it stands for, and
/// without one nothing does.
pub proof fn lemma_fill_length(operands: Seq<Operand>, fill: nat)
    requires
        string2_error(operands) is None,
    ensures
        has_fill(operands) ==> flattened(operands, fill).len() == flattened(operands, 0).len()
            + fill,
        !has_fill(operands) ==> flattened(operands, fill) == flattened(operands, 0),
    decreases operands.len(),
{
    if operands.len() > 0 {
        let init = operands.drop_last();
        lemma_fill_length(init, fill);
        if is_fill(operands.last()) {
            assert(is_fill(operands[operands.len() - 1]));
            assert(has_fill(operands));
        } else if has_fill(init) {
            let i = choose|i: int| 0 <= i < init.len() && is_fill(#[trigger] init[i]);
            assert(is_fill(operands[i]));
        } else {
            assert forall|i: int| 0 <= i < operands.len() implies !is_fill(
                #[trigger] operands[i],
            ) by {
                if i < init.len() {
                    assert(!is_fill(init[i]));
                }
            }
        }
    }
}

/// Appends `n` times the character `c`.
fn push_repeated(chars: &mut Vec<char>, c: char, n: usize)
    ensures
        final(chars)@ == old(chars)@ + repeated(c, n as nat),
{
    let mut i: usize = 0;
    while i < n
        invariant
            i <= n,
            chars@ == old(chars)@ + repeated(c, i as nat),
        decreases n - i,
    {
        chars.push(c);
        i += 1;
        assert(repeated(c, i as nat) == repeated(c, (i - 1) as nat).push(c));
    }
}

/// The characters of the first set of a translation.
fn flatten_string1(operands: &[Operand]) -> (result: Result<Vec<char>, String>)
    ensures
        match string1_error(operands@) {
            None => result matches Ok(chars) && chars@ == flattened(operands@, 0),
            Some(message) => result matches Err(text) && text@ == message,
        },
{
    let mut char_repeating_total: usize = 0;
    let mut chars: Vec<char> = Vec::new();
    let mut i: usize = 0;
    while i < operands.len()
        invariant
            i <= operands@.len(),
            string1_error(operands@.take(i as int)) is None,
            chars@ == flattened(operands@.take(i as int), 0),
            char_repeating_total == chars@.len(),
        decreases operands@.len() - i,
    {
        let ghost seen = operands@.take(i + 1);
        proof {
            assert(seen.drop_last() == operands@.take(i as int));
            assert(seen.last() == operands@[i as int]);
            if string1_error(seen) is Some {
                lemma_string1_error_stays(operands@, i + 1);
            }
        }
        match operands[i] {
            Operand::Char { char, char_repetition: CharRepetition::N(n) } => {
                char_repeating_total =
                match char_repeating_total.checked_add(n) {
                    Some(total) => total,
                    None => {
                        return Err("Arithmetic overflow".to_owned());
                    },
                };
                push_repeated(&mut chars, char, n);
            },
            Operand::Char { char_repetition: CharRepetition::AsManyAsNeeded, .. } => {
                return Err("tr: the [c*] repeat construct may not appear in string1".to_owned());
            },
            Operand::Equiv { .. } => {
                return Err("Expectation violated".to_owned());
            },
        }
        i += 1;
    }
    assert(operands@.take(i as int) == operands@);
    Ok(chars)
}

/// The number of characters that the second set of a translation gives without
/// being filled up, and whether it holds a `[c*]` construct.
fn measure_string2(operands: &[Operand]) -> (result: Result<(usize, bool), String>)
    ensures
        match string2_error(operands@) {
            None => {
                &&& result matches Ok((total, fill))
                &&& total == flattened(operands@, 0).len()
                &&& fill == has_fill(operands@)
            },
            Some(message) => result matches Err(text) && text@ == message,
        },
{
    let mut total: usize = 0;
    let mut fill = false;
    let mut i: usize = 0;
    while i < operands.len()
        invariant
            i <= operands@.len(),
            string2_error(operands@.take(i as int)) is None,
            total == flattened(operands@.take(i as int), 0).len(),
            fill == has_fill(operands@.take(i as int)),
        decreases operands@.len() - i,
    {
        let ghost init = operands@.take(i as int);
        let ghost seen = operands@.take(i + 1);
        proof {
            assert(seen.drop_last() == init);
            assert(seen.last() == operands@[i as int]);
            if string2_error(seen) is Some {
                lemma_string2_error_stays(operands@, i + 1);
            }
            if has_fill(init) {
                let j = choose|j: int| 0 <= j < init.len() && is_fill(#[trigger] init[j]);
                assert(is_fill(seen[j]));
            }
            if is_fill(seen.last()) {
                assert(is_fill(seen[i as int]));
            }
            if has_fill(seen) && !is_fill(seen.last()) {
                let j = choose|j: int| 0 <= j < seen.len() && is_fill(#[trigger] seen[j]);
                assert(is_fill(init[j]));
            }
        }
        match operands[i] {
            Operand::Char { char_repetition: CharRepetition::N(n), .. } => {
                total =
                match total.checked_add(n) {
                    Some(sum) => sum,
                    None => {
                        return Err("Arithmetic overflow".to_owned());
                    },
                };
            },
            Operand::Char { char_repetition: CharRepetition::AsManyAsNeeded, .. } => {
                if fill {
                    return Err(
                        "tr: only one [c*] repeat construct may appear in string2".to_owned(),
                    );
                }
                fill = true;
            },
            Operand::Equiv { .. } => {
                return Err("Expectation violated".to_owned());
            },
        }
        i += 1;
    }
    assert(operands@.take(i as int) == operands@);
    Ok((total, fill))
}

/// The characters of a set, where as many as needed is `fill`.
fn flatten(operands: &[Operand], fill: usize) -> (chars: Vec<char>)
    ensures
        chars@ == flattened(operands@, fill as nat),
{
    let mut chars: Vec<char> = Vec::new();
    let mut i: usize = 0;
    while i < operands.len()
        invariant
            i <= operands@.len(),
            chars@ == flattened(operands@.take(i as int), fill as nat),
        decreases operands@.len() - i,
    {
        let ghost seen = operands@.take(i + 1);
        assert(seen.drop_last() == operands@.take(i as int));
        assert(seen.last() == operands@[i as int]);
        match operands[i] {
            Operand::Char { char, char_repetition: CharRepetition::N(n) } => {
                push_repeated(&mut chars, char, n);
            },
            Operand::Char { char, char_repetition: CharRepetition::AsManyAsNeeded } => {
                push_repeated(&mut chars, char, fill);
            },
            Operand::Equiv { .. } => {},
        }
        assert(chars@ == flattened(seen, fill as nat));
        i += 1;
    }
    assert(operands@.take(i as int) == operands@);
    chars
}

/// Works out which character each character of the first set is translated to.
pub fn generate_transformation_hash_map(
    string1_operands: &[Operand],
    string2_operands: &[Operand],
) -> (result: Result<CharMap<char>, String>)
    ensures
        match transformation(string1_operands@, string2_operands@) {
            Ok(map) => result matches Ok(m) && m@ == map,
            Err(message) => result matches Err(text) && text@ == message,
        },
{
    let from = flatten_string1(string1_operands)?;
    let (given, has_fill) = measure_string2(string2_operands)?;
    let wanted = from.len();
    let missing: usize = if given < wanted {
        wanted - given
    } else {
        0
    };
    if missing > 0 && string2_operands.len() == 0 {
        return Err("Unexpected empty collection".to_owned());
    }
    let mut to = flatten(string2_operands, missing);
    if missing > 0 && !has_fill {
        push_repeated(&mut to, *string2_operands[string2_operands.len() - 1].char(), missing);
    }
    proof {
        lemma_fill_length(string2_operands@, missing as nat);
        assert(to@ == filled(string2_operands@, wanted as nat));
    }
    let mut translation_hash_map = CharMap::<char>::new();
    let mut i: usize = 0;
    assert(translation_hash_map@ =~= mapping(from@.take(0), to@));
    while i < from.len()
        invariant
            i <= from@.len() <= to@.len(),
            translation_hash_map@ == mapping(from@.take(i as int), to@),
        decreases from@.len() - i,
    {
        let ghost before = from@.take(i as int);
        translation_hash_map.insert(from[i], to[i]);
        i += 1;
        proof {
            let after = from@.take(i as int);
            assert(after.drop_last() == before);
            assert(after == before.push(from@[i - 1]));
            assert forall|c: char| after.contains(c) == (before.contains(c) || c == from@[i - 1])
                by {
                if before.contains(c) {
                    let j = choose|j: int| 0 <= j < before.len() && before[j] == c;
                    assert(after[j] == c);
                }
                if c == from@[i - 1] {
                    assert(after[i - 1] == c);
                }
                if after.contains(c) {
                    let j = choose|j: int| 0 <= j < after.len() && after[j] == c;
                    if j < i - 1 {
                        assert(before[j] == c);
                    }
                }
            }
            assert(translation_hash_map@ =~= mapping(after, to@));
        }
    }
    assert(from@.take(i as int) == from@);
    Ok(translation_hash_map)
}

/// Replaces each character of `input` by the one it is mapped to, if any.
pub fn translate(map: &CharMap<char>, input: &[char]) -> (output: Vec<char>)
    ensures
        output@ == translated(map@, input@),
{
    let mut output: Vec<char> = Vec::new();
    let mut i: usize = 0;
    while i < input.len()
        invariant
            i <= input@.len(),
            output@ == translated(map@, input@.take(i as int)),
        decreases input@.len() - i,
    {
        let c = match map.get(input[i]) {
            Some(c) => c,
            None => input[i],
        };
        output.push(c);
        i += 1;
        assert(output@ == translated(map@, input@.take(i as int)));
    }
    assert(input@.take(i as int) == input@);
    output
}

} // verus!
