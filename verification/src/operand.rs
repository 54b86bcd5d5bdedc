//! The elements that a set of characters is made of, and membership in a set.

use deunicode::deunicode_char;
use vstd::prelude::*;

verus! {

/// What `deunicode::deunicode_char` makes of a character: its ASCII
/// transliteration, or `None` for a character that it does not know.
pub uninterp spec fn deunicoded(c: char) -> Option<Seq<char>>;

/// `deunicode::deunicode_char` looks a character up in a fixed table, so that its
/// result depends on the character alone. A space and the visible ASCII
/// characters stand for themselves there.
pub assume_specification[ deunicode_char ](ch: char) -> (normalized: Option<&'static str>)
    ensures
        text_of(normalized) == deunicoded(ch),
        is_visible_ascii(ch) ==> text_of(normalized) == Some(seq![ch]),
;

/// The characters of an optional piece of text.
pub open spec fn text_of(text: Option<&str>) -> Option<Seq<char>> {
    match text {
        Some(t) => Some(t@),
        None => None,
    }
}

/// Whether `c` is a space or a visible ASCII character.
pub open spec fn is_visible_ascii(c: char) -> bool {
    ' ' <= c <= '~'
}

/// How many times a character stands in a set.
#[derive(Clone, Copy, Debug, PartialEq, Eq, Structural)]
pub enum CharRepetition {
    /// As often as the set has to be filled up.
    AsManyAsNeeded,
    /// The given number of times.
    N(usize),
}

/// One element of a set of characters.
#[derive(Clone, Copy, Debug, PartialEq, Eq, Structural)]
pub enum Operand {
    Char {
        /// The character.
        char: char,
        /// The number of times the character is repeated.
        char_repetition: CharRepetition,
    },
    Equiv {
        /// The character whose equivalents are meant.
        char: char,
    },
}

impl Operand {
    /// The character that the element is written with.
    pub open spec fn spec_char(self) -> char {
        match self {
            Operand::Char { char, .. } => char,
            Operand::Equiv { char } => char,
        }
    }

    /// Whether `target` is meant by this element.
    pub open spec fn lists(self, target: char) -> bool {
        match self {
            Operand::Char { char, .. } => char == target,
            Operand::Equiv { char } => deunicoded(char) == deunicoded(target),
        }
    }

    /// Whether `target` is meant by an element of the set.
    pub open spec fn listed(operands: Seq<Operand>, target: char) -> bool {
        exists|i: int| 0 <= i < operands.len() && (#[trigger] operands[i]).lists(target)
    }

    /// A counted character is there at least once.
    pub open spec fn well_formed(self) -> bool {
        self matches Operand::Char { char_repetition, .. } ==> char_repetition
            != CharRepetition::N(0)
    }

    /// Every element of the set is well formed.
    pub open spec fn all_well_formed(operands: Seq<Operand>) -> bool {
        forall|i: int| 0 <= i < operands.len() ==> (#[trigger] operands[i]).well_formed()
    }

    /// Every element of the set is written with a space or a visible ASCII character.
    pub open spec fn all_visible_ascii(operands: Seq<Operand>) -> bool {
        forall|i: int|
            0 <= i < operands.len() ==> is_visible_ascii((#[trigger] operands[i]).spec_char())
    }

    /// The element that stands for one occurrence of `c`.
    pub open spec fn once(c: char) -> Operand {
        Operand::Char { char: c, char_repetition: CharRepetition::N(1) }
    }

    /// The set that lists the given characters once each, in order.
    pub open spec fn literals(chars: Seq<char>) -> Seq<Operand> {
        Seq::new(chars.len(), |i: int| Operand::once(chars[i]))
    }

    /// The element that stands for the equivalents of `c`.
    pub open spec fn equivalent(c: char) -> Operand {
        Operand::Equiv { char: c }
    }

    /// The equivalence classes of the given characters, in order.
    pub open spec fn equivalents(chars: Seq<char>) -> Seq<Operand> {
        chars.map_values(|c: char| Operand::equivalent(c))
    }

    /// The character that the element is written with.
    pub fn char(&self) -> (c: &char)
        ensures
            *c == self.spec_char(),
    {
        match self {
            Operand::Char { char, .. } => char,
            Operand::Equiv { char } => char,
        }
    }

    /// Whether `target` is in the set that `operands` describes. Among the visible
    /// ASCII characters, an equivalence class holds its own character only.
    pub fn contains(operands: &[Operand], target: &char) -> (found: bool)
        ensures
            found == Operand::listed(operands@, *target),
            Operand::all_visible_ascii(operands@) && is_visible_ascii(*target) ==> found == (
            exists|i: int|
                0 <= i < operands@.len() && (#[trigger] operands@[i]).spec_char() == *target),
    {
        let mut i: usize = 0;
        while i < operands.len()
            invariant
                i <= operands@.len(),
                forall|j: int| 0 <= j < i ==> !(#[trigger] operands@[j]).lists(*target),
                Operand::all_visible_ascii(operands@) && is_visible_ascii(*target) ==> forall|
                    j: int,
                |
                    0 <= j < i ==> (#[trigger] operands@[j]).spec_char() != *target,
            decreases operands@.len() - i,
        {
            let found = match &operands[i] {
                Operand::Equiv { char } => compare_deunicoded_chars(*char, *target),
                Operand::Char { char, .. } => *char == *target,
            };
            assert(found == operands@[i as int].lists(*target));
            assert(Operand::all_visible_ascii(operands@) && is_visible_ascii(*target) ==> found
                == (operands@[i as int].spec_char() == *target));
            if found {
                return true;
            }
            i += 1;
        }
        false
    }
}

/// Whether two characters have the same ASCII transliteration. Two characters
/// that have none compare as equal. Visible ASCII characters are their own
/// transliteration.
pub fn compare_deunicoded_chars(char1: char, char2: char) -> (equal: bool)
    ensures
        equal == (deunicoded(char1) == deunicoded(char2)),
        is_visible_ascii(char1) && is_visible_ascii(char2) ==> equal == (char1 == char2),
{
    let normalized_char1 = deunicode_char(char1);
    let normalized_char2 = deunicode_char(char2);
    proof {
        if seq![char1] == seq![char2] {
            assert(seq![char1][0] == seq![char2][0]);
        }
    }
    equal_normalized(normalized_char1, normalized_char2)
}

/// Whether two transliterations are the same text, or both missing.
pub fn equal_normalized(normalized1: Option<&str>, normalized2: Option<&str>) -> (equal: bool)
    ensures
        equal == (text_of(normalized1) == text_of(normalized2)),
{
    match (normalized1, normalized2) {
        (Some(text1), Some(text2)) => text1.to_owned() == text2.to_owned(),
        (None, None) => true,
        _ => false,
    }
}

/// Appends one occurrence of each character of `chars` to the set.
pub fn push_literals(operand_vec: &mut Vec<Operand>, chars: &[char])
    ensures
        final(operand_vec)@ == old(operand_vec)@ + Operand::literals(chars@),
{
    let mut i: usize = 0;
    while i < chars.len()
        invariant
            i <= chars@.len(),
            operand_vec@ == old(operand_vec)@ + Operand::literals(chars@.take(i as int)),
        decreases chars@.len() - i,
    {
        operand_vec.push(Operand::Char { char: chars[i], char_repetition: CharRepetition::N(1) });
        i += 1;
        assert(Operand::literals(chars@.take(i as int)) == Operand::literals(
            chars@.take(i - 1),
        ).push(Operand::once(chars@[i - 1])));
    }
    assert(chars@.take(i as int) == chars@);
}

} // verus!
