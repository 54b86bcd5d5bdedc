//! Squeezing: runs of one character become a single occurrence of it.

use crate::char_map::{CharMap, CharSet};
use crate::operand::Operand;
use vstd::prelude::*;

verus! {

/// How often `c` occurs in `chars`.
pub open spec fn times(chars: Seq<char>, c: char) -> nat
    decreases chars.len(),
{
    if chars.len() == 0 {
        0
    } else if chars.last() == c {
        times(chars.drop_last(), c) + 1
    } else {
        times(chars.drop_last(), c)
    }
}

/// How often each character occurs in `chars`.
pub open spec fn counts(chars: Seq<char>) -> Map<char, usize> {
    Map::new(|c: char| chars.contains(c), |c: char| times(chars, c) as usize)
}

/// Whether the last character continues a run of a character that is in the set.
pub open spec fn continues_run(chars: Seq<char>, operands: Seq<Operand>) -> bool {
    &&& chars.len() >= 2
    &&& chars[chars.len() - 2] == chars.last()
    &&& Operand::listed(operands, chars.last())
}

/// `chars` with each run of a character that is in the set replaced by a single
/// occurrence of that character.
pub open spec fn squeezed(chars: Seq<char>, operands: Seq<Operand>) -> Seq<char>
    decreases chars.len(),
{
    if chars.len() == 0 {
        Seq::empty()
    } else if continues_run(chars, operands) {
        squeezed(chars.drop_last(), operands)
    } else {
        squeezed(chars.drop_last(), operands).push(chars.last())
    }
}

/// A character does not occur more often than there are characters, and it occurs
/// where it is found.
proof fn lemma_times(chars: Seq<char>, c: char)
    ensures
        times(chars, c) <= chars.len(),
        chars.contains(c) <==> times(chars, c) > 0,
    decreases chars.len(),
{
    if chars.len() > 0 {
        let init = chars.drop_last();
        lemma_times(init, c);
        if init.contains(c) {
            let i = choose|i: int| 0 <= i < init.len() && init[i] == c;
            assert(chars[i] == c);
        }
        if chars.contains(c) && chars.last() != c {
            let i = choose|i: int| 0 <= i < chars.len() && chars[i] == c;
            assert(init[i] == c);
        }
        if chars.last() == c {
            assert(chars[chars.len() - 1] == c);
        }
    }
}

/// A character that stands in two places occurs more than once.
proof fn lemma_times_two(chars: Seq<char>, i: int, j: int)
    requires
        0 <= i < j < chars.len(),
        chars[i] == chars[j],
    ensures
        times(chars, chars[i]) >= 2,
    decreases chars.len(),
{
    let init = chars.drop_last();
    if j == chars.len() - 1 {
        lemma_times(init, chars[i]);
        assert(init[i] == chars[i]);
    } else {
        lemma_times_two(init, i, j);
    }
}

/// Counts the characters.
pub fn count_chars(chars: &[char]) -> (char_counts: CharMap<usize>)
    ensures
        char_counts@ == counts(chars@),
{
    let mut char_counts = CharMap::<usize>::new();
    let mut i: usize = 0;
    assert(char_counts@ =~= counts(chars@.take(0)));
    while i < chars.len()
        invariant
            i <= chars@.len(),
            char_counts@ == counts(chars@.take(i as int)),
        decreases chars@.len() - i,
    {
        let ch = chars[i];
        let ghost before = chars@.take(i as int);
        let ghost after = chars@.take(i + 1);
        proof {
            lemma_times(before, ch);
            assert(after.drop_last() == before);
        }
        let count: usize = match char_counts.get(ch) {
            Some(count) => count,
            None => 0,
        };
        assert(count == times(before, ch));
        char_counts.insert(ch, count + 1);
        i += 1;
        proof {
            assert forall|c: char| #[trigger] after.contains(c) == (before.contains(c) || c == ch)
                by {
                lemma_times(before, c);
                lemma_times(after, c);
            }
            assert(char_counts@ =~= counts(after));
        }
    }
    assert(chars@.take(i as int) == chars@);
    char_counts
}

/// Whether the character `ch` is repeatable: it occurs more than once in the text,
/// is in the set `set2`, and has not been seen before.
///
/// - `char_counts` holds the number of occurrences of each character of the text.
/// - `seen` holds the repeated characters of the set that have been seen. A
///   character that is repeatable is added to it.
pub fn check_repeatable(
    ch: char,
    char_counts: &CharMap<usize>,
    seen: &mut CharSet,
    set2: &[Operand],
) -> (repeatable: bool)
    requires
        char_counts@.contains_key(ch),
    ensures
        ({
            let repeated = char_counts@[ch] > 1 && Operand::listed(set2@, ch);
            &&& repeatable == (repeated && !old(seen)@.contains(ch))
            &&& final(seen)@ == (if repeated {
                old(seen)@.insert(ch)
            } else {
                old(seen)@
            })
        }),
{
    let count: usize = match char_counts.get(ch) {
        Some(count) => count,
        None => 0,
    };
    if count > 1 && Operand::contains(set2, &ch) {
        if seen.contains(ch) {
            assert(old(seen)@.insert(ch) =~= old(seen)@);
            false
        } else {
            seen.insert(ch);
            true
        }
    } else {
        false
    }
}

/// Replaces each run of a character that is in the set `operands` by a single
/// occurrence of it.
pub fn squeeze(chars: &[char], operands: &[Operand]) -> (output: Vec<char>)
    ensures
        output@ == squeezed(chars@, operands@),
{
    let char_counts = count_chars(chars);
    let mut seen = CharSet::new();
    let mut output: Vec<char> = Vec::new();
    let mut i: usize = 0;
    while i < chars.len()
        invariant
            i <= chars@.len(),
            char_counts@ == counts(chars@),
            output@ == squeezed(chars@.take(i as int), operands@),
            i == 0 ==> seen@ == Set::<char>::empty(),
            i > 0 ==> seen@ == (if char_counts@[chars@[i - 1]] > 1 && Operand::listed(
                operands@,
                chars@[i - 1],
            ) {
                Set::<char>::empty().insert(chars@[i - 1])
            } else {
                Set::<char>::empty()
            }),
        decreases chars@.len() - i,
    {
        let ch = chars[i];
        let ghost after = chars@.take(i + 1);
        proof {
            assert(after.drop_last() == chars@.take(i as int));
            assert(chars@.contains(ch));
            lemma_times(chars@, ch);
            if i > 0 && chars@[i - 1] == ch {
                lemma_times_two(chars@, i - 1, i as int);
            }
        }
        if i > 0 && chars[i - 1] != ch {
            seen.clear();
        }
        let seen_before = seen.contains(ch);
        if check_repeatable(ch, &char_counts, &mut seen, operands) || !seen_before {
            output.push(ch);
        }
        assert(seen@ =~= (if char_counts@[ch] > 1 && Operand::listed(operands@, ch) {
            Set::<char>::empty().insert(ch)
        } else {
            Set::<char>::empty()
        }));
        i += 1;
    }
    assert(chars@.take(i as int) == chars@);
    output
}

} // verus!
