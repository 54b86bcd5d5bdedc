//! Replacing the characters that are not in a set.

use crate::operand::{CharRepetition, Operand};
use vstd::arithmetic::div_mod::{
    lemma_fundamental_div_mod, lemma_fundamental_div_mod_converse_mod, lemma_mod_decreases,
};
use vstd::prelude::*;

verus! {

/// How many times in a row an element is used as a replacement, or `None` where
/// there is no end to it.
pub open spec fn uses(operand: Operand) -> Option<nat> {
    match operand {
        Operand::Char { char_repetition: CharRepetition::N(n), .. } => Some(n as nat),
        Operand::Char { char_repetition: CharRepetition::AsManyAsNeeded, .. } => None,
        Operand::Equiv { .. } => Some(1),
    }
}

/// How many replacements the elements of a set give, one after the other, or
/// `None` where there is no end to them.
pub open spec fn period(operands: Seq<Operand>) -> Option<nat>
    decreases operands.len(),
{
    if operands.len() == 0 {
        Some(0)
    } else {
        match (period(operands.drop_last()), uses(operands.last())) {
            (Some(before), Some(last)) => Some(before + last),
            _ => None,
        }
    }
}

/// The replacement number `k` of the elements of a set, one after the other.
pub open spec fn nth_replacement(operands: Seq<Operand>, k: nat) -> char
    decreases operands.len(),
{
    if operands.len() > 1 && uses(operands[0]) is Some && k >= uses(operands[0])->0 {
        nth_replacement(operands.drop_first(), (k - uses(operands[0])->0) as nat)
    } else {
        operands[0].spec_char()
    }
}

/// The replacement number `k`: the elements of the set one after the other, and
/// from the start again when all have been used.
pub open spec fn replacement(operands: Seq<Operand>, k: nat) -> char {
    match period(operands) {
        Some(p) => nth_replacement(operands, k % p),
        None => nth_replacement(operands, k),
    }
}

/// How many characters of `input` are not in the set.
pub open spec fn unlisted_count(operands: Seq<Operand>, input: Seq<char>) -> nat {
    input.filter(|c: char| !Operand::listed(operands, c)).len()
}

/// `input` with each character that is not in the first set replaced by the next
/// replacement of the second.
pub open spec fn complemented(
    input: Seq<char>,
    chars1: Seq<Operand>,
    chars2: Seq<Operand>,
) -> Seq<char> {
    Seq::new(
        input.len(),
        |i: int|
            if Operand::listed(chars1, input[i]) {
                input[i]
            } else {
                replacement(chars2, unlisted_count(chars1, input.take(i)))
            },
    )
}

/// `input` with the characters that are not in the first set replaced. There has
/// to be a replacement where there is something to replace.
pub open spec fn complement_outcome(
    input: Seq<char>,
    chars1: Seq<Operand>,
    chars2: Seq<Operand>,
) -> Result<Seq<char>, Seq<char>> {
    if chars2.len() == 0 && unlisted_count(chars1, input) > 0 {
        Err("Indexing failed"@)
    } else {
        Ok(complemented(input, chars1, chars2))
    }
}

/// Whether `count` replacements can be made without coming to an element that is
/// there zero times: each such element lies behind the replacements that are made.
pub open spec fn suffices(operands: Seq<Operand>, count: nat) -> bool {
    forall|i: int|
        0 <= i < operands.len() && !(#[trigger] operands[i]).well_formed() ==> (period(
            operands.take(i),
        ) matches Some(before) ==> count <= before)
}

/// Within a set, the element at a place gives the replacements that follow those
/// of the elements before it.
proof fn lemma_nth_replacement(operands: Seq<Operand>, index: int, used: nat)
    requires
        0 <= index < operands.len(),
        period(operands.take(index)) is Some,
        uses(operands[index]) matches Some(n) ==> used < n,
    ensures
        nth_replacement(operands, period(operands.take(index))->0 + used)
            == operands[index].spec_char(),
    decreases operands.len(),
{
    if index > 0 {
        let tail = operands.drop_first();
        lemma_period_front(operands.take(index));
        assert(operands.take(index).drop_first() == tail.take(index - 1));
        assert(operands.take(index)[0] == operands[0]);
        lemma_nth_replacement(tail, index - 1, used);
    } else {
        assert(operands.take(0) == Seq::<Operand>::empty());
    }
}

/// The number of replacements of a set, counted from its first element.
proof fn lemma_period_front(operands: Seq<Operand>)
    requires
        operands.len() > 0,
        period(operands) is Some,
    ensures
        uses(operands[0]) is Some,
        period(operands.drop_first()) is Some,
        period(operands)->0 == uses(operands[0])->0 + period(operands.drop_first())->0,
    decreases operands.len(),
{
    if operands.len() > 1 {
        lemma_period_front(operands.drop_last());
        assert(operands.drop_last().drop_first() == operands.drop_first().drop_last());
    } else {
        assert(operands.drop_last() == Seq::<Operand>::empty());
        assert(operands.drop_first() == Seq::<Operand>::empty());
    }
}

/// A set that starts with an endless element gives endless replacements.
pub proof fn lemma_period_endless(operands: Seq<Operand>, n: int)
    requires
        0 <= n <= operands.len(),
        period(operands.take(n)) is None,
    ensures
        period(operands) is None,
    decreases operands.len(),
{
    if n == operands.len() {
        assert(operands.take(n) == operands);
    } else {
        assert(operands.drop_last().take(n) == operands.take(n));
        lemma_period_endless(operands.drop_last(), n);
    }
}

/// The start of a set gives no more replacements than the set.
proof fn lemma_period_grows(operands: Seq<Operand>, n: int)
    requires
        0 <= n <= operands.len(),
        period(operands) is Some,
    ensures
        period(operands.take(n)) is Some,
        period(operands.take(n))->0 <= period(operands)->0,
    decreases operands.len(),
{
    if n == operands.len() {
        assert(operands.take(n) == operands);
    } else {
        assert(operands.drop_last().take(n) == operands.take(n));
        lemma_period_grows(operands.drop_last(), n);
    }
}

/// The remainder of the next number.
proof fn lemma_next_remainder(k: nat, p: nat)
    requires
        p > 0,
    ensures
        k % p + 1 < p ==> (k + 1) % p == k % p + 1,
        k % p + 1 == p ==> (k + 1) % p == 0,
{
    let q = k as int / p as int;
    let r = k as int % p as int;
    lemma_fundamental_div_mod(k as int, p as int);
    if r + 1 < p {
        assert(k + 1 == q * p + (r + 1)) by (nonlinear_arith)
            requires
                k == p * q + r,
        ;
        lemma_fundamental_div_mod_converse_mod(k as int + 1, p as int, q, r + 1);
    } else {
        assert(k + 1 == (q + 1) * p + 0) by (nonlinear_arith)
            requires
                k == p * q + r,
                r + 1 == p,
        ;
        lemma_fundamental_div_mod_converse_mod(k as int + 1, p as int, q + 1, 0);
    }
}

/// A place in the endless row of replacements of a set: after `k` replacements,
/// the element at `index` comes next. It has been used `used` times in a row,
/// unless there is no end to it.
spec fn at_place(operands: Seq<Operand>, k: nat, index: int, used: nat) -> bool {
    &&& 0 <= index < operands.len()
    &&& period(operands.take(index)) is Some
    &&& match uses(operands[index]) {
        Some(n) => {
            &&& used < n
            &&& match period(operands) {
                Some(p) => p > 0 && k % p == period(operands.take(index))->0 + used,
                None => k == period(operands.take(index))->0 + used,
            }
        },
        None => period(operands) is None && k >= period(operands.take(index))->0,
    }
}

/// The element that comes next gives the next replacement.
proof fn lemma_at_place(operands: Seq<Operand>, k: nat, index: int, used: nat)
    requires
        at_place(operands, k, index, used),
    ensures
        replacement(operands, k) == operands[index].spec_char(),
{
    match uses(operands[index]) {
        Some(_) => lemma_nth_replacement(operands, index, used),
        None => lemma_nth_replacement(
            operands,
            index,
            (k - period(operands.take(index))->0) as nat,
        ),
    }
}

/// Before the first replacement, the first element comes next.
proof fn lemma_first_place(operands: Seq<Operand>)
    requires
        operands.len() > 0,
        operands[0].well_formed(),
    ensures
        at_place(operands, 0, 0, 0),
{
    assert(operands.take(0) == Seq::<Operand>::empty());
    assert(operands.take(1).drop_last() == Seq::<Operand>::empty());
    assert(operands.take(1).last() == operands[0]);
    if period(operands) is Some {
        lemma_period_grows(operands, 1);
    } else if uses(operands[0]) is None {
        lemma_period_endless(operands, 1);
    }
}

/// An element that has not been used up comes next again.
proof fn lemma_same_place(operands: Seq<Operand>, k: nat, index: int, used: nat)
    requires
        at_place(operands, k, index, used),
        uses(operands[index]) matches Some(n) ==> used + 1 < n,
    ensures
        at_place(operands, k + 1, index, used + 1),
        uses(operands[index]) is None ==> at_place(operands, k + 1, index, used),
{
    if period(operands) is Some {
        let p = period(operands)->0;
        lemma_period_grows(operands, index + 1);
        assert(operands.take(index + 1).drop_last() == operands.take(index));
        assert(operands.take(index + 1).last() == operands[index]);
        lemma_next_remainder(k, p);
    }
}

/// After an element that has been used up, the one behind it comes next, or the
/// first one.
proof fn lemma_next_place(operands: Seq<Operand>, k: nat, index: int, used: nat)
    requires
        at_place(operands, k, index, used),
        uses(operands[index]) == Some(used + 1),
        index + 1 < operands.len() ==> operands[index + 1].well_formed(),
        index + 1 == operands.len() ==> operands[0].well_formed(),
    ensures
        index + 1 < operands.len() ==> at_place(operands, k + 1, index + 1, 0),
        index + 1 == operands.len() ==> at_place(operands, k + 1, 0, 0),
{
    let seen = operands.take(index + 1);
    assert(seen.drop_last() == operands.take(index));
    assert(seen.last() == operands[index]);
    assert(period(seen) == Some(period(operands.take(index))->0 + used + 1));
    if index + 1 == operands.len() {
        assert(seen == operands);
        lemma_next_remainder(k, period(operands)->0);
        lemma_first_place(operands);
    } else {
        let more = operands.take(index + 2);
        assert(more.drop_last() == seen);
        assert(more.last() == operands[index + 1]);
        if period(operands) is Some {
            lemma_period_grows(operands, index + 2);
            lemma_next_remainder(k, period(operands)->0);
        }
        if uses(operands[index + 1]) is None {
            lemma_period_endless(operands, index + 2);
        }
    }
}

/// Where more replacements are to be made, the element that comes next is there at
/// least once.
proof fn lemma_next_well_formed(
    operands: Seq<Operand>,
    count: nat,
    k: nat,
    index: int,
    used: nat,
)
    requires
        suffices(operands, count),
        at_place(operands, k, index, used),
        uses(operands[index]) == Some(used + 1),
        k + 1 < count,
    ensures
        index + 1 < operands.len() ==> operands[index + 1].well_formed(),
        operands[0].well_formed(),
{
    let seen = operands.take(index + 1);
    assert(seen.drop_last() == operands.take(index));
    assert(seen.last() == operands[index]);
    assert(operands.take(0) == Seq::<Operand>::empty());
    if period(operands) is Some {
        lemma_mod_decreases(k, period(operands)->0);
    }
}

/// The characters at the start of a text that are not in the set are among those
/// of the whole text.
proof fn lemma_unlisted_count_grows(operands: Seq<Operand>, input: Seq<char>, n: int)
    requires
        0 <= n <= input.len(),
    ensures
        unlisted_count(operands, input.take(n)) <= unlisted_count(operands, input),
{
    assert(input == input.take(n) + input.skip(n));
    Seq::filter_distributes_over_add(
        input.take(n),
        input.skip(n),
        |c: char| !Operand::listed(operands, c),
    );
}

/// Replaces each character of `input` that is not in the set `chars1` by the next
/// one of `chars2`. When all of them have been used, the first one comes next
/// again.
///
/// # Errors
///
/// There is a character to replace, and `chars2` is empty.
pub fn complement_chars(input: &str, chars1: &[Operand], chars2: &[Operand]) -> (result: Result<
    String,
    String,
>)
    requires
        suffices(chars2@, unlisted_count(chars1@, input@)),
    ensures
        match complement_outcome(input@, chars1@, chars2@) {
            Ok(output) => result matches Ok(text) && text@ == output,
            Err(message) => result matches Err(text) && text@ == message,
        },
{
    let ghost total = unlisted_count(chars1@, input@);
    let ghost mut replaced: nat = 0;
    let mut result = String::new();
    let mut index: usize = 0;
    let mut used: usize = 0;
    proof {
        if chars2@.len() > 0 && total > 0 {
            assert(chars2@.take(0) == Seq::<Operand>::empty());
            assert(chars2@[0].well_formed());
            lemma_first_place(chars2@);
        }
        assert(input@.take(0) == Seq::<char>::empty());
    }
    for ch in iter: input.chars()
        invariant
            iter.seq() == input@,
            total == unlisted_count(chars1@, input@),
            suffices(chars2@, total),
            result@ == complemented(input@, chars1@, chars2@).take(iter.index() as int),
            replaced == unlisted_count(chars1@, input@.take(iter.index() as int)),
            chars2@.len() > 0 && replaced < total ==> at_place(
                chars2@,
                replaced,
                index as int,
                used as nat,
            ),
            chars2@.len() == 0 ==> replaced == 0,
    {
        let ghost i = iter.index() as int;
        proof {
            let seen = input@.take(i + 1);
            assert(seen.drop_last() == input@.take(i));
            assert(seen.last() == ch);
            lemma_unlisted_count_grows(chars1@, input@, i + 1);
            reveal(Seq::filter);
            assert(complemented(input@, chars1@, chars2@).take(i + 1) == complemented(
                input@,
                chars1@,
                chars2@,
            ).take(i).push(complemented(input@, chars1@, chars2@)[i]));
        }
        if Operand::contains(chars1, &ch) {
            result.push(ch);
        } else {
            if chars2.len() == 0 {
                return Err("Indexing failed".to_owned());
            }
            proof {
                lemma_at_place(chars2@, replaced, index as int, used as nat);
            }
            let operand = chars2[index];
            result.push(*operand.char());
            let used_up = match operand {
                Operand::Char { char_repetition: CharRepetition::N(n), .. } => used + 1 == n,
                Operand::Char { char_repetition: CharRepetition::AsManyAsNeeded, .. } => false,
                Operand::Equiv { .. } => true,
            };
            if used_up {
                proof {
                    if replaced + 1 < total {
                        lemma_next_well_formed(
                            chars2@,
                            total,
                            replaced,
                            index as int,
                            used as nat,
                        );
                        lemma_next_place(chars2@, replaced, index as int, used as nat);
                    }
                }
                used = 0;
                index += 1;
                if index == chars2.len() {
                    index = 0;
                }
            } else {
                proof {
                    lemma_same_place(chars2@, replaced, index as int, used as nat);
                }
                if let Operand::Char { char_repetition: CharRepetition::N(_), .. } = operand {
                    used += 1;
                }
            }
            proof {
                replaced = replaced + 1;
            }
        }
    }
    proof {
        let whole = complemented(input@, chars1@, chars2@);
        assert(input@.take(input@.len() as int) == input@);
        assert(whole.take(whole.len() as int) == whole);
    }
    Ok(result)
}

} // verus!
