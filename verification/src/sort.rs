//! Sets in the order of their characters.

use crate::operand::Operand;
use vstd::prelude::*;
use vstd::slice::slice_subrange;

verus! {

/// No element comes after one with a greater character.
pub open spec fn sorted_by_char(operands: Seq<Operand>) -> bool {
    forall|i: int, j: int|
        0 <= i <= j < operands.len() ==> (#[trigger] operands[i]).spec_char() <= (
        #[trigger] operands[j]).spec_char()
}

/// The elements of a set that are written with the character `c`, in order.
pub open spec fn with_char(operands: Seq<Operand>, c: char) -> Seq<Operand> {
    operands.filter(|operand: Operand| operand.spec_char() == c)
}

/// `sorted` holds the elements of `operands`, ordered by their characters. Those
/// with the same character stand in the order in which they stood before.
pub open spec fn is_stable_sort(sorted: Seq<Operand>, operands: Seq<Operand>) -> bool {
    &&& sorted_by_char(sorted)
    &&& forall|c: char| #[trigger] with_char(sorted, c) == with_char(operands, c)
}

/// The elements of a set, ordered by their characters.
pub open spec fn in_char_order(operands: Seq<Operand>) -> Seq<Operand> {
    choose|sorted: Seq<Operand>| is_stable_sort(sorted, operands)
}

/// The last element is among those with its character.
proof fn lemma_with_char_last(operands: Seq<Operand>, c: char)
    requires
        operands.len() > 0,
    ensures
        operands.last().spec_char() == c ==> with_char(operands, c) == with_char(
            operands.drop_last(),
            c,
        ).push(operands.last()),
        operands.last().spec_char() != c ==> with_char(operands, c) == with_char(
            operands.drop_last(),
            c,
        ),
{
    reveal(Seq::filter);
}

/// Where no element is written with `c`, none is picked for `c`.
proof fn lemma_with_char_none(operands: Seq<Operand>, c: char)
    requires
        forall|i: int| 0 <= i < operands.len() ==> (#[trigger] operands[i]).spec_char() != c,
    ensures
        with_char(operands, c) == Seq::<Operand>::empty(),
    decreases operands.len(),
{
    if operands.len() > 0 {
        lemma_with_char_last(operands, c);
        lemma_with_char_none(operands.drop_last(), c);
    } else {
        reveal(Seq::filter);
    }
}

/// Where an element is picked for `c`, it is written with `c`.
proof fn lemma_with_char_some(operands: Seq<Operand>, c: char) -> (i: int)
    requires
        with_char(operands, c).len() > 0,
    ensures
        0 <= i < operands.len(),
        operands[i].spec_char() == c,
{
    if forall|i: int| 0 <= i < operands.len() ==> (#[trigger] operands[i]).spec_char() != c {
        lemma_with_char_none(operands, c);
    }
    choose|i: int| 0 <= i < operands.len() && (#[trigger] operands[i]).spec_char() == c
}

/// A set has one ordering by character only.
pub proof fn lemma_stable_sort_unique(a: Seq<Operand>, b: Seq<Operand>)
    requires
        sorted_by_char(a),
        sorted_by_char(b),
        forall|c: char| #[trigger] with_char(a, c) == with_char(b, c),
    ensures
        a == b,
    decreases a.len(),
{
    if a.len() == 0 {
        if b.len() > 0 {
            lemma_with_char_last(b, b.last().spec_char());
            lemma_with_char_none(a, b.last().spec_char());
            assert(with_char(a, b.last().spec_char()) == with_char(b, b.last().spec_char()));
        }
        assert(a == b);
    } else {
        let c = a.last().spec_char();
        lemma_with_char_last(a, c);
        assert(with_char(a, c) == with_char(b, c));
        let i = lemma_with_char_some(b, c);
        let d = b.last().spec_char();
        lemma_with_char_last(b, d);
        assert(with_char(a, d) == with_char(b, d));
        let j = lemma_with_char_some(a, d);
        assert(c == d) by {
            assert(b[i].spec_char() <= b[b.len() - 1].spec_char());
            assert(a[j].spec_char() <= a[a.len() - 1].spec_char());
        }
        assert(with_char(a, c).last() == a.last());
        assert(with_char(b, c).last() == b.last());
        let shorter_a = a.drop_last();
        let shorter_b = b.drop_last();
        assert forall|e: char| #[trigger] with_char(shorter_a, e) == with_char(shorter_b, e) by {
            lemma_with_char_last(a, e);
            lemma_with_char_last(b, e);
            assert(with_char(a, e) == with_char(b, e));
            if e == c {
                assert(with_char(shorter_a, e) == with_char(a, e).drop_last());
                assert(with_char(shorter_b, e) == with_char(b, e).drop_last());
            }
        }
        lemma_stable_sort_unique(shorter_a, shorter_b);
        assert(a == shorter_a.push(a.last()));
        assert(b == shorter_b.push(b.last()));
    }
}

/// Ordering a set keeps its elements well formed.
pub proof fn lemma_stable_sort_well_formed(sorted: Seq<Operand>, operands: Seq<Operand>)
    requires
        is_stable_sort(sorted, operands),
        Operand::all_well_formed(operands),
    ensures
        Operand::all_well_formed(sorted),
{
    broadcast use {Seq::lemma_filter_contains, Seq::lemma_filter_pred};

    assert forall|i: int| 0 <= i < sorted.len() implies (#[trigger] sorted[i]).well_formed() by {
        let c = sorted[i].spec_char();
        let pred = |operand: Operand| operand.spec_char() == c;
        assert(sorted.filter(pred).contains(sorted[i]));
        assert(with_char(sorted, c) == with_char(operands, c));
        lemma_filter_from(operands, pred, sorted[i]);
    }
}

/// In an ordered set, the place behind the elements whose characters are no greater
/// than `c`.
proof fn lemma_place_behind(operands: Seq<Operand>, c: char) -> (place: int)
    requires
        sorted_by_char(operands),
    ensures
        0 <= place <= operands.len(),
        forall|i: int| 0 <= i < place ==> (#[trigger] operands[i]).spec_char() <= c,
        forall|i: int| place <= i < operands.len() ==> (#[trigger] operands[i]).spec_char() > c,
    decreases operands.len(),
{
    if operands.len() == 0 || operands.last().spec_char() <= c {
        operands.len() as int
    } else {
        let init = operands.drop_last();
        let place = lemma_place_behind(init, c);
        assert forall|i: int| 0 <= i < place implies (#[trigger] operands[i]).spec_char() <= c by {
            assert(init[i].spec_char() <= c);
        }
        assert forall|i: int| place <= i < operands.len() implies (
        #[trigger] operands[i]).spec_char() > c by {
            if i < init.len() {
                assert(init[i].spec_char() > c);
            }
        }
        place
    }
}

/// Every set can be ordered by its characters.
proof fn lemma_stable_sort_exists(operands: Seq<Operand>) -> (sorted: Seq<Operand>)
    ensures
        is_stable_sort(sorted, operands),
    decreases operands.len(),
{
    if operands.len() == 0 {
        operands
    } else {
        let x = operands.last();
        let before = lemma_stable_sort_exists(operands.drop_last());
        let place = lemma_place_behind(before, x.spec_char());
        let left = before.take(place);
        let right = before.skip(place);
        let sorted = left.push(x) + right;
        assert forall|c: char| #[trigger] with_char(sorted, c) == with_char(operands, c) by {
            let pred = |operand: Operand| operand.spec_char() == c;
            assert(before == left + right);
            Seq::filter_distributes_over_add(left, right, pred);
            Seq::filter_distributes_over_add(left.push(x), right, pred);
            lemma_with_char_last(operands, c);
            lemma_with_char_last(left.push(x), c);
            assert(left.push(x).drop_last() == left);
            assert(with_char(before, c) == with_char(operands.drop_last(), c));
            if x.spec_char() == c {
                lemma_with_char_none(right, c);
            }
        }
        sorted
    }
}

/// The order of a set by its characters holds the elements of the set, in order.
pub proof fn lemma_in_char_order(operands: Seq<Operand>)
    ensures
        is_stable_sort(in_char_order(operands), operands),
{
    let sorted = lemma_stable_sort_exists(operands);
}

/// What a filter lets through was there before.
proof fn lemma_filter_from(operands: Seq<Operand>, pred: spec_fn(Operand) -> bool, x: Operand)
    requires
        operands.filter(pred).contains(x),
    ensures
        operands.contains(x),
    decreases operands.len(),
{
    reveal(Seq::filter);
    if operands.len() > 0 {
        let init = operands.drop_last();
        if x == operands.last() {
            assert(operands[operands.len() - 1] == x);
        } else {
            let k = choose|k: int|
                0 <= k < operands.filter(pred).len() && operands.filter(pred)[k] == x;
            assert(init.filter(pred)[k] == x);
            lemma_filter_from(init, pred, x);
            let j = choose|j: int| 0 <= j < init.len() && init[j] == x;
            assert(operands[j] == x);
        }
    }
}

/// Merges two ordered sets. Where their characters are the same, the elements of
/// `left` come first.
fn merge_by_char(left: &[Operand], right: &[Operand]) -> (merged: Vec<Operand>)
    requires
        sorted_by_char(left@),
        sorted_by_char(right@),
    ensures
        is_stable_sort(merged@, left@ + right@),
{
    let mut merged: Vec<Operand> = Vec::new();
    let mut i: usize = 0;
    let mut j: usize = 0;
    proof {
        assert forall|c: char| #[trigger]
            with_char(merged@, c) == with_char(left@.take(0), c) + with_char(right@.take(0), c) by {
            lemma_with_char_none(merged@, c);
            lemma_with_char_none(left@.take(0), c);
            lemma_with_char_none(right@.take(0), c);
        }
    }
    while i < left.len() || j < right.len()
        invariant
            i <= left@.len(),
            j <= right@.len(),
            sorted_by_char(left@),
            sorted_by_char(right@),
            sorted_by_char(merged@),
            forall|a: int, b: int|
                0 <= a < merged@.len() && i <= b < left@.len() ==> (
                #[trigger] merged@[a]).spec_char() <= (#[trigger] left@[b]).spec_char(),
            forall|a: int, b: int|
                0 <= a < merged@.len() && j <= b < right@.len() ==> (
                #[trigger] merged@[a]).spec_char() <= (#[trigger] right@[b]).spec_char(),
            forall|a: int, b: int|
                0 <= a < j && i <= b < left@.len() ==> (#[trigger] right@[a]).spec_char() < (
                #[trigger] left@[b]).spec_char(),
            forall|c: char| #[trigger]
                with_char(merged@, c) == with_char(left@.take(i as int), c) + with_char(
                    right@.take(j as int),
                    c,
                ),
        decreases left@.len() - i + right@.len() - j,
    {
        let ghost before = merged@;
        let from_left = j == right.len() || (i < left.len() && *left[i].char()
            <= *right[j].char());
        if from_left {
            merged.push(left[i]);
            proof {
                let x = left@[i as int];
                assert forall|c: char| #[trigger]
                    with_char(merged@, c) == with_char(left@.take(i + 1), c) + with_char(
                        right@.take(j as int),
                        c,
                    ) by {
                    lemma_with_char_last(merged@, c);
                    lemma_with_char_last(left@.take(i + 1), c);
                    assert(merged@.drop_last() == before);
                    assert(left@.take(i + 1).drop_last() == left@.take(i as int));
                    assert(with_char(before, c) == with_char(left@.take(i as int), c) + with_char(
                        right@.take(j as int),
                        c,
                    ));
                    if x.spec_char() == c {
                        lemma_with_char_none(right@.take(j as int), c);
                    }
                }
            }
            i += 1;
        } else {
            merged.push(right[j]);
            proof {
                assert forall|c: char| #[trigger]
                    with_char(merged@, c) == with_char(left@.take(i as int), c) + with_char(
                        right@.take(j + 1),
                        c,
                    ) by {
                    lemma_with_char_last(merged@, c);
                    lemma_with_char_last(right@.take(j + 1), c);
                    assert(merged@.drop_last() == before);
                    assert(right@.take(j + 1).drop_last() == right@.take(j as int));
                    assert(with_char(before, c) == with_char(left@.take(i as int), c) + with_char(
                        right@.take(j as int),
                        c,
                    ));
                }
            }
            j += 1;
        }
    }
    proof {
        assert(left@.take(i as int) == left@);
        assert(right@.take(j as int) == right@);
        assert forall|c: char| #[trigger]
            with_char(merged@, c) == with_char(left@ + right@, c) by {
            Seq::filter_distributes_over_add(
                left@,
                right@,
                |operand: Operand| operand.spec_char() == c,
            );
        }
    }
    merged
}

/// Puts the elements of a set into the order of their characters. Elements with
/// the same character keep their order.
pub fn sort_by_char(operands: &[Operand]) -> (sorted: Vec<Operand>)
    ensures
        is_stable_sort(sorted@, operands@),
        sorted@ == in_char_order(operands@),
    decreases operands@.len(),
{
    let len = operands.len();
    let sorted = if len <= 1 {
        let mut sorted: Vec<Operand> = Vec::new();
        if len == 1 {
            sorted.push(operands[0]);
        }
        assert(sorted@ == operands@);
        sorted
    } else {
        let mid = len / 2;
        let first_half = slice_subrange(operands, 0, mid);
        let second_half = slice_subrange(operands, mid, len);
        let left = sort_by_char(first_half);
        let right = sort_by_char(second_half);
        let merged = merge_by_char(left.as_slice(), right.as_slice());
        proof {
            assert(operands@ == first_half@ + second_half@);
            assert forall|c: char| #[trigger]
                with_char(merged@, c) == with_char(operands@, c) by {
                let pred = |operand: Operand| operand.spec_char() == c;
                Seq::filter_distributes_over_add(left@, right@, pred);
                Seq::filter_distributes_over_add(first_half@, second_half@, pred);
                assert(with_char(merged@, c) == with_char(left@ + right@, c));
                assert(with_char(left@, c) == with_char(first_half@, c));
                assert(with_char(right@, c) == with_char(second_half@, c));
            }
        }
        merged
    };
    proof {
        let chosen = in_char_order(operands@);
        assert(is_stable_sort(sorted@, operands@));
        assert forall|c: char| #[trigger] with_char(sorted@, c) == with_char(chosen, c) by {
            assert(with_char(chosen, c) == with_char(operands@, c));
        }
        lemma_stable_sort_unique(sorted@, chosen);
    }
    sorted
}

} // verus!
