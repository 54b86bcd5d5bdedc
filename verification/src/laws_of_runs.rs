//! What a whole run does to its input, character by character.

use crate::args::Args;
use crate::complement;
use crate::laws;
use crate::laws_of_parts;
use crate::operand::Operand;
use crate::parse;
use crate::sort;
use crate::squeeze;
use crate::tr;
use crate::translate;
use vstd::prelude::*;

verus! {

/// What a run gives: the output for the sets that its strings stand for, or the
/// first error.
pub open spec fn run(args: Args, input: Seq<char>) -> Result<Seq<char>, Seq<char>> {
    match tr::parsed_sets(args).sets {
        Ok((set1, set2)) => tr::transformed(args, set1, set2, input),
        Err(message) => Err(message),
    }
}

/// Whether two runs are asked for in the same way, but for squeezing.
pub open spec fn same_but_squeezing(a: Args, b: Args) -> bool {
    &&& a.delete == b.delete
    &&& a.complement_val == b.complement_val
    &&& a.complement_char == b.complement_char
}

// ---------------------------------------------------------------------------
// Options and sets
// ---------------------------------------------------------------------------
/// The options and strings that are refused, and what each is refused with. The
/// first that applies counts.
pub proof fn law_conflicts(args: Args)
    ensures
        args.complement_char && args.complement_val ==> args.conflict() == Some(
            "Options '-c' and '-C' cannot be used together"@,
        ),
        args.complement_char != args.complement_val && args.squeeze_repeats && !args.delete
            && args.string2 is None ==> args.conflict() == Some(
            "Option '-c' or '-C' may only be used with 2 strings"@,
        ),
        !(args.complement_char && args.complement_val) && !args.squeeze_repeats && !args.delete
            && args.string2 is None ==> args.conflict() == Some("Need two strings operand"@),
        !(args.complement_char && args.complement_val) && args.string1@.len() == 0 && (
        args.string2 is Some || args.delete || args.squeeze_repeats && !args.complement_char
            && !args.complement_val) ==> args.conflict() == Some(
            "At least 1 string operand is required"@,
        ),
        !(args.complement_char && args.complement_val) && args.string1@.len() > 0 && (
        args.string2 is Some || args.delete || args.squeeze_repeats && !args.complement_char
            && !args.complement_val) ==> args.conflict() is None,
{
}

/// The only runs that lack a second set are those that would replace a complement
/// without one.
pub proof fn law_lacking_second_set(args: Args, has_second_set: bool)
    ensures
        tr::lacks_second_set(args, has_second_set) <==> (args.complement_char
            || args.complement_val) && !args.delete && !args.squeeze_repeats && !has_second_set,
{
}

/// The sets of a run are what its strings stand for, each for itself. The first
/// string that is refused decides. The remarks come in the order of the strings.
pub proof fn law_sets_of_a_run(args: Args)
    ensures
        ({
            let first = parse::parsed(args.string1@);
            let sets = tr::parsed_sets(args);
            &&& first.operands matches Err(message) ==> sets.sets == Err::<
                (Seq<Operand>, Option<Seq<Operand>>),
                Seq<char>,
            >(message) && sets.warnings == first.warnings
            &&& first.operands matches Ok(set1) ==> {
                &&& args.string2 is None ==> sets.sets == Ok::<
                    (Seq<Operand>, Option<Seq<Operand>>),
                    Seq<char>,
                >((set1, None)) && sets.warnings == first.warnings
                &&& args.string2 matches Some(string2) ==> {
                    let second = parse::parsed(string2@);
                    &&& sets.warnings == first.warnings + second.warnings
                    &&& second.operands matches Ok(set2) ==> sets.sets == Ok::<
                        (Seq<Operand>, Option<Seq<Operand>>),
                        Seq<char>,
                    >((set1, Some(set2)))
                    &&& second.operands matches Err(message) ==> sets.sets == Err::<
                        (Seq<Operand>, Option<Seq<Operand>>),
                        Seq<char>,
                    >(message)
                }
            }
        }),
{
}

/// A set that is there is seen with all its elements.
pub proof fn law_optional_sets(operands: Vec<Operand>)
    ensures
        tr::set_of(Some(operands)) == Some(operands@),
        tr::set_of(None) is None,
{
}

// ---------------------------------------------------------------------------
// Deleting
// ---------------------------------------------------------------------------
/// What is kept of a text is every occurrence of a character that is asked for, in
/// order.
pub proof fn law_retained_exactly(input: Seq<char>, operands: Seq<Operand>)
    ensures
        tr::retained(input, operands, true) == input.filter(
            |c: char| Operand::listed(operands, c),
        ),
        tr::retained(input, operands, false) == input.filter(
            |c: char| !Operand::listed(operands, c),
        ),
{
    let keeps = |c: char| Operand::listed(operands, c) == true;
    let listed = |c: char| Operand::listed(operands, c);
    assert(keeps =~= listed);
    let drops = |c: char| Operand::listed(operands, c) == false;
    let unlisted = |c: char| !Operand::listed(operands, c);
    assert(drops =~= unlisted);
}

/// A run that deletes and does not squeeze leaves every occurrence of the characters
/// that are not in the first set, in order. With the complement, it leaves every
/// occurrence of those that are.
pub proof fn law_delete_run_exactly(
    args: Args,
    string1_operands: Seq<Operand>,
    string2_operands: Option<Seq<Operand>>,
    input: Seq<char>,
)
    requires
        args.delete,
        !args.squeeze_repeats,
    ensures
        args.complement_char || args.complement_val ==> tr::transformed(
            args,
            string1_operands,
            string2_operands,
            input,
        ) == Ok::<Seq<char>, Seq<char>>(
            input.filter(|c: char| Operand::listed(string1_operands, c)),
        ),
        !args.complement_char && !args.complement_val ==> tr::transformed(
            args,
            string1_operands,
            string2_operands,
            input,
        ) == Ok::<Seq<char>, Seq<char>>(
            input.filter(|c: char| !Operand::listed(string1_operands, c)),
        ),
{
    law_retained_exactly(input, string1_operands);
}

// ---------------------------------------------------------------------------
// Squeezing
// ---------------------------------------------------------------------------
/// A run that squeezes gives what it gives without squeezing, with the runs of the
/// characters of the second set squeezed, or those of the first where there is no
/// second. With one set and nothing to delete, it is the input that is squeezed.
pub proof fn law_squeeze_run_exactly(
    args: Args,
    unsqueezed: Args,
    string1_operands: Seq<Operand>,
    set2: Seq<Operand>,
    input: Seq<char>,
)
    requires
        args.squeeze_repeats,
        !unsqueezed.squeeze_repeats,
        same_but_squeezing(args, unsqueezed),
    ensures
        tr::transformed(args, string1_operands, Some(set2), input) == match tr::transformed(
            unsqueezed,
            string1_operands,
            Some(set2),
            input,
        ) {
            Ok(output) => Ok::<Seq<char>, Seq<char>>(squeeze::squeezed(output, set2)),
            Err(message) => Err(message),
        },
        args.delete ==> tr::transformed(args, string1_operands, None, input)
            == match tr::transformed(unsqueezed, string1_operands, None, input) {
            Ok(output) => Ok::<Seq<char>, Seq<char>>(squeeze::squeezed(output, string1_operands)),
            Err(message) => Err(message),
        },
        !args.delete ==> tr::transformed(args, string1_operands, None, input) == Ok::<
            Seq<char>,
            Seq<char>,
        >(squeeze::squeezed(input, string1_operands)),
        tr::last_set(string1_operands, Some(set2)) == set2,
        tr::last_set(string1_operands, None) == string1_operands,
{
}

/// With two sets, squeezing drops no character that is not in the second set, and
/// leaves no character of the second set next to itself.
pub proof fn law_squeezing_keeps_to_the_second_set(
    args: Args,
    unsqueezed: Args,
    string1_operands: Seq<Operand>,
    set2: Seq<Operand>,
    input: Seq<char>,
    i: int,
)
    requires
        args.squeeze_repeats,
        !unsqueezed.squeeze_repeats,
        same_but_squeezing(args, unsqueezed),
    ensures
        tr::transformed(unsqueezed, string1_operands, Some(set2), input) matches Ok(before) ==> {
            &&& tr::transformed(args, string1_operands, Some(set2), input) matches Ok(output)
            &&& output.filter(|c: char| !Operand::listed(set2, c)) == before.filter(
                |c: char| !Operand::listed(set2, c),
            )
            &&& 0 < i < output.len() && Operand::listed(set2, output[i]) ==> output[i - 1]
                != output[i]
        },
{
    law_squeeze_run_exactly(args, unsqueezed, string1_operands, set2, input);
    if tr::transformed(unsqueezed, string1_operands, Some(set2), input) is Ok {
        let before = tr::transformed(unsqueezed, string1_operands, Some(set2), input)->Ok_0;
        let output = squeeze::squeezed(before, set2);
        laws::law_squeezing_spares_the_rest(before, set2, 'x');
        law_retained_exactly(before, set2);
        law_retained_exactly(output, set2);
        if 0 < i < output.len() && Operand::listed(set2, output[i]) {
            laws::law_squeezed_has_no_runs(before, set2, i);
        }
    }
}

// ---------------------------------------------------------------------------
// Translating
// ---------------------------------------------------------------------------
/// A run without options gives one character for each character of the input. One
/// that the first set does not stand for stays. Any other becomes the one in the
/// place of the second set where it stands last in the first, whether or not the
/// first set stands for that one too. A second set that is too short is filled up by
/// its `[c*]` construct, or else goes on with its last character.
pub proof fn law_translate_run_places(
    args: Args,
    string1_operands: Seq<Operand>,
    set2: Seq<Operand>,
    input: Seq<char>,
    i: int,
    place: int,
)
    requires
        !args.delete && !args.squeeze_repeats && !args.complement_char && !args.complement_val,
        laws_of_parts::translatable(string1_operands),
        laws_of_parts::targetable(set2),
        set2.len() > 0,
    ensures
        ({
            let from = translate::flattened(string1_operands, 0);
            let given = translate::flattened(set2, 0);
            &&& tr::transformed(args, string1_operands, Some(set2), input) matches Ok(output)
            &&& output.len() == input.len()
            &&& 0 <= i < input.len() && !from.contains(input[i]) ==> output[i] == input[i]
            &&& 0 <= i < input.len() && 0 <= place < from.len() && from[place] == input[i] && (
            forall|q: int| place < q < from.len() ==> from[q] != input[i]) ==> {
                &&& given.len() >= from.len() ==> output[i] == given[place]
                &&& given.len() < from.len() && (exists|k: int|
                    0 <= k < set2.len() && laws_of_parts::is_filling(#[trigger] set2[k])) ==> {
                    let filled = translate::flattened(set2, (from.len() - given.len()) as nat);
                    filled.len() == from.len() && output[i] == filled[place]
                }
                &&& given.len() < from.len() && !(exists|k: int|
                    0 <= k < set2.len() && laws_of_parts::is_filling(#[trigger] set2[k]))
                    ==> output[i] == (if place < given.len() {
                    given[place]
                } else {
                    set2.last().spec_char()
                })
            }
        }),
{
    if 0 <= i < input.len() {
        laws_of_parts::law_translation_map(string1_operands, set2, input[i], place);
        let map = translate::transformation(string1_operands, set2)->Ok_0;
        laws_of_parts::law_mapped_once(map, input, i);
    } else {
        laws_of_parts::law_translation_map(string1_operands, set2, 'x', place);
    }
}

/// Without a second set that stands for something, there is nothing to translate
/// to. Sets that cannot be translated are refused as such.
pub proof fn law_translate_run_errors(
    args: Args,
    string1_operands: Seq<Operand>,
    set2: Seq<Operand>,
    input: Seq<char>,
)
    requires
        !args.delete && !args.complement_char && !args.complement_val,
    ensures
        !args.squeeze_repeats ==> tr::transformed(args, string1_operands, None, input) == Err::<
            Seq<char>,
            Seq<char>,
        >("tr: missing operand"@),
        set2.len() == 0 ==> tr::transformed(args, string1_operands, Some(set2), input) == Err::<
            Seq<char>,
            Seq<char>,
        >("tr: when not truncating set1, string2 must be non-empty"@),
        set2.len() > 0 ==> (translate::transformation(string1_operands, set2) matches Err(message)
            ==> tr::transformed(args, string1_operands, Some(set2), input) == Err::<
            Seq<char>,
            Seq<char>,
        >(message)),
{
}

/// With strings of plain text and no options, a character of the first string
/// becomes the one in the same place of the second, or its last one where it is too
/// short. The last place of a character counts. All other characters stay.
pub proof fn law_plain_run_places(
    args: Args,
    string2: Seq<char>,
    input: Seq<char>,
    i: int,
    place: int,
)
    requires
        !args.delete && !args.squeeze_repeats && !args.complement_char && !args.complement_val,
        args.string2 matches Some(text) && text@ == string2,
        laws::is_plain(args.string1@),
        laws::is_plain(string2),
        args.string1@.len() <= usize::MAX,
        0 < string2.len() <= usize::MAX,
    ensures
        ({
            let string1 = args.string1@;
            &&& run(args, input) matches Ok(output)
            &&& output.len() == input.len()
            &&& 0 <= i < input.len() && !string1.contains(input[i]) ==> output[i] == input[i]
            &&& 0 <= i < input.len() && 0 <= place < string1.len() && string1[place] == input[i]
                && (forall|q: int| place < q < string1.len() ==> string1[q] != input[i])
                ==> output[i] == (if place < string2.len() {
                string2[place]
            } else {
                string2.last()
            })
        }),
{
    let set1 = Operand::literals(args.string1@);
    let set2 = Operand::literals(string2);
    laws::law_plain_text_is_literal(args.string1@);
    laws::law_plain_text_is_literal(string2);
    laws::law_literals_flatten(args.string1@, 0);
    laws::law_literals_flatten(string2, 0);
    assert(laws_of_parts::translatable(set1));
    assert(laws_of_parts::targetable(set2));
    law_translate_run_places(args, set1, set2, input, i, place);
    assert(set2.last().spec_char() == string2.last());
    assert(forall|k: int| 0 <= k < set2.len() ==> !laws_of_parts::is_filling(#[trigger] set2[k]));
}

// ---------------------------------------------------------------------------
// Replacing the complement
// ---------------------------------------------------------------------------
/// The second set of a run with a complement: as it is written with `-C`, and in
/// the order of its characters with `-c`.
pub open spec fn is_replacement_set(
    args: Args,
    set2: Seq<Operand>,
    replacements: Seq<Operand>,
) -> bool {
    if args.complement_char {
        replacements == set2
    } else {
        replacements == sort::in_char_order(set2)
    }
}

/// A run with a complement keeps each character of the first set. It replaces each
/// other one, whatever it is, by the next character of the second set: after as many
/// as there are characters outside the first set before it. When all have been used,
/// it starts again. A `[c*]` construct is never used up.
pub proof fn law_complement_run_places(
    args: Args,
    string1_operands: Seq<Operand>,
    set2: Seq<Operand>,
    replacements: Seq<Operand>,
    input: Seq<char>,
    i: int,
    j: int,
)
    requires
        !args.delete && !args.squeeze_repeats && (args.complement_char || args.complement_val),
        is_replacement_set(args, set2, replacements),
        replacements.len() > 0,
        0 <= i < input.len(),
    ensures
        ({
            let row = laws_of_parts::spelled_out(replacements);
            let k = input.take(i).filter(|c: char| !Operand::listed(string1_operands, c)).len();
            &&& tr::transformed(args, string1_operands, Some(set2), input) matches Ok(output)
            &&& output.len() == input.len()
            &&& Operand::listed(string1_operands, input[i]) ==> output[i] == input[i]
            &&& !Operand::listed(string1_operands, input[i]) ==> {
                &&& output[i] == complement::replacement(replacements, k)
                &&& (forall|e: int|
                    0 <= e < replacements.len() ==> !laws_of_parts::is_filling(
                        #[trigger] replacements[e],
                    )) && row.len() > 0 ==> output[i] == row[(k % row.len()) as int]
                &&& 0 <= j < replacements.len() && laws_of_parts::is_filling(replacements[j]) && (
                forall|e: int|
                    0 <= e < j ==> !laws_of_parts::is_filling(#[trigger] replacements[e])) ==> {
                    let start = laws_of_parts::spelled_out(replacements.take(j));
                    output[i] == (if k < start.len() {
                        start[k as int]
                    } else {
                        replacements[j].spec_char()
                    })
                }
            }
        }),
{
    let k = input.take(i).filter(|c: char| !Operand::listed(string1_operands, c)).len();
    laws_of_parts::law_complement_places(input, string1_operands, replacements, i);
    laws_of_parts::law_replacements_in_order(replacements, k, j);
}

/// A second set that is empty has no replacement for a character outside the first
/// set.
pub proof fn law_complement_run_without_replacements(
    args: Args,
    string1_operands: Seq<Operand>,
    input: Seq<char>,
    i: int,
)
    requires
        !args.delete && !args.squeeze_repeats && (args.complement_char || args.complement_val),
    ensures
        0 <= i < input.len() && !Operand::listed(string1_operands, input[i]) ==> tr::transformed(
            args,
            string1_operands,
            Some(Seq::empty()),
            input,
        ) == Err::<Seq<char>, Seq<char>>("Indexing failed"@),
        (forall|j: int|
            0 <= j < input.len() ==> Operand::listed(string1_operands, #[trigger] input[j]))
            ==> tr::transformed(args, string1_operands, Some(Seq::empty()), input) == Ok::<
            Seq<char>,
            Seq<char>,
        >(input),
{
    let none = Seq::<Operand>::empty();
    lemma_empty_order();
    assert(tr::replacements(args, none) == none);
    if 0 <= i < input.len() {
        laws_of_parts::law_complement_places(input, string1_operands, none, i);
    }
    if forall|j: int|
        0 <= j < input.len() ==> Operand::listed(string1_operands, #[trigger] input[j]) {
        if input.len() > 0 {
            laws_of_parts::law_complement_places(input, string1_operands, none, 0);
            let output = tr::transformed(args, string1_operands, Some(none), input)->Ok_0;
            assert forall|j: int| 0 <= j < input.len() implies output[j] == input[j] by {
                laws_of_parts::law_complement_places(input, string1_operands, none, j);
            }
            assert(output =~= input);
        } else {
            assert(input =~= Seq::<char>::empty());
            lemma_nothing_to_replace(string1_operands);
        }
    }
}

proof fn lemma_empty_order()
    ensures
        sort::in_char_order(Seq::empty()) == Seq::<Operand>::empty(),
{
    laws::law_ordered_set_stays(Seq::empty());
}

proof fn lemma_nothing_to_replace(chars1: Seq<Operand>)
    ensures
        complement::complement_outcome(Seq::empty(), chars1, Seq::empty()) == Ok::<
            Seq<char>,
            Seq<char>,
        >(Seq::empty()),
{
    laws_of_parts::law_complement_places(seq!['x'], chars1, Seq::empty(), 0);
}

} // verus!
