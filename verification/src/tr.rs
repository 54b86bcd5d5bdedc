//! A whole run: from the options, the sets and the input to the output.

use crate::args::Args;
use crate::complement;
use crate::complement::complement_chars;
use crate::operand::Operand;
use crate::parse;
use crate::parse::parse_string1_or_string2;
use crate::sort;
use crate::sort::sort_by_char;
use crate::squeeze;
use crate::squeeze::squeeze;
use crate::text::{chars_of, string_of};
use crate::translate;
use crate::translate::{generate_transformation_hash_map, translate};
use crate::warning::Warning;
use vstd::prelude::*;

verus! {

/// The two sets of a run, or why there are none, and the remarks on their writing.
pub struct ParsedSets {
    pub sets: Result<(Seq<Operand>, Option<Seq<Operand>>), Seq<char>>,
    pub warnings: Seq<Warning>,
}

/// The sets that the strings of a run describe. The second string is read only
/// where the first one is in order.
pub open spec fn parsed_sets(args: Args) -> ParsedSets {
    let first = parse::parsed(args.string1@);
    match first.operands {
        Err(message) => ParsedSets { sets: Err(message), warnings: first.warnings },
        Ok(string1_operands) => match args.string2 {
            None => ParsedSets { sets: Ok((string1_operands, None)), warnings: first.warnings },
            Some(string2) => {
                let second = parse::parsed(string2@);
                ParsedSets {
                    sets: match second.operands {
                        Ok(string2_operands) => Ok((string1_operands, Some(string2_operands))),
                        Err(message) => Err(message),
                    },
                    warnings: first.warnings + second.warnings,
                }
            },
        },
    }
}

/// The elements of an optional set.
pub open spec fn set_of(operands: Option<Vec<Operand>>) -> Option<Seq<Operand>> {
    match operands {
        Some(o) => Some(o@),
        None => None,
    }
}

/// The set that is squeezed: the last one that is given.
pub open spec fn last_set(
    string1_operands: Seq<Operand>,
    string2_operands: Option<Seq<Operand>>,
) -> Seq<Operand> {
    match string2_operands {
        Some(set2) => set2,
        None => string1_operands,
    }
}

/// The characters of `input` that are in the set, or those that are not.
pub open spec fn retained(input: Seq<char>, operands: Seq<Operand>, listed: bool) -> Seq<char> {
    input.filter(|c: char| Operand::listed(operands, c) == listed)
}

/// The replacements for the complement of the first set: the second set as it is
/// written, or in the order of its characters.
pub open spec fn replacements(args: Args, string2_operands: Seq<Operand>) -> Seq<Operand> {
    if args.complement_char {
        string2_operands
    } else {
        sort::in_char_order(string2_operands)
    }
}

/// The input with its characters replaced, before it is squeezed.
pub open spec fn replaced(
    args: Args,
    string1_operands: Seq<Operand>,
    string2_operands: Option<Seq<Operand>>,
    input: Seq<char>,
) -> Result<Seq<char>, Seq<char>> {
    match string2_operands {
        None => Err("tr: missing operand"@),
        Some(set2) => if args.complements() {
            complement::complement_outcome(input, string1_operands, replacements(args, set2))
        } else if set2.len() == 0 {
            Err("tr: when not truncating set1, string2 must be non-empty"@)
        } else {
            match translate::transformation(string1_operands, set2) {
                Ok(map) => Ok(translate::translated(map, input)),
                Err(message) => Err(message),
            }
        },
    }
}

/// The output of a run with the given sets.
pub open spec fn transformed(
    args: Args,
    string1_operands: Seq<Operand>,
    string2_operands: Option<Seq<Operand>>,
    input: Seq<char>,
) -> Result<Seq<char>, Seq<char>> {
    let outcome = if args.delete {
        Ok(retained(input, string1_operands, args.complements()))
    } else if args.squeeze_repeats && string2_operands is None {
        Ok(input)
    } else {
        replaced(args, string1_operands, string2_operands, input)
    };
    match outcome {
        Ok(output) => if args.squeeze_repeats {
            Ok(squeeze::squeezed(output, last_set(string1_operands, string2_operands)))
        } else {
            Ok(output)
        },
        Err(message) => Err(message),
    }
}

/// Whether a run with the given options lacks the second set that it would need:
/// a complement without one can only be deleted or squeezed.
pub open spec fn lacks_second_set(args: Args, has_second_set: bool) -> bool {
    args.complements() && !args.delete && !args.squeeze_repeats && !has_second_set
}

/// Reads the sets of a run. The remarks on their writing are appended to
/// `warnings`, also where a set is refused.
pub fn parse_sets(args: &Args, warnings: &mut Vec<Warning>) -> (result: Result<
    (Vec<Operand>, Option<Vec<Operand>>),
    String,
>)
    ensures
        final(warnings)@ == old(warnings)@ + parsed_sets(*args).warnings,
        match parsed_sets(*args).sets {
            Ok((set1, set2)) => {
                &&& result matches Ok((string1_operands, string2_operands))
                &&& string1_operands@ == set1
                &&& set_of(string2_operands) == set2
            },
            Err(message) => result matches Err(text) && text@ == message,
        },
{
    let string1_operands = parse_string1_or_string2(args.string1.as_str(), warnings)?;
    match &args.string2 {
        Some(string2) => {
            let ghost first = parse::parsed(args.string1@);
            let ghost second = parse::parsed(string2@);
            assert(old(warnings)@ + first.warnings + second.warnings == old(warnings)@ + (
            first.warnings + second.warnings));
            let string2_operands = parse_string1_or_string2(string2.as_str(), warnings)?;
            Ok((string1_operands, Some(string2_operands)))
        },
        None => Ok((string1_operands, None)),
    }
}

/// Keeps the characters of `input` that are in the set, or those that are not.
pub fn retain(input: &[char], operands: &[Operand], listed: bool) -> (output: Vec<char>)
    ensures
        output@ == retained(input@, operands@, listed),
{
    let mut output: Vec<char> = Vec::new();
    let mut i: usize = 0;
    proof {
        reveal(Seq::filter);
    }
    while i < input.len()
        invariant
            i <= input@.len(),
            output@ == retained(input@.take(i as int), operands@, listed),
        decreases input@.len() - i,
    {
        proof {
            reveal(Seq::filter);
            assert(input@.take(i + 1).drop_last() == input@.take(i as int));
        }
        if Operand::contains(operands, &input[i]) == listed {
            output.push(input[i]);
        }
        i += 1;
    }
    assert(input@.take(i as int) == input@);
    output
}

/// Replaces the characters of the input, without squeezing it.
fn replace(
    args: &Args,
    string1_operands: &[Operand],
    string2_operands: &[Operand],
    input: &str,
) -> (result: Result<Vec<char>, String>)
    requires
        args.complements() ==> complement::suffices(
            replacements(*args, string2_operands@),
            complement::unlisted_count(string1_operands@, input@),
        ),
    ensures
        match replaced(*args, string1_operands@, Some(string2_operands@), input@) {
            Ok(output) => result matches Ok(chars) && chars@ == output,
            Err(message) => result matches Err(text) && text@ == message,
        },
{
    if args.complement_char {
        let output = complement_chars(input, string1_operands, string2_operands)?;
        return Ok(chars_of(output.as_str()));
    }
    if args.complement_val {
        let set2 = sort_by_char(string2_operands);
        let output = complement_chars(input, string1_operands, set2.as_slice())?;
        return Ok(chars_of(output.as_str()));
    }
    if string2_operands.len() == 0 {
        return Err("tr: when not truncating set1, string2 must be non-empty".to_owned());
    }
    let transformation_map = generate_transformation_hash_map(string1_operands, string2_operands)?;
    Ok(translate(&transformation_map, chars_of(input).as_slice()))
}

/// Translates, squeezes or deletes characters of `input`, as the options say.
pub fn transform(
    args: &Args,
    string1_operands: &[Operand],
    string2_operands: &Option<Vec<Operand>>,
    input: &str,
) -> (result: Result<String, String>)
    requires
        !lacks_second_set(*args, string2_operands is Some),
        args.complements() && !args.delete ==> (string2_operands matches Some(set2)
            ==> complement::suffices(
            replacements(*args, set2@),
            complement::unlisted_count(string1_operands@, input@),
        )),
    ensures
        match transformed(*args, string1_operands@, set_of(*string2_operands), input@) {
            Ok(output) => result matches Ok(text) && text@ == output,
            Err(message) => result matches Err(text) && text@ == message,
        },
{
    let output: Vec<char> = if args.delete {
        let chars = chars_of(input);
        retain(
            chars.as_slice(),
            string1_operands,
            args.complement_char || args.complement_val,
        )
    } else {
        match string2_operands {
            Some(set2) => replace(args, string1_operands, set2.as_slice(), input)?,
            None => {
                if !args.squeeze_repeats {
                    return Err("tr: missing operand".to_owned());
                }
                chars_of(input)
            },
        }
    };
    if !args.squeeze_repeats {
        return Ok(string_of(output.as_slice()));
    }
    let squeezed = match string2_operands {
        Some(set2) => squeeze(output.as_slice(), set2.as_slice()),
        None => squeeze(output.as_slice(), string1_operands),
    };
    Ok(string_of(squeezed.as_slice()))
}

/// Translates, squeezes or deletes characters of `input`, as the options and the
/// writing of the sets say. The remarks on that writing are appended to `warnings`.
pub fn tr(args: &Args, input: &str, warnings: &mut Vec<Warning>) -> (result: Result<
    String,
    String,
>)
    requires
        lacks_second_set(*args, args.string2 is Some) ==> parse::parsed(
            args.string1@,
        ).operands is Err,
    ensures
        final(warnings)@ == old(warnings)@ + parsed_sets(*args).warnings,
        match parsed_sets(*args).sets {
            Ok((set1, set2)) => match transformed(*args, set1, set2, input@) {
                Ok(output) => result matches Ok(text) && text@ == output,
                Err(message) => result matches Err(text) && text@ == message,
            },
            Err(message) => result matches Err(text) && text@ == message,
        },
{
    let (string1_operands, string2_operands) = parse_sets(args, warnings)?;
    proof {
        if args.string2 is Some {
            parse::lemma_parsed_well_formed(args.string2->0@);
            let set2 = string2_operands->0@;
            sort::lemma_in_char_order(set2);
            sort::lemma_stable_sort_well_formed(sort::in_char_order(set2), set2);
        }
    }
    transform(args, string1_operands.as_slice(), &string2_operands, input)
}

} // verus!
