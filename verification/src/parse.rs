//! The writing of a whole set: characters, ranges, escapes and bracketed constructs.

use crate::class;
use crate::class::expand_character_class;
use crate::construct;
use crate::construct::{parse_equiv, parse_repeated_char};
use crate::escape;
use crate::escape::{parse_range_or_single_char, parse_single_char, Piece};
use crate::operand::Operand;
use crate::scanner::Scanner;
use crate::warning::Warning;
use vstd::prelude::*;

verus! {

/// The place of the first closing bracket at or after the place `from`.
pub open spec fn closing_bracket(chars: Seq<char>, from: int) -> Option<int>
    decreases chars.len() - from,
{
    if from >= chars.len() {
        None
    } else if chars[from] == ']' {
        Some(from)
    } else {
        closing_bracket(chars, from + 1)
    }
}

/// A single element, as a set.
pub open spec fn one_operand(operand: Result<Operand, Seq<char>>) -> Result<
    Seq<Operand>,
    Seq<char>,
> {
    match operand {
        Ok(o) => Ok(seq![o]),
        Err(message) => Err(message),
    }
}

/// The set that a text in brackets stands for, or `None` where it is none of the
/// constructs `[:class:]`, `[=equiv=]` and `[x*n]`.
pub open spec fn construct_operands(text: Seq<char>) -> Option<Result<Seq<Operand>, Seq<char>>> {
    let before_closing = text[text.len() - 2];
    if text[1] == ':' && before_closing == ':' {
        Some(class::class_operands(text))
    } else if text[1] == '=' && before_closing == '=' {
        Some(construct::equiv_operands(text))
    } else if text[2] == '*' {
        Some(one_operand(construct::repeated_operand(text)))
    } else {
        None
    }
}

/// The text in brackets at the start of `rest`: it ends at the first closing
/// bracket that leaves room for two characters inside.
pub open spec fn bracketed(rest: Seq<char>) -> Option<Seq<char>> {
    if rest[0] != '[' {
        None
    } else {
        match closing_bracket(rest, 3) {
            Some(end) => Some(rest.take(end + 1)),
            None => None,
        }
    }
}

/// The piece at the start of `rest`, which is not empty, where no construct starts
/// there.
pub open spec fn plain_piece(rest: Seq<char>) -> Piece {
    let first = escape::single_char(rest);
    let piece = escape::range_or_single_char(first.char, rest.skip(first.read as int));
    Piece {
        operands: piece.operands,
        read: first.read + piece.read,
        warnings: first.warnings + piece.warnings,
    }
}

/// The piece at the start of `rest`, which is not empty.
pub open spec fn next_piece(rest: Seq<char>) -> Piece {
    match bracketed(rest) {
        Some(text) => match construct_operands(text) {
            Some(operands) => Piece { operands, read: text.len(), warnings: Seq::empty() },
            None => plain_piece(rest),
        },
        None => plain_piece(rest),
    }
}

/// A set, as its writing is read to the end or to the first error.
pub struct Parsed {
    /// The elements of the set, or why there is none.
    pub operands: Result<Seq<Operand>, Seq<char>>,
    /// The remarks on the way it is written.
    pub warnings: Seq<Warning>,
}

/// The set that `rest` describes: its pieces one after the other.
pub open spec fn parsed(rest: Seq<char>) -> Parsed
    decreases rest.len(),
{
    if rest.len() == 0 {
        Parsed { operands: Ok(Seq::empty()), warnings: Seq::empty() }
    } else {
        proof {
            lemma_next_piece_read(rest);
        }
        let piece = next_piece(rest);
        match piece.operands {
            Ok(operands) => {
                let tail = parsed(rest.skip(piece.read as int));
                Parsed {
                    operands: match tail.operands {
                        Ok(more) => Ok(operands + more),
                        Err(message) => Err(message),
                    },
                    warnings: piece.warnings + tail.warnings,
                }
            },
            Err(message) => Parsed { operands: Err(message), warnings: piece.warnings },
        }
    }
}

/// A closing bracket is where it has been found, and nowhere before.
pub proof fn lemma_closing_bracket(chars: Seq<char>, from: int)
    ensures
        closing_bracket(chars, from) matches Some(end) ==> {
            &&& from <= end < chars.len()
            &&& chars[end] == ']'
            &&& forall|i: int| from <= i < end ==> chars[i] != ']'
        },
    decreases chars.len() - from,
{
    if from < chars.len() && chars[from] != ']' {
        lemma_closing_bracket(chars, from + 1);
    }
}

/// A closing bracket is found where the first one is.
pub proof fn lemma_first_closing_bracket(chars: Seq<char>, from: int, end: int)
    requires
        from <= end < chars.len(),
        chars[end] == ']',
        forall|i: int| from <= i < end ==> chars[i] != ']',
    ensures
        closing_bracket(chars, from) == Some(end),
    decreases end - from,
{
    if from < end {
        lemma_first_closing_bracket(chars, from + 1, end);
    }
}

/// A piece is written with one character or more of the text, and with no more
/// than there are.
pub proof fn lemma_next_piece_read(rest: Seq<char>)
    requires
        rest.len() > 0,
    ensures
        1 <= next_piece(rest).read <= rest.len(),
{
    lemma_closing_bracket(rest, 3);
    let first = escape::single_char(rest);
    escape::lemma_single_char_read(rest);
    escape::lemma_range_read(first.char, rest.skip(first.read as int));
}

/// Every element that is read is well formed.
pub proof fn lemma_parsed_well_formed(rest: Seq<char>)
    ensures
        parsed(rest).operands matches Ok(operands) ==> Operand::all_well_formed(operands),
    decreases rest.len(),
{
    if rest.len() > 0 {
        lemma_next_piece_read(rest);
        lemma_parsed_well_formed(rest.skip(next_piece(rest).read as int));
    }
}

/// The length of the text in brackets that the scanner is at.
fn bracketed_len(scanner: &Scanner) -> (len: Option<usize>)
    requires
        scanner@.len() > 0,
    ensures
        match bracketed(scanner@) {
            Some(text) => {
                &&& len matches Some(n)
                &&& 4 <= n <= scanner@.len()
                &&& text == scanner@.take(n as int)
            },
            None => len is None,
        },
{
    if scanner.get(0) != '[' {
        return None;
    }
    let available = scanner.len();
    let mut end: usize = 3;
    while end < available
        invariant
            end >= 3,
            available == scanner@.len(),
            closing_bracket(scanner@, end as int) == closing_bracket(scanner@, 3),
            scanner@[0] == '[',
        decreases available - end,
    {
        if scanner.get(end) == ']' {
            return Some(end + 1);
        }
        end += 1;
    }
    None
}

/// Reads a text in brackets. Where it is a construct, its elements are appended to
/// the set.
fn parse_construct(buffer: &[char], operand_vec: &mut Vec<Operand>) -> (result: Result<
    bool,
    String,
>)
    requires
        buffer@.len() >= 4,
        buffer@[0] == '[',
        buffer@[buffer@.len() - 1] == ']',
        forall|i: int| 3 <= i < buffer@.len() - 1 ==> buffer@[i] != ']',
    ensures
        match construct_operands(buffer@) {
            Some(Ok(operands)) => {
                &&& result matches Ok(is_construct)
                &&& is_construct
                &&& final(operand_vec)@ == old(operand_vec)@ + operands
            },
            Some(Err(message)) => result matches Err(text) && text@ == message,
            None => {
                &&& result matches Ok(is_construct)
                &&& !is_construct
                &&& final(operand_vec)@ == old(operand_vec)@
            },
        },
{
    let before_closing = buffer[buffer.len() - 2];
    if buffer[1] == ':' && before_closing == ':' {
        expand_character_class(buffer, operand_vec)?;
        return Ok(true);
    }
    if buffer[1] == '=' && before_closing == '=' {
        let mut operands = parse_equiv(buffer)?;
        operand_vec.append(&mut operands);
        return Ok(true);
    }
    if buffer[2] == '*' {
        let operand = parse_repeated_char(buffer)?;
        operand_vec.push(operand);
        assert(operand_vec@ == old(operand_vec)@ + seq![operand]);
        return Ok(true);
    }
    Ok(false)
}

/// Reads the piece that the scanner is at, and appends its elements to the set.
fn parse_piece(
    scanner: &mut Scanner,
    operand_vec: &mut Vec<Operand>,
    warnings: &mut Vec<Warning>,
) -> (result: Result<(), String>)
    requires
        old(scanner)@.len() > 0,
    ensures
        ({
            let piece = next_piece(old(scanner)@);
            &&& final(warnings)@ == old(warnings)@ + piece.warnings
            &&& match piece.operands {
                Ok(operands) => {
                    &&& result is Ok
                    &&& final(scanner)@ == old(scanner)@.skip(piece.read as int)
                    &&& final(operand_vec)@ == old(operand_vec)@ + operands
                },
                Err(message) => result matches Err(text) && text@ == message,
            }
        }),
{
    let ghost rest = scanner@;
    if let Some(len) = bracketed_len(scanner) {
        let buffer = scanner.prefix(len);
        proof {
            lemma_closing_bracket(rest, 3);
        }
        if parse_construct(buffer.as_slice(), operand_vec)? {
            scanner.skip(len);
            return Ok(());
        }
    }
    assert(next_piece(rest) == plain_piece(rest));
    let ghost first = escape::single_char(rest);
    if let Some(char) = parse_single_char(scanner, warnings)? {
        proof {
            escape::lemma_single_char_read(rest);
            escape::lemma_range_read(char, scanner@);
            assert(scanner@ == rest.skip(first.read as int));
        }
        let ghost second = escape::range_or_single_char(char, scanner@);
        assert(old(warnings)@ + first.warnings + second.warnings == old(warnings)@ + (first.warnings
            + second.warnings));
        assert(scanner@.skip(second.read as int) == rest.skip(first.read + second.read as int));
        parse_range_or_single_char(char, scanner, operand_vec, warnings)?;
    }
    Ok(())
}

/// Reads the writing of a set. The remarks on it are appended to `warnings`, also
/// where the set is refused.
pub fn parse_string1_or_string2(string1_or_string2: &str, warnings: &mut Vec<Warning>) -> (result:
    Result<Vec<Operand>, String>)
    ensures
        final(warnings)@ == old(warnings)@ + parsed(string1_or_string2@).warnings,
        match parsed(string1_or_string2@).operands {
            Ok(operands) => result matches Ok(o) && o@ == operands,
            Err(message) => result matches Err(text) && text@ == message,
        },
{
    let ghost whole = parsed(string1_or_string2@);
    let mut operand_vec: Vec<Operand> = Vec::new();
    let mut scanner = Scanner::new(string1_or_string2);
    proof {
        if whole.operands is Ok {
            assert(operand_vec@ + whole.operands->Ok_0 == whole.operands->Ok_0);
        }
    }
    while scanner.len() > 0
        invariant
            whole == parsed(string1_or_string2@),
            old(warnings)@ + whole.warnings == warnings@ + parsed(scanner@).warnings,
            match parsed(scanner@).operands {
                Ok(more) => whole.operands == Ok::<Seq<Operand>, Seq<char>>(operand_vec@ + more),
                Err(message) => whole.operands == Err::<Seq<Operand>, Seq<char>>(message),
            },
        decreases scanner@.len(),
    {
        let ghost piece = next_piece(scanner@);
        let ghost tail = parsed(scanner@.skip(piece.read as int));
        proof {
            lemma_next_piece_read(scanner@);
            if piece.operands is Ok {
                let operands = piece.operands->Ok_0;
                assert(warnings@ + piece.warnings + tail.warnings == warnings@ + (piece.warnings
                    + tail.warnings));
                if tail.operands is Ok {
                    let more = tail.operands->Ok_0;
                    assert(operand_vec@ + operands + more == operand_vec@ + (operands + more));
                }
            }
        }
        parse_piece(&mut scanner, &mut operand_vec, warnings)?;
    }
    assert(operand_vec@ + Seq::<Operand>::empty() == operand_vec@);
    assert(warnings@ + Seq::<Warning>::empty() == warnings@);
    Ok(operand_vec)
}

} // verus!
