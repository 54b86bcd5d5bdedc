//! What is asked for: the options and the two sets.

use vstd::prelude::*;

verus! {

/// The options of a run and the writing of its sets.
#[derive(Debug)]
pub struct Args {
    /// Delete characters in STRING1 from the input.
    pub delete: bool,
    /// Replace each input sequence of a repeated character that is listed in the
    /// last specified SET, with a single occurrence of that character.
    pub squeeze_repeats: bool,
    /// Use the complement of STRING1's values.
    pub complement_val: bool,
    /// Use the complement of STRING1's characters.
    pub complement_char: bool,
    /// First string.
    pub string1: String,
    /// Second string (not required if delete mode is on).
    pub string2: Option<String>,
}

impl Args {
    /// Whether the complement of the first set is meant.
    pub open spec fn complements(self) -> bool {
        self.complement_char || self.complement_val
    }

    /// Why the options and sets do not go together.
    pub open spec fn conflict(self) -> Option<Seq<char>> {
        if self.complement_char && self.complement_val {
            Some("Options '-c' and '-C' cannot be used together"@)
        } else if self.squeeze_repeats && self.string2 is None && self.complements()
            && !self.delete {
            Some("Option '-c' or '-C' may only be used with 2 strings"@)
        } else if !self.squeeze_repeats && !self.delete && self.string2 is None {
            Some("Need two strings operand"@)
        } else if self.string1@.len() == 0 {
            Some("At least 1 string operand is required"@)
        } else {
            None
        }
    }

    /// Checks that the options and sets go together.
    pub fn validate_args(&self) -> (result: Result<(), String>)
        ensures
            match self.conflict() {
                None => result is Ok,
                Some(message) => result matches Err(text) && text@ == message,
            },
    {
        if self.complement_char && self.complement_val {
            return Err("Options '-c' and '-C' cannot be used together".to_owned());
        }
        if self.squeeze_repeats && self.string2.is_none() && (self.complement_char
            || self.complement_val) && !self.delete {
            return Err("Option '-c' or '-C' may only be used with 2 strings".to_owned());
        }
        if !self.squeeze_repeats && !self.delete && self.string2.is_none() {
            return Err("Need two strings operand".to_owned());
        }
        if self.string1.as_str().is_empty() {
            return Err("At least 1 string operand is required".to_owned());
        }
        Ok(())
    }
}

} // verus!
