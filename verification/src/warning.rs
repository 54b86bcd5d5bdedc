//! What the reader of a set has to tell without refusing it.

use vstd::prelude::*;

verus! {

/// A remark on the way a set is written.
#[derive(Clone, Copy, Debug, PartialEq, Eq, Structural)]
pub enum Warning {
    /// Three octal digits after a backslash are more than a byte holds. The first
    /// two make the byte, and the third stands for itself.
    AmbiguousOctalEscape { first: char, second: char, third: char },
    /// The last character is a backslash with nothing to escape.
    TrailingBackslash,
}

impl Warning {
    /// The wording of the remark.
    pub open spec fn spec_message(self) -> Seq<char> {
        match self {
            Warning::AmbiguousOctalEscape { first, second, third } => {
                "tr: warning: the ambiguous octal escape \\"@ + seq![first, second, third]
                    + " is being interpreted as the 2-byte sequence \\0"@ + seq![first, second]
                    + ", "@ + seq![third]
            },
            Warning::TrailingBackslash => {
                "tr: warning: an unescaped backslash at end of string is not portable"@
            },
        }
    }

    /// The wording of the remark.
    pub fn message(&self) -> (message: String)
        ensures
            message@ == self.spec_message(),
    {
        match self {
            Warning::AmbiguousOctalEscape { first, second, third } => {
                let mut message = "tr: warning: the ambiguous octal escape \\".to_owned();
                message.push(*first);
                message.push(*second);
                message.push(*third);
                message.append(" is being interpreted as the 2-byte sequence \\0");
                message.push(*first);
                message.push(*second);
                message.append(", ");
                message.push(*third);
                assert(message@ == self.spec_message());
                message
            },
            Warning::TrailingBackslash => {
                "tr: warning: an unescaped backslash at end of string is not portable".to_owned()
            },
        }
    }
}

} // verus!
