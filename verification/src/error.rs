//! Errors of the block scanner.

use vstd::prelude::*;
use vstd::string::*;

verus! {

/// `String::push` of the standard library: appends one character to the end
/// of the string and leaves the rest as it was.
pub assume_specification[ String::push ](s: &mut String, ch: char)
    ensures
        final(s)@ == old(s)@.push(ch),
;

/// Why a scan for balanced blocks failed.
#[derive(Debug, Clone, Copy, PartialEq, Eq, Structural)]
pub enum BlockError {
    /// A closing delimiter was met while no block was open. Holds the opening
    /// and the closing delimiter, in that order.
    EndCharError(char, char),
    /// The text ended inside a block. Holds the closing and the opening
    /// delimiter, in that order.
    OddNumberError(char, char),
}

impl BlockError {
    /// The text of `message`.
    pub open spec fn message_spec(self) -> Seq<char> {
        match self {
            BlockError::EndCharError(a, b) => "Malformed input. There are more `"@ + seq![a]
                + "` characters than `"@ + seq![b] + "` characters"@,
            BlockError::OddNumberError(a, b) => "The input is malformed. Odd number of `"@
                + seq![a] + "` and `"@ + seq![b] + "` pairs."@,
        }
    }

    /// A sentence for the user that names the two delimiters held.
    pub fn message(&self) -> (m: String)
        ensures
            m@ == self.message_spec(),
    {
        match self {
            BlockError::EndCharError(a, b) => {
                let mut m = String::from_str("Malformed input. There are more `");
                m.push(*a);
                m.append("` characters than `");
                m.push(*b);
                m.append("` characters");
                m
            },
            BlockError::OddNumberError(a, b) => {
                let mut m = String::from_str("The input is malformed. Odd number of `");
                m.push(*a);
                m.append("` and `");
                m.push(*b);
                m.append("` pairs.");
                m
            },
        }
    }
}

} // verus!
