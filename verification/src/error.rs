//! The errors the library reports.

use vstd::prelude::*;
use vstd::string::StringExecFns;

verus! {

/// Why an entry could not be written.
#[derive(Debug, Clone, Copy, PartialEq, Eq, Structural)]
pub enum LogError {
    /// The entry has no message.
    MissingMessage,
    /// The message has a structure of its own, a mapping or a key with its
    /// value, and the entry has children besides.
    InvalidShape,
    /// The message is not a plain text with a colon in it, so it cannot be
    /// split into a key and a value.
    UnsplittableMessage,
    /// The action string holds a character that names no operation.
    UnknownActionCharacter(char),
    /// The rendered wrapper does not hold the marker, or what follows the
    /// marker is too short to be cut.
    RenderInvariantViolation,
    /// The logger has no output to write to.
    NoOutput,
}

impl LogError {
    /// The text that describes the error.
    pub open spec fn description(self) -> Seq<char> {
        match self {
            LogError::MissingMessage => "Logs must always have a base message set"@,
            LogError::InvalidShape => "Log messages have children or a structure of their own, not both"@,
            LogError::UnsplittableMessage => "Only a text message with a ':' in it can be split"@,
            LogError::UnknownActionCharacter(c) => "invalid character "@.push(c)
                + " found in logging statement"@,
            LogError::RenderInvariantViolation => "Could not cut the entry out of the rendered text"@,
            LogError::NoOutput => "The logger wasn't initialized"@,
        }
    }

    /// The text that describes the error.
    pub fn describe(&self) -> (out: String)
        ensures
            out@ == self.description(),
    {
        match self {
            LogError::MissingMessage => String::from_str("Logs must always have a base message set"),
            LogError::InvalidShape => String::from_str(
                "Log messages have children or a structure of their own, not both",
            ),
            LogError::UnsplittableMessage => String::from_str(
                "Only a text message with a ':' in it can be split",
            ),
            LogError::UnknownActionCharacter(c) => {
                let mut out = String::from_str("invalid character ");
                out.push(*c);
                out.append(" found in logging statement");
                out
            },
            LogError::RenderInvariantViolation => String::from_str(
                "Could not cut the entry out of the rendered text",
            ),
            LogError::NoOutput => String::from_str("The logger wasn't initialized"),
        }
    }
}

/// Why a value could not be formatted.
#[derive(Debug, Clone, Copy, PartialEq, Eq, Structural)]
pub enum FormatError {
    /// Sequences and mappings are not formatted.
    UnsupportedValue,
    /// Only the folded and the literal style are formatted.
    UnsupportedStyle,
}

} // verus!
