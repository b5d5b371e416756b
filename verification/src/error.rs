//! The errors of parsing.

use vstd::prelude::*;

verus! {

/// A DNS parsing error.
#[derive(Debug, Clone, Copy, PartialEq, Eq, Structural)]
pub enum Error {
    /// Message ended unexpectedly.
    MessageTooShort,
    /// Message exceeds maximum length.
    MessageTooLong,
    /// Wrong label pointer.
    Pointer,
    /// Name exceeded maximum length.
    NameTooLong,
}

impl Error {
    /// The text that describes each error.
    pub open spec fn spec_description(self) -> Seq<char> {
        match self {
            Error::MessageTooShort => "message too short"@,
            Error::MessageTooLong => "message too long"@,
            Error::Pointer => "invalid pointer"@,
            Error::NameTooLong => "name too long"@,
        }
    }

    /// A short human readable description of the error.
    pub fn description(&self) -> (text: &'static str)
        ensures
            text@ == self.spec_description(),
    {
        match self {
            Error::MessageTooShort => "message too short",
            Error::MessageTooLong => "message too long",
            Error::Pointer => "invalid pointer",
            Error::NameTooLong => "name too long",
        }
    }

    /// The description as an owned string.
    pub fn to_string(&self) -> (text: String)
        ensures
            text@ == self.spec_description(),
    {
        self.description().to_owned()
    }
}

} // verus!
