//! Error values of the library.
use vstd::prelude::*;

verus! {

/// A line, token or escape sequence did not follow the mount table's grammar.
/// It carries no position or cause: a failed parse yields no partial record.
#[derive(Clone, Copy, Debug, Default, PartialEq, Eq)]
pub struct ParseError;

impl ParseError {
    /// The human-readable text of this error.
    pub fn message(&self) -> (r: String)
        ensures
            r@ == "A parsing error occurred."@,
    {
        String::from_str("A parsing error occurred.")
    }
}

} // verus!
