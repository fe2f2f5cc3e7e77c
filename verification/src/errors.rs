//! Error type for the block-line parser.

use vstd::prelude::*;

verus! {

/// Error returned when parsing a block line fails.
#[derive(Debug, PartialEq, Eq, Clone, Copy, Structural)]
pub enum ParseError {
    /// The input line produced no tokens at all.
    EmptyLine,
}

impl ParseError {
    /// A short description of the error, suitable for display.
    pub fn message(&self) -> (r: &'static str)
        ensures
            r@ == "empty line"@,
    {
        "empty line"
    }
}

} // verus!
