//! The ways in which decoding fails.

use vstd::prelude::*;

verus! {

/// Why a byte buffer was not decoded. Every failure ends the attempt: no part
/// of a mesh is ever handed out with an error.
#[derive(Clone, Copy, Debug, PartialEq, Eq)]
pub enum ParseError {
    /// Fewer than five bytes: too short to tell the two formats apart.
    MalformedHeader,
    /// The text does not follow the grammar: a keyword is missing, misspelt or
    /// out of place, the name is not valid text, or there is no facet at all.
    Grammar,
    /// A word that stands where a number is expected is not a number.
    NumericLiteral,
    /// The binary form announces more bytes than the buffer holds.
    TruncatedBinary,
}

} // verus!
