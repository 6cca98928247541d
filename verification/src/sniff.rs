//! Telling the two forms of STL apart by the first five bytes.

use vstd::prelude::*;
use crate::ascii::SOLID;
use crate::error::ParseError;
use crate::lexical::{Span, span_starts_with};

verus! {

/// The two forms in which a mesh is written.
#[derive(Clone, Copy, Debug, PartialEq, Eq)]
pub enum Format {
    /// The text form.
    Ascii,
    /// The binary form.
    Binary,
}

/// The form of a buffer. A buffer that begins with the bytes `solid` is text,
/// every other buffer of five bytes or more is binary, and a shorter one has
/// no form. Bytes that are not valid text only make the buffer binary.
///
/// A binary buffer whose header happens to begin with `solid` is taken for
/// text: the two forms share no mark that would tell them apart.
pub open spec fn format_of(s: Seq<u8>) -> Result<Format, ParseError> {
    if s.len() < 5 {
        Err(ParseError::MalformedHeader)
    } else if SOLID@.is_prefix_of(s) {
        Ok(Format::Ascii)
    } else {
        Ok(Format::Binary)
    }
}

/// Finds the form of a buffer.
pub fn sniff(bytes: &[u8]) -> (r: Result<Format, ParseError>)
    ensures
        r == format_of(bytes@),
{
    if bytes.len() < 5 {
        return Err(ParseError::MalformedHeader);
    }
    let whole = Span { start: 0, end: bytes.len() };
    assert(whole.text(bytes@) =~= bytes@);
    if span_starts_with(bytes, whole, SOLID.as_slice()) {
        Ok(Format::Ascii)
    } else {
        Ok(Format::Binary)
    }
}

} // verus!
