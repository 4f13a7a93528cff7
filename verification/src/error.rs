//! What can go wrong while parsing.

use vstd::prelude::*;

verus! {

/// The ways in which a parse ends without a result.
#[derive(Debug, Clone, Copy, PartialEq, Eq, Structural)]
pub enum ParseError {
    /// The input is not valid UTF-8.
    InvalidEncoding,
    /// A computed range does not lie inside the buffer it was computed for.
    SliceOutOfBounds,
    /// The source ended before it held a single block.
    EmptyStreamClosed,
    /// The text is no slashlink: it names neither a peer nor a slug.
    NotASlashlink,
}

impl ParseError {
    /// A sentence that names the error.
    pub fn to_string(&self) -> (message: String)
        ensures
            message@ == self.message(),
    {
        match self {
            ParseError::InvalidEncoding => "Could not interpret bytes as UTF-8".to_owned(),
            ParseError::SliceOutOfBounds => "A span does not lie inside its buffer".to_owned(),
            ParseError::EmptyStreamClosed => "No block found in input".to_owned(),
            ParseError::NotASlashlink => "Could not parse text as a slashlink".to_owned(),
        }
    }

    /// The text of `to_string`.
    pub open spec fn message(&self) -> Seq<char> {
        match self {
            ParseError::InvalidEncoding => "Could not interpret bytes as UTF-8"@,
            ParseError::SliceOutOfBounds => "A span does not lie inside its buffer"@,
            ParseError::EmptyStreamClosed => "No block found in input"@,
            ParseError::NotASlashlink => "Could not parse text as a slashlink"@,
        }
    }
}

} // verus!
