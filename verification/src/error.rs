//! Errors returned while reading a `.bmrc` or `.bmrp` stream.

use vstd::prelude::*;

verus! {

/// What can go wrong while decompressing a BMRC stream.
#[derive(Debug, Clone, Copy, PartialEq, Eq, Structural)]
pub enum BmrcError {
    /// The input is too short to hold a header.
    HeaderTooShort,
    /// The input does not start with the expected magic bytes.
    BadMagic,
    /// The input ends before all announced data is available, or cannot be
    /// decoded: it announces a coded length beyond `isize::MAX`, or a BWT
    /// primary index outside the data.
    Truncated,
}

impl BmrcError {
    /// A human-readable description of the error.
    pub fn message(&self) -> (s: &'static str)
        ensures
            *self == BmrcError::HeaderTooShort ==> s@ == "input too short to contain a BMRC header"@,
            *self == BmrcError::BadMagic ==> s@ == "invalid BMRC magic bytes (not a .bmrc stream)"@,
            *self == BmrcError::Truncated ==> s@ == "truncated BMRC stream"@,
    {
        match self {
            BmrcError::HeaderTooShort => "input too short to contain a BMRC header",
            BmrcError::BadMagic => "invalid BMRC magic bytes (not a .bmrc stream)",
            BmrcError::Truncated => "truncated BMRC stream",
        }
    }
}

} // verus!
