//! The ways in which compressing or expanding can fail.

use vstd::prelude::*;

verus! {

/// Why a stream or a block could not be compressed or expanded.
#[derive(Debug, Clone, Copy, PartialEq, Eq, Structural)]
pub enum SquashError {
    /// A block body is shorter than its header of eight bytes.
    TooShort,
    /// The stream ends in the middle of its header or of a block.
    Truncated,
    /// The stream does not begin with the magic number.
    BadMagic,
    /// The stream has a version other than the one supported.
    BadVersion,
    /// The stream was written with other coder parameters than those in use.
    BadParameters,
    /// The payload of a block cannot have been written by the compressor.
    Corrupt,
    /// A length does not fit the 32 bits that the format gives it.
    TooLong,
    /// The interval of the arithmetic coder became too narrow to be split.
    RangeExhausted,
}

impl SquashError {
    /// A short text that gives the reason.
    pub fn message(&self) -> (text: &'static str)
        ensures
            *self == SquashError::TooShort ==> text@ == "too short"@,
            *self == SquashError::Truncated ==> text@ == "truncated stream"@,
            *self == SquashError::BadMagic ==> text@ == "bad magic number"@,
            *self == SquashError::BadVersion ==> text@ == "unsupported version"@,
            *self == SquashError::BadParameters ==> text@ == "coder parameters differ"@,
            *self == SquashError::Corrupt ==> text@ == "corrupt block"@,
            *self == SquashError::TooLong ==> text@ == "too long"@,
            *self == SquashError::RangeExhausted ==> text@ == "coder range exhausted"@,
    {
        match self {
            SquashError::TooShort => "too short",
            SquashError::Truncated => "truncated stream",
            SquashError::BadMagic => "bad magic number",
            SquashError::BadVersion => "unsupported version",
            SquashError::BadParameters => "coder parameters differ",
            SquashError::Corrupt => "corrupt block",
            SquashError::TooLong => "too long",
            SquashError::RangeExhausted => "coder range exhausted",
        }
    }
}

} // verus!
