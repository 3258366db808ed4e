//! Errors of reading and writing level files.
use vstd::prelude::*;

verus! {

/// Why a level could not be read or written.
#[derive(Clone, Copy, Debug, PartialEq, Eq, Structural)]
pub enum ElmaError {
    /// The data is an Across level, which is not supported.
    AcrossUnsupported,
    /// The data does not start with a level file's magic string.
    InvalidLevelFile,
    /// The data ended before a field that had to be read.
    UnexpectedEof,
    /// A name field does not hold valid UTF-8.
    InvalidUtf8,
    /// A name is longer than its field; the number of bytes too many.
    PaddingTooShort(usize),
    /// An object has an unknown gravity value.
    InvalidGravity(i32),
    /// An object has an unknown type value.
    InvalidObject(i32),
    /// A picture has an unknown clipping value.
    InvalidClipping(i32),
    /// A best-times table claims more entries than it holds.
    InvalidTop10Count(u32),
    /// The end-of-data marker is not where it should be.
    EODMismatch,
    /// The end-of-file marker is not where it should be.
    EOFMismatch,
}

} // verus!
