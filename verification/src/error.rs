//! The ways in which a decode can fail.

use vstd::prelude::*;

verus! {

/// Why a decode stopped. Every failure is final: no value is produced and
/// nothing is retried.
#[derive(Debug, Clone, Copy, PartialEq, Eq, Structural)]
pub enum DecodeError {
    /// Fewer bytes remain than a field or a terminator requires.
    Truncation,
    /// The bytes of a string are not valid UTF-8.
    Encoding,
    /// A tag byte is none of the tags that may stand at that place.
    UnrecognizedTag,
    /// The leading four bytes of a file are no known magic number.
    UnrecognizedMagic,
}

} // verus!
