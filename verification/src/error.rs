//! The ways in which a signature can fail to compile.

use vstd::prelude::*;

verus! {

/// Why a signature was rejected.
#[derive(Clone, Copy, Debug, PartialEq, Eq, Structural)]
pub enum BinmatchError {
    /// The normalized signature holds this character, which is neither a
    /// hexadecimal digit nor `?` nor `_`. It is the first such character.
    PatternParseError(char),
    /// The normalized signature has an odd number of characters.
    PatternLengthError,
    /// Every character is allowed, but some token mixes `?` or `_` with
    /// another character and so is not a number.
    PatternNumberError,
}

} // verus!
