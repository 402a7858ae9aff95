//! The refusals of the decoders.

use vstd::prelude::*;

verus! {

/// Why a byte sequence was refused by a decoder.
#[derive(Clone, Copy, Debug, PartialEq, Eq, Structural)]
pub enum RLPDecodeError {
    /// The input ends before the item it announces, or holds bytes after it
    /// where none may follow.
    InvalidLength,
    /// A byte or a length prefix has a value that no encoder writes.
    MalformedData,
    /// A list stands where a byte string was expected.
    UnexpectedList,
    /// A byte string stands where a list was expected.
    UnexpectedString,
    /// The child list of a branch does not hold exactly sixteen references.
    BranchChoicesLength,
}

} // verus!
