//! The ways an operation of this library can fail.

use vstd::prelude::*;

verus! {

/// Why an operation was refused. None of these is transient: the same call on
/// the same values fails the same way again.
#[derive(Clone, Copy, Debug, PartialEq, Eq, Structural)]
pub enum MerkleError {
    /// A record has no canonical encoding, because it lacks its identifier.
    EncodingError,
    /// A tree was asked for over no records at all.
    EmptyTreeError,
    /// A leaf index is not below the number of leaves.
    IndexOutOfBounds,
    /// A proof holds a digest of the wrong width, or an unknown side tag.
    MalformedProofError,
}

} // verus!
