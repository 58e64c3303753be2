//! Merkle trees over matching-result records.
//!
//! A tree is built from an ordered sequence of records. Each record is encoded
//! canonically and hashed into a leaf digest; adjacent digests are hashed
//! pairwise, level by level, until a single root digest remains. A membership
//! proof for one leaf is the list of sibling digests on the way to the root,
//! and can be checked against the root without the tree.

pub mod digest;
pub mod error;
pub mod hash;
pub mod hex;
pub mod laws;
pub mod membership;
pub mod record;
pub mod tree;
pub mod wire;

pub use crate::digest::{Digest, DIGEST_LEN};
pub use crate::error::MerkleError;
pub use crate::hash::{hash, hash_pair, DomainTag};
pub use crate::membership::{verify, Proof, ProofEntry, Side};
pub use crate::record::{encode, hash_matching_result, leaf_digest, MatchingResult};
pub use crate::tree::{build, checked_index, prove, update, Tree};
pub use crate::wire::{deserialize, serialize, SerializedEntry, SerializedProof};
