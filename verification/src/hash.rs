//! The hash primitive: SHA-256 with one distinct prefix byte per node role.

use vstd::prelude::*;
use crate::digest::{Digest, DIGEST_LEN};

verus! {

/// The role of the data being hashed. Each role mixes its own prefix byte into
/// the hash input, so a leaf and an internal node never share a hash input.
#[derive(Clone, Copy, Debug, PartialEq, Eq, Structural)]
pub enum DomainTag {
    Leaf,
    Internal,
}

/// The SHA-256 digest of `input`.
pub uninterp spec fn sha256(input: Seq<u8>) -> [u8; 32];

/// The prefix byte mixed in for `tag`.
pub open spec fn tag_byte(tag: DomainTag) -> u8 {
    match tag {
        DomainTag::Leaf => 0x00u8,
        DomainTag::Internal => 0x01u8,
    }
}

/// The bytes handed to SHA-256 when `bytes` are hashed under `tag`.
pub open spec fn tagged(tag: DomainTag, bytes: Seq<u8>) -> Seq<u8> {
    seq![tag_byte(tag)] + bytes
}

/// The digest of `bytes` under `tag`.
pub open spec fn hash_spec(tag: DomainTag, bytes: Seq<u8>) -> Seq<u8> {
    sha256(tagged(tag, bytes))@
}

/// The digest of a leaf whose record encodes to `encoded`.
pub open spec fn leaf_hash(encoded: Seq<u8>) -> Seq<u8> {
    hash_spec(DomainTag::Leaf, encoded)
}

/// The digest of an internal node over its two children's digests.
pub open spec fn node_hash(left: Seq<u8>, right: Seq<u8>) -> Seq<u8> {
    hash_spec(DomainTag::Internal, left + right)
}

/// Two hash inputs do not collide: they are equal, or SHA-256 tells them apart.
pub open spec fn no_collision(a: Seq<u8>, b: Seq<u8>) -> bool {
    sha256(a)@ == sha256(b)@ ==> a == b
}

/// Calls `sha2::Sha256::digest`, the one-shot SHA-256 of the `sha2` crate, and
/// copies its 32-byte output into a vector. The contract claims that the bytes
/// returned are the SHA-256 digest of `input`, a function of `input` alone.
#[verifier::external_body]
fn sha256_bytes(input: &Vec<u8>) -> (out: Vec<u8>)
    ensures
        out@ == sha256(input@)@,
{
    <sha2::Sha256 as sha2::Digest>::digest(input.as_slice()).to_vec()
}

/// Hashes `bytes` in the role `tag`: SHA-256 over the role's prefix byte
/// followed by `bytes`.
pub fn hash(tag: DomainTag, bytes: &[u8]) -> (digest: Digest)
    ensures
        digest@ == hash_spec(tag, bytes@),
        digest@.len() == DIGEST_LEN,
{
    let prefix: u8 = match tag {
        DomainTag::Leaf => 0x00u8,
        DomainTag::Internal => 0x01u8,
    };
    let mut input: Vec<u8> = Vec::new();
    input.push(prefix);
    let mut i: usize = 0;
    while i < bytes.len()
        invariant
            i <= bytes.len(),
            input@ == seq![prefix] + bytes@.subrange(0, i as int),
        decreases bytes.len() - i,
    {
        input.push(bytes[i]);
        i += 1;
    }
    assert(bytes@.subrange(0, bytes.len() as int) == bytes@);
    Digest::from_bytes(sha256_bytes(&input))
}

/// Hashes two child digests into their parent's digest.
pub fn hash_pair(left: &Digest, right: &Digest) -> (parent: Digest)
    ensures
        parent@ == node_hash(left@, right@),
        parent@.len() == DIGEST_LEN,
{
    let mut joined: Vec<u8> = left.bytes.clone();
    let mut i: usize = 0;
    while i < right.bytes.len()
        invariant
            i <= right.bytes.len(),
            joined@ == left@ + right@.subrange(0, i as int),
        decreases right.bytes.len() - i,
    {
        joined.push(right.bytes[i]);
        i += 1;
    }
    assert(right@.subrange(0, right.bytes.len() as int) == right@);
    hash(DomainTag::Internal, joined.as_slice())
}

/// Domain separation: inputs hashed in different roles are different inputs,
/// whatever they hold, because the prefix byte tells them apart before
/// SHA-256 sees them. Their digests therefore differ unless SHA-256 collides
/// on the two inputs.
pub proof fn lemma_roles_are_separated(leaf_bytes: Seq<u8>, node_bytes: Seq<u8>)
    ensures
        tagged(DomainTag::Leaf, leaf_bytes) != tagged(DomainTag::Internal, node_bytes),
        no_collision(
            tagged(DomainTag::Leaf, leaf_bytes),
            tagged(DomainTag::Internal, node_bytes),
        ) ==> hash_spec(DomainTag::Leaf, leaf_bytes) != hash_spec(
            DomainTag::Internal,
            node_bytes,
        ),
{
    assert(tagged(DomainTag::Leaf, leaf_bytes)[0] == 0x00u8);
    assert(tagged(DomainTag::Internal, node_bytes)[0] == 0x01u8);
}

} // verus!
