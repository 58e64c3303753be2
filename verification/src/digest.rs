//! Digests: the values stored in a tree's nodes.

use vstd::prelude::*;
use crate::error::MerkleError;
use crate::hex::{from_hex, hex_decode, hex_encode, is_hex, lemma_hex_round_trip, to_hex};

verus! {

/// Width in bytes of every digest the hash primitive produces.
pub const DIGEST_LEN: usize = 32;

/// A digest as it is stored and exchanged. A digest that came out of the hash
/// primitive is `DIGEST_LEN` bytes wide; one received from elsewhere may have
/// any width, and is then not well formed.
#[derive(Debug, PartialEq, Eq)]
pub struct Digest {
    pub bytes: Vec<u8>,
}

impl View for Digest {
    type V = Seq<u8>;

    open spec fn view(&self) -> Seq<u8> {
        self.bytes@
    }
}

/// Whether `digest` has the width of a hash output.
pub open spec fn is_digest(digest: Seq<u8>) -> bool {
    digest.len() == DIGEST_LEN
}

/// Whether `text` is the hexadecimal text of a digest of the right width.
pub open spec fn is_digest_text(text: Seq<char>) -> bool {
    is_hex(text) && text.len() == 2 * DIGEST_LEN
}

impl Clone for Digest {
    fn clone(&self) -> (copy: Self)
        ensures
            copy@ == self@,
    {
        Digest { bytes: self.bytes.clone() }
    }
}

impl Digest {
    /// Wraps `bytes`, whatever their number.
    pub fn from_bytes(bytes: Vec<u8>) -> (digest: Digest)
        ensures
            digest@ == bytes@,
    {
        Digest { bytes }
    }

    /// Whether this digest has the width of a hash output.
    pub fn is_well_formed(&self) -> (ok: bool)
        ensures
            ok == is_digest(self@),
    {
        self.bytes.len() == DIGEST_LEN
    }

    /// Whether the two digests hold the same bytes.
    pub fn same_as(&self, other: &Digest) -> (same: bool)
        ensures
            same == (self@ == other@),
    {
        if self.bytes.len() != other.bytes.len() {
            return false;
        }
        let mut i: usize = 0;
        while i < self.bytes.len()
            invariant
                i <= self.bytes.len(),
                self.bytes.len() == other.bytes.len(),
                forall|k: int| 0 <= k < i ==> self@[k] == other@[k],
            decreases self.bytes.len() - i,
        {
            if self.bytes[i] != other.bytes[i] {
                return false;
            }
            i += 1;
        }
        assert(self@ =~= other@);
        true
    }

    /// Writes this digest as hexadecimal text, two digits per byte.
    pub fn to_hex(&self) -> (text: String)
        ensures
            text@ == hex_encode(self@),
    {
        to_hex(self.bytes.as_slice())
    }

    /// Reads a digest from its hexadecimal text. Text that is not the text of
    /// a digest of the right width is refused with `MalformedProofError`.
    pub fn from_hex(text: &str) -> (parsed: Result<Digest, MerkleError>)
        ensures
            match parsed {
                Ok(digest) => is_digest_text(text@) && digest@ == hex_decode(text@),
                Err(e) => !is_digest_text(text@) && e == MerkleError::MalformedProofError,
            },
    {
        match from_hex(text) {
            Some(bytes) => {
                if bytes.len() == DIGEST_LEN {
                    Ok(Digest { bytes })
                } else {
                    Err(MerkleError::MalformedProofError)
                }
            },
            None => Err(MerkleError::MalformedProofError),
        }
    }
}

/// A well-formed digest is read back from its own text unchanged.
pub proof fn lemma_digest_text_round_trip(digest: Seq<u8>)
    requires
        is_digest(digest),
    ensures
        is_digest_text(hex_encode(digest)),
        hex_decode(hex_encode(digest)) == digest,
{
    lemma_hex_round_trip(digest);
}

} // verus!
