//! The serialized form of a proof, for exchange with other programs: the
//! leaf index, digests as hexadecimal text, and one tag character per step
//! for the side.

use vstd::prelude::*;
use crate::digest::{is_digest, is_digest_text, lemma_digest_text_round_trip, Digest};
use crate::error::MerkleError;
use crate::hex::{hex_decode, hex_encode};
use crate::membership::{
    path_view, proof_well_formed, Proof, ProofEntry, ProofView, Side, StepView,
};

verus! {

/// The tag written for a sibling on the left.
pub const LEFT_TAG: char = 'L';

/// The tag written for a sibling on the right.
pub const RIGHT_TAG: char = 'R';

/// One step of a proof in serialized form.
#[derive(Debug, PartialEq, Eq)]
pub struct SerializedEntry {
    pub sibling: String,
    pub side: char,
}

/// A proof in serialized form.
#[derive(Debug, PartialEq, Eq)]
pub struct SerializedProof {
    pub leaf_index: u64,
    pub leaf: String,
    pub path: Vec<SerializedEntry>,
}

/// One serialized step, as mathematical values.
pub struct SerializedEntryView {
    pub sibling: Seq<char>,
    pub side: char,
}

/// A serialized proof, as mathematical values.
pub struct SerializedProofView {
    pub leaf_index: nat,
    pub leaf: Seq<char>,
    pub path: Seq<SerializedEntryView>,
}

impl View for SerializedEntry {
    type V = SerializedEntryView;

    open spec fn view(&self) -> SerializedEntryView {
        SerializedEntryView { sibling: self.sibling@, side: self.side }
    }
}

/// The steps of `entries`, each by its view.
pub open spec fn entry_views(entries: Seq<SerializedEntry>) -> Seq<SerializedEntryView> {
    Seq::new(entries.len(), |k: int| entries[k]@)
}

impl View for SerializedProof {
    type V = SerializedProofView;

    open spec fn view(&self) -> SerializedProofView {
        SerializedProofView {
            leaf_index: self.leaf_index as nat,
            leaf: self.leaf@,
            path: entry_views(self.path@),
        }
    }
}

/// The tag character of `side`.
pub open spec fn side_tag(side: Side) -> char {
    match side {
        Side::Left => LEFT_TAG,
        Side::Right => RIGHT_TAG,
    }
}

/// The side that `tag` names, if it names one.
pub open spec fn tag_side(tag: char) -> Option<Side> {
    if tag == LEFT_TAG {
        Some(Side::Left)
    } else if tag == RIGHT_TAG {
        Some(Side::Right)
    } else {
        None
    }
}

/// The serialized form of `step`.
pub open spec fn serialized_step(step: StepView) -> SerializedEntryView {
    SerializedEntryView { sibling: hex_encode(step.sibling), side: side_tag(step.side) }
}

/// The serialized form of `proof`.
pub open spec fn serialized(proof: ProofView) -> SerializedProofView {
    SerializedProofView {
        leaf_index: proof.leaf_index,
        leaf: hex_encode(proof.leaf),
        path: Seq::new(proof.path.len(), |k: int| serialized_step(proof.path[k])),
    }
}

/// Whether `entry` is the serialized form of a well-formed step.
pub open spec fn entry_readable(entry: SerializedEntryView) -> bool {
    is_digest_text(entry.sibling) && tag_side(entry.side) is Some
}

/// Whether `wire` is the serialized form of a well-formed proof: the leaf
/// index is one this machine can hold, every digest text is that of a digest
/// of the right width, and every tag names a side.
pub open spec fn readable(wire: SerializedProofView) -> bool {
    &&& wire.leaf_index <= usize::MAX
    &&& is_digest_text(wire.leaf)
    &&& forall|k: int| 0 <= k < wire.path.len() ==> entry_readable(#[trigger] wire.path[k])
}

/// The step that the readable `entry` stands for.
pub open spec fn deserialized_step(entry: SerializedEntryView) -> StepView {
    StepView { sibling: hex_decode(entry.sibling), side: tag_side(entry.side).unwrap() }
}

/// The proof that the readable `wire` stands for.
pub open spec fn deserialized(wire: SerializedProofView) -> ProofView {
    ProofView {
        leaf_index: wire.leaf_index,
        leaf: hex_decode(wire.leaf),
        path: Seq::new(wire.path.len(), |k: int| deserialized_step(wire.path[k])),
    }
}

/// Puts `proof` into its serialized form.
pub fn serialize(proof: &Proof) -> (wire: SerializedProof)
    ensures
        wire@ == serialized(proof@),
{
    let mut path: Vec<SerializedEntry> = Vec::new();
    let mut k: usize = 0;
    while k < proof.path.len()
        invariant
            k <= proof.path.len(),
            path.len() == k,
            forall|t: int| 0 <= t < k ==> (#[trigger] path@[t])@ == serialized_step(proof@.path[t]),
        decreases proof.path.len() - k,
    {
        let entry = &proof.path[k];
        let side = match entry.side {
            Side::Left => LEFT_TAG,
            Side::Right => RIGHT_TAG,
        };
        path.push(SerializedEntry { sibling: entry.sibling.to_hex(), side });
        k += 1;
    }
    assert(entry_views(path@) =~= serialized(proof@).path);
    SerializedProof { leaf_index: proof.leaf_index as u64, leaf: proof.leaf.to_hex(), path }
}

/// Reads a proof back from its serialized form. A leaf index beyond what this
/// machine can hold, a digest text that is not that of a digest of the right
/// width, or a tag that names no side, is refused with `MalformedProofError`.
pub fn deserialize(wire: &SerializedProof) -> (parsed: Result<Proof, MerkleError>)
    ensures
        match parsed {
            Ok(proof) => readable(wire@) && proof@ == deserialized(wire@) && proof_well_formed(
                proof@,
            ),
            Err(e) => !readable(wire@) && e == MerkleError::MalformedProofError,
        },
{
    if wire.leaf_index > usize::MAX as u64 {
        return Err(MerkleError::MalformedProofError);
    }
    let leaf_index = wire.leaf_index as usize;
    let leaf = match Digest::from_hex(wire.leaf.as_str()) {
        Ok(digest) => digest,
        Err(e) => {
            return Err(e);
        },
    };
    let mut path: Vec<ProofEntry> = Vec::new();
    let mut k: usize = 0;
    while k < wire.path.len()
        invariant
            k <= wire.path.len(),
            path.len() == k,
            forall|t: int| 0 <= t < k ==> entry_readable(#[trigger] wire@.path[t]),
            forall|t: int|
                0 <= t < k ==> (#[trigger] path@[t])@ == deserialized_step(wire@.path[t]),
            forall|t: int| 0 <= t < k ==> is_digest((#[trigger] path@[t])@.sibling),
        decreases wire.path.len() - k,
    {
        let entry = &wire.path[k];
        assert(entry@ == wire@.path[k as int]);
        let side = if entry.side == LEFT_TAG {
            Side::Left
        } else if entry.side == RIGHT_TAG {
            Side::Right
        } else {
            assert(!entry_readable(wire@.path[k as int]));
            return Err(MerkleError::MalformedProofError);
        };
        let sibling = match Digest::from_hex(entry.sibling.as_str()) {
            Ok(digest) => digest,
            Err(e) => {
                assert(!entry_readable(wire@.path[k as int]));
                return Err(e);
            },
        };
        path.push(ProofEntry { sibling, side });
        k += 1;
    }
    assert(path_view(path@) =~= deserialized(wire@).path);
    assert forall|t: int| 0 <= t < path_view(path@).len() implies is_digest(
        #[trigger] path_view(path@)[t].sibling,
    ) by {
        assert(is_digest(path@[t]@.sibling));
    }
    Ok(Proof { leaf_index, leaf, path })
}

/// A well-formed proof survives serialization: its serialized form is
/// readable, and reading it gives the proof back.
pub proof fn lemma_serialization_round_trip(proof: ProofView)
    requires
        proof_well_formed(proof),
        proof.leaf_index <= usize::MAX,
    ensures
        readable(serialized(proof)),
        deserialized(serialized(proof)) == proof,
{
    let wire = serialized(proof);
    lemma_digest_text_round_trip(proof.leaf);
    assert forall|k: int| 0 <= k < wire.path.len() implies entry_readable(
        #[trigger] wire.path[k],
    ) && deserialized_step(wire.path[k]) == proof.path[k] by {
        assert(is_digest(proof.path[k].sibling));
        lemma_digest_text_round_trip(proof.path[k].sibling);
    }
    assert(deserialized(wire).path =~= proof.path);
}

} // verus!
