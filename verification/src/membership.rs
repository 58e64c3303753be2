//! Membership proofs: the path of sibling digests from one leaf to the root,
//! and the check that such a path leads to an expected root.

use vstd::prelude::*;
use crate::digest::{is_digest, Digest};
use crate::error::MerkleError;
use crate::hash::{hash_pair, node_hash};
use crate::tree::{next_level, right_of};

verus! {

/// The side on which a sibling digest stands when it is joined with the
/// digest computed so far: `Left` puts the sibling first, `Right` puts it last.
#[derive(Clone, Copy, Debug, PartialEq, Eq, Structural)]
pub enum Side {
    Left,
    Right,
}

/// One step of a path: the sibling's digest and the side it stands on.
#[derive(Debug, PartialEq, Eq)]
pub struct ProofEntry {
    pub sibling: Digest,
    pub side: Side,
}

/// A membership proof for one leaf: the leaf's position and digest, and the
/// steps from the leaf's level up to the level below the root, in that order.
#[derive(Debug, PartialEq, Eq)]
pub struct Proof {
    pub leaf_index: usize,
    pub leaf: Digest,
    pub path: Vec<ProofEntry>,
}

/// One step of a path, as mathematical values.
pub struct StepView {
    pub sibling: Seq<u8>,
    pub side: Side,
}

/// A proof, as mathematical values.
pub struct ProofView {
    pub leaf_index: nat,
    pub leaf: Seq<u8>,
    pub path: Seq<StepView>,
}

impl View for ProofEntry {
    type V = StepView;

    open spec fn view(&self) -> StepView {
        StepView { sibling: self.sibling@, side: self.side }
    }
}

impl Clone for ProofEntry {
    fn clone(&self) -> (copy: Self)
        ensures
            copy@ == self@,
    {
        ProofEntry { sibling: self.sibling.clone(), side: self.side }
    }
}

/// The steps of `entries`, each by its view.
pub open spec fn path_view(entries: Seq<ProofEntry>) -> Seq<StepView> {
    Seq::new(entries.len(), |k: int| entries[k]@)
}

impl View for Proof {
    type V = ProofView;

    open spec fn view(&self) -> ProofView {
        ProofView {
            leaf_index: self.leaf_index as nat,
            leaf: self.leaf@,
            path: path_view(self.path@),
        }
    }
}

impl Clone for Proof {
    fn clone(&self) -> (copy: Self)
        ensures
            copy@ == self@,
    {
        let path = self.path.clone();
        assert(path_view(path@) =~= path_view(self.path@));
        Proof { leaf_index: self.leaf_index, leaf: self.leaf.clone(), path }
    }
}

/// Every sibling digest on `path` has the width of a hash output.
pub open spec fn path_well_formed(path: Seq<StepView>) -> bool {
    forall|k: int| 0 <= k < path.len() ==> is_digest(#[trigger] path[k].sibling)
}

/// Every digest that `proof` holds has the width of a hash output.
pub open spec fn proof_well_formed(proof: ProofView) -> bool {
    is_digest(proof.leaf) && path_well_formed(proof.path)
}

/// The step recorded for position `index` on `level`: the digest next to it,
/// and the side that digest stands on. A last position without a neighbour is
/// paired with itself, as it is when the tree is built.
pub open spec fn step_at(level: Seq<Seq<u8>>, index: int) -> StepView {
    if index % 2 == 1 {
        StepView { sibling: level[index - 1], side: Side::Left }
    } else {
        StepView { sibling: right_of(level, index / 2), side: Side::Right }
    }
}

/// The authentication path of leaf `index` in the tree over `leaves`: one
/// step per level, from the leaves up to the level below the root.
pub open spec fn auth_path(leaves: Seq<Seq<u8>>, index: int) -> Seq<StepView>
    decreases leaves.len(),
{
    if leaves.len() <= 1 {
        Seq::empty()
    } else {
        seq![step_at(leaves, index)] + auth_path(next_level(leaves), index / 2)
    }
}

/// The proof that the tree over `leaves` gives for leaf `index`.
pub open spec fn proof_of(leaves: Seq<Seq<u8>>, index: int) -> ProofView {
    ProofView { leaf_index: index as nat, leaf: leaves[index], path: auth_path(leaves, index) }
}

/// The digest one level up: `current` joined with the step's sibling, the
/// sibling on the side the step names.
pub open spec fn combine(current: Seq<u8>, step: StepView) -> Seq<u8> {
    match step.side {
        Side::Left => node_hash(step.sibling, current),
        Side::Right => node_hash(current, step.sibling),
    }
}

/// The digest reached from `current` by taking the steps of `path` in order.
pub open spec fn fold_path(current: Seq<u8>, path: Seq<StepView>) -> Seq<u8>
    decreases path.len(),
{
    if path.len() == 0 {
        current
    } else {
        fold_path(combine(current, path[0]), path.drop_first())
    }
}

/// What verification answers: a malformed proof or leaf digest is an error;
/// otherwise the answer is whether the path leads from the leaf digest to
/// `expected_root`.
pub open spec fn verify_spec(leaf_digest: Seq<u8>, proof: ProofView, expected_root: Seq<u8>)
    -> Result<bool, MerkleError> {
    if is_digest(leaf_digest) && proof_well_formed(proof) {
        Ok(fold_path(leaf_digest, proof.path) == expected_root)
    } else {
        Err(MerkleError::MalformedProofError)
    }
}

/// Whether every digest in `proof` has the width of a hash output.
pub fn is_well_formed(proof: &Proof) -> (ok: bool)
    ensures
        ok == proof_well_formed(proof@),
{
    if !proof.leaf.is_well_formed() {
        return false;
    }
    let mut k: usize = 0;
    while k < proof.path.len()
        invariant
            k <= proof.path.len(),
            forall|t: int| 0 <= t < k ==> is_digest(#[trigger] proof@.path[t].sibling),
        decreases proof.path.len() - k,
    {
        if !proof.path[k].sibling.is_well_formed() {
            assert(!is_digest(proof@.path[k as int].sibling));
            return false;
        }
        k += 1;
    }
    true
}

/// Checks `proof` for the leaf digest `leaf_digest` against `expected_root`:
/// starting from the leaf digest, each step's sibling is joined on its side
/// and hashed, and the digest reached at the end is compared with the root.
///
/// A leaf digest or proof digest of the wrong width is reported as
/// `MalformedProofError`; a path that leads elsewhere is the answer `false`.
pub fn verify(leaf_digest: &Digest, proof: &Proof, expected_root: &Digest) -> (answer: Result<
    bool,
    MerkleError,
>)
    ensures
        answer == verify_spec(leaf_digest@, proof@, expected_root@),
{
    if !leaf_digest.is_well_formed() || !is_well_formed(proof) {
        return Err(MerkleError::MalformedProofError);
    }
    let mut current: Digest = leaf_digest.clone();
    let mut k: usize = 0;
    let ghost path = proof@.path;
    assert(path.subrange(0, path.len() as int) == path);
    while k < proof.path.len()
        invariant
            k <= proof.path.len(),
            path == proof@.path,
            fold_path(current@, path.subrange(k as int, path.len() as int)) == fold_path(
                leaf_digest@,
                path,
            ),
        decreases proof.path.len() - k,
    {
        let entry = &proof.path[k];
        let ghost rest = path.subrange(k as int, path.len() as int);
        assert(rest[0] == entry@);
        assert(rest.drop_first() == path.subrange(k + 1, path.len() as int));
        current =
        match entry.side {
            Side::Left => hash_pair(&entry.sibling, &current),
            Side::Right => hash_pair(&current, &entry.sibling),
        };
        k += 1;
    }
    Ok(current.same_as(expected_root))
}

} // verus!
