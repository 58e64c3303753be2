//! The tree: its mathematical model, and the structure that holds every
//! level's digests so that proofs need no hashing.

use vstd::prelude::*;
use crate::digest::{is_digest, Digest};
use crate::error::MerkleError;
use crate::hash::{hash_pair, node_hash};
use crate::membership::{auth_path, path_view, proof_of, step_at, Proof, ProofEntry, Side};
use crate::record::{encodable, leaf_digest, leaf_of, MatchingResult, RecordView};

verus! {

/// A usable sequence of leaf digests: at least one, each of the right width.
pub open spec fn valid_leaves(leaves: Seq<Seq<u8>>) -> bool {
    &&& leaves.len() >= 1
    &&& forall|i: int| 0 <= i < leaves.len() ==> is_digest(#[trigger] leaves[i])
}

/// The right-hand child of parent `j` over `level`: the digest after the
/// left-hand child, or the left-hand child again where the level ends there.
pub open spec fn right_of(level: Seq<Seq<u8>>, j: int) -> Seq<u8> {
    if 2 * j + 1 < level.len() {
        level[2 * j + 1]
    } else {
        level[2 * j]
    }
}

/// The digest of parent `j` over `level`.
pub open spec fn parent_of(level: Seq<Seq<u8>>, j: int) -> Seq<u8> {
    node_hash(level[2 * j], right_of(level, j))
}

/// The level above `level`: adjacent digests paired left to right, a last
/// digest without partner paired with itself.
pub open spec fn next_level(level: Seq<Seq<u8>>) -> Seq<Seq<u8>> {
    Seq::new(((level.len() + 1) / 2) as nat, |j: int| parent_of(level, j))
}

/// The root digest of the tree over `leaves`.
pub open spec fn merkle_root(leaves: Seq<Seq<u8>>) -> Seq<u8>
    decreases leaves.len(),
{
    if leaves.len() <= 1 {
        leaves[0]
    } else {
        merkle_root(next_level(leaves))
    }
}

/// The records of `records`, each by its view.
pub open spec fn record_views(records: Seq<MatchingResult>) -> Seq<RecordView> {
    Seq::new(records.len(), |i: int| records[i]@)
}

/// Every record of `records` has a canonical encoding.
pub open spec fn all_encodable(records: Seq<RecordView>) -> bool {
    forall|i: int| 0 <= i < records.len() ==> encodable(#[trigger] records[i])
}

/// The leaf digests of `records`, in the order of the records.
pub open spec fn leaves_of(records: Seq<RecordView>) -> Seq<Seq<u8>> {
    Seq::new(records.len(), |i: int| leaf_of(records[i]))
}

/// The digests of `digests`, each by its view.
spec fn digest_views(digests: Seq<Digest>) -> Seq<Seq<u8>> {
    Seq::new(digests.len(), |i: int| digests[i]@)
}

/// The levels of `levels`, each as a sequence of digest views.
spec fn level_views(levels: Seq<Vec<Digest>>) -> Seq<Seq<Seq<u8>>> {
    Seq::new(levels.len(), |k: int| digest_views(levels[k]@))
}

/// Level `k + 1` is the level above level `k`, which has more than one digest.
spec fn linked(levels: Seq<Seq<Seq<u8>>>, k: int) -> bool {
    levels[k].len() > 1 && levels[k + 1] == next_level(levels[k])
}

/// `levels` starts at valid leaves, and each further level is the level above
/// the one before it.
spec fn is_chain(levels: Seq<Seq<Seq<u8>>>) -> bool {
    &&& levels.len() >= 1
    &&& valid_leaves(levels[0])
    &&& forall|k: int| 0 <= k < levels.len() - 1 ==> #[trigger] linked(levels, k)
}

/// `levels` is the whole tree over its first level: a chain that ends in a
/// level of one digest.
spec fn is_complete(levels: Seq<Seq<Seq<u8>>>) -> bool {
    is_chain(levels) && levels.last().len() == 1
}

/// A built tree: the digests of every level, leaves first, root last. Once
/// built it never changes; an update gives a new tree.
#[derive(Debug, PartialEq, Eq)]
pub struct Tree {
    levels: Vec<Vec<Digest>>,
}

impl View for Tree {
    type V = Seq<Seq<u8>>;

    /// The leaf digests, in order. Everything else a tree holds follows from
    /// them.
    closed spec fn view(&self) -> Seq<Seq<u8>> {
        digest_views(self.levels@[0]@)
    }
}

impl Clone for Tree {
    fn clone(&self) -> (copy: Self)
        ensures
            copy@ == self@,
    {
        proof {
            use_type_invariant(self);
        }
        let levels = self.levels.clone();
        proof {
            assert forall|k: int| 0 <= k < levels@.len() implies digest_views(levels@[k]@)
                == digest_views(self.levels@[k]@) by {
                assert(digest_views(levels@[k]@) =~= digest_views(self.levels@[k]@));
            }
            assert(level_views(levels@) =~= level_views(self.levels@));
        }
        Tree { levels }
    }
}

/// In a chain every level holds digests of the right width, and none is empty.
proof fn lemma_chain_levels_valid(levels: Seq<Seq<Seq<u8>>>, k: int)
    requires
        is_chain(levels),
        0 <= k < levels.len(),
    ensures
        valid_leaves(levels[k]),
    decreases k,
{
    if k > 0 {
        lemma_chain_levels_valid(levels, k - 1);
        assert(linked(levels, k - 1));
    }
}

/// In a complete chain the last level's one digest is the root of every level.
proof fn lemma_chain_root(levels: Seq<Seq<Seq<u8>>>, k: int)
    requires
        is_complete(levels),
        0 <= k < levels.len(),
    ensures
        merkle_root(levels[k]) == levels.last()[0],
    decreases levels.len() - k,
{
    if k < levels.len() - 1 {
        assert(linked(levels, k));
        lemma_chain_root(levels, k + 1);
    }
}

/// Replacing one digest of a level replaces exactly its parent in the level
/// above.
pub proof fn lemma_next_level_update(level: Seq<Seq<u8>>, index: int, digest: Seq<u8>)
    requires
        0 <= index < level.len(),
    ensures
        next_level(level.update(index, digest)) == next_level(level).update(
            index / 2,
            parent_of(level.update(index, digest), index / 2),
        ),
{
    let changed = level.update(index, digest);
    let above = next_level(changed);
    let patched = next_level(level).update(index / 2, parent_of(changed, index / 2));
    assert(above.len() == patched.len());
    assert forall|j: int| 0 <= j < above.len() implies above[j] == patched[j] by {
        if j != index / 2 {
            assert(changed[2 * j] == level[2 * j]);
            assert(right_of(changed, j) == right_of(level, j));
        }
    }
    assert(above =~= patched);
}

impl Tree {
    #[verifier::type_invariant]
    spec fn inv(&self) -> bool {
        is_complete(level_views(self.levels@))
    }

    /// The root digest of this tree.
    pub open spec fn root_spec(&self) -> Seq<u8> {
        merkle_root(self@)
    }

    /// The number of leaves.
    pub fn leaf_count(&self) -> (count: usize)
        ensures
            count == self@.len(),
            valid_leaves(self@),
    {
        proof {
            use_type_invariant(self);
        }
        let ghost levels = level_views(self.levels@);
        assert(levels[0] == self@);
        self.levels[0].len()
    }

    /// The root digest: the one digest of the topmost level.
    pub fn root(&self) -> (root: Digest)
        ensures
            root@ == merkle_root(self@),
            is_digest(root@),
    {
        proof {
            use_type_invariant(self);
        }
        let ghost levels = level_views(self.levels@);
        proof {
            lemma_chain_root(levels, 0);
            lemma_chain_levels_valid(levels, levels.len() - 1);
            assert(levels[0] == self@);
            assert(levels.last() == digest_views(self.levels@[self.levels@.len() - 1]@));
        }
        let top = &self.levels[self.levels.len() - 1];
        top[0].clone()
    }

    /// The digest of leaf `index`, if there is such a leaf.
    pub fn leaf(&self, index: usize) -> (leaf: Option<Digest>)
        ensures
            match leaf {
                Some(digest) => index < self@.len() && digest@ == self@[index as int],
                None => index >= self@.len(),
            },
    {
        proof {
            use_type_invariant(self);
        }
        if index < self.levels[0].len() {
            Some(self.levels[0][index].clone())
        } else {
            None
        }
    }
}

/// Computes the level above `level`.
fn level_above(level: &Vec<Digest>) -> (above: Vec<Digest>)
    requires
        level.len() >= 1,
    ensures
        digest_views(above@) == next_level(digest_views(level@)),
{
    let n = level.len();
    let half = n / 2 + n % 2;
    let ghost below = digest_views(level@);
    let mut above: Vec<Digest> = Vec::new();
    let mut j: usize = 0;
    while j < half
        invariant
            n == level.len(),
            n >= 1,
            half == (n + 1) / 2,
            j <= half,
            below == digest_views(level@),
            above.len() == j,
            forall|t: int| 0 <= t < j ==> (#[trigger] above@[t])@ == parent_of(below, t),
        decreases half - j,
    {
        let left = &level[2 * j];
        let right = if 2 * j + 1 < n {
            &level[2 * j + 1]
        } else {
            &level[2 * j]
        };
        assert(left@ == below[2 * j]);
        assert(right@ == right_of(below, j as int));
        let parent = hash_pair(left, right);
        above.push(parent);
        j += 1;
    }
    assert(digest_views(above@) =~= next_level(below));
    above
}

/// Builds the tree over `records`, in their order.
///
/// Every record is encoded and hashed into a leaf digest. Each level is then
/// paired left to right into the level above, a last digest without partner
/// being paired with itself, until one digest is left: the root. No records
/// at all are refused with `EmptyTreeError`, and a record that cannot be
/// encoded with `EncodingError`.
pub fn build(records: &Vec<MatchingResult>) -> (built: Result<Tree, MerkleError>)
    ensures
        match built {
            Ok(tree) => {
                &&& records.len() > 0
                &&& all_encodable(record_views(records@))
                &&& tree@ == leaves_of(record_views(records@))
                &&& valid_leaves(tree@)
            },
            Err(MerkleError::EmptyTreeError) => records.len() == 0,
            Err(MerkleError::EncodingError) => records.len() > 0 && !all_encodable(
                record_views(records@),
            ),
            Err(_) => false,
        },
{
    if records.len() == 0 {
        return Err(MerkleError::EmptyTreeError);
    }
    let ghost views = record_views(records@);
    let mut leaves: Vec<Digest> = Vec::new();
    let mut i: usize = 0;
    while i < records.len()
        invariant
            i <= records.len(),
            views == record_views(records@),
            leaves.len() == i,
            forall|t: int| 0 <= t < i ==> encodable(#[trigger] views[t]),
            forall|t: int| 0 <= t < i ==> (#[trigger] leaves@[t])@ == leaf_of(views[t]),
        decreases records.len() - i,
    {
        match leaf_digest(&records[i]) {
            Ok(digest) => {
                leaves.push(digest);
            },
            Err(_) => {
                assert(!encodable(views[i as int]));
                return Err(MerkleError::EncodingError);
            },
        }
        i += 1;
    }
    let ghost leaf_views = digest_views(leaves@);
    assert(leaf_views =~= leaves_of(views));
    let mut levels: Vec<Vec<Digest>> = Vec::new();
    levels.push(leaves);
    assert(level_views(levels@)[0] == leaf_views);
    while levels[levels.len() - 1].len() > 1
        invariant
            levels.len() >= 1,
            is_chain(level_views(levels@)),
            level_views(levels@)[0] == leaf_views,
        decreases levels[levels.len() - 1].len(),
    {
        let ghost before = level_views(levels@);
        proof {
            lemma_chain_levels_valid(before, before.len() - 1);
        }
        let above = level_above(&levels[levels.len() - 1]);
        levels.push(above);
        proof {
            let after = level_views(levels@);
            assert(after.len() == before.len() + 1);
            assert forall|k: int| 0 <= k < before.len() implies after[k] == before[k] by {}
            assert(after[before.len() as int] == next_level(before.last()));
            assert forall|k: int| 0 <= k < after.len() - 1 implies #[trigger] linked(
                after,
                k,
            ) by {
                if k < before.len() - 1 {
                    assert(linked(before, k));
                }
            }
        }
    }
    proof {
        let done = level_views(levels@);
        lemma_chain_levels_valid(done, done.len() - 1);
        assert(done.last() == digest_views(levels@[levels@.len() - 1]@));
        assert(done[0] == digest_views(levels@[0]@));
    }
    Ok(Tree { levels })
}

/// Reads a leaf index as a host hands it over, a signed number. A negative
/// number, or one beyond what this machine can hold, names no leaf of any
/// tree and is refused with `IndexOutOfBounds`.
pub fn checked_index(raw: i64) -> (index: Result<usize, MerkleError>)
    ensures
        match index {
            Ok(i) => 0 <= raw && i == raw,
            Err(e) => (raw < 0 || raw > usize::MAX) && e == MerkleError::IndexOutOfBounds,
        },
{
    if raw < 0 || raw as u64 > usize::MAX as u64 {
        Err(MerkleError::IndexOutOfBounds)
    } else {
        Ok(raw as usize)
    }
}

/// Gives the membership proof of leaf `index`.
///
/// The walk starts at the leaf and climbs one level per step. At each level it
/// records the digest next to the current position, the one before an odd
/// position or the one after an even position, with the side it stands on; a
/// last position without neighbour records its own digest, as the builder
/// paired it. An index that names no leaf is refused with `IndexOutOfBounds`.
pub fn prove(tree: &Tree, index: usize) -> (proved: Result<Proof, MerkleError>)
    ensures
        match proved {
            Ok(proof) => index < tree@.len() && proof@ == proof_of(tree@, index as int),
            Err(e) => index >= tree@.len() && e == MerkleError::IndexOutOfBounds,
        },
{
    proof {
        use_type_invariant(tree);
    }
    let ghost levels = level_views(tree.levels@);
    assert(levels[0] == tree@);
    if index >= tree.levels[0].len() {
        return Err(MerkleError::IndexOutOfBounds);
    }
    let leaf = tree.levels[0][index].clone();
    let mut path: Vec<ProofEntry> = Vec::new();
    let mut position: usize = index;
    let mut k: usize = 0;
    assert(path_view(path@) + auth_path(levels[0], index as int) =~= auth_path(
        tree@,
        index as int,
    ));
    while k + 1 < tree.levels.len()
        invariant
            levels == level_views(tree.levels@),
            is_complete(levels),
            levels[0] == tree@,
            k < tree.levels.len(),
            position < levels[k as int].len(),
            path_view(path@) + auth_path(levels[k as int], position as int) == auth_path(
                tree@,
                index as int,
            ),
        decreases tree.levels.len() - k,
    {
        let level = &tree.levels[k];
        let ghost below = levels[k as int];
        assert(below == digest_views(level@));
        assert(linked(levels, k as int));
        let entry = if position % 2 == 1 {
            ProofEntry { sibling: level[position - 1].clone(), side: Side::Left }
        } else if position + 1 < level.len() {
            ProofEntry { sibling: level[position + 1].clone(), side: Side::Right }
        } else {
            ProofEntry { sibling: level[position].clone(), side: Side::Right }
        };
        assert(entry@ == step_at(below, position as int));
        let ghost before = path_view(path@);
        path.push(entry);
        proof {
            let rest = auth_path(next_level(below), position as int / 2);
            assert(auth_path(below, position as int) == seq![step_at(below, position as int)]
                + rest);
            assert(path_view(path@) =~= before + seq![step_at(below, position as int)]);
            assert(path_view(path@) + rest =~= before + (seq![step_at(below, position as int)]
                + rest));
        }
        position = position / 2;
        k += 1;
    }
    proof {
        assert(levels.last() == levels[k as int]);
        assert(auth_path(levels[k as int], position as int) =~= Seq::<
            crate::membership::StepView,
        >::empty());
        assert(path_view(path@) =~= auth_path(tree@, index as int));
    }
    Ok(Proof { leaf_index: index, leaf, path })
}

/// Gives the tree in which leaf `index` is the leaf of `new_record` and every
/// other leaf is as in `tree`, which stays as it was.
///
/// Only the digests on the way from the changed leaf to the root are hashed
/// anew; all others are taken over. An index that names no leaf is refused
/// with `IndexOutOfBounds`, and otherwise a record that cannot be encoded
/// with `EncodingError`.
pub fn update(tree: &Tree, index: usize, new_record: &MatchingResult) -> (updated: Result<
    Tree,
    MerkleError,
>)
    ensures
        match updated {
            Ok(new_tree) => {
                &&& index < tree@.len()
                &&& encodable(new_record@)
                &&& new_tree@ == tree@.update(index as int, leaf_of(new_record@))
                &&& valid_leaves(new_tree@)
            },
            Err(MerkleError::IndexOutOfBounds) => index >= tree@.len(),
            Err(MerkleError::EncodingError) => index < tree@.len() && !encodable(new_record@),
            Err(_) => false,
        },
{
    proof {
        use_type_invariant(tree);
    }
    let ghost old_levels = level_views(tree.levels@);
    assert(old_levels[0] == tree@);
    if index >= tree.levels[0].len() {
        return Err(MerkleError::IndexOutOfBounds);
    }
    let new_leaf = match leaf_digest(new_record) {
        Ok(digest) => digest,
        Err(_) => {
            return Err(MerkleError::EncodingError);
        },
    };
    let ghost leaf = new_leaf@;
    let mut levels: Vec<Vec<Digest>> = Vec::new();
    let mut current: Digest = new_leaf;
    let mut position: usize = index;
    let mut k: usize = 0;
    while k < tree.levels.len()
        invariant
            old_levels == level_views(tree.levels@),
            is_complete(old_levels),
            old_levels[0] == tree@,
            index < tree@.len(),
            is_digest(leaf),
            levels.len() == k,
            k <= tree.levels.len(),
            k < tree.levels.len() ==> position < old_levels[k as int].len(),
            is_digest(current@),
            k == 0 ==> position == index && current@ == leaf,
            k > 0 ==> level_views(levels@)[0] == tree@.update(index as int, leaf),
            0 < k < tree.levels.len() ==> next_level(level_views(levels@)[k - 1])
                == old_levels[k as int].update(position as int, current@),
            forall|t: int| 0 <= t < k ==> (#[trigger] level_views(levels@)[t]).len()
                == old_levels[t].len(),
            forall|t: int| 0 <= t < k - 1 ==> #[trigger] linked(level_views(levels@), t),
        decreases tree.levels.len() - k,
    {
        let ghost done = level_views(levels@);
        let ghost below = old_levels[k as int];
        assert(below == digest_views(tree.levels@[k as int]@));
        let mut level: Vec<Digest> = tree.levels[k].clone();
        assert(digest_views(level@) =~= below);
        level.set(position, current.clone());
        let ghost changed = digest_views(level@);
        assert(changed =~= below.update(position as int, current@));
        if k + 1 < tree.levels.len() {
            assert(linked(old_levels, k as int));
            let parent: usize = position / 2;
            let left = &level[2 * parent];
            let right = if 2 * parent + 1 < level.len() {
                &level[2 * parent + 1]
            } else {
                &level[2 * parent]
            };
            assert(left@ == changed[2 * parent]);
            assert(right@ == right_of(changed, parent as int));
            let above = hash_pair(left, right);
            proof {
                lemma_next_level_update(below, position as int, current@);
            }
            current = above;
            position = parent;
        }
        levels.push(level);
        proof {
            let now = level_views(levels@);
            assert(now.len() == done.len() + 1);
            assert forall|t: int| 0 <= t < done.len() implies now[t] == done[t] by {}
            assert(now[k as int] == changed);
            assert forall|t: int| 0 <= t < k implies #[trigger] linked(now, t) by {
                if t < k - 1 {
                    assert(linked(done, t));
                } else {
                    assert(done[t].len() == old_levels[t].len());
                    assert(linked(old_levels, t));
                }
            }
        }
        k += 1;
    }
    proof {
        let now = level_views(levels@);
        assert(now.last().len() == old_levels.last().len());
        assert(valid_leaves(now[0])) by {
            assert forall|i: int| 0 <= i < now[0].len() implies is_digest(#[trigger] now[0][i]) by {
                assert(is_digest(tree@[i]));
            }
        }
        assert(now[0] == digest_views(levels@[0]@));
    }
    Ok(Tree { levels })
}

} // verus!
