//! What holds of every tree, proof and verification: the laws that relate the
//! operations of this library to one another.

use vstd::prelude::*;
use vstd::arithmetic::power2::{lemma2_to64, lemma_pow2_unfold, pow2};
use crate::digest::is_digest;
use crate::error::MerkleError;
use crate::hash::{no_collision, tagged, DomainTag};
use crate::membership::{
    auth_path, combine, fold_path, path_well_formed, proof_of, proof_well_formed, step_at,
    verify_spec, ProofView, Side, StepView,
};
use crate::record::{encodable, encode_spec, leaf_of, lemma_encoding_injective, RecordView};
use crate::tree::{
    all_encodable, leaves_of, merkle_root, next_level, parent_of, right_of, valid_leaves, Tree,
};

verus! {

/// Building is deterministic: two trees built from the same records hold the
/// same leaves and have the same root digest.
pub proof fn lemma_build_deterministic(records: Seq<RecordView>, first: Tree, second: Tree)
    requires
        first@ == leaves_of(records),
        second@ == leaves_of(records),
    ensures
        first@ == second@,
        first.root_spec() == second.root_spec(),
{
}

/// Taking the steps of a leaf's authentication path leads from the leaf's
/// digest to the root.
pub proof fn lemma_path_leads_to_root(leaves: Seq<Seq<u8>>, index: int)
    requires
        0 <= index < leaves.len(),
    ensures
        fold_path(leaves[index], auth_path(leaves, index)) == merkle_root(leaves),
    decreases leaves.len(),
{
    if leaves.len() > 1 {
        let above = next_level(leaves);
        let path = auth_path(leaves, index);
        assert(combine(leaves[index], step_at(leaves, index)) == above[index / 2]);
        assert(path[0] == step_at(leaves, index));
        assert(path.drop_first() =~= auth_path(above, index / 2));
        lemma_path_leads_to_root(above, index / 2);
    }
}

/// Every sibling digest on an authentication path over valid leaves has the
/// width of a hash output.
pub proof fn lemma_path_well_formed(leaves: Seq<Seq<u8>>, index: int)
    requires
        valid_leaves(leaves),
        0 <= index < leaves.len(),
    ensures
        path_well_formed(auth_path(leaves, index)),
    decreases leaves.len(),
{
    if leaves.len() > 1 {
        let above = next_level(leaves);
        let path = auth_path(leaves, index);
        let rest = auth_path(above, index / 2);
        lemma_path_well_formed(above, index / 2);
        assert forall|k: int| 0 <= k < path.len() implies is_digest(#[trigger] path[k].sibling) by {
            if k > 0 {
                assert(path[k] == rest[k - 1]);
            }
        }
    }
}

/// Completeness: for every leaf of a tree, the proof the tree gives for it is
/// accepted for that leaf's digest against the tree's root.
pub proof fn lemma_proof_verifies(leaves: Seq<Seq<u8>>, index: int)
    requires
        valid_leaves(leaves),
        0 <= index < leaves.len(),
    ensures
        verify_spec(leaves[index], proof_of(leaves, index), merkle_root(leaves)) == Ok::<
            bool,
            MerkleError,
        >(true),
{
    lemma_path_leads_to_root(leaves, index);
    lemma_path_well_formed(leaves, index);
}

/// The bytes handed to SHA-256 when `current` is joined with the sibling of
/// `step`.
pub open spec fn step_input(current: Seq<u8>, step: StepView) -> Seq<u8> {
    match step.side {
        Side::Left => tagged(DomainTag::Internal, step.sibling + current),
        Side::Right => tagged(DomainTag::Internal, current + step.sibling),
    }
}

/// The two paths have the same number of steps, with the same sides.
pub open spec fn same_sides(p: Seq<StepView>, q: Seq<StepView>) -> bool {
    &&& p.len() == q.len()
    &&& forall|k: int| 0 <= k < p.len() ==> (#[trigger] p[k]).side == q[k].side
}

/// Walking `p` from `a` and walking `q` from `b` never hands SHA-256 two
/// different inputs with the same digest at the same step.
pub open spec fn walks_collision_free(
    a: Seq<u8>,
    p: Seq<StepView>,
    b: Seq<u8>,
    q: Seq<StepView>,
) -> bool
    decreases p.len(),
{
    if p.len() == 0 || q.len() == 0 {
        true
    } else {
        &&& no_collision(step_input(a, p[0]), step_input(b, q[0]))
        &&& walks_collision_free(
            combine(a, p[0]),
            p.drop_first(),
            combine(b, q[0]),
            q.drop_first(),
        )
    }
}

/// Two concatenations that agree, of parts that pair up in length, agree part
/// by part.
proof fn lemma_concat_parts(a: Seq<u8>, b: Seq<u8>, c: Seq<u8>, d: Seq<u8>)
    requires
        a + b == c + d,
        a.len() == c.len(),
    ensures
        a == c,
        b == d,
{
    assert(a =~= (a + b).subrange(0, a.len() as int));
    assert(c =~= (c + d).subrange(0, c.len() as int));
    assert(b =~= (a + b).subrange(a.len() as int, (a + b).len() as int));
    assert(d =~= (c + d).subrange(c.len() as int, (c + d).len() as int));
}

/// Inputs tagged alike agree only where the bytes under the tag agree.
proof fn lemma_tagged_injective(tag: DomainTag, x: Seq<u8>, y: Seq<u8>)
    requires
        tagged(tag, x) == tagged(tag, y),
    ensures
        x == y,
{
    lemma_concat_parts(seq![crate::hash::tag_byte(tag)], x, seq![crate::hash::tag_byte(tag)], y);
}

/// Two walks with the same sides that start from different digests, or take a
/// different sibling somewhere, end at different digests, unless SHA-256
/// collides on the way.
pub proof fn lemma_walks_differ(a: Seq<u8>, p: Seq<StepView>, b: Seq<u8>, q: Seq<StepView>)
    requires
        is_digest(a),
        is_digest(b),
        path_well_formed(p),
        path_well_formed(q),
        same_sides(p, q),
        walks_collision_free(a, p, b, q),
        a != b || p != q,
    ensures
        fold_path(a, p) != fold_path(b, q),
    decreases p.len(),
{
    if p.len() == 0 {
        assert(p =~= q);
    } else {
        let a_next = combine(a, p[0]);
        let b_next = combine(b, q[0]);
        let p_rest = p.drop_first();
        let q_rest = q.drop_first();
        assert(p[0].side == q[0].side);
        assert(is_digest(p[0].sibling) && is_digest(q[0].sibling));
        assert forall|k: int| 0 <= k < p_rest.len() implies is_digest(#[trigger] p_rest[k].sibling) by {
            assert(p_rest[k] == p[k + 1]);
        }
        assert forall|k: int| 0 <= k < q_rest.len() implies is_digest(#[trigger] q_rest[k].sibling) by {
            assert(q_rest[k] == q[k + 1]);
        }
        assert forall|k: int| 0 <= k < p_rest.len() implies (#[trigger] p_rest[k]).side == q_rest[k].side by {
            assert(p_rest[k] == p[k + 1]);
            assert(q_rest[k] == q[k + 1]);
        }
        if a_next == b_next && p_rest == q_rest {
            // the first step joined different inputs into the same digest
            assert(step_input(a, p[0]) == step_input(b, q[0]));
            match p[0].side {
                Side::Left => {
                    lemma_tagged_injective(
                        DomainTag::Internal,
                        p[0].sibling + a,
                        q[0].sibling + b,
                    );
                    lemma_concat_parts(p[0].sibling, a, q[0].sibling, b);
                },
                Side::Right => {
                    lemma_tagged_injective(
                        DomainTag::Internal,
                        a + p[0].sibling,
                        b + q[0].sibling,
                    );
                    lemma_concat_parts(a, p[0].sibling, b, q[0].sibling);
                },
            }
            assert(p[0] == q[0]);
            assert(p =~= seq![p[0]] + p_rest);
            assert(q =~= seq![q[0]] + q_rest);
            assert(false);
        } else {
            lemma_walks_differ(a_next, p_rest, b_next, q_rest);
        }
    }
}

/// Tamper sensitivity: a leaf digest or a sibling digest that differs from
/// the one the tree gives, in one bit or in more, makes verification against
/// the tree's root answer `false`, unless the change makes SHA-256 collide
/// somewhere on the way up.
///
/// `tampered_leaf` and `tampered` stand for the leaf digest and the proof
/// after the change: digests of the right width, the path as long as the
/// honest one and with the same sides.
pub proof fn lemma_tampering_detected(
    leaves: Seq<Seq<u8>>,
    index: int,
    tampered_leaf: Seq<u8>,
    tampered: ProofView,
)
    requires
        valid_leaves(leaves),
        0 <= index < leaves.len(),
        is_digest(tampered_leaf),
        proof_well_formed(tampered),
        same_sides(auth_path(leaves, index), tampered.path),
        tampered_leaf != leaves[index] || tampered.path != auth_path(leaves, index),
        walks_collision_free(
            leaves[index],
            auth_path(leaves, index),
            tampered_leaf,
            tampered.path,
        ),
    ensures
        verify_spec(tampered_leaf, tampered, merkle_root(leaves)) == Ok::<bool, MerkleError>(
            false,
        ),
{
    lemma_path_leads_to_root(leaves, index);
    lemma_path_well_formed(leaves, index);
    lemma_walks_differ(leaves[index], auth_path(leaves, index), tampered_leaf, tampered.path);
}

/// `digest` with bit `bit` inverted, bits counted from the lowest bit of the
/// first byte.
pub open spec fn flip_bit(digest: Seq<u8>, bit: int) -> Seq<u8> {
    digest.update(bit / 8, digest[bit / 8] ^ (1u8 << ((bit % 8) as u8)))
}

/// Inverting one bit of a digest gives a different digest of the same width.
pub proof fn lemma_flip_bit_changes(digest: Seq<u8>, bit: int)
    requires
        0 <= bit < 8 * digest.len(),
    ensures
        flip_bit(digest, bit) != digest,
        flip_bit(digest, bit).len() == digest.len(),
{
    let byte = digest[bit / 8];
    let shift = (bit % 8) as u8;
    assert(shift < 8 ==> byte ^ (1u8 << shift) != byte) by (bit_vector);
    assert(flip_bit(digest, bit)[bit / 8] != digest[bit / 8]);
}

/// Tamper sensitivity, for the leaf digest: with one bit of the leaf digest
/// inverted, the tree's own proof for that leaf is answered `false`, unless
/// the change makes SHA-256 collide on the way up.
pub proof fn lemma_flipped_leaf_rejected(leaves: Seq<Seq<u8>>, index: int, bit: int)
    requires
        valid_leaves(leaves),
        0 <= index < leaves.len(),
        0 <= bit < 8 * leaves[index].len(),
        walks_collision_free(
            leaves[index],
            auth_path(leaves, index),
            flip_bit(leaves[index], bit),
            auth_path(leaves, index),
        ),
    ensures
        verify_spec(flip_bit(leaves[index], bit), proof_of(leaves, index), merkle_root(leaves))
            == Ok::<bool, MerkleError>(false),
{
    lemma_flip_bit_changes(leaves[index], bit);
    lemma_path_well_formed(leaves, index);
    lemma_tampering_detected(
        leaves,
        index,
        flip_bit(leaves[index], bit),
        proof_of(leaves, index),
    );
}

/// `path` with one bit of the sibling digest at step `k` inverted.
pub open spec fn flip_sibling_bit(path: Seq<StepView>, k: int, bit: int) -> Seq<StepView> {
    path.update(k, StepView { sibling: flip_bit(path[k].sibling, bit), side: path[k].side })
}

/// Tamper sensitivity, for a proof entry: with one bit of one sibling digest
/// of the tree's proof inverted, verification of the leaf is answered
/// `false`, unless the change makes SHA-256 collide on the way up.
pub proof fn lemma_flipped_sibling_rejected(leaves: Seq<Seq<u8>>, index: int, k: int, bit: int)
    requires
        valid_leaves(leaves),
        0 <= index < leaves.len(),
        0 <= k < auth_path(leaves, index).len(),
        0 <= bit < 8 * auth_path(leaves, index)[k].sibling.len(),
        walks_collision_free(
            leaves[index],
            auth_path(leaves, index),
            leaves[index],
            flip_sibling_bit(auth_path(leaves, index), k, bit),
        ),
    ensures
        verify_spec(
            leaves[index],
            ProofView {
                leaf_index: index as nat,
                leaf: leaves[index],
                path: flip_sibling_bit(auth_path(leaves, index), k, bit),
            },
            merkle_root(leaves),
        ) == Ok::<bool, MerkleError>(false),
{
    let honest = auth_path(leaves, index);
    let changed = flip_sibling_bit(honest, k, bit);
    lemma_path_well_formed(leaves, index);
    lemma_flip_bit_changes(honest[k].sibling, bit);
    assert(changed[k].sibling != honest[k].sibling);
    assert forall|t: int| 0 <= t < changed.len() implies is_digest(
        #[trigger] changed[t].sibling,
    ) by {
        if t != k {
            assert(changed[t] == honest[t]);
        }
    }
    lemma_tampering_detected(
        leaves,
        index,
        leaves[index],
        ProofView { leaf_index: index as nat, leaf: leaves[index], path: changed },
    );
}

/// The input of parent `j` over `level`, as SHA-256 receives it.
pub open spec fn pair_input(level: Seq<Seq<u8>>, j: int) -> Seq<u8> {
    tagged(DomainTag::Internal, level[2 * j] + right_of(level, j))
}

/// Building the trees over `a` and over `b` never hands SHA-256 two different
/// inputs with the same digest at the same place of the two trees.
pub open spec fn trees_collision_free(a: Seq<Seq<u8>>, b: Seq<Seq<u8>>) -> bool
    decreases a.len(),
{
    if a.len() <= 1 || a.len() != b.len() {
        true
    } else {
        &&& forall|j: int|
            0 <= j < (a.len() + 1) / 2 ==> no_collision(
                #[trigger] pair_input(a, j),
                pair_input(b, j),
            )
        &&& trees_collision_free(next_level(a), next_level(b))
    }
}

/// The root commits to the leaves: two sequences of equally many leaf digests
/// with the same root are the same sequence, unless SHA-256 collides between
/// the two trees.
pub proof fn lemma_root_binds_leaves(a: Seq<Seq<u8>>, b: Seq<Seq<u8>>)
    requires
        valid_leaves(a),
        valid_leaves(b),
        a.len() == b.len(),
        trees_collision_free(a, b),
        merkle_root(a) == merkle_root(b),
    ensures
        a == b,
    decreases a.len(),
{
    if a.len() <= 1 {
        assert(a =~= b);
    } else {
        let above_a = next_level(a);
        let above_b = next_level(b);
        lemma_root_binds_leaves(above_a, above_b);
        assert forall|i: int| 0 <= i < a.len() implies a[i] == b[i] by {
            let j = i / 2;
            assert(above_a[j] == above_b[j]);
            assert(no_collision(pair_input(a, j), pair_input(b, j)));
            assert(is_digest(a[2 * j]) && is_digest(b[2 * j]));
            lemma_tagged_injective(
                DomainTag::Internal,
                a[2 * j] + right_of(a, j),
                b[2 * j] + right_of(b, j),
            );
            lemma_concat_parts(a[2 * j], right_of(a, j), b[2 * j], right_of(b, j));
        }
        assert(a =~= b);
    }
}

/// `records` with the records at `i` and `j` exchanged.
pub open spec fn swapped(records: Seq<RecordView>, i: int, j: int) -> Seq<RecordView> {
    records.update(i, records[j]).update(j, records[i])
}

/// Order sensitivity: exchanging two different records changes the root,
/// unless SHA-256 collides on the two records or between the two trees.
pub proof fn lemma_order_matters(records: Seq<RecordView>, i: int, j: int)
    requires
        all_encodable(records),
        0 <= i < records.len(),
        0 <= j < records.len(),
        records[i] != records[j],
        no_collision(
            tagged(DomainTag::Leaf, encode_spec(records[i])),
            tagged(DomainTag::Leaf, encode_spec(records[j])),
        ),
        trees_collision_free(leaves_of(records), leaves_of(swapped(records, i, j))),
    ensures
        merkle_root(leaves_of(records)) != merkle_root(leaves_of(swapped(records, i, j))),
{
    let a = leaves_of(records);
    let b = leaves_of(swapped(records, i, j));
    assert(encodable(records[i]) && encodable(records[j]));
    if leaf_of(records[i]) == leaf_of(records[j]) {
        lemma_tagged_injective(
            DomainTag::Leaf,
            encode_spec(records[i]),
            encode_spec(records[j]),
        );
        lemma_encoding_injective(records[i], records[j]);
    }
    assert(a[i] == leaf_of(records[i]));
    assert(b[i] == leaf_of(records[j]));
    if merkle_root(a) == merkle_root(b) {
        lemma_root_binds_leaves(a, b);
    }
}

/// Updating one leaf of a tree gives the leaves that building from the
/// records, with that one record replaced, would give.
pub proof fn lemma_update_is_rebuild(records: Seq<RecordView>, index: int, record: RecordView)
    requires
        0 <= index < records.len(),
    ensures
        leaves_of(records.update(index, record)) == leaves_of(records).update(
            index,
            leaf_of(record),
        ),
{
    assert(leaves_of(records.update(index, record)) =~= leaves_of(records).update(
        index,
        leaf_of(record),
    ));
}

/// Whether the step recorded for position `index`, on a level of `size`
/// digests, takes the digest at position `changed` as its sibling.
pub open spec fn step_reads(size: nat, index: int, changed: int) -> bool {
    if index % 2 == 1 {
        changed == index - 1
    } else if index + 1 < size {
        changed == index + 1
    } else {
        changed == index
    }
}

/// Whether step `k` of the path of leaf `index`, in a tree of `size` leaves,
/// takes as its sibling a digest that depends on leaf `changed`: whether that
/// leaf lies under the sibling of step `k`.
pub open spec fn step_depends_on(size: nat, index: int, changed: int, k: nat) -> bool
    decreases k,
{
    if k == 0 {
        step_reads(size, index, changed)
    } else {
        step_depends_on((size + 1) / 2, index / 2, changed / 2, (k - 1) as nat)
    }
}

/// Locality of an update: replacing one leaf leaves every step of another
/// leaf's path as it was, except the steps whose sibling lies above the
/// replaced leaf.
pub proof fn lemma_update_keeps_other_steps(
    leaves: Seq<Seq<u8>>,
    changed: int,
    digest: Seq<u8>,
    index: int,
    k: nat,
)
    requires
        0 <= changed < leaves.len(),
        0 <= index < leaves.len(),
        k < auth_path(leaves, index).len(),
        !step_depends_on(leaves.len(), index, changed, k),
    ensures
        auth_path(leaves.update(changed, digest), index).len() == auth_path(leaves, index).len(),
        auth_path(leaves.update(changed, digest), index)[k as int] == auth_path(
            leaves,
            index,
        )[k as int],
    decreases k,
{
    let after = leaves.update(changed, digest);
    lemma_path_len(leaves, index);
    lemma_path_len(after, index);
    if k > 0 {
        let above = next_level(leaves);
        crate::tree::lemma_next_level_update(leaves, changed, digest);
        lemma_update_keeps_other_steps(
            above,
            changed / 2,
            parent_of(after, changed / 2),
            index / 2,
            (k - 1) as nat,
        );
        assert(auth_path(after, index)[k as int] == auth_path(next_level(after), index / 2)[k
            - 1]);
        assert(auth_path(leaves, index)[k as int] == auth_path(above, index / 2)[k - 1]);
    }
}

/// The number of levels between a level of `size` digests and the root.
pub open spec fn depth(size: nat) -> nat
    decreases size,
{
    if size <= 1 {
        0
    } else {
        1 + depth((size + 1) / 2)
    }
}

/// A proof has one step for each level below the root, whatever the leaves.
pub proof fn lemma_path_len(leaves: Seq<Seq<u8>>, index: int)
    ensures
        auth_path(leaves, index).len() == depth(leaves.len()),
    decreases leaves.len(),
{
    if leaves.len() > 1 {
        lemma_path_len(next_level(leaves), index / 2);
    }
}

/// The depth is the logarithm of the size, rounded up: a proof for one of
/// `size` leaves is no longer than that.
pub proof fn lemma_depth_is_logarithmic(size: nat)
    requires
        size >= 1,
    ensures
        size <= pow2(depth(size)),
        size > 1 ==> pow2((depth(size) - 1) as nat) < size,
    decreases size,
{
    lemma2_to64();
    if size > 1 {
        let half = (size + 1) / 2;
        lemma_depth_is_logarithmic(half as nat);
        lemma_pow2_unfold(depth(size));
        if half > 1 {
            lemma_pow2_unfold(depth(half as nat));
        }
    }
}

} // verus!
