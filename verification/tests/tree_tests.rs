use merkle_tree::{
    build, checked_index, hash, hash_pair, leaf_digest, prove, verify, Digest, DomainTag,
    MatchingResult, MerkleError, Proof, ProofEntry, Side, Tree,
};

fn labelled(id: u32, label: &str) -> MatchingResult {
    MatchingResult { id: Some(id), attributes: label.as_bytes().to_vec() }
}

fn letters(count: usize) -> Vec<MatchingResult> {
    (0..count).map(|i| labelled(i as u32 + 1, &((b'a' + i as u8) as char).to_string())).collect()
}

fn flipped(digest: &Digest, bit: usize) -> Digest {
    let mut bytes = digest.bytes.clone();
    bytes[bit / 8] ^= 1u8 << (bit % 8);
    Digest::from_bytes(bytes)
}

fn from_text(text: &str) -> Digest {
    Digest::from_hex(text).unwrap()
}

#[test]
fn build_refuses_empty_input() {
    let none: Vec<MatchingResult> = Vec::new();
    assert_eq!(build(&none).err(), Some(MerkleError::EmptyTreeError));
}

#[test]
fn build_refuses_record_without_identifier() {
    let mut records = letters(3);
    records[1].id = None;
    assert_eq!(build(&records).err(), Some(MerkleError::EncodingError));
}

#[test]
fn build_is_deterministic() {
    for count in 1..12 {
        let first = build(&letters(count)).unwrap();
        let second = build(&letters(count)).unwrap();
        assert_eq!(first.root(), second.root());
        assert_eq!(first, second);
    }
}

#[test]
fn three_leaves_pad_the_first_level() {
    let records = vec![labelled(1, "a"), labelled(2, "b"), labelled(3, "c")];
    let tree = build(&records).unwrap();
    let again = build(&records).unwrap();
    let root = tree.root();
    assert_eq!(root, again.root());
    assert_eq!(
        root.to_hex(),
        "61d4bc012e6b17a26384adf692b71e30b4f5c426b36648dac97f272540397f8c"
    );
    assert_eq!(tree.leaf_count(), 3);

    let a = leaf_digest(&records[0]).unwrap();
    let b = leaf_digest(&records[1]).unwrap();
    let c = leaf_digest(&records[2]).unwrap();
    assert_eq!(root, hash_pair(&hash_pair(&a, &b), &hash_pair(&c, &c)));

    let proof = prove(&tree, 2).unwrap();
    assert_eq!(proof.leaf_index, 2);
    assert_eq!(proof.leaf, c);
    assert_eq!(
        proof.path,
        vec![
            ProofEntry { sibling: c.clone(), side: Side::Right },
            ProofEntry { sibling: hash_pair(&a, &b), side: Side::Left },
        ]
    );
    assert_eq!(verify(&c, &proof, &root), Ok(true));

    let mut tampered = proof.clone();
    tampered.path[0].sibling = flipped(&proof.path[0].sibling, 0);
    assert_eq!(verify(&c, &tampered, &root), Ok(false));
}

#[test]
fn single_leaf_is_its_own_root() {
    let records = vec![labelled(7, "x")];
    let tree = build(&records).unwrap();
    let leaf = hash(DomainTag::Leaf, &merkle_tree::encode(&records[0]).unwrap());
    assert_eq!(tree.root(), leaf);
    assert_eq!(
        tree.root().to_hex(),
        "fa42e4016dd2d911a4fe0a8db00e39c948ca16da897667f61a2786452a4a76f1"
    );
    assert_eq!(tree.leaf_count(), 1);
    let proof = prove(&tree, 0).unwrap();
    assert!(proof.path.is_empty());
    assert_eq!(proof.leaf, leaf);
    assert_eq!(proof.leaf_index, 0);
    assert_eq!(verify(&leaf, &proof, &tree.root()), Ok(true));
}

#[test]
fn four_leaves_have_expected_root() {
    let tree = build(&letters(4)).unwrap();
    assert_eq!(
        tree.root().to_hex(),
        "ee3a4146d90ddf933e08b41b64b6ec11ccd12a573ca91bdf690b7c6d182e894b"
    );
}

#[test]
fn five_leaves_pad_two_levels() {
    let tree = build(&letters(5)).unwrap();
    assert_eq!(
        tree.root().to_hex(),
        "a9e2daa61626270d73713a2de620456aae79f29c2accddb55d5634db7d63714c"
    );
    let proof = prove(&tree, 4).unwrap();
    let e = tree.leaf(4).unwrap();
    let ee = hash_pair(&e, &e);
    assert_eq!(
        proof.path,
        vec![
            ProofEntry { sibling: e.clone(), side: Side::Right },
            ProofEntry { sibling: ee.clone(), side: Side::Right },
            ProofEntry {
                sibling: from_text(
                    "ee3a4146d90ddf933e08b41b64b6ec11ccd12a573ca91bdf690b7c6d182e894b"
                ),
                side: Side::Left,
            },
        ]
    );
    assert_eq!(
        hash_pair(&ee, &ee).to_hex(),
        "0ce862f27ad561ba9a27609a7e82d381969c7c6e1ecddebdb9f89d2f927e4c7a"
    );
}

#[test]
fn leaves_are_the_leaf_digests_in_order() {
    let records = letters(6);
    let tree = build(&records).unwrap();
    assert_eq!(tree.leaf_count(), 6);
    for (i, r) in records.iter().enumerate() {
        assert_eq!(tree.leaf(i), Some(leaf_digest(r).unwrap()));
    }
    assert_eq!(tree.leaf(6), None);
    assert_eq!(tree.leaf(usize::MAX), None);
}

#[test]
fn root_is_well_formed() {
    for count in 1..9 {
        assert!(build(&letters(count)).unwrap().root().is_well_formed());
    }
}

#[test]
fn reordering_two_leaves_changes_the_root() {
    let records = letters(5);
    let root = build(&records).unwrap().root();
    for i in 0..5 {
        for j in (i + 1)..5 {
            let mut other = records.clone();
            other.swap(i, j);
            assert_ne!(build(&other).unwrap().root(), root);
        }
    }
}

#[test]
fn exchanging_equal_records_keeps_the_root() {
    let records = vec![labelled(1, "a"), labelled(2, "b"), labelled(1, "a")];
    let mut other = records.clone();
    other.swap(0, 2);
    assert_eq!(build(&other).unwrap().root(), build(&records).unwrap().root());
}

#[test]
fn every_leaf_has_a_proof_that_verifies() {
    for count in 1..20 {
        let tree = build(&letters(count)).unwrap();
        let root = tree.root();
        for i in 0..count {
            let proof = prove(&tree, i).unwrap();
            let leaf = tree.leaf(i).unwrap();
            assert_eq!(proof.leaf, leaf);
            assert_eq!(proof.leaf_index, i);
            assert_eq!(verify(&leaf, &proof, &root), Ok(true));
        }
    }
}

#[test]
fn proof_has_one_step_per_level_below_the_root() {
    let expected = [0usize, 1, 2, 2, 3, 3, 3, 3, 4];
    for count in 1..10 {
        let tree = build(&letters(count)).unwrap();
        for i in 0..count {
            assert_eq!(prove(&tree, i).unwrap().path.len(), expected[count - 1]);
        }
    }
}

#[test]
fn proof_sides_follow_the_leaf_position() {
    let tree = build(&letters(8)).unwrap();
    let sides: Vec<Side> = prove(&tree, 5).unwrap().path.iter().map(|e| e.side).collect();
    assert_eq!(sides, vec![Side::Left, Side::Right, Side::Left]);
    let sides: Vec<Side> = prove(&tree, 0).unwrap().path.iter().map(|e| e.side).collect();
    assert_eq!(sides, vec![Side::Right, Side::Right, Side::Right]);
}

#[test]
fn any_flipped_bit_of_the_leaf_digest_is_rejected() {
    let tree = build(&letters(7)).unwrap();
    let root = tree.root();
    for i in 0..7 {
        let proof = prove(&tree, i).unwrap();
        let leaf = tree.leaf(i).unwrap();
        for bit in 0..256 {
            assert_eq!(verify(&flipped(&leaf, bit), &proof, &root), Ok(false));
        }
    }
}

#[test]
fn any_flipped_bit_of_a_sibling_digest_is_rejected() {
    let tree = build(&letters(7)).unwrap();
    let root = tree.root();
    for i in 0..7 {
        let proof = prove(&tree, i).unwrap();
        let leaf = tree.leaf(i).unwrap();
        for step in 0..proof.path.len() {
            for bit in 0..256 {
                let mut tampered = proof.clone();
                tampered.path[step].sibling = flipped(&proof.path[step].sibling, bit);
                assert_eq!(verify(&leaf, &tampered, &root), Ok(false));
            }
        }
    }
}

#[test]
fn a_flipped_side_is_rejected_where_the_sibling_is_another_digest() {
    let tree = build(&letters(4)).unwrap();
    let root = tree.root();
    let proof = prove(&tree, 1).unwrap();
    let leaf = tree.leaf(1).unwrap();
    for step in 0..proof.path.len() {
        let mut tampered = proof.clone();
        tampered.path[step].side = match proof.path[step].side {
            Side::Left => Side::Right,
            Side::Right => Side::Left,
        };
        assert_eq!(verify(&leaf, &tampered, &root), Ok(false));
    }
}

#[test]
fn a_proof_does_not_verify_against_another_root() {
    let tree = build(&letters(4)).unwrap();
    let other = build(&letters(5)).unwrap();
    let proof = prove(&tree, 2).unwrap();
    let leaf = tree.leaf(2).unwrap();
    assert_eq!(verify(&leaf, &proof, &other.root()), Ok(false));
    assert_eq!(verify(&leaf, &proof, &flipped(&tree.root(), 255)), Ok(false));
}

#[test]
fn a_proof_does_not_verify_for_another_leaf() {
    let tree = build(&letters(4)).unwrap();
    let proof = prove(&tree, 2).unwrap();
    assert_eq!(verify(&tree.leaf(3).unwrap(), &proof, &tree.root()), Ok(false));
}

#[test]
fn a_shortened_or_lengthened_path_is_rejected() {
    let tree = build(&letters(4)).unwrap();
    let root = tree.root();
    let leaf = tree.leaf(0).unwrap();
    let proof = prove(&tree, 0).unwrap();
    let mut short = proof.clone();
    short.path.pop();
    assert_eq!(verify(&leaf, &short, &root), Ok(false));
    let mut long = proof.clone();
    long.path.push(proof.path[0].clone());
    assert_eq!(verify(&leaf, &long, &root), Ok(false));
}

#[test]
fn prove_refuses_index_out_of_bounds() {
    for count in 1..6 {
        let tree = build(&letters(count)).unwrap();
        assert_eq!(prove(&tree, count), Err(MerkleError::IndexOutOfBounds));
        assert_eq!(prove(&tree, count + 1), Err(MerkleError::IndexOutOfBounds));
        assert_eq!(prove(&tree, usize::MAX), Err(MerkleError::IndexOutOfBounds));
        assert!(prove(&tree, count - 1).is_ok());
    }
}

#[test]
fn a_negative_index_is_out_of_bounds() {
    assert_eq!(checked_index(-1), Err(MerkleError::IndexOutOfBounds));
    assert_eq!(checked_index(i64::MIN), Err(MerkleError::IndexOutOfBounds));
    assert_eq!(checked_index(0), Ok(0));
    assert_eq!(checked_index(41), Ok(41));
    if usize::BITS >= 64 {
        assert_eq!(checked_index(i64::MAX), Ok(i64::MAX as usize));
    } else {
        assert_eq!(checked_index(i64::MAX), Err(MerkleError::IndexOutOfBounds));
    }
    let tree = build(&letters(3)).unwrap();
    let index = checked_index(3).unwrap();
    assert_eq!(prove(&tree, index), Err(MerkleError::IndexOutOfBounds));
}

#[test]
fn verify_reports_a_sibling_of_wrong_width_as_malformed() {
    let tree = build(&letters(4)).unwrap();
    let root = tree.root();
    let leaf = tree.leaf(1).unwrap();
    let proof = prove(&tree, 1).unwrap();
    let mut narrow = proof.clone();
    narrow.path[1].sibling.bytes.pop();
    assert_eq!(verify(&leaf, &narrow, &root), Err(MerkleError::MalformedProofError));
    let mut wide = proof.clone();
    wide.path[0].sibling.bytes.push(0);
    assert_eq!(verify(&leaf, &wide, &root), Err(MerkleError::MalformedProofError));
    let mut empty = proof.clone();
    empty.path[0].sibling = Digest::from_bytes(Vec::new());
    assert_eq!(verify(&leaf, &empty, &root), Err(MerkleError::MalformedProofError));
}

#[test]
fn verify_reports_a_leaf_digest_of_wrong_width_as_malformed() {
    let tree = build(&letters(2)).unwrap();
    let proof = prove(&tree, 0).unwrap();
    let short = Digest::from_bytes(vec![0u8; 31]);
    assert_eq!(verify(&short, &proof, &tree.root()), Err(MerkleError::MalformedProofError));
    let mut odd = proof.clone();
    odd.leaf = Digest::from_bytes(vec![0u8; 33]);
    assert_eq!(
        verify(&tree.leaf(0).unwrap(), &odd, &tree.root()),
        Err(MerkleError::MalformedProofError)
    );
}

#[test]
fn verify_answers_false_for_a_root_of_wrong_width() {
    let tree = build(&letters(2)).unwrap();
    let proof = prove(&tree, 0).unwrap();
    let mut root = tree.root();
    root.bytes.pop();
    assert_eq!(verify(&tree.leaf(0).unwrap(), &proof, &root), Ok(false));
}

#[test]
fn verify_with_empty_path_compares_leaf_and_root() {
    let leaf = hash(DomainTag::Leaf, b"only");
    let proof = Proof { leaf_index: 0, leaf: leaf.clone(), path: Vec::new() };
    assert_eq!(verify(&leaf, &proof, &leaf), Ok(true));
    assert_eq!(verify(&leaf, &proof, &flipped(&leaf, 17)), Ok(false));
}

#[test]
fn verify_joins_the_sibling_on_its_side() {
    let current = hash(DomainTag::Leaf, b"current");
    let sibling = hash(DomainTag::Leaf, b"sibling");
    let left = Proof {
        leaf_index: 1,
        leaf: current.clone(),
        path: vec![ProofEntry { sibling: sibling.clone(), side: Side::Left }],
    };
    let right = Proof {
        leaf_index: 0,
        leaf: current.clone(),
        path: vec![ProofEntry { sibling: sibling.clone(), side: Side::Right }],
    };
    assert_eq!(verify(&current, &left, &hash_pair(&sibling, &current)), Ok(true));
    assert_eq!(verify(&current, &left, &hash_pair(&current, &sibling)), Ok(false));
    assert_eq!(verify(&current, &right, &hash_pair(&current, &sibling)), Ok(true));
    assert_eq!(verify(&current, &right, &hash_pair(&sibling, &current)), Ok(false));
}

#[test]
fn a_tree_copy_is_the_same_tree() {
    let tree: Tree = build(&letters(5)).unwrap();
    let copy = tree.clone();
    assert_eq!(copy, tree);
    assert_eq!(copy.root(), tree.root());
    assert_eq!(prove(&copy, 3), prove(&tree, 3));
}
