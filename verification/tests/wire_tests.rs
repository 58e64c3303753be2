use merkle_tree::{
    build, deserialize, prove, serialize, verify, MatchingResult, MerkleError, SerializedEntry,
    SerializedProof, Side,
};

fn labelled(id: u32, label: &str) -> MatchingResult {
    MatchingResult { id: Some(id), attributes: label.as_bytes().to_vec() }
}

fn abc() -> Vec<MatchingResult> {
    vec![labelled(1, "a"), labelled(2, "b"), labelled(3, "c")]
}

#[test]
fn serialize_writes_index_texts_and_tags() {
    let tree = build(&abc()).unwrap();
    let wire = serialize(&prove(&tree, 2).unwrap());
    assert_eq!(
        wire,
        SerializedProof {
            leaf_index: 2,
            leaf: "3b2d6fe5f886113033ab7c439e3a7980f7ec53c8e6791e1ca1fe6b0eab1198bf".to_string(),
            path: vec![
                SerializedEntry {
                    sibling: "3b2d6fe5f886113033ab7c439e3a7980f7ec53c8e6791e1ca1fe6b0eab1198bf"
                        .to_string(),
                    side: 'R',
                },
                SerializedEntry {
                    sibling: "8387665a341e0454d090ff7f5f0780b4f12daac999985c166d21e929d2650aaa"
                        .to_string(),
                    side: 'L',
                },
            ],
        }
    );
}

#[test]
fn deserialize_reads_what_serialize_wrote() {
    let tree = build(&abc()).unwrap();
    for i in 0..3 {
        let proof = prove(&tree, i).unwrap();
        let back = deserialize(&serialize(&proof)).unwrap();
        assert_eq!(back, proof);
        assert_eq!(verify(&back.leaf, &back, &tree.root()), Ok(true));
    }
}

#[test]
fn deserialize_reads_tags_as_sides() {
    let wire = SerializedProof {
        leaf_index: 5,
        leaf: "00".repeat(32),
        path: vec![
            SerializedEntry { sibling: "11".repeat(32), side: 'L' },
            SerializedEntry { sibling: "ab".repeat(32), side: 'R' },
        ],
    };
    let proof = deserialize(&wire).unwrap();
    assert_eq!(proof.leaf_index, 5);
    assert_eq!(proof.leaf.bytes, vec![0u8; 32]);
    assert_eq!(proof.path[0].sibling.bytes, vec![0x11u8; 32]);
    assert_eq!(proof.path[0].side, Side::Left);
    assert_eq!(proof.path[1].sibling.bytes, vec![0xabu8; 32]);
    assert_eq!(proof.path[1].side, Side::Right);
}

#[test]
fn deserialize_refuses_an_unknown_side_tag() {
    let tree = build(&abc()).unwrap();
    for tag in ['l', 'r', 'X', ' ', '0'] {
        let mut wire = serialize(&prove(&tree, 0).unwrap());
        wire.path[1].side = tag;
        assert_eq!(deserialize(&wire), Err(MerkleError::MalformedProofError));
    }
}

#[test]
fn deserialize_refuses_a_digest_of_wrong_width() {
    let tree = build(&abc()).unwrap();
    let mut wire = serialize(&prove(&tree, 0).unwrap());
    wire.path[0].sibling.truncate(62);
    assert_eq!(deserialize(&wire), Err(MerkleError::MalformedProofError));
    let mut wire = serialize(&prove(&tree, 0).unwrap());
    wire.leaf.push_str("00");
    assert_eq!(deserialize(&wire), Err(MerkleError::MalformedProofError));
}

#[test]
fn deserialize_refuses_text_that_is_not_hexadecimal() {
    let tree = build(&abc()).unwrap();
    let mut wire = serialize(&prove(&tree, 1).unwrap());
    wire.path[0].sibling = "zz".repeat(32);
    assert_eq!(deserialize(&wire), Err(MerkleError::MalformedProofError));
    let mut wire = serialize(&prove(&tree, 1).unwrap());
    wire.leaf = wire.leaf.to_uppercase();
    assert_eq!(deserialize(&wire), Err(MerkleError::MalformedProofError));
}

#[test]
fn deserialize_keeps_the_leaf_index() {
    let wire = SerializedProof { leaf_index: 4_000_000_000, leaf: "5a".repeat(32), path: Vec::new() };
    if usize::BITS >= 64 {
        assert_eq!(deserialize(&wire).unwrap().leaf_index, 4_000_000_000usize);
        let far = SerializedProof { leaf_index: u64::MAX, leaf: "5a".repeat(32), path: Vec::new() };
        assert_eq!(deserialize(&far).unwrap().leaf_index as u64, u64::MAX);
    }
    let near = SerializedProof { leaf_index: 0, leaf: "5a".repeat(32), path: Vec::new() };
    assert_eq!(deserialize(&near).unwrap().leaf_index, 0);
}

#[test]
fn serialize_keeps_a_malformed_digest_visible() {
    let tree = build(&abc()).unwrap();
    let mut proof = prove(&tree, 0).unwrap();
    proof.path[0].sibling.bytes.pop();
    let wire = serialize(&proof);
    assert_eq!(wire.path[0].sibling.len(), 62);
    assert_eq!(deserialize(&wire), Err(MerkleError::MalformedProofError));
}
