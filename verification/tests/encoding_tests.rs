use merkle_tree::hex::{from_hex, to_hex};
use merkle_tree::{
    encode, hash, hash_matching_result, hash_pair, leaf_digest, Digest, DomainTag, MatchingResult,
    MerkleError, DIGEST_LEN,
};

fn record(id: u32, attributes: &str) -> MatchingResult {
    MatchingResult { id: Some(id), attributes: attributes.as_bytes().to_vec() }
}

#[test]
fn encode_writes_identifier_count_and_attributes() {
    let encoded = encode(&record(1, "a")).unwrap();
    assert_eq!(encoded, vec![0, 0, 0, 1, 0, 0, 0, 0, 0, 0, 0, 1, 0x61]);
}

#[test]
fn encode_of_record_without_attributes_is_the_header() {
    let encoded = encode(&record(5, "")).unwrap();
    assert_eq!(encoded, vec![0, 0, 0, 5, 0, 0, 0, 0, 0, 0, 0, 0]);
}

#[test]
fn encode_writes_most_significant_byte_first() {
    let encoded = encode(&record(0x0102_0304, "xy")).unwrap();
    assert_eq!(encoded, vec![1, 2, 3, 4, 0, 0, 0, 0, 0, 0, 0, 2, 0x78, 0x79]);
}

#[test]
fn encode_refuses_record_without_identifier() {
    let nameless = MatchingResult { id: None, attributes: vec![1, 2, 3] };
    assert_eq!(encode(&nameless), Err(MerkleError::EncodingError));
}

#[test]
fn encode_is_deterministic() {
    assert_eq!(encode(&record(42, "same")), encode(&record(42, "same")));
}

#[test]
fn encode_tells_different_records_apart() {
    assert_ne!(encode(&record(1, "a")), encode(&record(2, "a")));
    assert_ne!(encode(&record(1, "a")), encode(&record(1, "b")));
    assert_ne!(encode(&record(1, "a")), encode(&record(1, "aa")));
}

#[test]
fn hash_of_leaf_role_has_expected_digest() {
    let digest = hash(DomainTag::Leaf, b"abc");
    assert_eq!(
        digest.to_hex(),
        "609f6e36d2405585188d5cfd761f407c7cc46a7d3f314c88270469dde315fcd1"
    );
}

#[test]
fn hash_of_internal_role_has_expected_digest() {
    let digest = hash(DomainTag::Internal, b"abc");
    assert_eq!(
        digest.to_hex(),
        "1e18834c426d00e57788444cb3ccd62c771b420c095bb0c4e040a8c122c4570d"
    );
}

#[test]
fn hash_of_empty_input_is_digest_of_the_prefix() {
    assert_eq!(
        hash(DomainTag::Leaf, b"").to_hex(),
        "6e340b9cffb37a989ca544e6bb780a2c78901d3fb33738768511a30617afa01d"
    );
    assert_eq!(
        hash(DomainTag::Internal, b"").to_hex(),
        "4bf5122f344554c53bde2ebb8cd2b7e3d1600ad631c385a5d7cce23c7785459a"
    );
}

#[test]
fn hash_separates_the_roles() {
    let bytes = b"the same bytes";
    assert_ne!(hash(DomainTag::Leaf, bytes), hash(DomainTag::Internal, bytes));
}

#[test]
fn hash_output_is_digest_len_wide() {
    let digest = hash(DomainTag::Leaf, b"some input that is longer than one digest is wide");
    assert_eq!(digest.bytes.len(), DIGEST_LEN);
    assert!(digest.is_well_formed());
    assert_ne!(digest.bytes, b"some input that is longer than one digest is wide".to_vec());
}

#[test]
fn hash_pair_is_internal_hash_of_both_digests() {
    let left = hash(DomainTag::Leaf, b"l");
    let right = hash(DomainTag::Leaf, b"r");
    let mut joined = left.bytes.clone();
    joined.extend_from_slice(&right.bytes);
    assert_eq!(hash_pair(&left, &right), hash(DomainTag::Internal, &joined));
    assert_ne!(hash_pair(&left, &right), hash_pair(&right, &left));
}

#[test]
fn leaf_digest_has_expected_value() {
    let digest = leaf_digest(&record(5, "")).unwrap();
    assert_eq!(
        digest.to_hex(),
        "e91f3c74321ee4595975d1f80c74f6968428bb21bbecc5a4f113b1d1a0047828"
    );
}

#[test]
fn leaf_digest_is_leaf_hash_of_encoding() {
    let r = record(1, "a");
    let encoded = encode(&r).unwrap();
    assert_eq!(leaf_digest(&r).unwrap(), hash(DomainTag::Leaf, &encoded));
}

#[test]
fn leaf_digest_refuses_record_without_identifier() {
    let nameless = MatchingResult { id: None, attributes: Vec::new() };
    assert_eq!(leaf_digest(&nameless), Err(MerkleError::EncodingError));
}

#[test]
fn hash_matching_result_gives_leaf_digest_as_text() {
    assert_eq!(
        hash_matching_result(&record(5, "")).unwrap(),
        "e91f3c74321ee4595975d1f80c74f6968428bb21bbecc5a4f113b1d1a0047828"
    );
    assert_eq!(
        hash_matching_result(&record(1, "a")).unwrap(),
        "0c3a82ea495170d4e3126b843f59d48317805335b7e915231f9feabd31422106"
    );
}

#[test]
fn hash_matching_result_refuses_record_without_identifier() {
    let nameless = MatchingResult { id: None, attributes: vec![9] };
    assert_eq!(hash_matching_result(&nameless), Err(MerkleError::EncodingError));
}

#[test]
fn to_hex_writes_two_lower_case_digits_per_byte() {
    assert_eq!(to_hex(&[0x00, 0x0f, 0xa0, 0xff, 0x9c]), "000fa0ff9c");
    assert_eq!(to_hex(&[]), "");
}

#[test]
fn from_hex_reads_what_to_hex_wrote() {
    let bytes: Vec<u8> = (0..=255u8).collect();
    let text = to_hex(&bytes);
    assert_eq!(text.len(), 512);
    assert_eq!(from_hex(&text), Some(bytes));
}

#[test]
fn from_hex_reads_digits() {
    assert_eq!(from_hex("00ff1a"), Some(vec![0x00, 0xff, 0x1a]));
    assert_eq!(from_hex(""), Some(Vec::new()));
}

#[test]
fn from_hex_refuses_what_is_not_hexadecimal() {
    assert_eq!(from_hex("abc"), None);
    assert_eq!(from_hex("0g"), None);
    assert_eq!(from_hex("AB"), None);
    assert_eq!(from_hex(" 0"), None);
    assert_eq!(from_hex("0/"), None);
    assert_eq!(from_hex("0:"), None);
    assert_eq!(from_hex("0`"), None);
    assert_eq!(from_hex("\u{e9}\u{e9}"), None);
    assert_eq!(from_hex("\u{ff10}\u{ff10}"), None);
}

#[test]
fn digest_text_round_trip() {
    let digest = hash(DomainTag::Leaf, b"round trip");
    assert_eq!(Digest::from_hex(&digest.to_hex()), Ok(digest));
}

#[test]
fn digest_from_hex_refuses_wrong_width_and_bad_text() {
    assert_eq!(Digest::from_hex("00ff"), Err(MerkleError::MalformedProofError));
    assert_eq!(Digest::from_hex(&"0".repeat(63)), Err(MerkleError::MalformedProofError));
    assert_eq!(Digest::from_hex(&"0".repeat(66)), Err(MerkleError::MalformedProofError));
    assert_eq!(Digest::from_hex(&"G".repeat(64)), Err(MerkleError::MalformedProofError));
    assert_eq!(Digest::from_hex(&"0".repeat(64)), Ok(Digest::from_bytes(vec![0u8; 32])));
}

#[test]
fn digest_same_as_compares_bytes() {
    let a = Digest::from_bytes(vec![1, 2, 3]);
    let b = Digest::from_bytes(vec![1, 2, 3]);
    let c = Digest::from_bytes(vec![1, 2, 4]);
    let d = Digest::from_bytes(vec![1, 2]);
    assert!(a.same_as(&b));
    assert!(!a.same_as(&c));
    assert!(!a.same_as(&d));
    assert!(!d.same_as(&a));
    assert!(!a.is_well_formed());
    assert_eq!(a.clone(), a);
}
