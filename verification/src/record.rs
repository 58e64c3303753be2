//! Matching-result records and their canonical encoding.

use vstd::prelude::*;
use crate::digest::Digest;
use crate::error::MerkleError;
use crate::hash::{hash, leaf_hash, DomainTag};
use crate::hex::hex_encode;

verus! {

/// One matching result: the identifier that names it, and whatever further
/// attributes the application attaches, already in the byte form the
/// application has settled on. A record without identifier cannot be encoded.
#[derive(Debug, PartialEq, Eq)]
pub struct MatchingResult {
    pub id: Option<u32>,
    pub attributes: Vec<u8>,
}

/// What a record holds, as mathematical values.
pub struct RecordView {
    pub id: Option<u32>,
    pub attributes: Seq<u8>,
}

impl View for MatchingResult {
    type V = RecordView;

    open spec fn view(&self) -> RecordView {
        RecordView { id: self.id, attributes: self.attributes@ }
    }
}

impl Clone for MatchingResult {
    fn clone(&self) -> (copy: Self)
        ensures
            copy@ == self@,
    {
        MatchingResult { id: self.id, attributes: self.attributes.clone() }
    }
}

/// Number of bytes that precede the attributes in an encoding.
pub const HEADER_LEN: usize = 12;

/// The four bytes of `value`, most significant first.
pub open spec fn be_u32(value: u32) -> Seq<u8> {
    seq![
        (value / 0x100_0000) as u8,
        (value / 0x1_0000 % 0x100) as u8,
        (value / 0x100 % 0x100) as u8,
        (value % 0x100) as u8,
    ]
}

/// The eight bytes of `value`, most significant first.
pub open spec fn be_u64(value: u64) -> Seq<u8> {
    seq![
        (value / 0x100_0000_0000_0000) as u8,
        (value / 0x1_0000_0000_0000 % 0x100) as u8,
        (value / 0x100_0000_0000 % 0x100) as u8,
        (value / 0x1_0000_0000 % 0x100) as u8,
        (value / 0x100_0000 % 0x100) as u8,
        (value / 0x1_0000 % 0x100) as u8,
        (value / 0x100 % 0x100) as u8,
        (value % 0x100) as u8,
    ]
}

/// Whether `record` has a canonical encoding.
pub open spec fn encodable(record: RecordView) -> bool {
    record.id is Some
}

/// The canonical encoding of an encodable record: the identifier in four
/// bytes, then the number of attribute bytes in eight, both most significant
/// byte first, then the attribute bytes themselves.
pub open spec fn encode_spec(record: RecordView) -> Seq<u8> {
    be_u32(record.id.unwrap()) + be_u64(record.attributes.len() as u64) + record.attributes
}

/// The leaf digest of an encodable record.
pub open spec fn leaf_of(record: RecordView) -> Seq<u8> {
    leaf_hash(encode_spec(record))
}

/// Appends the four bytes of `value` to `bytes`.
fn push_u32(bytes: &mut Vec<u8>, value: u32)
    ensures
        final(bytes)@ == old(bytes)@ + be_u32(value),
{
    bytes.push((value / 0x100_0000) as u8);
    bytes.push((value / 0x1_0000 % 0x100) as u8);
    bytes.push((value / 0x100 % 0x100) as u8);
    bytes.push((value % 0x100) as u8);
    assert(bytes@ =~= old(bytes)@ + be_u32(value));
}

/// Appends the eight bytes of `value` to `bytes`.
fn push_u64(bytes: &mut Vec<u8>, value: u64)
    ensures
        final(bytes)@ == old(bytes)@ + be_u64(value),
{
    bytes.push((value / 0x100_0000_0000_0000) as u8);
    bytes.push((value / 0x1_0000_0000_0000 % 0x100) as u8);
    bytes.push((value / 0x100_0000_0000 % 0x100) as u8);
    bytes.push((value / 0x1_0000_0000 % 0x100) as u8);
    bytes.push((value / 0x100_0000 % 0x100) as u8);
    bytes.push((value / 0x1_0000 % 0x100) as u8);
    bytes.push((value / 0x100 % 0x100) as u8);
    bytes.push((value % 0x100) as u8);
    assert(bytes@ =~= old(bytes)@ + be_u64(value));
}

/// Encodes `record` canonically, or refuses it when its identifier is missing.
pub fn encode(record: &MatchingResult) -> (encoded: Result<Vec<u8>, MerkleError>)
    ensures
        match encoded {
            Ok(bytes) => encodable(record@) && bytes@ == encode_spec(record@),
            Err(e) => !encodable(record@) && e == MerkleError::EncodingError,
        },
{
    let id: u32 = match record.id {
        Some(id) => id,
        None => {
            return Err(MerkleError::EncodingError);
        },
    };
    let mut bytes: Vec<u8> = Vec::new();
    push_u32(&mut bytes, id);
    push_u64(&mut bytes, record.attributes.len() as u64);
    let ghost header = bytes@;
    assert(header =~= be_u32(id) + be_u64(record.attributes.len() as u64));
    let mut i: usize = 0;
    while i < record.attributes.len()
        invariant
            i <= record.attributes.len(),
            bytes@ == header + record.attributes@.subrange(0, i as int),
        decreases record.attributes.len() - i,
    {
        bytes.push(record.attributes[i]);
        i += 1;
    }
    assert(record.attributes@.subrange(0, record.attributes.len() as int)
        == record.attributes@);
    Ok(bytes)
}

/// Computes the leaf digest of `record`: its canonical encoding, hashed in
/// the leaf role.
pub fn leaf_digest(record: &MatchingResult) -> (leaf: Result<Digest, MerkleError>)
    ensures
        match leaf {
            Ok(digest) => encodable(record@) && digest@ == leaf_of(record@),
            Err(e) => !encodable(record@) && e == MerkleError::EncodingError,
        },
{
    match encode(record) {
        Ok(bytes) => Ok(hash(DomainTag::Leaf, bytes.as_slice())),
        Err(e) => Err(e),
    }
}

/// The leaf digest of `record` as hexadecimal text: what a host that holds
/// one matching result gets back for it.
pub fn hash_matching_result(record: &MatchingResult) -> (text: Result<String, MerkleError>)
    ensures
        match text {
            Ok(hex) => encodable(record@) && hex@ == hex_encode(leaf_of(record@)),
            Err(e) => !encodable(record@) && e == MerkleError::EncodingError,
        },
{
    match leaf_digest(record) {
        Ok(digest) => Ok(digest.to_hex()),
        Err(e) => Err(e),
    }
}

/// Different identifiers are written as different bytes.
pub proof fn lemma_be_u32_injective(a: u32, b: u32)
    requires
        be_u32(a) == be_u32(b),
    ensures
        a == b,
{
    let x = be_u32(a);
    let y = be_u32(b);
    assert(x[0] == y[0] && x[1] == y[1] && x[2] == y[2] && x[3] == y[3]);
    assert(a == (a / 0x100_0000) * 0x100_0000 + (a / 0x1_0000 % 0x100) * 0x1_0000 + (a / 0x100
        % 0x100) * 0x100 + a % 0x100);
    assert(b == (b / 0x100_0000) * 0x100_0000 + (b / 0x1_0000 % 0x100) * 0x1_0000 + (b / 0x100
        % 0x100) * 0x100 + b % 0x100);
}

/// The encoding is injective: two encodable records with the same encoding
/// are the same record.
pub proof fn lemma_encoding_injective(a: RecordView, b: RecordView)
    requires
        encodable(a),
        encodable(b),
        encode_spec(a) == encode_spec(b),
    ensures
        a == b,
{
    let ea = encode_spec(a);
    let eb = encode_spec(b);
    assert(ea.len() == HEADER_LEN + a.attributes.len());
    assert(eb.len() == HEADER_LEN + b.attributes.len());
    assert(a.attributes =~= ea.subrange(HEADER_LEN as int, ea.len() as int));
    assert(b.attributes =~= eb.subrange(HEADER_LEN as int, eb.len() as int));
    assert(be_u32(a.id.unwrap()) =~= ea.subrange(0, 4));
    assert(be_u32(b.id.unwrap()) =~= eb.subrange(0, 4));
    lemma_be_u32_injective(a.id.unwrap(), b.id.unwrap());
}

} // verus!
