//! Node ids: a digest of what identifies a code entity, so that the same
//! entity keeps its id from one indexing run to the next.

use sha2::Digest;
use vstd::prelude::*;
use vstd::utf8::encode_utf8;
use crate::canon::hash::le32;
use crate::gather::flatten;
use crate::index::fingerprint::hex_digit;

verus! {

/// The SHA-256 digest of some bytes.
pub uninterp spec fn sha256(data: Seq<u8>) -> Seq<u8>;

/// `sha2::Sha256::digest`: a function of the bytes alone, thirty-two bytes
/// long.
#[verifier::external_body]
pub(crate) fn sha256_of(data: &[u8]) -> (r: Vec<u8>)
    ensures
        r@ == sha256(data@),
        r@.len() == 32,
{
    sha2::Sha256::digest(data).to_vec()
}

/// The two hexadecimal digits of a byte.
pub open spec fn byte_digits(b: u8) -> Seq<char> {
    seq![hex_digit((b / 16) as nat), hex_digit((b % 16) as nat)]
}

/// Bytes as hexadecimal text.
pub open spec fn hex_of(data: Seq<u8>) -> Seq<char> {
    flatten(data, |b: u8| byte_digits(b))
}

/// `hex::encode`: every byte as two lower-case hexadecimal digits, in order.
#[verifier::external_body]
pub(crate) fn hex_encode(data: &[u8]) -> (r: String)
    ensures
        r@ == hex_of(data@),
{
    hex::encode(data)
}

/// What a node id is a digest of.
pub open spec fn identity(
    project: Seq<char>,
    file: Seq<char>,
    name: Seq<char>,
    node_type: Seq<char>,
    line: Option<u32>,
) -> Seq<u8> {
    encode_utf8(project) + encode_utf8("|"@) + encode_utf8(file) + encode_utf8("|"@) + encode_utf8(name) + encode_utf8(
        "|"@,
    ) + encode_utf8(node_type) + encode_utf8("|"@) + le32(
        match line {
            Some(l) => l,
            None => 0,
        },
    )
}

/// The id of an entity: the first sixteen bytes of its identity's digest, in
/// hexadecimal digits.
pub open spec fn node_id(
    project: Seq<char>,
    file: Seq<char>,
    name: Seq<char>,
    node_type: Seq<char>,
    line: Option<u32>,
) -> Seq<char> {
    hex_of(sha256(identity(project, file, name, node_type, line)).take(16))
}

fn eat_text(data: &mut Vec<u8>, s: &str)
    ensures
        final(data)@ == old(data)@ + encode_utf8(s@),
{
    data.extend_from_slice(s.as_bytes());
    assert(data@ =~= old(data)@ + encode_utf8(s@));
}

/// The deterministic id of an entity, thirty-two characters long.
pub fn generate_node_id(
    project_id: &str,
    file_path: &str,
    name: &str,
    node_type: &str,
    start_line: Option<u32>,
) -> (r: String)
    ensures
        r@ == node_id(project_id@, file_path@, name@, node_type@, start_line),
        r@.len() == 32,
{
    let mut data: Vec<u8> = Vec::new();
    eat_text(&mut data, project_id);
    assert(data@ =~= encode_utf8(project_id@));
    eat_text(&mut data, "|");
    eat_text(&mut data, file_path);
    eat_text(&mut data, "|");
    eat_text(&mut data, name);
    eat_text(&mut data, "|");
    eat_text(&mut data, node_type);
    eat_text(&mut data, "|");
    let line: u32 = match start_line {
        Some(l) => l,
        None => 0,
    };
    let bytes = vstd::bytes::u32_to_le_bytes(line);
    data.extend_from_slice(bytes.as_slice());
    assert(data@ =~= identity(project_id@, file_path@, name@, node_type@, start_line));
    let mut digest = sha256_of(data.as_slice());
    digest.truncate(16);
    assert(digest@ =~= sha256(data@).take(16));
    proof {
        lemma_hex_length(digest@);
    }
    hex_encode(digest.as_slice())
}

proof fn lemma_hex_length(data: Seq<u8>)
    ensures
        hex_of(data).len() == 2 * data.len(),
    decreases data.len(),
{
    if data.len() > 0 {
        lemma_hex_length(data.drop_last());
    }
}

} // verus!
