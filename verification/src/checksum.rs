//! The checksum of the original input: its BLAKE3 hash.
use vstd::prelude::*;

verus! {

/// The BLAKE3 hash of `data`, as `blake3::hash` computes it: 32 bytes.
pub uninterp spec fn blake3_digest(data: Seq<u8>) -> [u8; 32];

/// Hashes `data` with `blake3::hash`.
///
/// Trusted: the 32 bytes are the named BLAKE3 hash of the input, a function of
/// the input alone.
#[verifier::external_body]
fn blake3_hash(data: &[u8]) -> (r: [u8; 32])
    ensures
        r == blake3_digest(data@),
{
    *::blake3::hash(data).as_bytes()
}

/// The BLAKE3 hash of the input.
pub fn blake3_bytes(input: &[u8]) -> (r: [u8; 32])
    ensures
        r@ == blake3_digest(input@)@,
{
    blake3_hash(input)
}

/// A hash has 32 bytes.
pub proof fn lemma_digest_len(data: Seq<u8>)
    ensures
        blake3_digest(data)@.len() == 32,
{
}

} // verus!
