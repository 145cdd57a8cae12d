use vstd::prelude::*;

use sha1::Digest;

verus! {

/// What SHA-1 returns on a byte sequence: a fixed function of the bytes
/// alone, the same in every process and on every machine.
pub uninterp spec fn sha1_of(b: Seq<u8>) -> Seq<u8>;

/// Relies on the `sha1` crate: `Sha1::digest` computes the 20-byte SHA-1
/// digest of the input, a pure function of the input bytes.
#[verifier::external_body]
fn sha1_digest(b: &[u8]) -> (r: Vec<u8>)
    ensures
        r@ == sha1_of(b@),
        r@.len() == 20,
{
    sha1::Sha1::digest(b).to_vec()
}

/// The 20-byte info-hash of `data[start..end)`: SHA-1 over the exact raw
/// bytes of the span, never over a re-encoding.  An out-of-bounds span is
/// a contract violation, not a recoverable error.
pub fn info_hash(data: &Vec<u8>, start: usize, end: usize) -> (r: Vec<u8>)
    requires
        start <= end <= data@.len(),
    ensures
        r@ == sha1_of(data@.subrange(start as int, end as int)),
        r@.len() == 20,
{
    let piece = vstd::slice::slice_subrange(data.as_slice(), start, end);
    sha1_digest(piece)
}

/// Hash stability: the info-hash is a function of the raw info bytes
/// alone, so decoding the same buffer twice — which yields the same span
/// of the same bytes — always yields the identical 20-byte hash.
pub proof fn lemma_info_hash_stable(b1: Seq<u8>, b2: Seq<u8>)
    requires
        b1 == b2,
    ensures
        sha1_of(b1) == sha1_of(b2),
{
}

} // verus!
