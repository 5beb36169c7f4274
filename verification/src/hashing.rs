use vstd::prelude::*;

verus! {

/// The 64-byte Blake2b digest of `data`, as a pure function of the input
/// bytes alone.
pub uninterp spec fn blake2b_of(data: Seq<u8>) -> Seq<u8>;

/// Relies on `blake2::Blake2b512` (through `digest::Digest::digest`): the
/// digest is a deterministic function of the input bytes and is 64 bytes
/// long.
#[verifier::external_body]
pub(crate) fn blake2b_digest(data: &[u8]) -> (r: Vec<u8>)
    ensures
        r@ == blake2b_of(data@),
        r@.len() == 64,
{
    <blake2::Blake2b512 as blake2::Digest>::digest(data).to_vec()
}

} // verus!
