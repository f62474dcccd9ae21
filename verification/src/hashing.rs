//! Hash derivation for `store`: keys computed from the payload itself.

use vstd::prelude::*;

verus! {

/// The unkeyed BLAKE2b digest of `out_len` bytes over `data`: a function of
/// its arguments alone.
pub uninterp spec fn blake2b_of(out_len: int, data: Seq<u8>) -> Seq<u8>;

/// Relies on `blake2_rfc::blake2b::blake2b`: the unkeyed BLAKE2b digest of
/// `out_len` bytes over the input, which depends on the length and the
/// bytes alone. The digest always has exactly `out_len` bytes; lengths
/// outside 1..=64 are rejected by the crate, so they are excluded here.
#[verifier::external_body]
pub fn blake2b_hash(out_len: usize, data: &Vec<u8>) -> (r: Vec<u8>)
    requires
        1 <= out_len <= 64,
    ensures
        r@ == blake2b_of(out_len as int, data@),
        r@.len() == out_len,
{
    let digest = blake2_rfc::blake2b::blake2b(out_len, &[], data.as_slice());
    digest.as_bytes().to_vec()
}

} // verus!
