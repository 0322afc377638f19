//! The SHA3-256 digest that content identifiers are made of.
use multihash::{Code, MultihashDigest};
use vstd::prelude::*;

verus! {

/// The SHA3-256 digest of `b`.
pub uninterp spec fn sha3_256_of(b: Seq<u8>) -> Seq<u8>;

/// Relies on multihash's `Code::Sha3_256.digest`: the multihash it returns
/// carries the 32-byte SHA3-256 digest of the input, which `digest()` hands out.
#[verifier::external_body]
pub(crate) fn sha3_256(bytes: &Vec<u8>) -> (r: Vec<u8>)
    ensures
        r@ == sha3_256_of(bytes@),
        r@.len() == 32,
{
    Code::Sha3_256.digest(bytes.as_slice()).digest().to_vec()
}

} // verus!
