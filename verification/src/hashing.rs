//! SHA-256 from the `sha2` crate, and the double SHA-256 that Bitcoin
//! uses for checksums.

use vstd::prelude::*;
use sha2::{Digest, Sha256};

verus! {

/// The SHA-256 digest of `data`.
pub uninterp spec fn spec_sha256(data: Seq<u8>) -> Seq<u8>;

/// `sha2::Sha256::digest`: the 32-byte result is the SHA-256 digest of
/// the input, a function of the input alone; nothing more of SHA-256 is
/// stated.
#[verifier::external_body]
pub(crate) fn sha256(data: &[u8]) -> (res: [u8; 32])
    ensures
        res@ == spec_sha256(data@),
{
    Sha256::digest(data).into()
}

/// SHA-256 applied twice.
pub open spec fn spec_sha256d(data: Seq<u8>) -> Seq<u8> {
    spec_sha256(spec_sha256(data))
}

/// SHA-256 applied twice to `data`.
pub fn sha256d(data: &[u8]) -> (res: Vec<u8>)
    ensures
        res@ == spec_sha256d(data@),
        res@.len() == 32,
{
    let first = sha256(data);
    let second = sha256(first.as_slice());
    vstd::slice::slice_to_vec(second.as_slice())
}

} // verus!
