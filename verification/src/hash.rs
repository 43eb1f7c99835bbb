//! The SHA3-512 digest, computed by the `sha3` crate.

use sha3::Digest;
use sha3::Sha3_512;
use vstd::prelude::*;

verus! {

/// Length in bytes of a SHA3-512 digest.
pub const DIGEST_LENGTH: usize = 64;

/// The SHA3-512 digest of a byte string.
pub uninterp spec fn sha3_512(data: Seq<u8>) -> Seq<u8>;

/// Calls `sha3::Sha3_512::digest`. The result is the SHA3-512 digest of
/// `data`, a function of the input bytes alone, and it is 64 bytes long: the
/// output size that the crate fixes for this algorithm.
#[verifier::external_body]
pub(crate) fn sha3_512_digest(data: &[u8]) -> (digest: Vec<u8>)
    ensures
        digest@ == sha3_512(data@),
        digest@.len() == DIGEST_LENGTH,
{
    Sha3_512::digest(data).to_vec()
}

} // verus!
