//! SHA-256, through the `sha2` crate.
use sha2::Digest;
use vstd::prelude::*;

verus! {

/// The SHA-256 digest of a byte string (FIPS 180-4), as computed by `sha2`.
pub uninterp spec fn sha256_spec(data: Seq<u8>) -> Seq<u8>;

/// `sha2::Sha256::digest`: the 32-byte SHA-256 digest of `bytes`. The
/// contract claims only that the result is the digest named by
/// [`sha256_spec`], a function of the input bytes alone.
#[verifier::external_body]
pub(crate) fn sha256(bytes: &[u8]) -> (r: [u8; 32])
    ensures
        r@ == sha256_spec(bytes@),
{
    sha2::Sha256::digest(bytes).into()
}

} // verus!
