//! The content hash behind every digest.  The hash itself is computed by an
//! outside cryptographic library; this module gives its result a name that
//! the fingerprinting contracts speak of.

use vstd::prelude::*;

verus! {

/// The SHA-256 digest of a byte string.  A cryptographic hash cannot be
/// restated in a few lines, so the contracts refer to it by this name; it
/// is a function of the input bytes alone.
pub uninterp spec fn sha256_of(data: Seq<u8>) -> Seq<u8>;

/// Relies on sha2::Sha256 through the RustCrypto `Digest` trait: the digest
/// depends on the input bytes alone, and is exactly 32 bytes wide (sha2
/// instantiates its output size at 32 bytes for SHA-256).
#[verifier::external_body]
pub fn sha256(data: &Vec<u8>) -> (r: Vec<u8>)
    ensures
        r@ == sha256_of(data@),
        r@.len() == crate::FINGERPRINT_LEN,
{
    let out = <sha2::Sha256 as sha2::Digest>::digest(data.as_slice());
    out.to_vec()
}

} // verus!
