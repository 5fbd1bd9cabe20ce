//! The cryptographic digest behind root and node hashes.

#![verifier::loop_isolation(false)]

use vstd::prelude::*;

verus! {

/// The 32-byte digest of a byte string. What the digest is on given bytes is
/// left unstated: it is whatever the hash function below returns, a function
/// of the input alone.
pub uninterp spec fn digest_of(bytes: Seq<u8>) -> Seq<u8>;

/// Relies on sha3::Sha3_256 through digest::Digest::digest: the digest is a
/// function of the input bytes alone, and its output size is 32 bytes.
#[verifier::external_body]
pub(crate) fn digest32(bytes: &Vec<u8>) -> (r: Vec<u8>)
    ensures
        r@ == digest_of(bytes@),
        r@.len() == 32,
{
    let out = <sha3::Sha3_256 as sha3::Digest>::digest(bytes.as_slice());
    out.to_vec()
}

} // verus!
