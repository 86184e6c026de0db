use vstd::prelude::*;
use crate::types::Hash256;

verus! {

/// The double SHA-256 digest of a byte string.
pub uninterp spec fn sha256d_of(data: Seq<u8>) -> Seq<u8>;

/// Relies on `bitcoin::hashes::sha256d::Hash::hash`: SHA-256 applied twice,
/// a function of the bytes alone.
#[verifier::external_body]
pub(crate) fn sha256d(data: &[u8]) -> (r: Hash256)
    ensures
        r@ == sha256d_of(data@),
{
    let digest = <bitcoin::hashes::sha256d::Hash as bitcoin::hashes::Hash>::hash(data);
    <bitcoin::hashes::sha256d::Hash as bitcoin::hashes::Hash>::to_byte_array(digest)
}

} // verus!
