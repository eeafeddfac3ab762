//! MD5 digests, through the md-5 crate.
use vstd::prelude::*;
use md5::Digest;

verus! {

/// The MD5 digest of `data`.
pub uninterp spec fn md5_of(data: Seq<u8>) -> Seq<u8>;

/// Relies on `md5::Md5::digest`: the 16-byte MD5 digest of `data`.
#[verifier::external_body]
pub(crate) fn md5_digest(data: &[u8]) -> (r: Vec<u8>)
    ensures
        r@ == md5_of(data@),
        r@.len() == 16,
{
    md5::Md5::digest(data).to_vec()
}

} // verus!
