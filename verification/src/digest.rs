//! SHA-1, by which pieces and the metainfo's `info` value are identified.

use sha1_smol::Sha1;
use vstd::prelude::*;

verus! {

/// The SHA-1 digest of `data`.
pub uninterp spec fn sha1(data: Seq<u8>) -> Seq<u8>;

/// `Sha1::from(data).digest().bytes()` of sha1_smol: the 20-byte digest of
/// `data`, which depends on `data` alone.
#[verifier::external_body]
pub(crate) fn sha1_digest(data: &[u8]) -> (digest: [u8; 20])
    ensures
        digest@ == sha1(data@),
{
    Sha1::from(data).digest().bytes()
}

} // verus!
