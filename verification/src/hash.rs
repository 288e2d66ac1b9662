//! The content hash of a chunk. The digest itself is computed by an outside
//! implementation; its output is named, and everything proved about hashes
//! is proved from that name being a function of the input bytes alone.

use vstd::prelude::*;

verus! {

/// The SHA-256 digest of a byte sequence: a pure function of its input.
pub uninterp spec fn sha256_of(s: Seq<u8>) -> Seq<u8>;

/// Relies on sha2's `Sha256`: the digest of the input bytes, 32 bytes long,
/// depending on the input alone.
#[verifier::external_body]
pub fn sha256(data: &Vec<u8>) -> (r: Vec<u8>)
    ensures
        r@ == sha256_of(data@),
        r@.len() == 32,
{
    <sha2::Sha256 as sha2::Digest>::digest(data.as_slice()).to_vec()
}

} // verus!
