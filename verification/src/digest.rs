//! BLAKE3 digests.

use vstd::prelude::*;

verus! {

/// The 32-byte BLAKE3 digest of `data`.
pub uninterp spec fn blake3_digest(data: Seq<u8>) -> Seq<u8>;

/// The 32-byte BLAKE3 key derived from `material` in the context string `context`.
pub uninterp spec fn blake3_derived_key(context: Seq<char>, material: Seq<u8>) -> Seq<u8>;

/// Calls `blake3::hash`. Claims that the digest is a function of the hashed
/// bytes alone, named [`blake3_digest`].
#[verifier::external_body]
pub(crate) fn blake3_hash(data: &Vec<u8>) -> (digest: [u8; 32])
    ensures
        digest@ == blake3_digest(data@),
{
    *blake3::hash(data.as_slice()).as_bytes()
}

/// Calls `blake3::derive_key`. Claims that the key is a function of the context
/// string and the key material alone, named [`blake3_derived_key`].
#[verifier::external_body]
pub(crate) fn blake3_derive_key(context: &str, material: &Vec<u8>) -> (key: [u8; 32])
    ensures
        key@ == blake3_derived_key(context@, material@),
{
    blake3::derive_key(context, material.as_slice())
}

} // verus!
