//! Digests of byte strings, from which the maps derive home slots.

use vstd::prelude::*;
use vstd::std_specs::hash::DefaultHasherAdditionalSpecFns;

verus! {

/// The 64-bit digest that `fxhash::hash64` gives for a byte slice.
pub uninterp spec fn fx_digest(bytes: Seq<u8>) -> u64;

/// Calls `fxhash::hash64` on the slice. That function feeds the slice to a
/// hasher that starts from a fixed state and keeps no other state, so on a
/// given target the digest is decided by the bytes alone: equal byte strings
/// get equal digests. Nothing else about the digest is claimed.
#[verifier::external_body]
pub(crate) fn hash_with_fxhash(bytes: &[u8]) -> (digest: u64)
    ensures
        digest == fx_digest(bytes@),
{
    fxhash::hash64(bytes)
}

/// The digest that a fresh `DefaultHasher` of the standard library gives after
/// one write of `bytes`.
pub open spec fn default_digest(bytes: Seq<u8>) -> u64 {
    std::collections::hash_map::DefaultHasher::spec_finish(seq![bytes])
}

/// Hashes `bytes` with a fresh `DefaultHasher`.
pub fn default_hash_bytes(bytes: &[u8]) -> (digest: u64)
    ensures
        digest == default_digest(bytes@),
{
    let mut hasher = std::collections::hash_map::DefaultHasher::new();
    std::hash::Hasher::write(&mut hasher, bytes);
    assert(hasher@ =~= seq![bytes@]);
    std::hash::Hasher::finish(&hasher)
}

} // verus!
