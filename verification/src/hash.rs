//! The path hash: MurmurHash64A over the UTF-8 bytes of a full path.

use vstd::prelude::*;

verus! {

/// Seed used for every path hash in the index format.
pub const PATH_HASH_SEED: u64 = 0x1337b33f;

/// What `murmurhash64::murmur_hash64a` returns: a digest that depends on the
/// input bytes and the seed alone.
pub uninterp spec fn murmur64a(data: Seq<u8>, seed: u64) -> u64;

/// Relies on `murmurhash64::murmur_hash64a`: a pure function of its two
/// arguments.
#[verifier::external_body]
pub fn murmur_hash64a(data: &[u8], seed: u64) -> (r: u64)
    ensures
        r == murmur64a(data@, seed),
{
    murmurhash64::murmur_hash64a(data, seed)
}

} // verus!
