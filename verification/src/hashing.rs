//! Hash functions of the outside crates, as the library sees them.
use vstd::prelude::*;

verus! {

/// The 64-bit XXH3 digest (seed 0) of a byte string.
pub uninterp spec fn xxh3_64_spec(bytes: Seq<u8>) -> u64;

/// The 128-bit XXH3 digest (seed 0) of a byte string.
pub uninterp spec fn xxh3_128_spec(bytes: Seq<u8>) -> u128;

/// `xxhash_rust::xxh3::xxh3_64`: a pure function of its input; its value is
/// left to the name `xxh3_64_spec`.
#[verifier::external_body]
pub(crate) fn xxh3_64(bytes: &[u8]) -> (h: u64)
    ensures
        h == xxh3_64_spec(bytes@),
{
    xxhash_rust::xxh3::xxh3_64(bytes)
}

/// `xxhash_rust::xxh3::xxh3_128`: a pure function of its input; its value is
/// left to the name `xxh3_128_spec`.
#[verifier::external_body]
pub(crate) fn xxh3_128(bytes: &[u8]) -> (h: u128)
    ensures
        h == xxh3_128_spec(bytes@),
{
    xxhash_rust::xxh3::xxh3_128(bytes)
}

} // verus!
