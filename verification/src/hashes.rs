//! Hash functions from outside crates, with names for their results.
//!
//! Both hashes are pure functions of their input bytes; nothing else is
//! assumed of their values.

use vstd::prelude::*;

verus! {

/// The MurmurHash2 value of a byte string.
pub uninterp spec fn murmur2_of(key: Seq<u8>) -> u32;

/// The 64-bit FxHash value of a byte string.
pub uninterp spec fn fx64_of(bytes: Seq<u8>) -> u64;

/// Relies on murmurhash32::murmurhash2: the hash depends on the key bytes
/// alone.
#[verifier::external_body]
pub fn murmur2(key: &[u8]) -> (r: u32)
    ensures
        r == murmur2_of(key@),
{
    murmurhash32::murmurhash2(key)
}

/// Relies on fxhash::hash64: the hash depends on the input bytes alone.
#[verifier::external_body]
pub fn fx_hash64(bytes: &Vec<u8>) -> (r: u64)
    ensures
        r == fx64_of(bytes@),
{
    fxhash::hash64(bytes.as_slice())
}

} // verus!
