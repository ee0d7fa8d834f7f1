//! The 32-bit Murmur3 digest used to derive bucket probe sequences.
use vstd::prelude::*;

verus! {

/// The 32-bit Murmur3 digest of a byte sequence, as `hash32` computes it.
/// The digest is a pure function of the bytes alone, so it carries no
/// definition here; every use goes through `murmur3` below.
pub uninterp spec fn murmur3_of(data: Seq<u8>) -> u32;

/// Relies on `hash32::Murmur3Hasher`: writing the bytes into a fresh hasher
/// and calling `finish` yields the 32-bit Murmur3 digest, a deterministic
/// function of the bytes alone.
#[verifier::external_body]
pub fn murmur3(data: &[u8]) -> (r: u32)
    requires
        data@.len() <= 0xffff_ffff,
    ensures
        r == murmur3_of(data@),
{
    let mut hasher = hash32::Murmur3Hasher::default();
    hash32::Hasher::write(&mut hasher, data);
    hash32::Hasher::finish(&hasher)
}

} // verus!
