//! The xxHash32 checksum that the frame format uses, behind a trusted
//! wrapper.
use vstd::prelude::*;

use std::hash::Hasher;

verus! {

/// The 32-bit xxHash, seed zero, of a byte sequence.  The value is
/// whatever the hash implementation computes; contracts only rely on
/// it being a function of the bytes.
pub uninterp spec fn xxh32_of(bytes: Seq<u8>) -> u32;

/// Relies on `twox_hash::XxHash32` with seed zero: the digest is a
/// function of the hashed bytes alone.
#[verifier::external_body]
pub(crate) fn xxh32(data: &[u8]) -> (r: u32)
    ensures
        r == xxh32_of(data@),
{
    let mut hasher = twox_hash::XxHash32::with_seed(0);
    hasher.write(data);
    hasher.finish() as u32
}

} // verus!
