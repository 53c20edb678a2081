//! The hash function that keys every table of the interner.
use std::hash::{BuildHasher, Hasher};
use vstd::prelude::*;

verus! {

/// The hash of the empty byte string under the seeds fixed below, for builds
/// without AES target features.
pub const EMPTY_HASH: u64 = 10341574943266158758;

/// What the seeded hasher gives for a byte string. With its seeds fixed, the
/// result depends on the bytes alone for a given build (ahash picks its
/// algorithm by the target's CPU features when it is compiled).
pub uninterp spec fn hash_of(b: Seq<u8>) -> u64;

/// Relies on ahash's `RandomState::with_seeds`, `build_hasher`, `write` and
/// `finish`: with fixed seeds the result depends on the bytes alone.
#[verifier::external_body]
pub fn hash(value: &[u8]) -> (r: u64)
    ensures
        r == hash_of(value@),
{
    let mut hasher = ahash::RandomState::with_seeds(
        3609252661711376574,
        17522957641342131531,
        18364184400384450343,
        5674598519608203581,
    )
    .build_hasher();
    hasher.write(value);
    hasher.finish()
}

} // verus!
