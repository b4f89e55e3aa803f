//! The seeded hash that ranks servers for a request key.

use foldhash::quality::FixedState;
use std::hash::BuildHasher;
use vstd::prelude::*;

verus! {

/// The hash of `key` that the quality variant of foldhash computes under
/// the fixed state seeded with `seed`. The fixed state holds the seed and
/// constants of the crate, and nothing of the process: the same seed and
/// key give the same hash wherever this build of the library runs.
pub uninterp spec fn fold_hash(seed: u64, key: u64) -> u64;

/// Hashes `key` with `foldhash::quality::FixedState::with_seed(seed)`,
/// through `BuildHasher::hash_one`.
///
/// Trusted: the result is the value that `fold_hash` names. Nothing else
/// is claimed of it.
#[verifier::external_body]
pub(crate) fn seeded_hash(seed: u64, key: u64) -> (h: u64)
    ensures
        h == fold_hash(seed, key),
{
    FixedState::with_seed(seed).hash_one(&key)
}

} // verus!
