//! Hashing of component sets with `ahash`.

use vstd::prelude::*;

verus! {

/// The hasher builder of `ahash`. Each value carries its own keys; nothing
/// is stated of what is inside.
#[verifier::external_type_specification]
#[verifier::external_body]
pub struct ExRandomState(ahash::RandomState);

/// Calls `ahash::RandomState::new`, which makes a hasher builder with random
/// keys, each value with keys of its own. Nothing is claimed of the result.
#[verifier::external_body]
pub(crate) fn new_hash_state() -> (state: ahash::RandomState) {
    ahash::RandomState::new()
}

/// Calls `ahash::RandomState::hash_one` on a slice of words. The hash depends
/// on the keys of `state`, so nothing is claimed of it: callers use it as a
/// hint and check what they find under it.
#[verifier::external_body]
pub(crate) fn hash_words(state: &ahash::RandomState, words: &[u64]) -> (hash: u64) {
    state.hash_one(words)
}

} // verus!
