//! A hash map from `u64` keys to `usize` values that hashes each key to
//! itself, for keys that are already well spread or dense.

use vstd::prelude::*;
use core::hash::BuildHasherDefault;
use nohash_hasher::NoHashHasher;
use std::collections::HashMap;

verus! {

/// The hasher of `nohash_hasher`, which hands a written integer back as its
/// hash. Nothing is stated of it; it only appears as the hasher of `IntMap`.
#[verifier::external_type_specification]
#[verifier::external_body]
#[verifier::reject_recursive_types(T)]
pub struct ExNoHashHasher<T>(NoHashHasher<T>);

/// The hasher builder of std that makes hashers by `Default`. Nothing is
/// stated of it either.
#[verifier::external_type_specification]
#[verifier::external_body]
#[verifier::reject_recursive_types(H)]
pub struct ExBuildHasherDefault<H>(BuildHasherDefault<H>);

/// A `HashMap` with the identity hasher of `nohash_hasher`.
pub type IntMap = HashMap<u64, usize, BuildHasherDefault<NoHashHasher<u64>>>;

/// Calls `HashMap::get` on a map built with `NoHashHasher<u64>`.
///
/// Claimed, not proved: the call returns the value stored under `key`, and
/// `None` where there is none. This holds of `HashMap` with any hasher that
/// hashes equal keys alike, and `NoHashHasher` returns the key itself: a
/// `u64` key makes one call of `write_u64`, which stores the key, and
/// `finish` returns what was stored.
#[verifier::external_body]
pub(crate) fn int_map_get(map: &IntMap, key: u64) -> (r: Option<&usize>)
    ensures
        r == (if map@.contains_key(key) {
            Some(&map@[key])
        } else {
            None
        }),
{
    map.get(&key)
}

/// Calls `HashMap::insert` on a map built with `NoHashHasher<u64>`.
///
/// Claimed, not proved: afterwards the map holds `value` under `key` and is
/// otherwise unchanged.
#[verifier::external_body]
pub(crate) fn int_map_insert(map: &mut IntMap, key: u64, value: usize)
    ensures
        final(map)@ == old(map)@.insert(key, value),
{
    map.insert(key, value);
}

} // verus!
