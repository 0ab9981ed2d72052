//! The `rustc_hash` maps that the spatial index and the active-cell tracker
//! keep, behind small trusted wrappers.
//!
//! An `FxHashMap` is the standard library's `HashMap` with the deterministic
//! `FxBuildHasher`; its contents are described by the standard map view
//! (`m@`). Every wrapper below makes exactly one map call. The wrappers are
//! written for the two key types the crate uses, `u64` and cell
//! coordinates `(i32, i32, i32)`, whose `==` and hashing are structural.
use rustc_hash::{FxBuildHasher, FxHashMap};
use vstd::prelude::*;

verus! {

/// `rustc_hash::FxBuildHasher`, the hasher builder of `FxHashMap`.
#[verifier::external_type_specification]
#[verifier::external_body]
pub struct ExFxBuildHasher(FxBuildHasher);

/// Calls `HashMap::with_capacity_and_hasher` with `FxBuildHasher`: the new
/// map is empty. The capacity only reserves room.
#[verifier::external_body]
pub(crate) fn fx_map_with_capacity<K, V>(capacity: usize) -> (m: FxHashMap<K, V>)
    requires
        capacity <= 0x10_0000,
    ensures
        forall|k: K| !m@.contains_key(k),
{
    FxHashMap::with_capacity_and_hasher(capacity, FxBuildHasher)
}

/// Calls `HashMap::get` on a map keyed by `u64`: the value stored under
/// `key`, if any.
#[verifier::external_body]
pub(crate) fn bucket_map_get<'a>(m: &'a FxHashMap<u64, Vec<(u32, usize)>>, key: u64) -> (r: Option<
    &'a Vec<(u32, usize)>,
>)
    ensures
        match r {
            Some(v) => m@.contains_key(key) && *v == m@[key],
            None => !m@.contains_key(key),
        },
{
    m.get(&key)
}

/// Calls `HashMap::remove` on a map keyed by `u64`: takes the value stored
/// under `key` out of the map.
#[verifier::external_body]
pub(crate) fn bucket_map_remove(m: &mut FxHashMap<u64, Vec<(u32, usize)>>, key: u64) -> (r: Option<
    Vec<(u32, usize)>,
>)
    ensures
        final(m)@ == old(m)@.remove(key),
        match r {
            Some(v) => old(m)@.contains_key(key) && v == old(m)@[key],
            None => !old(m)@.contains_key(key),
        },
{
    m.remove(&key)
}

/// Calls `HashMap::insert` on a map keyed by `u64`: afterwards `key` maps
/// to `v` and every other key keeps its value. The value previously stored,
/// if any, is dropped.
#[verifier::external_body]
pub(crate) fn bucket_map_insert(m: &mut FxHashMap<u64, Vec<(u32, usize)>>, key: u64, v: Vec<(u32, usize)>)
    ensures
        final(m)@ == old(m)@.insert(key, v),
{
    m.insert(key, v);
}

/// Calls `HashMap::get` on a map keyed by cell coordinates: the count
/// stored under `key`, if any.
#[verifier::external_body]
pub(crate) fn count_map_get(m: &FxHashMap<(i32, i32, i32), u32>, key: (i32, i32, i32)) -> (r:
    Option<u32>)
    ensures
        match r {
            Some(v) => m@.contains_key(key) && v == m@[key],
            None => !m@.contains_key(key),
        },
{
    m.get(&key).copied()
}

/// Calls `HashMap::insert` on a map keyed by cell coordinates: afterwards
/// `key` maps to `v` and every other key keeps its value.
#[verifier::external_body]
pub(crate) fn count_map_insert(m: &mut FxHashMap<(i32, i32, i32), u32>, key: (i32, i32, i32), v: u32)
    ensures
        final(m)@ == old(m)@.insert(key, v),
{
    m.insert(key, v);
}

/// Calls `HashMap::keys` on a map keyed by cell coordinates and collects
/// the keys. Each key of the map occurs exactly once; the order is the map's
/// iteration order, of which nothing is stated.
#[verifier::external_body]
pub(crate) fn count_map_keys(m: &FxHashMap<(i32, i32, i32), u32>) -> (r: Vec<(i32, i32, i32)>)
    ensures
        r@.no_duplicates(),
        forall|k: (i32, i32, i32)| r@.contains(k) <==> m@.contains_key(k),
{
    m.keys().copied().collect()
}

} // verus!
