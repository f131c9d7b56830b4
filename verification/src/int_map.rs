//! Maps from entity numbers that hash a number to itself.
//!
//! `nohash_hasher::IntMap` is the standard hash map set up with
//! `nohash_hasher::NoHashHasher`, whose `write_usize` keeps the number it is
//! given and whose `finish` answers with it. Equal keys so have equal hashes,
//! which is what the standard map asks of a hasher. What the map does with
//! this hasher is not proved here: the statements below are taken from the
//! documentation of `std::collections::HashMap`, operation by operation, and
//! the rest of the library is proved against them.

use nohash_hasher::{IntMap, NoHashHasher};
use std::hash::BuildHasherDefault;
use vstd::prelude::*;

verus! {

/// `nohash_hasher::NoHashHasher`: a hasher that answers with the number that
/// was written to it.
#[verifier::external_type_specification]
#[verifier::external_body]
#[verifier::reject_recursive_types(T)]
pub struct ExNoHashHasher<T>(NoHashHasher<T>);

/// `std::hash::BuildHasherDefault`: makes hashers by `Default`.
#[verifier::external_type_specification]
#[verifier::external_body]
#[verifier::reject_recursive_types(H)]
pub struct ExBuildHasherDefault<H>(BuildHasherDefault<H>);

/// `HashMap::len` on a map with the hasher of `nohash_hasher`: the number of
/// keys.
#[verifier::external_body]
pub(crate) fn int_map_len<V>(map: &IntMap<usize, V>) -> (n: usize)
    ensures
        n == map@.len(),
{
    map.len()
}

/// `HashMap::get` on a map with the hasher of `nohash_hasher`: the value
/// under `key`, if the map has one.
#[verifier::external_body]
pub(crate) fn int_map_get<V>(map: &IntMap<usize, V>, key: usize) -> (value: Option<&V>)
    ensures
        value == (if map@.contains_key(key) {
            Some(&map@[key])
        } else {
            None
        }),
{
    map.get(&key)
}

/// `HashMap::get_mut` on a map with the hasher of `nohash_hasher`: mutable
/// access to the value under `key`, if the map has one. What the caller
/// leaves behind the reference is the value under `key` afterwards; no other
/// key is touched.
#[verifier::external_body]
pub(crate) fn int_map_get_mut<V>(map: &mut IntMap<usize, V>, key: usize) -> (value: Option<&mut V>)
    ensures
        match value {
            Some(slot) => old(map)@.contains_key(key) && *slot == old(map)@[key] && final(map)@
                == old(map)@.insert(key, *final(slot)),
            None => !old(map)@.contains_key(key) && final(map)@ == old(map)@,
        },
{
    map.get_mut(&key)
}

/// `HashMap::insert` on a map with the hasher of `nohash_hasher`: afterwards
/// the map has `value` under `key` and is otherwise as before; the result is
/// the value that was under `key` before, if there was one.
#[verifier::external_body]
pub(crate) fn int_map_insert<V>(map: &mut IntMap<usize, V>, key: usize, value: V) -> (before: Option<V>)
    ensures
        final(map)@ == old(map)@.insert(key, value),
        before == (if old(map)@.contains_key(key) {
            Some(old(map)@[key])
        } else {
            None
        }),
{
    map.insert(key, value)
}

} // verus!
