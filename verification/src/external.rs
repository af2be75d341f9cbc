//! What the library takes from outside: the peer and content identifiers that it carries, and the
//! FNV hash tables that it keeps its queries in.
use cid::CidGeneric;
use fnv::{FnvHashMap, FnvHashSet, FnvHasher};
use libp2p::PeerId;
use std::hash::BuildHasherDefault;
use vstd::prelude::*;

verus! {

/// `libp2p::PeerId`, the name of a peer. Nothing is claimed of it: the library hands peers on as
/// they came.
#[verifier::external_type_specification]
#[verifier::external_body]
pub struct ExPeerId(PeerId);

/// `cid::CidGeneric`, the name of a block (`cid::Cid` fixes `S` to 64). Nothing is claimed of it:
/// the library hands content identifiers on as they came.
#[verifier::external_type_specification]
#[verifier::external_body]
pub struct ExCid<const S: usize>(CidGeneric<S>);

/// `fnv::FnvHasher`, named because the tables' types name it.
#[verifier::external_type_specification]
#[verifier::external_body]
pub struct ExFnvHasher(FnvHasher);

/// `std::hash::BuildHasherDefault`, which `fnv` applies to its hasher to build its tables.
#[verifier::external_type_specification]
#[verifier::external_body]
#[verifier::reject_recursive_types(H)]
pub struct ExBuildHasherDefault<H>(BuildHasherDefault<H>);

/// `FnvHashMap::insert` with an integer key: the entry of `key` becomes `value`, whether the key
/// was there or not, and every other entry stays.
#[verifier::external_body]
pub(crate) fn map_insert<V>(map: &mut FnvHashMap<u64, V>, key: u64, value: V)
    ensures
        final(map)@ == old(map)@.insert(key, value),
{
    map.insert(key, value);
}

/// `FnvHashMap::remove` with an integer key: the entry of `key` is gone afterwards and handed
/// back if there was one; every other entry stays.
#[verifier::external_body]
pub(crate) fn map_remove<V>(map: &mut FnvHashMap<u64, V>, key: u64) -> (value: Option<V>)
    ensures
        final(map)@ == old(map)@.remove(key),
        value == (if old(map)@.contains_key(key) {
            Some(old(map)@[key])
        } else {
            None
        }),
{
    map.remove(&key)
}

/// `FnvHashMap::get` with an integer key: the value of `key`, if it has an entry.
#[verifier::external_body]
pub(crate) fn map_get<V>(map: &FnvHashMap<u64, V>, key: u64) -> (value: Option<&V>)
    ensures
        value == (if map@.contains_key(key) {
            Some(&map@[key])
        } else {
            None
        }),
{
    map.get(&key)
}

/// `FnvHashSet::insert` with integers: `item` is in the set afterwards, every other item is as
/// before.
#[verifier::external_body]
pub(crate) fn set_insert(set: &mut FnvHashSet<u64>, item: u64)
    ensures
        final(set)@ == old(set)@.insert(item),
{
    set.insert(item);
}

/// `FnvHashSet::remove` with integers: `item` is not in the set afterwards, every other item is
/// as before.
#[verifier::external_body]
pub(crate) fn set_remove(set: &mut FnvHashSet<u64>, item: u64)
    ensures
        final(set)@ == old(set)@.remove(item),
{
    set.remove(&item);
}

/// `Vec::from_iter` over an `FnvHashSet`: each item of the set, once. The order in which a hash
/// set is walked is left open.
#[verifier::external_body]
pub(crate) fn set_items(set: FnvHashSet<u64>) -> (items: Vec<u64>)
    ensures
        items@.to_set() == set@,
        items@.no_duplicates(),
{
    Vec::from_iter(set)
}

} // verus!
