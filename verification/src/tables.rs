//! Hash tables keyed by a node's 32-bit index, hashed with FNV.
//!
//! The tables are `std`'s `HashMap` and `HashSet` with the hasher of the
//! `fnv` crate. Nothing here is proved: each function states what the call
//! in its body does to the table's contents, for keys that are plain `u32`.

use fnv::{FnvHashMap, FnvHashSet};
use vstd::prelude::*;

verus! {

/// Largest capacity hint that is handed on to a table.
pub const CAPACITY_HINT_MAX: usize = 0x10_0000;

/// `fnv::FnvHasher`: the state of one FNV-1a hash computation. It is carried
/// inside the tables and never looked into.
#[verifier::external_type_specification]
#[verifier::external_body]
pub struct ExFnvHasher(fnv::FnvHasher);

/// `std::hash::BuildHasherDefault`: makes a hasher by `Default`. It is
/// carried inside the tables and never looked into.
#[verifier::external_type_specification]
#[verifier::external_body]
#[verifier::reject_recursive_types(H)]
pub struct ExBuildHasherDefault<H>(core::hash::BuildHasherDefault<H>);

/// `HashMap::with_capacity_and_hasher` with the hasher of `fnv`: a map
/// without entries. The capacity only sets room aside, here for at most
/// `CAPACITY_HINT_MAX` entries.
#[verifier::external_body]
pub(crate) fn map_with_capacity<V>(capacity: usize) -> (m: FnvHashMap<u32, V>)
    requires
        capacity <= CAPACITY_HINT_MAX,
    ensures
        m@.dom() == Set::<u32>::empty(),
{
    FnvHashMap::with_capacity_and_hasher(capacity, Default::default())
}

/// `HashMap::insert`: afterwards the map holds `value` under `key`, and
/// under every other key what it held before.
#[verifier::external_body]
pub(crate) fn map_insert<V>(m: &mut FnvHashMap<u32, V>, key: u32, value: V)
    ensures
        final(m)@ == old(m)@.insert(key, value),
{
    m.insert(key, value);
}

/// `HashMap::get`: the value held under `key`, if there is one.
#[verifier::external_body]
pub(crate) fn map_get<'a, V>(m: &'a FnvHashMap<u32, V>, key: u32) -> (r: Option<&'a V>)
    ensures
        match r {
            Some(v) => m@.contains_key(key) && *v == m@[key],
            None => !m@.contains_key(key),
        },
{
    m.get(&key)
}

/// `HashMap::len`: the number of keys.
#[verifier::external_body]
pub(crate) fn map_len<V>(m: &FnvHashMap<u32, V>) -> (n: usize)
    ensures
        n == m@.len(),
{
    m.len()
}

/// `HashMap::clear`: afterwards the map holds nothing.
#[verifier::external_body]
pub(crate) fn map_clear<V>(m: &mut FnvHashMap<u32, V>)
    ensures
        final(m)@.dom() == Set::<u32>::empty(),
{
    m.clear();
}

/// `FnvHashSet::default`: a set without members.
#[verifier::external_body]
pub(crate) fn set_new() -> (s: FnvHashSet<u32>)
    ensures
        s@ == Set::<u32>::empty(),
{
    FnvHashSet::default()
}

/// `HashSet::insert`: afterwards `key` is a member, beside the members
/// from before.
#[verifier::external_body]
pub(crate) fn set_insert(s: &mut FnvHashSet<u32>, key: u32)
    ensures
        final(s)@ == old(s)@.insert(key),
{
    s.insert(key);
}

/// `HashSet::contains`: whether `key` is a member.
#[verifier::external_body]
pub(crate) fn set_contains(s: &FnvHashSet<u32>, key: u32) -> (b: bool)
    ensures
        b == s@.contains(key),
{
    s.contains(&key)
}

} // verus!
