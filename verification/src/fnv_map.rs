//! Hash maps with the FNV hasher (from `fnv`), keyed by 64-bit integers.

use fnv::{FnvHashMap, FnvHasher};
use std::hash::BuildHasherDefault;
use vstd::prelude::*;

verus! {

#[verifier::external_type_specification]
#[verifier::external_body]
#[verifier::reject_recursive_types(H)]
pub struct ExBuildHasherDefault<H>(BuildHasherDefault<H>);

#[verifier::external_type_specification]
#[verifier::external_body]
pub struct ExFnvHasher(FnvHasher);

/// `HashMap::insert` on an FNV map: maps `k` to `v`, returning the value it
/// replaced.
#[verifier::external_body]
pub(crate) fn map_insert<V>(m: &mut FnvHashMap<u64, V>, k: u64, v: V) -> (r: Option<V>)
    ensures
        final(m)@ == old(m)@.insert(k, v),
        r is Some <==> old(m)@.contains_key(k),
        r is Some ==> r.unwrap() == old(m)@[k],
{
    m.insert(k, v)
}

/// `HashMap::get` on an FNV map.
#[verifier::external_body]
pub(crate) fn map_get<'a, V>(m: &'a FnvHashMap<u64, V>, k: u64) -> (r: Option<&'a V>)
    ensures
        r is Some <==> m@.contains_key(k),
        r is Some ==> *r.unwrap() == m@[k],
{
    m.get(&k)
}

/// `HashMap::get_mut` on an FNV map: the value for `k`, to be changed in
/// place.
#[verifier::external_body]
pub(crate) fn map_get_mut<'a, V>(m: &'a mut FnvHashMap<u64, V>, k: u64) -> (r: Option<&'a mut V>)
    ensures
        r is Some <==> old(m)@.contains_key(k),
        r is Some ==> *r.unwrap() == old(m)@[k] && final(m)@ == old(m)@.insert(
            k,
            *final(r.unwrap()),
        ),
        r is None ==> final(m)@ == old(m)@,
{
    m.get_mut(&k)
}

/// `HashMap::remove` on an FNV map: removes `k`, returning its value.
#[verifier::external_body]
pub(crate) fn map_remove<V>(m: &mut FnvHashMap<u64, V>, k: u64) -> (r: Option<V>)
    ensures
        final(m)@ == old(m)@.remove(k),
        r is Some <==> old(m)@.contains_key(k),
        r is Some ==> r.unwrap() == old(m)@[k],
{
    m.remove(&k)
}

/// `HashMap::len` on an FNV map.
#[verifier::external_body]
pub(crate) fn map_len<V>(m: &FnvHashMap<u64, V>) -> (n: usize)
    ensures
        n == m@.dom().len(),
{
    m.len()
}

/// `HashMap::iter` on an FNV map, collected: each entry once, in the map's
/// own order, which this contract leaves open.
#[verifier::external_body]
pub(crate) fn map_entries<'a, V>(m: &'a FnvHashMap<u64, V>) -> (r: Vec<(u64, &'a V)>)
    ensures
        forall|i: int, j: int| 0 <= i < j < r@.len() ==> r@[i].0 != r@[j].0,
        forall|i: int|
            0 <= i < r@.len() ==> m@.contains_key(#[trigger] r@[i].0) && *r@[i].1 == m@[r@[i].0],
        forall|k: u64| m@.contains_key(k) ==> exists|i: int| 0 <= i < r@.len() && #[trigger] r@[i].0 == k,
{
    m.iter().map(|(k, v)| (*k, v)).collect()
}

/// `HashMap::iter_mut` on an FNV map, collected: each entry once, in the
/// map's own order, which this contract leaves open, with a reference to
/// change its value in place. The map keeps its keys, and each value is what
/// its reference holds when the borrow ends.
#[verifier::external_body]
pub(crate) fn map_entries_mut<'a, V>(m: &'a mut FnvHashMap<u64, V>) -> (r: Vec<(u64, &'a mut V)>)
    ensures
        forall|i: int, j: int| 0 <= i < j < r@.len() ==> r@[i].0 != r@[j].0,
        forall|i: int|
            0 <= i < r@.len() ==> old(m)@.contains_key(#[trigger] r@[i].0) && *r@[i].1 == old(
                m,
            )@[r@[i].0],
        forall|k: u64|
            old(m)@.contains_key(k) ==> exists|i: int| 0 <= i < r@.len() && #[trigger] r@[i].0 == k,
        final(m)@.dom() == old(m)@.dom(),
        forall|i: int| 0 <= i < r@.len() ==> final(m)@[#[trigger] r@[i].0] == *final(r@[i].1),
{
    m.iter_mut().map(|(k, v)| (*k, v)).collect()
}

} // verus!
