//! The hash collections of `fxhash` (std's `HashMap`/`HashSet` with the
//! deterministic `FxHasher`), as the library uses them.
//!
//! vstd gives std's hash collections a view for every hasher, but their
//! specifications only for hashers it knows to be valid. The trusted items
//! below state, for the key types this library uses (integers and `OpID`), the
//! behaviour that std documents for `HashMap` and `HashSet`; `FxHasher` is a
//! deterministic hasher, so that behaviour holds with it.
use vstd::prelude::*;

use fxhash::{FxHashMap, FxHashSet, FxHasher};
use std::hash::BuildHasherDefault;

verus! {

/// A hash map keyed by peer.
pub type ClientMap<V> = FxHashMap<u64, V>;

#[verifier::external_type_specification]
#[verifier::external_body]
pub struct ExFxHasher(FxHasher);

#[verifier::external_type_specification]
#[verifier::external_body]
#[verifier::reject_recursive_types(H)]
pub struct ExBuildHasherDefault<H>(BuildHasherDefault<H>);

/// `FxHashSet::default()`: an empty set.
#[verifier::external_body]
pub(crate) fn fx_set_new() -> (s: FxHashSet<i32>)
    ensures
        s@ == Set::<i32>::empty(),
{
    FxHashSet::default()
}

/// `HashSet::with_capacity_and_hasher`: an empty set with room for `cap`
/// values.
#[verifier::external_body]
pub(crate) fn fx_set_with_capacity(cap: usize) -> (s: FxHashSet<i32>)
    ensures
        s@ == Set::<i32>::empty(),
{
    FxHashSet::with_capacity_and_hasher(cap, Default::default())
}

/// `HashSet::insert`: adds `v`; returns whether it was absent.
#[verifier::external_body]
pub(crate) fn fx_set_insert(s: &mut FxHashSet<i32>, v: i32) -> (added: bool)
    ensures
        final(s)@ == old(s)@.insert(v),
        added == !old(s)@.contains(v),
{
    s.insert(v)
}

/// `HashSet::remove`: removes `v`; returns whether it was present.
#[verifier::external_body]
pub(crate) fn fx_set_remove(s: &mut FxHashSet<i32>, v: i32) -> (removed: bool)
    ensures
        final(s)@ == old(s)@.remove(v),
        removed == old(s)@.contains(v),
{
    s.remove(&v)
}

/// `HashSet::contains`.
#[verifier::external_body]
pub(crate) fn fx_set_contains(s: &FxHashSet<i32>, v: i32) -> (b: bool)
    ensures
        b == s@.contains(v),
{
    s.contains(&v)
}

/// `HashSet::len`, for a set whose view is finite.
#[verifier::external_body]
pub(crate) fn fx_set_len(s: &FxHashSet<i32>) -> (n: usize)
    ensures
        s@.finite() ==> n == s@.len(),
{
    s.len()
}

/// `HashSet::is_empty`.
#[verifier::external_body]
pub(crate) fn fx_set_is_empty(s: &FxHashSet<i32>) -> (b: bool)
    ensures
        b == (s@ == Set::<i32>::empty()),
{
    s.is_empty()
}

/// `HashSet::clear`.
#[verifier::external_body]
pub(crate) fn fx_set_clear(s: &mut FxHashSet<i32>)
    ensures
        final(s)@ == Set::<i32>::empty(),
{
    s.clear()
}

/// `HashSet::clone`.
#[verifier::external_body]
pub(crate) fn fx_set_clone(s: &FxHashSet<i32>) -> (c: FxHashSet<i32>)
    ensures
        c@ == s@,
{
    s.clone()
}

/// `HashSet::iter`, collected: every value of the set once, in the set's
/// iteration order, which nothing here states.
#[verifier::external_body]
pub(crate) fn fx_set_to_vec(s: &FxHashSet<i32>) -> (v: Vec<i32>)
    ensures
        v@.to_set() == s@,
        v@.no_duplicates(),
{
    s.iter().copied().collect()
}

/// `Extend::extend` of a set with the values of another.
#[verifier::external_body]
pub(crate) fn fx_set_extend(s: &mut FxHashSet<i32>, other: &FxHashSet<i32>)
    ensures
        final(s)@ == old(s)@.union(other@),
{
    s.extend(other.iter())
}

/// `FxHashMap::default()`: an empty map.
#[verifier::external_body]
pub(crate) fn fx_map_new<V>() -> (m: ClientMap<V>)
    ensures
        m@.dom() == Set::<u64>::empty(),
{
    FxHashMap::default()
}

/// `HashMap::insert`: maps `k` to `v`.
#[verifier::external_body]
pub(crate) fn fx_map_insert<V>(m: &mut FxHashMap<u64, V>, k: u64, v: V)
    ensures
        final(m)@ == old(m)@.insert(k, v),
{
    m.insert(k, v);
}

/// `HashMap::remove`: removes `k`, returning the value it was mapped to.
#[verifier::external_body]
pub(crate) fn fx_map_remove<V>(m: &mut FxHashMap<u64, V>, k: u64) -> (r: Option<V>)
    ensures
        final(m)@ == old(m)@.remove(k),
        r is Some <==> old(m)@.contains_key(k),
        r matches Some(v) ==> v == old(m)@[k],
{
    m.remove(&k)
}

/// `HashMap::get`.
#[verifier::external_body]
pub(crate) fn fx_map_get<V>(m: &FxHashMap<u64, V>, k: u64) -> (r: Option<&V>)
    ensures
        r is Some <==> m@.contains_key(k),
        r matches Some(v) ==> *v == m@[k],
{
    m.get(&k)
}

/// `HashMap::keys`, collected: every key once, in the map's iteration order,
/// which nothing here states.
#[verifier::external_body]
pub(crate) fn fx_map_keys<V>(m: &FxHashMap<u64, V>) -> (v: Vec<u64>)
    ensures
        v@.to_set() == m@.dom(),
        v@.no_duplicates(),
{
    m.keys().copied().collect()
}

} // verus!

verus! {

/// A hash map from annotation ids to annotation indices. The key type's
/// `Hash` and `Eq` are derived, so equal ids hash alike.
pub type AnnIdxMap = FxHashMap<crate::OpID, i32>;

/// `FxHashMap::default()`: an empty map.
#[verifier::external_body]
pub(crate) fn fx_id_map_new() -> (m: AnnIdxMap)
    ensures
        m@.dom() == Set::<crate::OpID>::empty(),
{
    FxHashMap::default()
}

/// `HashMap::insert`: maps `k` to `v`.
#[verifier::external_body]
pub(crate) fn fx_id_map_insert(m: &mut AnnIdxMap, k: crate::OpID, v: i32)
    ensures
        final(m)@ == old(m)@.insert(k, v),
{
    m.insert(k, v);
}

/// `HashMap::get`, copied out.
#[verifier::external_body]
pub(crate) fn fx_id_map_get(m: &AnnIdxMap, k: crate::OpID) -> (r: Option<i32>)
    ensures
        r is Some <==> m@.contains_key(k),
        r matches Some(v) ==> v == m@[k],
{
    m.get(&k).copied()
}

/// `Arc::clone`: another handle to the same annotation.
#[verifier::external_body]
pub(crate) fn arc_ann_clone(a: &std::sync::Arc<crate::Annotation>) -> (r: std::sync::Arc<crate::Annotation>)
    ensures
        r == *a,
{
    a.clone()
}

} // verus!
