//! The hash collections of the `ahash` crate, as this library uses them.
//!
//! Each item here is trusted: its contract restates what `std`'s `HashSet` and
//! `HashMap` document for the operation that `ahash` forwards to through `Deref`.
//! Nothing here states the order in which a collection is walked: `ahash` seeds
//! each collection at random, so that order differs between runs.
use vstd::prelude::*;

verus! {

#[verifier::external_type_specification]
#[verifier::external_body]
pub struct ExRandomState(ahash::RandomState);

#[verifier::external_type_specification]
#[verifier::external_body]
#[verifier::reject_recursive_types(T)]
#[verifier::reject_recursive_types(S)]
pub struct ExAHashSet<T, S>(ahash::AHashSet<T, S>);

#[verifier::external_type_specification]
#[verifier::external_body]
#[verifier::reject_recursive_types(K)]
#[verifier::reject_recursive_types(V)]
#[verifier::reject_recursive_types(S)]
pub struct ExAHashMap<K, V, S>(ahash::AHashMap<K, V, S>);

/// The node ids that an `AHashSet<i64>` holds.
pub uninterp spec fn id_set_view(s: ahash::AHashSet<i64>) -> Set<i64>;

/// `AHashSet::new`: an empty set.
#[verifier::external_body]
pub fn id_set_new() -> (s: ahash::AHashSet<i64>)
    ensures
        id_set_view(s) == Set::<i64>::empty(),
{
    ahash::AHashSet::new()
}

/// `HashSet::insert` through `DerefMut`: adds `x`, and answers whether it was absent.
#[verifier::external_body]
pub fn id_set_insert(s: &mut ahash::AHashSet<i64>, x: i64) -> (fresh: bool)
    ensures
        id_set_view(*final(s)) == id_set_view(*old(s)).insert(x),
        fresh == !id_set_view(*old(s)).contains(x),
{
    s.insert(x)
}

/// `HashSet::remove` through `DerefMut`: takes `x` out, and answers whether it was there.
#[verifier::external_body]
pub fn id_set_remove(s: &mut ahash::AHashSet<i64>, x: i64) -> (was: bool)
    ensures
        id_set_view(*final(s)) == id_set_view(*old(s)).remove(x),
        was == id_set_view(*old(s)).contains(x),
{
    s.remove(&x)
}

/// `HashSet::contains` through `Deref`.
#[verifier::external_body]
pub fn id_set_contains(s: &ahash::AHashSet<i64>, x: i64) -> (b: bool)
    ensures
        b == id_set_view(*s).contains(x),
{
    s.contains(&x)
}

/// `HashSet::len` through `Deref`: the number of ids held.
#[verifier::external_body]
pub fn id_set_len(s: &ahash::AHashSet<i64>) -> (n: usize)
    ensures
        n == id_set_view(*s).len(),
{
    s.len()
}

/// `Clone::clone` of the set: a set with the same ids.
#[verifier::external_body]
pub fn id_set_clone(s: &ahash::AHashSet<i64>) -> (c: ahash::AHashSet<i64>)
    ensures
        id_set_view(c) == id_set_view(*s),
{
    s.clone()
}

/// `HashSet::iter` through `Deref`, each id copied into a vector: every id once, in the
/// set's own order, which is left open.
#[verifier::external_body]
pub fn id_set_to_vec(s: &ahash::AHashSet<i64>) -> (v: Vec<i64>)
    ensures
        v@.no_duplicates(),
        v@.to_set() == id_set_view(*s),
{
    s.iter().copied().collect()
}

/// A set of (source, target) pairs.
pub type PairSet = ahash::AHashSet<(i64, i64)>;

/// The edges, as (source, target) pairs, that an `AHashSet<(i64, i64)>` holds.
pub uninterp spec fn pair_set_view(s: PairSet) -> Set<(i64, i64)>;

/// `AHashSet::new`: an empty set of pairs.
#[verifier::external_body]
pub fn pair_set_new() -> (s: PairSet)
    ensures
        pair_set_view(s) == Set::<(i64, i64)>::empty(),
{
    ahash::AHashSet::new()
}

/// `HashSet::insert` through `DerefMut`: adds `x`, and answers whether it was absent.
#[verifier::external_body]
pub fn pair_set_insert(s: &mut PairSet, x: (i64, i64)) -> (fresh: bool)
    ensures
        pair_set_view(*final(s)) == pair_set_view(*old(s)).insert(x),
        fresh == !pair_set_view(*old(s)).contains(x),
{
    s.insert(x)
}

/// `HashSet::contains` through `Deref`.
#[verifier::external_body]
pub fn pair_set_contains(s: &PairSet, x: (i64, i64)) -> (b: bool)
    ensures
        b == pair_set_view(*s).contains(x),
{
    s.contains(&x)
}

/// The map from threads to clocks inside a vector clock.
pub type ClockMap = ahash::AHashMap<i64, u64>;

/// The (thread, clock) entries that an `AHashMap<i64, u64>` holds.
pub uninterp spec fn clock_map_view(m: ClockMap) -> Map<i64, u64>;

/// `AHashMap::new`: an empty map.
#[verifier::external_body]
pub fn clock_map_new() -> (m: ClockMap)
    ensures
        clock_map_view(m).dom() == Set::<i64>::empty(),
{
    ahash::AHashMap::new()
}

/// `AHashMap::get`, the value copied out.
#[verifier::external_body]
pub fn clock_map_get(m: &ClockMap, k: i64) -> (r: Option<u64>)
    ensures
        r == (if clock_map_view(*m).contains_key(k) {
            Some(clock_map_view(*m)[k])
        } else {
            None
        }),
{
    m.get(&k).copied()
}

/// `AHashMap::insert`: maps `k` to `v`; the previous value is dropped.
#[verifier::external_body]
pub fn clock_map_insert(m: &mut ClockMap, k: i64, v: u64)
    ensures
        clock_map_view(*final(m)) == clock_map_view(*old(m)).insert(k, v),
{
    m.insert(k, v);
}

/// `HashMap::len` through `Deref`: the number of entries.
#[verifier::external_body]
pub fn clock_map_len(m: &ClockMap) -> (n: usize)
    ensures
        n == clock_map_view(*m).dom().len(),
{
    m.len()
}

/// `HashMap::iter` through `Deref`, each entry copied into a vector: every entry once,
/// in the map's own order, which is left open.
#[verifier::external_body]
pub fn clock_map_entries(m: &ClockMap) -> (v: Vec<(i64, u64)>)
    ensures
        forall|i: int, j: int| 0 <= i < j < v@.len() ==> v@[i].0 != v@[j].0,
        forall|i: int|
            0 <= i < v@.len() ==> clock_map_view(*m).contains_key(#[trigger] v@[i].0)
                && clock_map_view(*m)[v@[i].0] == v@[i].1,
        forall|k: i64|
            clock_map_view(*m).contains_key(k) ==> exists|i: int| 0 <= i < v@.len() && #[trigger] v@[i].0 == k,
{
    m.iter().map(|(k, v)| (*k, *v)).collect()
}

/// `Clone::clone` of the map: a map with the same entries.
#[verifier::external_body]
pub fn clock_map_clone(m: &ClockMap) -> (c: ClockMap)
    ensures
        clock_map_view(c) == clock_map_view(*m),
{
    m.clone()
}

/// A map from node ids to node ids.
pub type IdMap = ahash::AHashMap<i64, i64>;

/// The entries that an `AHashMap<i64, i64>` holds.
pub uninterp spec fn id_map_view(m: IdMap) -> Map<i64, i64>;

/// `AHashMap::new`: an empty map.
#[verifier::external_body]
pub fn id_map_new() -> (m: IdMap)
    ensures
        id_map_view(m).dom() == Set::<i64>::empty(),
{
    ahash::AHashMap::new()
}

/// `AHashMap::get`, the value copied out.
#[verifier::external_body]
pub fn id_map_get(m: &IdMap, k: i64) -> (r: Option<i64>)
    ensures
        r == (if id_map_view(*m).contains_key(k) {
            Some(id_map_view(*m)[k])
        } else {
            None
        }),
{
    m.get(&k).copied()
}

/// `AHashMap::insert`: maps `k` to `v`; the previous value is dropped.
#[verifier::external_body]
pub fn id_map_insert(m: &mut IdMap, k: i64, v: i64)
    ensures
        id_map_view(*final(m)) == id_map_view(*old(m)).insert(k, v),
{
    m.insert(k, v);
}

/// A map from node ids to counts or indices.
pub type CountMap = ahash::AHashMap<i64, usize>;

/// The entries that an `AHashMap<i64, usize>` holds.
pub uninterp spec fn count_map_view(m: CountMap) -> Map<i64, usize>;

/// `AHashMap::new`: an empty map.
#[verifier::external_body]
pub fn count_map_new() -> (m: CountMap)
    ensures
        count_map_view(m).dom() == Set::<i64>::empty(),
{
    ahash::AHashMap::new()
}

/// `AHashMap::get`, the value copied out.
#[verifier::external_body]
pub fn count_map_get(m: &CountMap, k: i64) -> (r: Option<usize>)
    ensures
        r == (if count_map_view(*m).contains_key(k) {
            Some(count_map_view(*m)[k])
        } else {
            None
        }),
{
    m.get(&k).copied()
}

/// `AHashMap::insert`: maps `k` to `v`; the previous value is dropped.
#[verifier::external_body]
pub fn count_map_insert(m: &mut CountMap, k: i64, v: usize)
    ensures
        count_map_view(*final(m)) == count_map_view(*old(m)).insert(k, v),
{
    m.insert(k, v);
}

/// `HashSet::iter` through `Deref`, each pair copied into a vector: every pair once, in
/// the set's own order, which is left open.
#[verifier::external_body]
pub fn pair_set_to_vec(s: &PairSet) -> (v: Vec<(i64, i64)>)
    ensures
        v@.no_duplicates(),
        v@.to_set() == pair_set_view(*s),
{
    s.iter().copied().collect()
}

/// `HashSet::len` through `Deref`: the number of pairs held.
#[verifier::external_body]
pub fn pair_set_len(s: &PairSet) -> (n: usize)
    ensures
        n == pair_set_view(*s).len(),
{
    s.len()
}

/// A map from node ids to sets of node ids.
pub type SetMap = ahash::AHashMap<i64, ahash::AHashSet<i64>>;

/// The entries that an `AHashMap<i64, AHashSet<i64>>` holds.
pub uninterp spec fn set_map_view(m: SetMap) -> Map<i64, ahash::AHashSet<i64>>;

/// `AHashMap::new`: an empty map.
#[verifier::external_body]
pub fn set_map_new() -> (m: SetMap)
    ensures
        set_map_view(m).dom() == Set::<i64>::empty(),
{
    ahash::AHashMap::new()
}

/// `AHashMap::insert`: maps `k` to `s`; the previous set is dropped.
#[verifier::external_body]
pub fn set_map_insert(m: &mut SetMap, k: i64, s: ahash::AHashSet<i64>)
    ensures
        set_map_view(*final(m)) == set_map_view(*old(m)).insert(k, s),
{
    m.insert(k, s);
}

/// `AHashMap::remove`: takes the set stored under `k` out, if any.
#[verifier::external_body]
pub fn set_map_remove(m: &mut SetMap, k: i64) -> (r: Option<ahash::AHashSet<i64>>)
    ensures
        set_map_view(*final(m)) == set_map_view(*old(m)).remove(k),
        r == (if set_map_view(*old(m)).contains_key(k) {
            Some(set_map_view(*old(m))[k])
        } else {
            None
        }),
{
    m.remove(&k)
}

/// `HashMap::get` through `Deref`: the set stored under `k`, if any.
#[verifier::external_body]
pub fn set_map_get(m: &SetMap, k: i64) -> (r: Option<&ahash::AHashSet<i64>>)
    ensures
        r == (if set_map_view(*m).contains_key(k) {
            Some(&set_map_view(*m)[k])
        } else {
            None
        }),
{
    m.get(&k)
}

/// `HashMap::keys` through `Deref`, each key copied into a vector: every key once, in
/// the map's own order, which is left open.
#[verifier::external_body]
pub fn set_map_keys(m: &SetMap) -> (v: Vec<i64>)
    ensures
        v@.no_duplicates(),
        v@.to_set() == set_map_view(*m).dom(),
{
    m.keys().copied().collect()
}

/// A map from node ids to an optional node id.
pub type OptMap = ahash::AHashMap<i64, Option<i64>>;

/// The entries that an `AHashMap<i64, Option<i64>>` holds.
pub uninterp spec fn opt_map_view(m: OptMap) -> Map<i64, Option<i64>>;

/// `AHashMap::new`: an empty map.
#[verifier::external_body]
pub fn opt_map_new() -> (m: OptMap)
    ensures
        opt_map_view(m).dom() == Set::<i64>::empty(),
{
    ahash::AHashMap::new()
}

/// `AHashMap::insert`: maps `k` to `v`; the previous value is dropped.
#[verifier::external_body]
pub fn opt_map_insert(m: &mut OptMap, k: i64, v: Option<i64>)
    ensures
        opt_map_view(*final(m)) == opt_map_view(*old(m)).insert(k, v),
{
    m.insert(k, v);
}

/// `HashMap::get` through `Deref`, the value copied out.
#[verifier::external_body]
pub fn opt_map_get(m: &OptMap, k: i64) -> (r: Option<Option<i64>>)
    ensures
        r == (if opt_map_view(*m).contains_key(k) {
            Some(opt_map_view(*m)[k])
        } else {
            None
        }),
{
    m.get(&k).copied()
}

} // verus!
