//! Contracts for the few std calls whose behaviour vstd leaves unstated.

use std::collections::{HashMap, HashSet};
use std::sync::Arc;
use std::hash::{BuildHasher, Hash};
use std::ops::RangeInclusive;
use vstd::prelude::*;
use vstd::std_specs::hash::{builds_valid_hashers, obeys_key_model};

verus! {

/// Relies on `RangeInclusive::into_inner`: it hands back the lower and the
/// upper (inclusive) bound the range was built with.
#[verifier::external_body]
pub(crate) fn range_bounds(r: RangeInclusive<usize>) -> (b: (usize, usize))
    ensures
        b.0 == r@.start,
        b.1 == r@.end,
{
    r.into_inner()
}

/// Relies on `HashMap::with_hasher`: the map it makes is empty.
#[verifier::external_body]
pub(crate) fn map_with_hasher<K, V, S>(hash_builder: S) -> (m: HashMap<K, V, S>)
    ensures
        m@.dom().is_empty(),
{
    HashMap::with_hasher(hash_builder)
}

/// Relies on `HashMap::get_mut`: a reference to the value stored under `k`,
/// through which the map's entry is written.
#[verifier::external_body]
pub(crate) fn map_get_mut<'a, K: Eq + Hash, V, S: BuildHasher>(
    m: &'a mut HashMap<K, V, S>,
    k: &K,
) -> (r: Option<&'a mut V>)
    ensures
        obeys_key_model::<K>() && builds_valid_hashers::<S>() ==> match r {
            Some(v) => {
                &&& old(m)@.contains_key(*k)
                &&& *v == old(m)@[*k]
                &&& final(m)@ == old(m)@.insert(*k, *final(v))
            },
            None => {
                &&& !old(m)@.contains_key(*k)
                &&& final(m)@ == old(m)@
            },
        },
{
    m.get_mut(k)
}

/// Relies on `HashMap::retain`: each entry is kept exactly when `keep`
/// answers `true` for it, and kept entries are left as they were.
#[verifier::external_body]
pub(crate) fn map_retain<K: Eq + Hash, V, S: BuildHasher, F: Fn(&K, &V) -> bool>(
    m: &mut HashMap<K, V, S>,
    keep: F,
)
    requires
        forall|k: K, v: V| keep.requires((&k, &v)),
    ensures
        obeys_key_model::<K>() && builds_valid_hashers::<S>() ==> {
            &&& final(m)@.dom().subset_of(old(m)@.dom())
            &&& forall|k: K| #[trigger]
                final(m)@.contains_key(k) ==> final(m)@[k] == old(m)@[k] && keep.ensures(
                    (&k, &old(m)@[k]),
                    true,
                )
            &&& forall|k: K| #[trigger]
                old(m)@.contains_key(k) && !final(m)@.contains_key(k) ==> keep.ensures(
                    (&k, &old(m)@[k]),
                    false,
                )
        },
{
    m.retain(|k, v| keep(k, v))
}

/// Relies on `HashMap::shrink_to_fit`: only the allocation changes, never
/// the entries.
#[verifier::external_body]
pub(crate) fn map_shrink_to_fit<K: Eq + Hash, V, S: BuildHasher>(m: &mut HashMap<K, V, S>)
    ensures
        final(m)@ == old(m)@,
{
    m.shrink_to_fit()
}

/// The values a set of shared handles points to.
pub open spec fn pointees<T>(s: Set<Arc<T>>) -> Set<T> {
    s.map(|a: Arc<T>| *a)
}

/// `T` and `S` behave as the hash set's model assumes. A shared handle
/// `Arc<T>` compares and hashes as the `T` it points to (std's `PartialEq`,
/// `Eq` and `Hash` impls for `Arc` forward to the value), so a set of handles
/// follows the model whenever `T` does.
pub open spec fn arc_set_model<T, S>() -> bool {
    &&& obeys_key_model::<T>()
    &&& builds_valid_hashers::<S>()
}

/// The hash set `s` behaves as its model assumes.
pub open spec fn arc_set_ok<T, S>(s: &HashSet<Arc<T>, S>) -> bool {
    arc_set_model::<T, S>()
}

/// Relies on `HashSet::with_hasher`: the set it makes is empty.
#[verifier::external_body]
pub(crate) fn set_with_hasher<K, S>(hash_builder: S) -> (set: HashSet<K, S>)
    ensures
        set@ == Set::<K>::empty(),
{
    HashSet::with_hasher(hash_builder)
}

/// Relies on `HashSet::with_capacity_and_hasher`: the set it makes is empty.
#[verifier::external_body]
pub(crate) fn set_with_capacity_and_hasher<K, S>(capacity: usize, hash_builder: S) -> (set:
    HashSet<K, S>)
    ensures
        set@ == Set::<K>::empty(),
{
    HashSet::with_capacity_and_hasher(capacity, hash_builder)
}

/// Relies on `HashSet::get`: the stored handle whose value equals `v`.
#[verifier::external_body]
pub(crate) fn set_get<'a, T: Eq + Hash, S: BuildHasher>(s: &'a HashSet<Arc<T>, S>, v: &T) -> (r:
    Option<&'a Arc<T>>)
    ensures
        arc_set_ok(s) ==> match r {
            Some(a) => s@.contains(*a) && **a == *v,
            None => !pointees(s@).contains(*v),
        },
{
    s.get(v)
}

/// Relies on `HashSet::remove`: the handle whose value equals `v` leaves the
/// set.
#[verifier::external_body]
pub(crate) fn set_remove<T: Eq + Hash, S: BuildHasher>(s: &mut HashSet<Arc<T>, S>, v: &T)
    ensures
        arc_set_ok(old(s)) ==> final(s)@ == old(s)@.filter(|a: Arc<T>| *a != *v),
{
    s.remove(v);
}

/// Relies on `HashSet::insert`: the handle is added unless an equal one is
/// stored already; the answer says whether it was added.
#[verifier::external_body]
pub(crate) fn set_insert<T: Eq + Hash, S: BuildHasher>(s: &mut HashSet<Arc<T>, S>, a: Arc<T>) -> (r:
    bool)
    ensures
        arc_set_ok(old(s)) ==> final(s)@ == old(s)@.insert(a) && r == !old(s)@.contains(a),
{
    s.insert(a)
}

/// Relies on `HashSet::iter`: every stored handle, each once.
#[verifier::external_body]
pub(crate) fn set_handles<'a, T: Eq + Hash, S: BuildHasher>(s: &'a HashSet<Arc<T>, S>) -> (r: Vec<
    &'a Arc<T>,
>)
    ensures
        arc_set_ok(s) ==> r@.len() == s@.len() && forall|i: int|
            0 <= i < r@.len() ==> s@.contains(*#[trigger] r@[i]),
{
    s.iter().collect()
}

/// Relies on `HashSet::shrink_to_fit`: only the allocation changes, never
/// the elements.
#[verifier::external_body]
pub(crate) fn set_shrink_to_fit<K: Eq + Hash, S: BuildHasher>(s: &mut HashSet<K, S>)
    ensures
        final(s)@ == old(s)@,
{
    s.shrink_to_fit()
}

/// Relies on `Arc::clone`: another handle to the same value.
#[verifier::external_body]
pub(crate) fn share<T>(a: &Arc<T>) -> (r: Arc<T>)
    ensures
        r == *a,
{
    Arc::clone(a)
}

/// Relies on `Arc::strong_count`: the number of live handles to the value,
/// at least the one passed in. It depends on what else holds the value.
#[verifier::external_body]
pub(crate) fn holders<T>(a: &Arc<T>) -> (n: usize)
    ensures
        n >= 1,
{
    Arc::strong_count(a)
}

} // verus!
