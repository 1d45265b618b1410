//! A cache whose equal values share one interned allocation.

use crate::arc_hash_set::{cow_value, ArcHashSet};
use crate::cache::{
    clones_equal, dropped_strictly_older, drops_oldest, eviction_count, hash_model,
    lemma_drops_none, Cache,
};
use crate::select::selection_len;
use crate::stdx::arc_set_model;
use std::borrow::Cow;
use std::collections::hash_map::RandomState;
use std::hash::{BuildHasher, Hash};
use std::ops::RangeInclusive;
use std::sync::Arc;
use vstd::prelude::*;
use vstd::std_specs::hash::obeys_key_model;

verus! {

/// A cache from keys to shared handles, where equal values are interned in
/// one set; handles no record holds any more leave the set at the next sweep.
#[verifier::reject_recursive_types(K)]
#[verifier::reject_recursive_types(V)]
#[verifier::reject_recursive_types(S)]
pub struct CacheDedup<K, V, S = RandomState> {
    cache: Cache<K, Arc<V>, S>,
    groups: ArcHashSet<V, S>,
}

impl<K, V, S> CacheDedup<K, V, S> {
    /// The cached handles by key.
    pub closed spec fn entries(&self) -> Map<K, Arc<V>> {
        self.cache.entries()
    }

    /// The clock reading of each key's last use.
    pub closed spec fn stamps(&self) -> Map<K, u64> {
        self.cache.stamps()
    }

    /// The interned handles.
    pub closed spec fn interned(&self) -> Set<Arc<V>> {
        self.groups@
    }

    /// The inner cache's settings and clock.
    pub closed spec fn settings(&self) -> (nat, nat, u64, u64) {
        (self.cache.low(), self.cache.high(), self.cache.mark(), self.cache.clock())
    }

    /// The internal invariant.
    pub closed spec fn wf(&self) -> bool {
        self.cache.wf()
    }
}

impl<K, V, S: Default> Default for CacheDedup<K, V, S> {
    /// An empty cache without capacity limit.
    fn default() -> (r: Self)
        ensures
            r.entries().is_empty(),
            r.interned().is_empty(),
            r.settings() == (usize::MAX as nat, usize::MAX as nat, 0u64, 0u64),
            hash_model::<K, S>() ==> r.wf(),
    {
        CacheDedup { cache: Cache::default(), groups: ArcHashSet::default() }
    }
}

impl<K: Clone + Eq + Hash, V: Eq + Hash> CacheDedup<K, V, RandomState> {
    /// Makes a cache without capacity limit.
    pub fn new() -> (r: Self)
        ensures
            r.entries().is_empty(),
            r.interned().is_empty(),
            r.settings() == (usize::MAX as nat, usize::MAX as nat, 0u64, 0u64),
            obeys_key_model::<K>() ==> r.wf(),
    {
        CacheDedup { cache: Cache::new(), groups: ArcHashSet::new() }
    }

    /// Makes a cache with the capacity `capacity`.
    pub fn with_capacity(capacity: RangeInclusive<usize>) -> (r: Self)
        ensures
            r.entries().is_empty(),
            r.interned().is_empty(),
            r.settings() == (capacity@.start as nat, capacity@.end as nat, 0u64, 0u64),
            obeys_key_model::<K>() ==> r.wf(),
    {
        CacheDedup { cache: Cache::with_capacity(capacity), groups: ArcHashSet::new() }
    }
}

impl<K: Clone + Eq + Hash, V: Eq + Hash, S: BuildHasher + Clone> CacheDedup<K, V, S> {
    /// Makes a cache with the capacity `capacity` that uses `hash_builder`.
    pub fn with_capacity_and_hasher(capacity: RangeInclusive<usize>, hash_builder: S) -> (r: Self)
        ensures
            r.entries().is_empty(),
            r.interned().is_empty(),
            r.settings() == (capacity@.start as nat, capacity@.end as nat, 0u64, 0u64),
            obeys_key_model::<K>() && vstd::std_specs::hash::builds_valid_hashers::<S>() ==> r.wf(),
    {
        let hb = hash_builder.clone();
        CacheDedup {
            cache: Cache::with_capacity_and_hasher(capacity, hb),
            groups: ArcHashSet::with_hasher(hash_builder),
        }
    }

    /// Makes a cache without capacity limit that uses `hash_builder`.
    pub fn with_hasher(hash_builder: S) -> (r: Self)
        ensures
            r.entries().is_empty(),
            r.interned().is_empty(),
            r.settings() == (usize::MAX as nat, usize::MAX as nat, 0u64, 0u64),
            obeys_key_model::<K>() && vstd::std_specs::hash::builds_valid_hashers::<S>() ==> r.wf(),
    {
        let hb = hash_builder.clone();
        CacheDedup { cache: Cache::with_hasher(hb), groups: ArcHashSet::with_hasher(hash_builder) }
    }

    /// The handle cached under `key`, if any; a hit counts as a use.
    pub fn get(&mut self, key: &K) -> (r: Option<&Arc<V>>)
        requires
            old(self).wf(),
        ensures
            final(self).wf(),
            final(self).entries() == old(self).entries(),
            final(self).interned() == old(self).interned(),
            r == if old(self).entries().contains_key(*key) {
                Some(&old(self).entries()[*key])
            } else {
                None
            },
            old(self).entries().contains_key(*key) ==> final(self).stamps() == old(
                self,
            ).stamps().insert(*key, old(self).settings().3),
    {
        self.cache.get(key)
    }

    /// The handle cached under `key`. On a miss the cache first makes room
    /// for the key, the handles no record holds any more then leave the set,
    /// and `val` is interned (an equal value already interned is shared) and
    /// cached under `key`; the set keeps the handle handed out.
    pub fn get_or_init(&mut self, key: &K, val: Cow<'_, V>) -> (r: &Arc<V>)
        where
            V: Clone,
        requires
            old(self).wf(),
            clones_equal::<K>(),
        ensures
            final(self).wf(),
            final(self).entries().contains_key(*key),
            *r == final(self).entries()[*key],
            old(self).entries().contains_key(*key) ==> {
                &&& final(self).entries() == old(self).entries()
                &&& final(self).interned() == old(self).interned()
            },
            !old(self).entries().contains_key(*key) ==> {
                let kept = final(self).entries().dom().remove(*key);
                &&& kept.subset_of(old(self).entries().dom())
                &&& final(self).entries() == old(self).entries().restrict(kept).insert(*key, *r)
                &&& old(self).settings().0 <= old(self).settings().1 ==> drops_oldest(
                    old(self).stamps(),
                    kept,
                    eviction_count(
                        old(self).entries().len(),
                        old(self).settings().0,
                        old(self).settings().1,
                    ),
                )
                &&& arc_set_model::<V, S>() ==> final(self).interned().contains(*r)
                &&& arc_set_model::<V, S>() ==> final(self).interned().subset_of(
                    old(self).interned().insert(*r),
                )
                &&& arc_set_model::<V, S>() ==> cloned(cow_value(val), **r)
                &&& arc_set_model::<V, S>() && clones_equal::<V>() ==> **r == cow_value(val)
            },
    {
        if !self.cache.contains_key(key) {
            let ghost start = self.cache.entries();
            let before = self.cache.len();
            self.cache.optimize_capacity();
            let ghost mid = self.cache.entries();
            let ghost mid_stamps = self.cache.stamps();
            let after = self.cache.len();
            if after < before {
                self.groups.remove_unreferenced();
            }
            let handle = self.groups.get_or_init(val);
            let k = key.clone();
            proof {
                assert(cloned(*key, k));
                self.cache.lemma_same_keys();
            }
            self.cache.insert(k, handle);
            proof {
                let kept2 = self.cache.entries().dom().remove(*key);
                if old(self).cache.low() <= old(self).cache.high() {
                    lemma_drops_none(mid_stamps, kept2);
                }
                assert(kept2.subset_of(mid.dom()));
                assert(start.restrict(kept2) =~= mid.restrict(kept2));
            }
        }
        self.cache.get(key).unwrap()
    }

    /// Drops the `remove_count` least recently used records, then the
    /// handles no record holds any more.
    pub fn remove_lru(&mut self, remove_count: usize)
        requires
            old(self).wf(),
            clones_equal::<K>(),
        ensures
            final(self).wf(),
            final(self).settings() == old(self).settings(),
            drops_oldest(
                old(self).stamps(),
                final(self).entries().dom(),
                selection_len(remove_count as nat, old(self).entries().len()),
            ),
            final(self).entries() == old(self).entries().restrict(final(self).entries().dom()),
            final(self).stamps() == old(self).stamps().restrict(final(self).entries().dom()),
            old(self).settings().3 < u64::MAX ==> dropped_strictly_older(
                old(self).stamps(),
                final(self).entries().dom(),
            ),
            arc_set_model::<V, S>() ==> final(self).interned().subset_of(old(self).interned()),
    {
        self.cache.remove_lru(remove_count);
        self.groups.remove_unreferenced();
    }

    /// Drops every record not touched since the previous sweep, then the
    /// handles no record holds any more.
    pub fn remove_untouched(&mut self)
        requires
            old(self).wf(),
        ensures
            final(self).wf(),
            forall|k: K| #[trigger]
                final(self).entries().contains_key(k) <==> old(self).entries().contains_key(k)
                    && old(self).stamps()[k] >= old(self).settings().2,
            forall|k: K| #[trigger]
                final(self).entries().contains_key(k) ==> final(self).entries()[k] == old(
                    self,
                ).entries()[k],
            final(self).settings() == (
                old(self).settings().0,
                old(self).settings().1,
                old(self).settings().3,
                old(self).settings().3,
            ),
            forall|k: K| #[trigger]
                final(self).entries().contains_key(k) ==> final(self).stamps()[k] == old(
                    self,
                ).stamps()[k],
            arc_set_model::<V, S>() ==> final(self).interned().subset_of(old(self).interned()),
    {
        self.cache.remove_untouched();
        self.groups.remove_unreferenced();
    }

    /// Drops the records not touched since the previous sweep for which
    /// `cond` answers `true`, then the handles no record holds any more.
    pub fn remove_untouched_if<F: Fn(&K, &Arc<V>) -> bool>(&mut self, cond: F)
        requires
            old(self).wf(),
            forall|k: K, v: Arc<V>| cond.requires((&k, &v)),
        ensures
            final(self).wf(),
            final(self).entries().dom().subset_of(old(self).entries().dom()),
            forall|k: K| #[trigger]
                final(self).entries().contains_key(k) ==> {
                    &&& final(self).entries()[k] == old(self).entries()[k]
                    &&& old(self).stamps()[k] >= old(self).settings().2 || cond.ensures(
                        (&k, &old(self).entries()[k]),
                        false,
                    )
                },
            forall|k: K| #[trigger]
                old(self).entries().contains_key(k) && !final(self).entries().contains_key(k) ==> {
                    &&& old(self).stamps()[k] < old(self).settings().2
                    &&& cond.ensures((&k, &old(self).entries()[k]), true)
                },
            final(self).settings() == (
                old(self).settings().0,
                old(self).settings().1,
                old(self).settings().3,
                old(self).settings().3,
            ),
            forall|k: K| #[trigger]
                final(self).entries().contains_key(k) ==> final(self).stamps()[k] == old(
                    self,
                ).stamps()[k],
            arc_set_model::<V, S>() ==> final(self).interned().subset_of(old(self).interned()),
    {
        self.cache.remove_untouched_if(cond);
        self.groups.remove_unreferenced();
    }

    /// Keeps the records for which `keep` answers `true`, then drops the
    /// handles no record holds any more.
    pub fn retain<F: Fn(&K, &Arc<V>) -> bool>(&mut self, keep: F)
        requires
            old(self).wf(),
            forall|k: K, v: Arc<V>| keep.requires((&k, &v)),
        ensures
            final(self).wf(),
            final(self).settings() == old(self).settings(),
            final(self).entries().dom().subset_of(old(self).entries().dom()),
            forall|k: K| #[trigger]
                final(self).entries().contains_key(k) ==> {
                    &&& final(self).entries()[k] == old(self).entries()[k]
                    &&& keep.ensures((&k, &old(self).entries()[k]), true)
                },
            forall|k: K| #[trigger]
                old(self).entries().contains_key(k) && !final(self).entries().contains_key(k)
                    ==> keep.ensures((&k, &old(self).entries()[k]), false),
            forall|k: K| #[trigger]
                final(self).entries().contains_key(k) ==> final(self).stamps()[k] == old(
                    self,
                ).stamps()[k],
            arc_set_model::<V, S>() ==> final(self).interned().subset_of(old(self).interned()),
    {
        self.cache.retain(keep);
        self.groups.remove_unreferenced();
    }

    /// Sets the capacity to `capacity` and brings the cache under it, then
    /// drops the handles no record holds any more.
    pub fn set_capacity(&mut self, capacity: RangeInclusive<usize>)
        requires
            old(self).wf(),
            clones_equal::<K>(),
        ensures
            final(self).wf(),
            final(self).settings() == (
                capacity@.start as nat,
                capacity@.end as nat,
                old(self).settings().2,
                old(self).settings().3,
            ),
            drops_oldest(
                old(self).stamps(),
                final(self).entries().dom(),
                eviction_count(old(self).entries().len(), capacity@.start as nat, capacity@.end as nat),
            ),
            final(self).entries() == old(self).entries().restrict(final(self).entries().dom()),
            final(self).stamps() == old(self).stamps().restrict(final(self).entries().dom()),
            old(self).settings().3 < u64::MAX ==> dropped_strictly_older(
                old(self).stamps(),
                final(self).entries().dom(),
            ),
            arc_set_model::<V, S>() ==> final(self).interned().subset_of(old(self).interned()),
    {
        self.cache.set_capacity(capacity);
        self.groups.remove_unreferenced();
    }

    /// Releases spare room of both tables; records and handles stay.
    pub fn shrink_to_fit(&mut self)
        requires
            old(self).wf(),
        ensures
            final(self).wf(),
            final(self).settings() == old(self).settings(),
            final(self).entries() == old(self).entries(),
            final(self).stamps() == old(self).stamps(),
            final(self).interned() == old(self).interned(),
    {
        self.cache.shrink_to_fit();
        self.groups.shrink_to_fit();
    }
}

} // verus!
