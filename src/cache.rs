//! A key/value cache that stamps every record with the clock reading of its
//! last use, and drops the least recently used records in batches.

use crate::select::{find_lru_item_to_remove, selection_len};
use crate::stdx::{map_get_mut, map_retain, map_shrink_to_fit, map_with_hasher, range_bounds};
use std::collections::hash_map::RandomState;
use std::collections::HashMap;
use std::hash::{BuildHasher, Hash};
use std::ops::RangeInclusive;
use vstd::prelude::*;
use vstd::std_specs::iter::IteratorSpec;
use vstd::std_specs::hash::{builds_valid_hashers, obeys_key_model, spec_hash_map_iter};

verus! {

broadcast use vstd::std_specs::hash::group_hash_axioms;

/// `K` and `S` behave as the hash map's model assumes.
pub open spec fn hash_model<K, S>() -> bool {
    obeys_key_model::<K>() && builds_valid_hashers::<S>()
}

/// A clone of a key equals the key.
pub open spec fn clones_equal<K: Clone>() -> bool {
    forall|a: K, b: K| #[trigger] cloned(a, b) ==> a == b
}

/// The clock reading after one touch: one more, held at the largest value
/// once that is reached.
pub open spec fn next_tick(c: u64) -> u64 {
    if c < u64::MAX {
        (c + 1) as u64
    } else {
        c
    }
}

/// How many records a cache of `len` records with capacity `low..=high`
/// drops before it grows: none below `high`; otherwise enough to come back to
/// `low`, and at least one.
pub open spec fn eviction_count(len: nat, low: nat, high: nat) -> nat {
    if len < high {
        0
    } else {
        let want: nat = if len > low { (len - low) as nat } else { 0 };
        let want: nat = if want < 1 { 1 } else { want };
        if want < len { want } else { len }
    }
}

/// `kept` is what is left of the records stamped by `before` once its
/// `count` least recently used ones are gone: no dropped record was used
/// after a kept one.
pub open spec fn drops_oldest<K>(before: Map<K, u64>, kept: Set<K>, count: nat) -> bool {
    &&& before.dom().finite()
    &&& kept.subset_of(before.dom())
    &&& kept.len() + count == before.dom().len()
    &&& forall|k: K, j: K|
        #![trigger kept.contains(k), kept.contains(j)]
        before.contains_key(k) && !kept.contains(k) && kept.contains(j) ==> before[k] <= before[j]
}

/// While the clock has not reached its largest value, every stamp lies
/// below it and no two records share a stamp.
pub open spec fn fresh_stamps<K>(stamps: Map<K, u64>, clock: u64) -> bool {
    clock < u64::MAX ==> {
        &&& forall|k: K| #[trigger] stamps.contains_key(k) ==> stamps[k] < clock
        &&& forall|j: K, k: K|
            #![trigger stamps[j], stamps[k]]
            stamps.contains_key(j) && stamps.contains_key(k) && j != k ==> stamps[j] != stamps[k]
    }
}

/// `k` is the most recently used key: every other record is older.
pub open spec fn newest<K>(stamps: Map<K, u64>, k: K) -> bool {
    &&& stamps.contains_key(k)
    &&& forall|j: K| #[trigger] stamps.contains_key(j) && j != k ==> stamps[j] < stamps[k]
}

/// Every record of `before` left out of `kept` was used strictly before every
/// record in it.
pub open spec fn dropped_strictly_older<K>(before: Map<K, u64>, kept: Set<K>) -> bool {
    forall|k: K, j: K|
        #![trigger kept.contains(k), kept.contains(j)]
        before.contains_key(k) && !kept.contains(k) && kept.contains(j) ==> before[k] < before[j]
}

/// Stamping `k` with the clock reading keeps the stamps fresh and makes `k`
/// the newest key.
proof fn lemma_fresh_touch<K>(st: Map<K, u64>, k: K, c: u64)
    requires
        fresh_stamps(st, c),
    ensures
        fresh_stamps(st.insert(k, c), next_tick(c)),
        c < u64::MAX ==> newest(st.insert(k, c), k),
{
    let n = st.insert(k, c);
    if c < u64::MAX {
        assert forall|j: K, i: K| n.contains_key(j) && n.contains_key(i) && j != i implies #[trigger] n[j]
            != #[trigger] n[i] by {
            if j != k && i != k {
                assert(st[j] != st[i]);
            } else if j == k {
                assert(st.contains_key(i) && st[i] < c);
            } else {
                assert(st.contains_key(j) && st[j] < c);
            }
        }
        assert forall|j: K| #[trigger] n.contains_key(j) && j != k implies n[j] < n[k] by {
            assert(st.contains_key(j));
        }
    }
}

/// Records taken out of a map keep its stamps fresh.
proof fn lemma_fresh_sub<K>(st: Map<K, u64>, sub: Map<K, u64>, c: u64)
    requires
        fresh_stamps(st, c),
        sub.dom().subset_of(st.dom()),
        forall|k: K| #[trigger] sub.contains_key(k) ==> sub[k] == st[k],
    ensures
        fresh_stamps(sub, c),
{
    if c < u64::MAX {
        assert forall|j: K, i: K| sub.contains_key(j) && sub.contains_key(i) && j != i implies #[trigger] sub[j]
            != #[trigger] sub[i] by {
            assert(st.contains_key(j) && st.contains_key(i));
            assert(st[j] != st[i]);
        }
        assert forall|j: K| #[trigger] sub.contains_key(j) implies sub[j] < c by {
            assert(st.contains_key(j));
        }
    }
}

/// Dropping no record keeps every one.
pub proof fn lemma_drops_none<K>(before: Map<K, u64>, kept: Set<K>)
    requires
        drops_oldest(before, kept, 0),
    ensures
        kept == before.dom(),
{
    assert forall|x: K| before.dom().contains(x) implies kept.contains(x) by {
        if !kept.contains(x) {
            kept.lemma_subset_not_in_lt(before.dom(), x);
        }
    }
    assert(kept =~= before.dom());
}

/// A stored value and the clock reading of its last use.
struct Rec<V> {
    stamp: u64,
    val: V,
}

/// A key/value map whose records carry the clock reading of their last use.
///
/// With capacity `low..=high`, a cache that holds `high` records or more
/// drops its least recently used ones down to `low` (at least one) before a
/// new key goes in.
#[verifier::reject_recursive_types(K)]
#[verifier::reject_recursive_types(S)]
pub struct Cache<K, V, S = RandomState> {
    low: usize,
    high: usize,
    clock: u64,
    map: HashMap<K, Rec<V>, S>,
    mark: u64,
}

impl<K, V, S> Cache<K, V, S> {
    /// The stored values by key.
    pub closed spec fn entries(&self) -> Map<K, V> {
        vals_of(self.map@)
    }

    /// The clock reading of each key's last use.
    pub closed spec fn stamps(&self) -> Map<K, u64> {
        stamps_of(self.map@)
    }

    /// The reading the next touch is stamped with.
    pub closed spec fn clock(&self) -> u64 {
        self.clock
    }

    /// The clock reading at the last sweep of untouched records.
    pub closed spec fn mark(&self) -> u64 {
        self.mark
    }

    /// Lower end of the capacity range.
    pub closed spec fn low(&self) -> nat {
        self.low as nat
    }

    /// Upper end of the capacity range.
    pub closed spec fn high(&self) -> nat {
        self.high as nat
    }

    /// The capacity range is ordered (`low <= high`) and lets at least one
    /// record in: under such a range the size never goes past `high`.
    pub open spec fn bounded(&self) -> bool {
        1 <= self.high() && self.low() <= self.high()
    }

    /// Capacity and sweep mark agree with `other`.
    pub open spec fn same_settings(&self, other: &Self) -> bool {
        &&& self.low() == other.low()
        &&& self.high() == other.high()
        &&& self.mark() == other.mark()
    }

    /// The map agrees with its model.
    closed spec fn wf_map(&self) -> bool {
        &&& hash_model::<K, S>()
        &&& self.map@.dom().finite()
        &&& self.mark <= self.clock
        &&& fresh_stamps(stamps_of(self.map@), self.clock)
    }

    /// The internal invariant.
    pub closed spec fn wf(&self) -> bool {
        &&& self.wf_map()
        &&& self.bounded() ==> self.map@.len() <= self.high
    }

    proof fn lemma_view(&self)
        ensures
            self.entries().dom() == self.map@.dom(),
            self.stamps().dom() == self.map@.dom(),
            forall|k: K| #[trigger]
                self.map@.contains_key(k) ==> self.entries()[k] == self.map@[k].val
                    && self.stamps()[k] == self.map@[k].stamp,
    {
        assert(self.entries().dom() =~= self.map@.dom());
        assert(self.stamps().dom() =~= self.map@.dom());
    }

    /// Both views have the same keys.
    pub proof fn lemma_same_keys(&self)
        ensures
            self.entries().dom() == self.stamps().dom(),
    {
        self.lemma_view();
    }

    /// The sweep mark is never ahead of the clock, so a record touched after
    /// a sweep carries a stamp at or above the mark and outlives the next
    /// sweep.
    pub proof fn lemma_mark_le_clock(&self)
        requires
            self.wf(),
        ensures
            self.mark() <= self.clock(),
    {
    }

    /// While the clock is below its largest value, stamps lie below it and
    /// differ from record to record.
    pub proof fn lemma_fresh_stamps(&self)
        requires
            self.wf(),
        ensures
            fresh_stamps(self.stamps(), self.clock()),
    {
    }

    /// Whatever was inserted, a cache whose capacity range is bounded holds
    /// no more records than its upper end.
    pub proof fn lemma_capacity_bound(&self)
        requires
            self.wf(),
            self.bounded(),
        ensures
            self.entries().len() <= self.high(),
    {
        self.lemma_view();
    }

    /// Makes a cache with the capacity `capacity` and the hasher `hash_builder`.
    pub fn with_capacity_and_hasher(capacity: RangeInclusive<usize>, hash_builder: S) -> (r: Self)
        ensures
            r.entries().is_empty(),
            r.stamps().is_empty(),
            r.clock() == 0,
            r.mark() == 0,
            r.low() == capacity@.start,
            r.high() == capacity@.end,
            hash_model::<K, S>() ==> r.wf(),
    {
        let (low, high) = range_bounds(capacity);
        let r = Cache { low, high, clock: 0, map: map_with_hasher(hash_builder), mark: 0 };
        proof {
            r.lemma_view();
            assert(r.map@.dom() =~= Set::empty());
        }
        r
    }

    /// Makes a cache without capacity limit that uses `hash_builder`.
    pub fn with_hasher(hash_builder: S) -> (r: Self)
        ensures
            r.entries().is_empty(),
            r.stamps().is_empty(),
            r.clock() == 0,
            r.mark() == 0,
            r.low() == usize::MAX,
            r.high() == usize::MAX,
            hash_model::<K, S>() ==> r.wf(),
    {
        Self::with_capacity_and_hasher(usize::MAX..=usize::MAX, hash_builder)
    }

    /// Whether the cache holds no record.
    pub fn is_empty(&self) -> (r: bool)
        requires
            self.wf(),
        ensures
            r == self.entries().is_empty(),
            r == (self.entries().len() == 0),
    {
        proof {
            self.lemma_view();
            if self.entries().len() == 0 {
                assert(self.entries().dom() =~= Set::empty());
            }
        }
        self.map.is_empty()
    }

    /// The number of records.
    pub fn len(&self) -> (r: usize)
        requires
            self.wf(),
        ensures
            r == self.entries().len(),
    {
        proof {
            self.lemma_view();
        }
        self.map.len()
    }

    /// Stamps the next touch and moves the clock on.
    fn tick(&mut self) -> (stamp: u64)
        ensures
            stamp == old(self).clock,
            final(self).clock == next_tick(old(self).clock),
            final(self).map == old(self).map,
            final(self).low == old(self).low,
            final(self).high == old(self).high,
            final(self).mark == old(self).mark,
    {
        let stamp = self.clock;
        if self.clock < u64::MAX {
            self.clock = self.clock + 1;
        }
        stamp
    }
}

impl<K, V> Cache<K, V, RandomState> {
    /// Makes a cache without capacity limit.
    pub fn new() -> (r: Self)
        ensures
            r.entries().is_empty(),
            r.stamps().is_empty(),
            r.clock() == 0,
            r.mark() == 0,
            r.low() == usize::MAX,
            r.high() == usize::MAX,
            obeys_key_model::<K>() ==> r.wf(),
    {
        Self::with_capacity(usize::MAX..=usize::MAX)
    }

    /// Makes a cache with the capacity `capacity`.
    pub fn with_capacity(capacity: RangeInclusive<usize>) -> (r: Self)
        ensures
            r.entries().is_empty(),
            r.stamps().is_empty(),
            r.clock() == 0,
            r.mark() == 0,
            r.low() == capacity@.start,
            r.high() == capacity@.end,
            obeys_key_model::<K>() ==> r.wf(),
    {
        let (low, high) = range_bounds(capacity);
        let r = Cache { low, high, clock: 0, map: HashMap::new(), mark: 0 };
        proof {
            r.lemma_view();
            assert(r.map@.dom() =~= Set::empty());
        }
        r
    }
}

impl<K, V, S: Default> Default for Cache<K, V, S> {
    /// An empty cache without capacity limit.
    fn default() -> (r: Self)
        ensures
            r.entries().is_empty(),
            r.stamps().is_empty(),
            r.clock() == 0,
            r.mark() == 0,
            r.low() == usize::MAX,
            r.high() == usize::MAX,
            hash_model::<K, S>() ==> r.wf(),
    {
        let r = Cache {
            low: usize::MAX,
            high: usize::MAX,
            clock: 0,
            map: HashMap::default(),
            mark: 0,
        };
        proof {
            r.lemma_view();
            assert(r.map@.dom() =~= Set::empty());
        }
        r
    }
}

impl<K: Eq + Hash, V, S: BuildHasher> Cache<K, V, S> {
    /// Whether `key` has a record; no touch.
    pub fn contains_key(&self, key: &K) -> (r: bool)
        requires
            self.wf(),
        ensures
            r == self.entries().contains_key(*key),
    {
        proof {
            self.lemma_view();
        }
        self.map.contains_key(key)
    }

    /// The value stored under `key`, if any; a hit stamps the record with the
    /// current clock reading. Stamping writes the record, so the cache is
    /// borrowed mutably.
    pub fn get(&mut self, key: &K) -> (r: Option<&V>)
        requires
            old(self).wf(),
        ensures
            final(self).wf(),
            final(self).same_settings(old(self)),
            final(self).entries() == old(self).entries(),
            match r {
                Some(v) => {
                    &&& old(self).entries().contains_key(*key)
                    &&& *v == old(self).entries()[*key]
                    &&& final(self).stamps() == old(self).stamps().insert(*key, old(self).clock())
                    &&& final(self).clock() == next_tick(old(self).clock())
                    &&& old(self).clock() < u64::MAX ==> newest(final(self).stamps(), *key)
                },
                None => {
                    &&& !old(self).entries().contains_key(*key)
                    &&& final(self).stamps() == old(self).stamps()
                    &&& final(self).clock() == old(self).clock()
                },
            },
    {
        proof {
            self.lemma_view();
        }
        if !self.map.contains_key(key) {
            proof {
                self.lemma_view();
            }
            return None;
        }
        let stamp = self.tick();
        match map_get_mut(&mut self.map, key) {
            Some(rec) => {
                rec.stamp = stamp;
            },
            None => {},
        }
        proof {
            self.lemma_view();
            old(self).lemma_view();
            assert(self.entries() =~= old(self).entries());
            assert(self.stamps() =~= old(self).stamps().insert(*key, stamp));
        }
        match self.map.get(key) {
            Some(rec) => Some(&rec.val),
            None => None,
        }
    }

    /// A mutable reference to the value stored under `key`, if any; a hit
    /// stamps the record with the current clock reading.
    pub fn get_mut(&mut self, key: &K) -> (r: Option<&mut V>)
        requires
            old(self).wf(),
        ensures
            final(self).wf(),
            final(self).same_settings(old(self)),
            match r {
                Some(v) => {
                    &&& old(self).entries().contains_key(*key)
                    &&& *v == old(self).entries()[*key]
                    &&& final(self).entries() == old(self).entries().insert(*key, *final(v))
                    &&& final(self).stamps() == old(self).stamps().insert(*key, old(self).clock())
                    &&& final(self).clock() == next_tick(old(self).clock())
                    &&& old(self).clock() < u64::MAX ==> newest(final(self).stamps(), *key)
                },
                None => {
                    &&& !old(self).entries().contains_key(*key)
                    &&& final(self).entries() == old(self).entries()
                    &&& final(self).stamps() == old(self).stamps()
                    &&& final(self).clock() == old(self).clock()
                },
            },
    {
        proof {
            self.lemma_view();
        }
        if !self.map.contains_key(key) {
            return None;
        }
        let stamp = self.tick();
        proof {
            lemma_insert_views(self.map@, *key, stamp);
        }
        match map_get_mut(&mut self.map, key) {
            Some(rec) => {
                rec.stamp = stamp;
                Some(&mut rec.val)
            },
            None => None,
        }
    }

    /// Removes the record of `key`, handing back its value.
    pub fn remove(&mut self, key: &K) -> (r: Option<V>)
        requires
            old(self).wf(),
        ensures
            final(self).wf(),
            final(self).same_settings(old(self)),
            final(self).clock() == old(self).clock(),
            final(self).entries() == old(self).entries().remove(*key),
            final(self).stamps() == old(self).stamps().remove(*key),
            r == if old(self).entries().contains_key(*key) {
                Some(old(self).entries()[*key])
            } else {
                None
            },
    {
        proof {
            self.lemma_view();
        }
        let r = self.map.remove(key);
        proof {
            self.lemma_view();
            assert(self.entries() =~= old(self).entries().remove(*key));
            assert(self.stamps() =~= old(self).stamps().remove(*key));
            assert(self.map@.dom().subset_of(old(self).map@.dom()));
            vstd::set_lib::lemma_len_subset(self.map@.dom(), old(self).map@.dom());
        }
        match r {
            Some(rec) => Some(rec.val),
            None => None,
        }
    }

    /// Keeps the records for which `keep` answers `true`, and drops the others.
    pub fn retain<F: Fn(&K, &V) -> bool>(&mut self, keep: F)
        requires
            old(self).wf(),
            forall|k: K, v: V| keep.requires((&k, &v)),
        ensures
            final(self).wf(),
            final(self).same_settings(old(self)),
            final(self).clock() == old(self).clock(),
            final(self).entries().dom().subset_of(old(self).entries().dom()),
            forall|k: K| #[trigger]
                final(self).entries().contains_key(k) ==> {
                    &&& final(self).entries()[k] == old(self).entries()[k]
                    &&& final(self).stamps()[k] == old(self).stamps()[k]
                    &&& keep.ensures((&k, &old(self).entries()[k]), true)
                },
            forall|k: K| #[trigger]
                old(self).entries().contains_key(k) && !final(self).entries().contains_key(k)
                    ==> keep.ensures((&k, &old(self).entries()[k]), false),
    {
        proof {
            self.lemma_view();
        }
        let keep = &keep;
        let on_rec = |k: &K, r: &Rec<V>| -> (b: bool)
            requires
                keep.requires((k, &r.val)),
            ensures
                keep.ensures((k, &r.val), b),
            { keep(k, &r.val) };
        map_retain(&mut self.map, on_rec);
        proof {
            self.lemma_view();
            vstd::set_lib::lemma_len_subset(self.map@.dom(), old(self).map@.dom());
        }
    }

    /// Drops the records that were not touched since the previous sweep and
    /// for which `cond` answers `true`; the next sweep measures from now.
    pub fn remove_untouched_if<F: Fn(&K, &V) -> bool>(&mut self, cond: F)
        requires
            old(self).wf(),
            forall|k: K, v: V| cond.requires((&k, &v)),
        ensures
            final(self).wf(),
            final(self).low() == old(self).low(),
            final(self).high() == old(self).high(),
            final(self).mark() == old(self).clock(),
            old(self).clock() < u64::MAX ==> forall|k: K| #[trigger]
                final(self).stamps().contains_key(k) ==> final(self).stamps()[k] < final(self).mark(),
            final(self).clock() == old(self).clock(),
            final(self).entries().dom().subset_of(old(self).entries().dom()),
            forall|k: K| #[trigger]
                final(self).entries().contains_key(k) ==> {
                    &&& final(self).entries()[k] == old(self).entries()[k]
                    &&& final(self).stamps()[k] == old(self).stamps()[k]
                    &&& old(self).stamps()[k] >= old(self).mark() || cond.ensures(
                        (&k, &old(self).entries()[k]),
                        false,
                    )
                },
            forall|k: K| #[trigger]
                old(self).entries().contains_key(k) && !final(self).entries().contains_key(k) ==> {
                    &&& old(self).stamps()[k] < old(self).mark()
                    &&& cond.ensures((&k, &old(self).entries()[k]), true)
                },
    {
        proof {
            self.lemma_view();
        }
        let mark = self.mark;
        let cond = &cond;
        let on_rec = |k: &K, r: &Rec<V>| -> (b: bool)
            requires
                cond.requires((k, &r.val)),
            ensures
                b ==> r.stamp >= mark || cond.ensures((k, &r.val), false),
                !b ==> r.stamp < mark && cond.ensures((k, &r.val), true),
            { r.stamp >= mark || !cond(k, &r.val) };
        map_retain(&mut self.map, on_rec);
        self.mark = self.clock;
        proof {
            self.lemma_view();
            vstd::set_lib::lemma_len_subset(self.map@.dom(), old(self).map@.dom());
        }
    }

    /// Drops every record not touched since the previous sweep; the next
    /// sweep measures from now.
    pub fn remove_untouched(&mut self)
        requires
            old(self).wf(),
        ensures
            final(self).wf(),
            final(self).low() == old(self).low(),
            final(self).high() == old(self).high(),
            final(self).mark() == old(self).clock(),
            old(self).clock() < u64::MAX ==> forall|k: K| #[trigger]
                final(self).stamps().contains_key(k) ==> final(self).stamps()[k] < final(self).mark(),
            final(self).clock() == old(self).clock(),
            forall|k: K| #[trigger]
                final(self).entries().contains_key(k) <==> old(self).entries().contains_key(k)
                    && old(self).stamps()[k] >= old(self).mark(),
            forall|k: K| #[trigger]
                final(self).entries().contains_key(k) ==> final(self).entries()[k] == old(
                    self,
                ).entries()[k] && final(self).stamps()[k] == old(self).stamps()[k],
    {
        let always = |k: &K, v: &V| -> (b: bool)
            ensures
                b,
            { true };
        self.remove_untouched_if(always);
        proof {
            old(self).lemma_same_keys();
        }
    }

    /// Releases spare room of the underlying table; the records stay.
    pub fn shrink_to_fit(&mut self)
        requires
            old(self).wf(),
        ensures
            final(self).wf(),
            final(self).same_settings(old(self)),
            final(self).clock() == old(self).clock(),
            final(self).entries() == old(self).entries(),
            final(self).stamps() == old(self).stamps(),
    {
        map_shrink_to_fit(&mut self.map);
    }

    /// Each key with the stamp of its record, every key once.
    fn snapshot(&self) -> (s: Vec<(K, u64)>)
        where
            K: Clone,
        requires
            self.wf_map(),
            clones_equal::<K>(),
        ensures
            s@.len() == self.map@.len(),
            forall|i: int|
                0 <= i < s@.len() ==> self.map@.contains_key(#[trigger] s@[i].0) && s@[i].1
                    == self.map@[s@[i].0].stamp,
            forall|k: K| #[trigger]
                self.map@.contains_key(k) ==> s@.contains((k, self.map@[k].stamp)),
            forall|i: int, j: int|
                0 <= i < s@.len() && 0 <= j < s@.len() && i != j ==> #[trigger] s@[i].0
                    != #[trigger] s@[j].0,
    {
        broadcast use vstd::std_specs::hash::axiom_spec_hash_map_iter;

        let mut out: Vec<(K, u64)> = Vec::new();
        let iter = self.map.iter();
        let ghost all = iter.remaining();
        proof {
            assert(all == spec_hash_map_iter(&self.map).remaining());
        }
        for kv in it: iter
            invariant
                it.seq() == all,
                all == spec_hash_map_iter(&self.map).remaining(),
                clones_equal::<K>(),
                out@.len() == it.index(),
                forall|i: int|
                    0 <= i < it.index() ==> #[trigger] out@[i] == (*all[i].0, all[i].1.stamp),
        {
            let (k, r) = kv;
            let kc = k.clone();
            proof {
                assert(cloned(*k, kc));
            }
            out.push((kc, r.stamp));
        }
        proof {
            assert forall|k: K| #[trigger] self.map@.contains_key(k) implies out@.contains(
                (k, self.map@[k].stamp),
            ) by {
                assert(all.contains((&k, &self.map@[k])));
                let i = choose|i: int| 0 <= i < all.len() && all[i] == (&k, &self.map@[k]);
                assert(out@[i] == (k, self.map@[k].stamp));
            }
            assert forall|i: int, j: int|
                0 <= i < out@.len() && 0 <= j < out@.len() && i != j implies #[trigger] out@[i].0
                != #[trigger] out@[j].0 by {
                if out@[i].0 == out@[j].0 {
                    assert(self.map@[*all[i].0] == *all[i].1);
                    assert(all[i] == all[j]);
                }
            }
        }
        out
    }

    /// Drops the `remove_count` least recently used records, whatever the
    /// capacity.
    fn evict_lru(&mut self, remove_count: usize)
        where
            K: Clone,
        requires
            old(self).wf_map(),
            clones_equal::<K>(),
        ensures
            final(self).wf_map(),
            final(self).same_settings(old(self)),
            final(self).clock() == old(self).clock(),
            drops_oldest(
                old(self).stamps(),
                final(self).entries().dom(),
                selection_len(remove_count as nat, old(self).entries().len()),
            ),
            final(self).entries() == old(self).entries().restrict(final(self).entries().dom()),
            final(self).stamps() == old(self).stamps().restrict(final(self).entries().dom()),
    {
        proof {
            self.lemma_view();
        }
        let snap = self.snapshot();
        let ghost snap_view = snap@;
        let ghost before = self.map@;
        let len = self.map.len();
        let count = if remove_count < len { remove_count } else { len };
        let page = find_lru_item_to_remove(snap, count);
        proof {
            lemma_page_keys(snap_view, page@, stamps_of(before));
        }
        let mut i: usize = 0;
        while i < page.len()
            invariant
                0 <= i <= page@.len(),
                hash_model::<K, S>(),
                self.low == old(self).low,
                self.high == old(self).high,
                self.mark == old(self).mark,
                self.clock == old(self).clock,
                before == old(self).map@,
                before.dom().finite(),
                self.map@.dom().finite(),
                forall|j: int| 0 <= j < page@.len() ==> before.contains_key(#[trigger] page@[j].0),
                forall|a: int, b: int|
                    0 <= a < page@.len() && 0 <= b < page@.len() && a != b ==> #[trigger] page@[a].0
                        != #[trigger] page@[b].0,
                self.map@.dom().subset_of(before.dom()),
                self.map@.len() + i == before.len(),
                forall|k: K| #[trigger]
                    self.map@.contains_key(k) ==> self.map@[k] == before[k],
                forall|k: K| #[trigger]
                    before.contains_key(k) ==> (self.map@.contains_key(k) <==> forall|j: int|
                        0 <= j < i ==> page@[j].0 != k),
            decreases page@.len() - i,
        {
            let ghost prev = self.map@;
            self.map.remove(&page[i].0);
            proof {
                assert(prev.contains_key(page@[i as int].0));
                assert(self.map@.dom() =~= prev.dom().remove(page@[i as int].0));
            }
            i += 1;
        }
        proof {
            self.lemma_view();
            old(self).lemma_view();
            let kept = self.map@.dom();
            assert forall|k: K, j: K|
                before.contains_key(k) && !kept.contains(k) && kept.contains(j) implies #[trigger] stamps_of(before)[k]
                <= #[trigger] stamps_of(before)[j] by {
                let x = choose|x: int| 0 <= x < page@.len() && page@[x].0 == k;
                let p = (j, before[j].stamp);
                assert(snap_view.contains(p));
                vstd::seq_lib::to_multiset_contains(snap_view, p);
                vstd::seq_lib::to_multiset_contains(page@, p);
                if page@.contains(p) {
                    let y = choose|y: int| 0 <= y < page@.len() && page@[y] == p;
                    assert(page@[y].0 == j);
                }
                assert(page@[x].1 <= p.1);
            }
            assert(self.entries() =~= old(self).entries().restrict(kept));
            assert(self.stamps() =~= old(self).stamps().restrict(kept));
        }
    }

    /// Drops the `remove_count` least recently used records (all of them
    /// when there are fewer).
    pub fn remove_lru(&mut self, remove_count: usize)
        where
            K: Clone,
        requires
            old(self).wf(),
            clones_equal::<K>(),
        ensures
            final(self).wf(),
            final(self).same_settings(old(self)),
            final(self).clock() == old(self).clock(),
            drops_oldest(
                old(self).stamps(),
                final(self).entries().dom(),
                selection_len(remove_count as nat, old(self).entries().len()),
            ),
            old(self).clock() < u64::MAX ==> dropped_strictly_older(
                old(self).stamps(),
                final(self).entries().dom(),
            ),
            final(self).entries() == old(self).entries().restrict(final(self).entries().dom()),
            final(self).stamps() == old(self).stamps().restrict(final(self).entries().dom()),
    {
        self.evict_lru(remove_count);
        proof {
            self.lemma_view();
            old(self).lemma_view();
        }
    }

    /// Brings the cache back under its capacity: at or above `high` records,
    /// drops the least recently used ones down to `low`, and at least one.
    fn fit_capacity(&mut self)
        where
            K: Clone,
        requires
            old(self).wf_map(),
            clones_equal::<K>(),
        ensures
            final(self).wf(),
            final(self).same_settings(old(self)),
            final(self).clock() == old(self).clock(),
            drops_oldest(
                old(self).stamps(),
                final(self).entries().dom(),
                eviction_count(old(self).entries().len(), old(self).low(), old(self).high()),
            ),
            final(self).entries() == old(self).entries().restrict(final(self).entries().dom()),
            final(self).stamps() == old(self).stamps().restrict(final(self).entries().dom()),
    {
        proof {
            self.lemma_view();
        }
        let len = self.map.len();
        if len >= self.high {
            let want = if len > self.low { len - self.low } else { 0 };
            let count = if want > 1 { want } else { 1 };
            self.evict_lru(count);
            proof {
                self.lemma_view();
                old(self).lemma_view();
            }
        } else {
            proof {
                assert(self.entries() =~= old(self).entries().restrict(self.entries().dom()));
                assert(self.stamps() =~= old(self).stamps().restrict(self.entries().dom()));
            }
        }
    }

    /// Makes room for one more record, the step `insert` takes before a new
    /// key: at or above `high` records, drops the least recently used ones
    /// down to `low`, and at least one. Under an ordered capacity range a new
    /// key then goes in without dropping anything.
    pub fn optimize_capacity(&mut self)
        where
            K: Clone,
        requires
            old(self).wf(),
            clones_equal::<K>(),
        ensures
            final(self).wf(),
            final(self).same_settings(old(self)),
            final(self).clock() == old(self).clock(),
            drops_oldest(
                old(self).stamps(),
                final(self).entries().dom(),
                eviction_count(old(self).entries().len(), old(self).low(), old(self).high()),
            ),
            old(self).clock() < u64::MAX ==> dropped_strictly_older(
                old(self).stamps(),
                final(self).entries().dom(),
            ),
            final(self).entries() == old(self).entries().restrict(final(self).entries().dom()),
            final(self).stamps() == old(self).stamps().restrict(final(self).entries().dom()),
            old(self).low() <= old(self).high() ==> eviction_count(
                final(self).entries().len(),
                old(self).low(),
                old(self).high(),
            ) == 0,
    {
        proof {
            self.lemma_view();
        }
        self.fit_capacity();
        proof {
            self.lemma_view();
            old(self).lemma_view();
        }
    }

    /// Stores `val` under `key` and stamps the record, handing back the value
    /// it replaces. A new key first brings the cache under its capacity.
    pub fn insert(&mut self, key: K, val: V) -> (r: Option<V>)
        where
            K: Clone,
        requires
            old(self).wf(),
            clones_equal::<K>(),
        ensures
            final(self).wf(),
            final(self).same_settings(old(self)),
            final(self).clock() == next_tick(old(self).clock()),
            final(self).bounded() ==> final(self).entries().len() <= final(self).high(),
            old(self).clock() < u64::MAX ==> newest(final(self).stamps(), key),
            old(self).entries().contains_key(key) ==> {
                &&& r == Some(old(self).entries()[key])
                &&& final(self).entries() == old(self).entries().insert(key, val)
                &&& final(self).stamps() == old(self).stamps().insert(key, old(self).clock())
            },
            !old(self).entries().contains_key(key) ==> {
                let kept = final(self).entries().dom().remove(key);
                &&& r is None
                &&& old(self).clock() < u64::MAX ==> dropped_strictly_older(old(self).stamps(), kept)
                &&& drops_oldest(
                    old(self).stamps(),
                    kept,
                    eviction_count(old(self).entries().len(), old(self).low(), old(self).high()),
                )
                &&& final(self).entries() == old(self).entries().restrict(kept).insert(key, val)
                &&& final(self).stamps() == old(self).stamps().restrict(kept).insert(
                    key,
                    old(self).clock(),
                )
            },
    {
        proof {
            self.lemma_view();
        }
        let stamp = self.tick();
        if self.map.contains_key(&key) {
            let ghost prev = self.map@;
            let old_rec = self.map.insert(key, Rec { stamp, val });
            proof {
                lemma_insert_views(prev, key, stamp);
                self.lemma_view();
                assert(self.map@.dom() =~= prev.dom());
            }
            match old_rec {
                Some(rec) => Some(rec.val),
                None => None,
            }
        } else {
            self.fit_capacity();
            let ghost mid = self.map@;
            proof {
                self.lemma_view();
            }
            self.map.insert(key, Rec { stamp, val });
            proof {
                lemma_insert_views(mid, key, stamp);
                self.lemma_view();
                assert(self.map@.dom().remove(key) =~= mid.dom());
            }
            None
        }
    }

    /// Sets the capacity to `capacity` and brings the cache under it.
    pub fn set_capacity(&mut self, capacity: RangeInclusive<usize>)
        where
            K: Clone,
        requires
            old(self).wf(),
            clones_equal::<K>(),
        ensures
            final(self).wf(),
            final(self).low() == capacity@.start,
            final(self).high() == capacity@.end,
            final(self).mark() == old(self).mark(),
            final(self).clock() == old(self).clock(),
            drops_oldest(
                old(self).stamps(),
                final(self).entries().dom(),
                eviction_count(old(self).entries().len(), capacity@.start as nat, capacity@.end as nat),
            ),
            old(self).clock() < u64::MAX ==> dropped_strictly_older(
                old(self).stamps(),
                final(self).entries().dom(),
            ),
            final(self).entries() == old(self).entries().restrict(final(self).entries().dom()),
            final(self).stamps() == old(self).stamps().restrict(final(self).entries().dom()),
    {
        proof {
            self.lemma_view();
        }
        let (low, high) = range_bounds(capacity);
        self.low = low;
        self.high = high;
        proof {
            self.lemma_view();
        }
        self.fit_capacity();
    }
}

/// One record seen through [`Cache::iter`]: its key and its value.
pub struct CacheItem<'a, K, V> {
    key: &'a K,
    value: &'a V,
}

impl<'a, K, V> CacheItem<'a, K, V> {
    /// The key and the value of the record.
    pub closed spec fn pair(&self) -> (K, V) {
        (*self.key, *self.value)
    }

    /// The key of the record.
    pub fn key(&self) -> (r: &'a K)
        ensures
            *r == self.pair().0,
    {
        self.key
    }

    /// The value of the record, without counting as a use.
    pub fn value(&self) -> (r: &'a V)
        ensures
            *r == self.pair().1,
    {
        self.value
    }
}

/// One value seen through [`Cache::values`].
pub struct CacheValue<'a, V> {
    value: &'a V,
}

impl<'a, V> CacheValue<'a, V> {
    /// The value seen.
    pub closed spec fn seen(&self) -> V {
        *self.value
    }

    /// The value, without counting as a use.
    pub fn value(&self) -> (r: &'a V)
        ensures
            *r == self.seen(),
    {
        self.value
    }
}

/// The records of a cache, each once, in the table's order.
pub struct Iter<'a, K, V> {
    items: Vec<(&'a K, &'a V)>,
    pos: usize,
}

impl<'a, K, V> Iter<'a, K, V> {
    /// The records not handed out yet.
    pub closed spec fn remaining(&self) -> Seq<(K, V)> {
        self.items@.subrange(self.pos as int, self.items@.len() as int).map_values(
            |p: (&'a K, &'a V)| (*p.0, *p.1),
        )
    }

    /// The internal invariant.
    pub closed spec fn wf(&self) -> bool {
        self.pos <= self.items@.len()
    }

    /// The next record, if any.
    pub fn next(&mut self) -> (r: Option<CacheItem<'a, K, V>>)
        requires
            old(self).wf(),
        ensures
            final(self).wf(),
            match r {
                Some(item) => {
                    &&& old(self).remaining().len() > 0
                    &&& item.pair() == old(self).remaining()[0]
                    &&& final(self).remaining() == old(self).remaining().drop_first()
                },
                None => {
                    &&& old(self).remaining().len() == 0
                    &&& final(self).remaining() == old(self).remaining()
                },
            },
    {
        if self.pos < self.items.len() {
            let (key, value) = self.items[self.pos];
            let ghost before = self.remaining();
            self.pos = self.pos + 1;
            proof {
                assert(self.remaining() =~= before.drop_first());
            }
            Some(CacheItem { key, value })
        } else {
            None
        }
    }
}

/// The values of a cache, one per record, in the table's order.
pub struct Values<'a, K, V> {
    items: Iter<'a, K, V>,
}

impl<'a, K, V> Values<'a, K, V> {
    /// The values not handed out yet.
    pub closed spec fn remaining(&self) -> Seq<V> {
        self.items.remaining().map_values(|p: (K, V)| p.1)
    }

    /// The internal invariant.
    pub closed spec fn wf(&self) -> bool {
        self.items.wf()
    }

    /// The next value, if any.
    pub fn next(&mut self) -> (r: Option<CacheValue<'a, V>>)
        requires
            old(self).wf(),
        ensures
            final(self).wf(),
            match r {
                Some(v) => {
                    &&& old(self).remaining().len() > 0
                    &&& v.seen() == old(self).remaining()[0]
                    &&& final(self).remaining() == old(self).remaining().drop_first()
                },
                None => {
                    &&& old(self).remaining().len() == 0
                    &&& final(self).remaining() == old(self).remaining()
                },
            },
    {
        match self.items.next() {
            Some(item) => {
                proof {
                    assert(self.remaining() =~= old(self).remaining().drop_first());
                }
                Some(CacheValue { value: item.value() })
            },
            None => None,
        }
    }
}

/// One record reached through [`Cache::iter_mut`]: its key, its value, and
/// the cache's clock to stamp it with.
pub struct CacheItemMut<'a, K, V> {
    key: &'a K,
    rec: &'a mut Rec<V>,
    clock: &'a mut u64,
}

impl<'a, K, V> CacheItemMut<'a, K, V> {
    /// The key of the record.
    pub closed spec fn key_of(&self) -> K {
        *self.key
    }

    /// The value of the record.
    pub closed spec fn value_of(&self) -> V {
        self.rec.val
    }

    /// The clock reading of the record's last use.
    pub closed spec fn stamp_of(&self) -> u64 {
        self.rec.stamp
    }

    /// The cache's clock.
    pub closed spec fn clock_of(&self) -> u64 {
        *self.clock
    }

    /// The key of the record.
    pub fn key(&self) -> (r: &'a K)
        ensures
            *r == self.key_of(),
    {
        self.key
    }

    /// The value of the record, without counting as a use.
    pub fn value(&mut self) -> (r: &mut V)
        ensures
            *r == old(self).value_of(),
            final(self).value_of() == *final(r),
            final(self).key_of() == old(self).key_of(),
            final(self).stamp_of() == old(self).stamp_of(),
            final(self).clock_of() == old(self).clock_of(),
    {
        &mut self.rec.val
    }

    /// The value of the record; stamps the record with the clock reading
    /// and moves the clock on.
    pub fn touch_value(&mut self) -> (r: &mut V)
        ensures
            *r == old(self).value_of(),
            final(self).value_of() == *final(r),
            final(self).key_of() == old(self).key_of(),
            final(self).stamp_of() == old(self).clock_of(),
            final(self).clock_of() == next_tick(old(self).clock_of()),
    {
        let now = *self.clock;
        if now < u64::MAX {
            *self.clock = now + 1;
        }
        self.rec.stamp = now;
        &mut self.rec.val
    }
}

/// The records of a cache, reached one at a time so that each can be written
/// or stamped.
#[verifier::reject_recursive_types(K)]
#[verifier::reject_recursive_types(S)]
pub struct IterMut<'a, K, V, S> {
    cache: &'a mut Cache<K, V, S>,
    keys: Vec<K>,
    pos: usize,
}

impl<'a, K, V, S> IterMut<'a, K, V, S> {
    /// The keys not reached yet.
    pub closed spec fn keys_left(&self) -> Seq<K> {
        self.keys@.subrange(self.pos as int, self.keys@.len() as int)
    }

    /// The cache as it stands now.
    pub closed spec fn target(&self) -> Cache<K, V, S> {
        *self.cache
    }

    /// The internal invariant.
    pub closed spec fn wf(&self) -> bool {
        &&& self.pos <= self.keys@.len()
        &&& hash_model::<K, S>()
    }
}

impl<'a, K: Eq + Hash, V, S: BuildHasher> IterMut<'a, K, V, S> {
    /// The record of the next key, if any is left and the key still has a
    /// record.
    pub fn next(&mut self) -> (r: Option<CacheItemMut<'_, K, V>>)
        requires
            old(self).wf(),
        ensures
            final(self).wf(),
            old(self).keys_left().len() == 0 ==> r is None,
            old(self).keys_left().len() > 0 ==> final(self).keys_left() == old(
                self,
            ).keys_left().drop_first(),
            match r {
                Some(item) => {
                    let k = old(self).keys_left()[0];
                    &&& item.key_of() == k
                    &&& old(self).target().entries().contains_key(k)
                    &&& item.value_of() == old(self).target().entries()[k]
                    &&& item.stamp_of() == old(self).target().stamps()[k]
                    &&& item.clock_of() == old(self).target().clock()
                },
                None => old(self).keys_left().len() > 0 ==> !old(
                    self,
                ).target().entries().contains_key(old(self).keys_left()[0]),
            },
    {
        if self.pos >= self.keys.len() {
            return None;
        }
        let i = self.pos;
        self.pos = self.pos + 1;
        proof {
            self.cache.lemma_view();
            assert(self.keys_left() =~= old(self).keys_left().drop_first());
        }
        let cache = &mut *self.cache;
        match map_get_mut(&mut cache.map, &self.keys[i]) {
            Some(rec) => Some(CacheItemMut { key: &self.keys[i], rec, clock: &mut cache.clock }),
            None => None,
        }
    }
}

/// One value reached through [`Cache::values_mut`], with the cache's clock to
/// stamp its record with.
pub struct CacheValueMut<'a, V> {
    rec: &'a mut Rec<V>,
    clock: &'a mut u64,
}

impl<'a, V> CacheValueMut<'a, V> {
    /// The value.
    pub closed spec fn value_of(&self) -> V {
        self.rec.val
    }

    /// The clock reading of the record's last use.
    pub closed spec fn stamp_of(&self) -> u64 {
        self.rec.stamp
    }

    /// The cache's clock.
    pub closed spec fn clock_of(&self) -> u64 {
        *self.clock
    }

    /// The value, without counting as a use.
    pub fn value(&mut self) -> (r: &mut V)
        ensures
            *r == old(self).value_of(),
            final(self).value_of() == *final(r),
            final(self).stamp_of() == old(self).stamp_of(),
            final(self).clock_of() == old(self).clock_of(),
    {
        &mut self.rec.val
    }

    /// The value; stamps its record with the clock reading and moves the
    /// clock on.
    pub fn touch_value(&mut self) -> (r: &mut V)
        ensures
            *r == old(self).value_of(),
            final(self).value_of() == *final(r),
            final(self).stamp_of() == old(self).clock_of(),
            final(self).clock_of() == next_tick(old(self).clock_of()),
    {
        let now = *self.clock;
        if now < u64::MAX {
            *self.clock = now + 1;
        }
        self.rec.stamp = now;
        &mut self.rec.val
    }
}

/// The values of a cache, reached one at a time so that each can be written
/// or its record stamped.
#[verifier::reject_recursive_types(K)]
#[verifier::reject_recursive_types(S)]
pub struct ValuesMut<'a, K, V, S> {
    items: IterMut<'a, K, V, S>,
}

impl<'a, K, V, S> ValuesMut<'a, K, V, S> {
    /// The keys whose values are not reached yet.
    pub closed spec fn keys_left(&self) -> Seq<K> {
        self.items.keys_left()
    }

    /// The cache as it stands now.
    pub closed spec fn target(&self) -> Cache<K, V, S> {
        self.items.target()
    }

    /// The internal invariant.
    pub closed spec fn wf(&self) -> bool {
        self.items.wf()
    }
}

impl<'a, K: Eq + Hash, V, S: BuildHasher> ValuesMut<'a, K, V, S> {
    /// The value of the next key, if any is left and the key still has a
    /// record.
    pub fn next(&mut self) -> (r: Option<CacheValueMut<'_, V>>)
        requires
            old(self).wf(),
        ensures
            final(self).wf(),
            old(self).keys_left().len() == 0 ==> r is None,
            old(self).keys_left().len() > 0 ==> final(self).keys_left() == old(
                self,
            ).keys_left().drop_first(),
            match r {
                Some(v) => {
                    let k = old(self).keys_left()[0];
                    &&& old(self).target().entries().contains_key(k)
                    &&& v.value_of() == old(self).target().entries()[k]
                    &&& v.stamp_of() == old(self).target().stamps()[k]
                    &&& v.clock_of() == old(self).target().clock()
                },
                None => old(self).keys_left().len() > 0 ==> !old(
                    self,
                ).target().entries().contains_key(old(self).keys_left()[0]),
            },
    {
        match self.items.next() {
            Some(item) => Some(CacheValueMut { rec: item.rec, clock: item.clock }),
            None => None,
        }
    }
}

/// Every record of `m` stands once in `s`, and nothing else does.
pub open spec fn lists_records<K, V>(m: Map<K, V>, s: Seq<(K, V)>) -> bool {
    &&& s.len() == m.len()
    &&& forall|i: int|
        0 <= i < s.len() ==> m.contains_key(#[trigger] s[i].0) && m[s[i].0] == s[i].1
    &&& forall|k: K| #[trigger] m.contains_key(k) ==> s.contains((k, m[k]))
    &&& forall|i: int, j: int|
        0 <= i < s.len() && 0 <= j < s.len() && i != j ==> #[trigger] s[i].0 != #[trigger] s[j].0
}

impl<K: Eq + Hash, V, S: BuildHasher> Cache<K, V, S> {
    /// The records, each once; seeing them does not count as a use.
    pub fn iter(&self) -> (r: Iter<'_, K, V>)
        requires
            self.wf(),
        ensures
            r.wf(),
            lists_records(self.entries(), r.remaining()),
    {
        broadcast use vstd::std_specs::hash::axiom_spec_hash_map_iter;

        proof {
            self.lemma_view();
        }
        let mut items: Vec<(&K, &V)> = Vec::new();
        let iter = self.map.iter();
        let ghost all = iter.remaining();
        proof {
            assert(all == spec_hash_map_iter(&self.map).remaining());
        }
        for kv in it: iter
            invariant
                it.seq() == all,
                all == spec_hash_map_iter(&self.map).remaining(),
                items@.len() == it.index(),
                forall|i: int|
                    0 <= i < it.index() ==> #[trigger] items@[i] == (all[i].0, &all[i].1.val),
        {
            let (k, r) = kv;
            items.push((k, &r.val));
        }
        let out = Iter { items, pos: 0 };
        proof {
            let s = out.remaining();
            assert(out.items@.subrange(0, out.items@.len() as int) =~= out.items@);
            assert forall|k: K| #[trigger] self.entries().contains_key(k) implies s.contains(
                (k, self.entries()[k]),
            ) by {
                assert(all.contains((&k, &self.map@[k])));
                let i = choose|i: int| 0 <= i < all.len() && all[i] == (&k, &self.map@[k]);
                assert(s[i] == (k, self.entries()[k]));
            }
            assert forall|i: int, j: int|
                0 <= i < s.len() && 0 <= j < s.len() && i != j implies #[trigger] s[i].0
                != #[trigger] s[j].0 by {
                if s[i].0 == s[j].0 {
                    assert(self.map@[*all[i].0] == *all[i].1);
                    assert(all[i] == all[j]);
                }
            }
        }
        out
    }

    /// The records, each reached once, so that each can be written or stamped.
    pub fn iter_mut(&mut self) -> (r: IterMut<'_, K, V, S>)
        where
            K: Clone,
        requires
            old(self).wf(),
            clones_equal::<K>(),
        ensures
            r.wf(),
            r.target() == *old(self),
            r.keys_left().to_set() == old(self).entries().dom(),
            r.keys_left().no_duplicates(),
    {
        proof {
            self.lemma_view();
        }
        let snap = self.snapshot();
        let mut keys: Vec<K> = Vec::new();
        for p in it: snap.into_iter()
            invariant
                it.seq() == snap@,
                keys@.len() == it.index(),
                forall|i: int| 0 <= i < it.index() ==> #[trigger] keys@[i] == snap@[i].0,
        {
            keys.push(p.0);
        }
        let r = IterMut { cache: self, keys, pos: 0 };
        proof {
            assert(r.keys_left() =~= keys@);
            assert forall|k: K| #[trigger] r.keys_left().to_set().contains(k) <==> old(self).entries().dom().contains(k) by {
                if old(self).entries().dom().contains(k) {
                    assert(snap@.contains((k, old(self).map@[k].stamp)));
                    let i = choose|i: int| 0 <= i < snap@.len() && snap@[i] == (k, old(self).map@[k].stamp);
                    assert(keys@[i] == k);
                }
                if r.keys_left().to_set().contains(k) {
                    let i = choose|i: int| 0 <= i < keys@.len() && keys@[i] == k;
                    assert(snap@[i].0 == k);
                }
            }
            assert(r.keys_left().to_set() =~= old(self).entries().dom());
        }
        r
    }

    /// The values, each reached once, so that each can be written or its
    /// record stamped.
    pub fn values_mut(&mut self) -> (r: ValuesMut<'_, K, V, S>)
        where
            K: Clone,
        requires
            old(self).wf(),
            clones_equal::<K>(),
        ensures
            r.wf(),
            r.target() == *old(self),
            r.keys_left().to_set() == old(self).entries().dom(),
            r.keys_left().no_duplicates(),
    {
        ValuesMut { items: self.iter_mut() }
    }

    /// The values, one per record; seeing them does not count as a use.
    pub fn values(&self) -> (r: Values<'_, K, V>)
        requires
            self.wf(),
        ensures
            r.wf(),
            exists|s: Seq<(K, V)>|
                lists_records(self.entries(), s) && r.remaining() == s.map_values(
                    |p: (K, V)| p.1,
                ),
    {
        let items = self.iter();
        let out = Values { items };
        proof {
            assert(lists_records(self.entries(), items.remaining()));
        }
        out
    }
}

/// Pairs picked out of `snap` carry keys of `stamps` with their stamps, and no
/// key twice.
proof fn lemma_page_keys<K>(snap: Seq<(K, u64)>, page: Seq<(K, u64)>, stamps: Map<K, u64>)
    requires
        forall|i: int|
            0 <= i < snap.len() ==> stamps.contains_key(#[trigger] snap[i].0) && snap[i].1
                == stamps[snap[i].0],
        forall|i: int, j: int|
            0 <= i < snap.len() && 0 <= j < snap.len() && i != j ==> #[trigger] snap[i].0
                != #[trigger] snap[j].0,
        page.to_multiset().subset_of(snap.to_multiset()),
    ensures
        forall|j: int|
            0 <= j < page.len() ==> stamps.contains_key(#[trigger] page[j].0) && page[j].1
                == stamps[page[j].0],
        forall|a: int, b: int|
            0 <= a < page.len() && 0 <= b < page.len() && a != b ==> #[trigger] page[a].0
                != #[trigger] page[b].0,
{
    broadcast use vstd::multiset::group_multiset_axioms;

    assert(snap.no_duplicates()) by {
        assert forall|i: int, j: int|
            0 <= i < snap.len() && 0 <= j < snap.len() && i != j implies snap[i] != snap[j] by {
            assert(snap[i].0 != snap[j].0);
        }
    }
    snap.lemma_multiset_has_no_duplicates();
    assert forall|j: int| 0 <= j < page.len() implies stamps.contains_key(#[trigger] page[j].0)
        && page[j].1 == stamps[page[j].0] by {
        vstd::seq_lib::to_multiset_contains(page, page[j]);
        vstd::seq_lib::to_multiset_contains(snap, page[j]);
        let i = choose|i: int| 0 <= i < snap.len() && snap[i] == page[j];
        assert(stamps.contains_key(snap[i].0));
    }
    assert forall|x: (K, u64)| page.to_multiset().contains(x) implies page.to_multiset().count(x)
        == 1 by {
        assert(snap.to_multiset().contains(x));
    }
    page.lemma_multiset_has_no_duplicates_conv();
    assert forall|a: int, b: int|
        0 <= a < page.len() && 0 <= b < page.len() && a != b implies #[trigger] page[a].0
        != #[trigger] page[b].0 by {
        if page[a].0 == page[b].0 {
            assert(page[a] == page[b]);
        }
    }
}

/// The values of a map of records.
spec fn vals_of<K, V>(m: Map<K, Rec<V>>) -> Map<K, V> {
    m.map_values(|r: Rec<V>| r.val)
}

/// The stamps of a map of records.
spec fn stamps_of<K, V>(m: Map<K, Rec<V>>) -> Map<K, u64> {
    m.map_values(|r: Rec<V>| r.stamp)
}

/// Writing one record changes both views at that key only.
proof fn lemma_insert_views<K, V>(m: Map<K, Rec<V>>, k: K, stamp: u64)
    ensures
        forall|val: V| #[trigger]
            vals_of(m.insert(k, Rec { stamp, val })) == vals_of(m).insert(k, val),
        forall|val: V| #[trigger]
            stamps_of(m.insert(k, Rec { stamp, val })) == stamps_of(m).insert(k, stamp),
{
    assert forall|val: V| #[trigger]
        vals_of(m.insert(k, Rec { stamp, val })) == vals_of(m).insert(k, val) by {
        assert(vals_of(m.insert(k, Rec { stamp, val })) =~= vals_of(m).insert(k, val));
    }
    assert forall|val: V| #[trigger]
        stamps_of(m.insert(k, Rec { stamp, val })) == stamps_of(m).insert(k, stamp) by {
        assert(stamps_of(m.insert(k, Rec { stamp, val })) =~= stamps_of(m).insert(k, stamp));
    }
}

} // verus!
