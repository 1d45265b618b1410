//! A set of shared values that hands out one handle per distinct value.

use crate::cache::clones_equal;
use crate::stdx::{
    arc_set_model, holders, pointees, set_get, set_handles, set_insert, set_remove,
    set_shrink_to_fit,
    set_with_capacity_and_hasher, set_with_hasher, share,
};
use std::borrow::Cow;
use std::collections::hash_map::RandomState;
use std::collections::HashSet;
use std::hash::{BuildHasher, Hash};
use std::sync::Arc;
use vstd::prelude::*;

verus! {

/// The value a copy-on-write argument stands for.
pub open spec fn cow_value<T: Clone>(v: Cow<'_, T>) -> T {
    match v {
        Cow::Borrowed(b) => *b,
        Cow::Owned(o) => o,
    }
}

/// Interning `v` into the handles `before` gives the handles `after` and
/// hands out `r`: a value already present is shared and nothing is added;
/// otherwise a copy of `v` is added.
pub open spec fn interns<T: Clone>(before: Set<Arc<T>>, v: T, after: Set<Arc<T>>, r: Arc<T>) -> bool {
    &&& after.contains(r)
    &&& pointees(before).contains(v) ==> after == before && *r == v
    &&& !pointees(before).contains(v) ==> after == before.insert(r) && cloned(v, *r)
}

/// Interning two equal values one after the other hands out handles to the
/// same value and adds nothing the second time, when a copy of a value
/// equals it.
pub proof fn lemma_interning_identity<T: Clone>(
    s0: Set<Arc<T>>,
    v1: T,
    s1: Set<Arc<T>>,
    r1: Arc<T>,
    v2: T,
    s2: Set<Arc<T>>,
    r2: Arc<T>,
)
    requires
        clones_equal::<T>(),
        interns(s0, v1, s1, r1),
        interns(s1, v2, s2, r2),
        v1 == v2,
    ensures
        s2 == s1,
        r2 == r1,
{
    assert(*r1 == v1);
    assert(pointees(s1).contains(*r1));
}

/// Interns values: equal values share one stored handle.
#[verifier::reject_recursive_types(T)]
#[verifier::reject_recursive_types(S)]
pub struct ArcHashSet<T, S = RandomState>(HashSet<Arc<T>, S>);

impl<T, S> View for ArcHashSet<T, S> {
    type V = Set<Arc<T>>;

    /// The stored handles.
    closed spec fn view(&self) -> Set<Arc<T>> {
        self.0@
    }
}

impl<T> ArcHashSet<T, RandomState> {
    /// Makes an empty set.
    pub fn new() -> (r: Self)
        ensures
            r@ == Set::<Arc<T>>::empty(),
    {
        ArcHashSet(HashSet::new())
    }

    /// Makes an empty set with room for `capacity` values.
    pub fn with_capacity(capacity: usize) -> (r: Self)
        ensures
            r@ == Set::<Arc<T>>::empty(),
    {
        ArcHashSet(HashSet::with_capacity(capacity))
    }
}

impl<T, S: Default> Default for ArcHashSet<T, S> {
    /// An empty set.
    fn default() -> (r: Self)
        ensures
            r@ == Set::<Arc<T>>::empty(),
    {
        ArcHashSet(HashSet::default())
    }
}

/// The reference a copy-on-write argument holds or borrows.
fn cow_ref<'b, T: Clone>(v: &'b Cow<'_, T>) -> (r: &'b T)
    ensures
        *r == cow_value(*v),
{
    match v {
        Cow::Borrowed(b) => b,
        Cow::Owned(o) => o,
    }
}

/// Whether a stored value with `holders` live handles is held by nothing
/// but the set, whose own handle is one of them.
pub fn is_unreferenced(holders: usize) -> (r: bool)
    ensures
        r == (holders == 1),
{
    holders == 1
}

/// Some of the first `n` entries of `counted` lists `a` with one live
/// handle.
pub open spec fn sole_held<T>(counted: Seq<(Arc<T>, usize)>, n: int, a: Arc<T>) -> bool {
    exists|i: int| 0 <= i < n && counted[i].0 == a && counted[i].1 == 1
}

impl<T: Eq + Hash, S: BuildHasher> ArcHashSet<T, S> {
    /// Makes an empty set with room for `capacity` values that uses `hash_builder`.
    pub fn with_capacity_and_hasher(capacity: usize, hash_builder: S) -> (r: Self)
        ensures
            r@ == Set::<Arc<T>>::empty(),
    {
        ArcHashSet(set_with_capacity_and_hasher(capacity, hash_builder))
    }

    /// Makes an empty set that uses `hash_builder`.
    pub fn with_hasher(hash_builder: S) -> (r: Self)
        ensures
            r@ == Set::<Arc<T>>::empty(),
    {
        ArcHashSet(set_with_hasher(hash_builder))
    }

    /// The stored handle of the value equal to `v`, if any.
    pub fn get(&self, v: &T) -> (r: Option<&Arc<T>>)
        ensures
            arc_set_model::<T, S>() ==> match r {
                Some(a) => self@.contains(*a) && **a == *v,
                None => !pointees(self@).contains(*v),
            },
    {
        set_get(&self.0, v)
    }

    /// A handle to the stored value equal to `v`; when there is none, a
    /// handle to an owned copy of `v` is stored first.
    pub fn get_or_init(&mut self, v: Cow<'_, T>) -> (r: Arc<T>)
        where
            T: Clone,
        ensures
            arc_set_model::<T, S>() ==> interns(old(self)@, cow_value(v), final(self)@, r),
            arc_set_model::<T, S>() && clones_equal::<T>() ==> *r == cow_value(v),
    {
        match set_get(&self.0, cow_ref(&v)) {
            Some(stored) => {
                return share(stored);
            },
            None => {},
        }
        let owned: T = match v {
            Cow::Borrowed(b) => {
                let c = b.clone();
                proof {
                    assert(cloned(*b, c));
                }
                c
            },
            Cow::Owned(o) => o,
        };
        let a = Arc::new(owned);
        let handle = share(&a);
        set_insert(&mut self.0, a);
        handle
    }

    /// Removes the value equal to `v`, if stored.
    pub fn remove(&mut self, v: &T)
        ensures
            arc_set_model::<T, S>() ==> final(self)@ == old(self)@.filter(|a: Arc<T>| *a != *v),
    {
        set_remove(&mut self.0, v);
    }

    /// Removes the value equal to `v` when `holders`, the number of live
    /// handles to it, says the set's own handle is the only one; otherwise
    /// leaves the set as it is.
    pub fn remove_if_sole_holder(&mut self, v: &T, holders: usize)
        ensures
            arc_set_model::<T, S>() && holders == 1 ==> final(self)@ == old(self)@.filter(
                |a: Arc<T>| *a != *v,
            ),
            holders != 1 ==> final(self)@ == old(self)@,
    {
        if is_unreferenced(holders) {
            set_remove(&mut self.0, v);
        }
    }

    /// Removes the value equal to `v` when no handle to it is held outside
    /// the set; otherwise leaves the set as it is.
    pub fn remove_if_unused(&mut self, v: &T)
        ensures
            arc_set_model::<T, S>() ==> final(self)@ == old(self)@ || final(self)@ == old(
                self,
            )@.filter(|a: Arc<T>| *a != *v),
            arc_set_model::<T, S>() && !pointees(old(self)@).contains(*v) ==> final(self)@ == old(
                self,
            )@,
    {
        let count = match set_get(&self.0, v) {
            Some(stored) => holders(stored),
            None => 0,
        };
        self.remove_if_sole_holder(v, count);
    }

    /// Removes every handle that `counted` lists with a count of one live
    /// handle, the set's own; the others stay.
    pub fn drop_sole_held(&mut self, counted: Vec<(Arc<T>, usize)>)
        ensures
            arc_set_model::<T, S>() ==> final(self)@ == old(self)@.filter(
                |a: Arc<T>| !sole_held(counted@, counted@.len() as int, a),
            ),
    {
        let mut i: usize = 0;
        while i < counted.len()
            invariant
                0 <= i <= counted@.len(),
                arc_set_model::<T, S>() ==> self.0@ == old(self)@.filter(
                    |a: Arc<T>| !sole_held(counted@, i as int, a),
                ),
            decreases counted@.len() - i,
        {
            let ghost cur = self.0@;
            self.remove_if_sole_holder(&*counted[i].0, counted[i].1);
            proof {
                if arc_set_model::<T, S>() {
                    assert(self.0@ =~= old(self)@.filter(
                        |a: Arc<T>| !sole_held(counted@, i + 1, a),
                    )) by {
                        assert forall|a: Arc<T>| #[trigger] sole_held(counted@, i + 1, a) <==> (
                            sole_held(counted@, i as int, a) || (counted@[i as int].0 == a
                                && counted@[i as int].1 == 1)) by {
                            if sole_held(counted@, i + 1, a) && !sole_held(counted@, i as int, a) {
                                let j = choose|j: int|
                                    0 <= j < i + 1 && counted@[j].0 == a && counted@[j].1 == 1;
                                assert(j == i);
                            }
                        }
                    }
                }
            }
            i += 1;
        }
    }

    /// Removes every value no handle to which is held outside the set.
    pub fn remove_unreferenced(&mut self)
        ensures
            arc_set_model::<T, S>() ==> final(self)@.subset_of(old(self)@),
    {
        let handles = set_handles(&self.0);
        let mut counted: Vec<(Arc<T>, usize)> = Vec::new();
        let mut i: usize = 0;
        while i < handles.len()
            decreases handles@.len() - i,
        {
            let n = holders(handles[i]);
            counted.push((share(handles[i]), n));
            i += 1;
        }
        self.drop_sole_held(counted);
    }

    /// Releases spare room of the underlying table; the values stay.
    pub fn shrink_to_fit(&mut self)
        ensures
            final(self)@ == old(self)@,
    {
        set_shrink_to_fit(&mut self.0);
    }
}

} // verus!
