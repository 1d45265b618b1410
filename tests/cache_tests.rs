use cache::{find_lru_item_to_remove, is_unreferenced, ArcHashSet, Cache, CacheDedup};
use std::borrow::Cow;
use std::collections::hash_map::RandomState;
use std::sync::Arc;

fn sorted_values(map: &Cache<i32, i32>) -> Vec<i32> {
    let mut out = Vec::new();
    let mut it = map.values();
    while let Some(v) = it.next() {
        out.push(*v.value());
    }
    out.sort_unstable();
    out
}

#[test]
fn it_works() {
    let mut map = Cache::with_capacity(2..=3);

    map.insert(0, 0);
    map.insert(1, 1);
    map.insert(2, 2);

    map.insert(3, 3);

    let actual = sorted_values(&map);

    assert_eq!(actual, vec![1, 2, 3]);
}

#[test]
fn oldest_key_is_evicted_first() {
    let mut map = Cache::with_capacity(2..=3);
    for k in 0..4 {
        map.insert(k, k);
    }
    assert!(!map.contains_key(&0));
    assert!(map.contains_key(&1));
    assert!(map.contains_key(&2));
    assert!(map.contains_key(&3));
    assert_eq!(map.len(), 3);
}

#[test]
fn touched_key_survives_eviction() {
    let mut map = Cache::with_capacity(2..=3);
    map.insert(0, 0);
    map.insert(1, 1);
    map.insert(2, 2);
    assert_eq!(map.get(&0), Some(&0));
    map.insert(3, 3);
    assert!(map.contains_key(&0));
    assert!(!map.contains_key(&1));
}

#[test]
fn len_never_exceeds_high() {
    let mut map = Cache::with_capacity(2..=5);
    for k in 0..100 {
        map.insert(k, k * 10);
        assert!(map.len() <= 5);
        if k % 3 == 0 {
            map.get(&(k / 2));
        }
    }
}

#[test]
fn equal_low_and_high_still_evicts() {
    let mut map = Cache::with_capacity(3..=3);
    for k in 0..10 {
        map.insert(k, k);
        assert!(map.len() <= 3);
    }
    assert_eq!(sorted_values(&map), vec![7, 8, 9]);
}

#[test]
fn batch_eviction_goes_down_to_low() {
    let mut map = Cache::with_capacity(1..=4);
    for k in 0..4 {
        map.insert(k, k);
    }
    assert_eq!(map.len(), 4);
    map.insert(4, 4);
    assert_eq!(map.len(), 2);
    assert_eq!(sorted_values(&map), vec![3, 4]);
}

#[test]
fn insert_and_get() {
    let mut cache = Cache::new();
    assert_eq!(cache.insert(0, 0), None);
    assert_eq!(cache.get(&0), Some(&0));
    assert_eq!(cache.get(&1), None);
    assert_eq!(cache.insert(0, 5), Some(0));
    assert_eq!(cache.get(&0), Some(&5));
    assert_eq!(cache.len(), 1);
    assert!(!cache.is_empty());
}

#[test]
fn get_mut_writes_through() {
    let mut cache = Cache::new();
    cache.insert("a", 1);
    if let Some(v) = cache.get_mut(&"a") {
        *v = 7;
    }
    assert_eq!(cache.get(&"a"), Some(&7));
    assert!(cache.get_mut(&"b").is_none());
}

#[test]
fn remove_hands_back_value() {
    let mut cache = Cache::new();
    cache.insert(1, 10);
    assert_eq!(cache.remove(&1), Some(10));
    assert_eq!(cache.remove(&1), None);
    assert!(cache.is_empty());
}

#[test]
fn remove_untouched_sweeps_idle_records() {
    let mut cache = Cache::new();
    cache.insert(1, 1);
    cache.insert(2, 2);
    cache.remove_untouched();
    assert_eq!(cache.len(), 2);

    assert_eq!(cache.get(&1), Some(&1));

    cache.remove_untouched();
    assert_eq!(cache.get(&2), None);
    assert_eq!(cache.get(&1), Some(&1));
}

#[test]
fn remove_untouched_if_applies_condition() {
    let mut cache = Cache::new();
    cache.insert(1, 1);
    cache.insert(2, 2);
    cache.remove_untouched();

    cache.remove_untouched_if(|_k: &i32, v: &i32| *v > 1);
    assert_eq!(cache.get(&2), None);
    assert_eq!(cache.get(&1), Some(&1));
}

#[test]
fn retain_keeps_matching_records() {
    let mut cache = Cache::new();
    for k in 0..6 {
        cache.insert(k, k);
    }
    cache.retain(|_k: &i32, v: &i32| v % 2 == 0);
    assert_eq!(sorted_values(&cache), vec![0, 2, 4]);
}

#[test]
fn set_capacity_evicts_oldest() {
    let mut cache = Cache::new();
    cache.insert(0, 0);
    cache.insert(1, 1);
    cache.insert(2, 2);

    cache.set_capacity(1..=2);
    assert!(cache.get(&0).is_none());
    assert!(cache.get(&1).is_none());
    assert!(cache.get(&2).is_some());
}

#[test]
fn remove_lru_drops_oldest() {
    let mut cache = Cache::new();
    for k in 0..5 {
        cache.insert(k, k);
    }
    cache.get(&0);
    cache.remove_lru(2);
    assert_eq!(sorted_values(&cache), vec![0, 3, 4]);
    cache.remove_lru(10);
    assert!(cache.is_empty());
}

#[test]
fn hasher_constructors_start_empty() {
    let mut cache: Cache<u32, u32, RandomState> = Cache::with_hasher(RandomState::new());
    assert!(cache.is_empty());
    cache.insert(1, 2);
    assert_eq!(cache.get(&1), Some(&2));
    let mut bounded: Cache<u32, u32, RandomState> =
        Cache::with_capacity_and_hasher(1..=1, RandomState::new());
    bounded.insert(1, 1);
    bounded.insert(2, 2);
    assert_eq!(bounded.len(), 1);
    assert!(bounded.contains_key(&2));
    bounded.shrink_to_fit();
    assert_eq!(bounded.len(), 1);
}

#[test]
fn iter_lists_every_record() {
    let mut cache = Cache::new();
    for k in 0..4 {
        cache.insert(k, k * 2);
    }
    let mut seen = Vec::new();
    let mut it = cache.iter();
    while let Some(item) = it.next() {
        seen.push((*item.key(), *item.value()));
    }
    seen.sort_unstable();
    assert_eq!(seen, vec![(0, 0), (1, 2), (2, 4), (3, 6)]);
}

fn ages_of(v: &[(u32, u64)]) -> Vec<u64> {
    v.iter().map(|p| p.1).collect()
}

#[test]
fn selector_zero_count_is_empty() {
    let items = vec![(1u32, 5u64), (2, 3)];
    assert!(find_lru_item_to_remove(items, 0).is_empty());
}

#[test]
fn selector_large_count_sorts_all() {
    let items = vec![(1u32, 5u64), (2, 3), (3, 9), (4, 1)];
    let out = find_lru_item_to_remove(items, 10);
    assert_eq!(out, vec![(4, 1), (2, 3), (1, 5), (3, 9)]);
}

#[test]
fn selector_picks_smallest_ages() {
    let items = vec![(1u32, 5u64), (2, 3), (3, 9), (4, 1), (5, 7)];
    let out = find_lru_item_to_remove(items, 2);
    assert_eq!(out, vec![(4, 1), (2, 3)]);
    let single = find_lru_item_to_remove(vec![(1u32, 4u64), (2, 2), (3, 8)], 1);
    assert_eq!(single, vec![(2, 2)]);
}

#[test]
fn selector_matches_full_sort() {
    let mut seed: u64 = 0x2545_f491_4f6c_dd1d;
    let mut next = move || {
        seed ^= seed << 13;
        seed ^= seed >> 7;
        seed ^= seed << 17;
        seed
    };
    for _ in 0..200 {
        let n = (next() % 30) as usize;
        let k = (next() % 35) as usize;
        let items: Vec<(u32, u64)> = (0..n).map(|i| (i as u32, next() % 20)).collect();
        let mut oracle = items.clone();
        oracle.sort_by_key(|p| p.1);
        let out = find_lru_item_to_remove(items.clone(), k);
        let want = k.min(n);
        assert_eq!(out.len(), want);
        assert_eq!(ages_of(&out), ages_of(&oracle[..want]));
        for p in &out {
            assert!(items.contains(p));
        }
        let mut ids: Vec<u32> = out.iter().map(|p| p.0).collect();
        ids.sort_unstable();
        ids.dedup();
        assert_eq!(ids.len(), want);
    }
}

#[test]
fn interning_returns_one_allocation() {
    let mut set: ArcHashSet<String> = ArcHashSet::new();
    let a = String::from("value");
    let b = String::from("value");
    let first = set.get_or_init(Cow::Borrowed(&a));
    let second = set.get_or_init(Cow::Owned(b));
    assert!(Arc::ptr_eq(&first, &second));
    assert_eq!(*first, "value");
    assert!(Arc::ptr_eq(set.get(&a).unwrap(), &first));
}

#[test]
fn interning_set_removals() {
    let mut set: ArcHashSet<u32, RandomState> = ArcHashSet::with_hasher(RandomState::new());
    let held = set.get_or_init(Cow::Owned(1));
    drop(set.get_or_init(Cow::Owned(2)));
    assert_eq!(Arc::strong_count(&held), 2);

    set.remove_if_unused(&1);
    assert!(set.get(&1).is_some());
    set.remove_if_unused(&2);
    assert!(set.get(&2).is_none());

    drop(set.get_or_init(Cow::Owned(3)));
    set.remove_unreferenced();
    assert!(set.get(&3).is_none());
    assert!(set.get(&1).is_some());

    set.remove(&1);
    assert!(set.get(&1).is_none());
    assert_eq!(Arc::strong_count(&held), 1);
    set.shrink_to_fit();

    let mut sized: ArcHashSet<u32, RandomState> =
        ArcHashSet::with_capacity_and_hasher(8, RandomState::new());
    assert!(sized.get(&4).is_none());
    drop(sized.get_or_init(Cow::Owned(4)));
    assert!(sized.get(&4).is_some());
    let mut plain: ArcHashSet<u32> = ArcHashSet::with_capacity(4);
    drop(plain.get_or_init(Cow::Owned(9)));
    assert_eq!(**plain.get(&9).unwrap(), 9);
}

#[test]
fn dedup_shares_and_releases() {
    let mut dedup: CacheDedup<u32, Vec<u8>> = CacheDedup::new();
    let a = dedup.get_or_init(&1, Cow::Owned(vec![1, 2, 3])).clone();
    let b = dedup.get_or_init(&2, Cow::Owned(vec![1, 2, 3])).clone();
    assert!(Arc::ptr_eq(&a, &b));
    // two records, the set, and the two clones above
    assert_eq!(Arc::strong_count(&a), 5);

    dedup.retain(|k: &u32, _v: &Arc<Vec<u8>>| *k != 1);
    assert_eq!(Arc::strong_count(&a), 4);
    assert!(dedup.get(&1).is_none());
    assert!(Arc::ptr_eq(dedup.get(&2).unwrap(), &a));

    drop(b);
    dedup.retain(|_k: &u32, _v: &Arc<Vec<u8>>| false);
    // the clone held here keeps the value in the set
    assert_eq!(Arc::strong_count(&a), 2);

    let weak = Arc::downgrade(&a);
    drop(a);
    dedup.retain(|_k: &u32, _v: &Arc<Vec<u8>>| true);
    assert!(weak.upgrade().is_none());
}

#[test]
fn dedup_interned_value_outlives_one_key() {
    let mut dedup: CacheDedup<u32, String> = CacheDedup::with_capacity(1..=2);
    let a = dedup.get_or_init(&1, Cow::Owned(String::from("x"))).clone();
    dedup.get_or_init(&2, Cow::Owned(String::from("x")));
    dedup.remove_lru(1);
    assert!(dedup.get(&1).is_none());
    // the record of key 2, the set, and `a`
    assert_eq!(Arc::strong_count(&a), 3);
    dedup.remove_lru(1);
    assert_eq!(Arc::strong_count(&a), 2);
    let weak = Arc::downgrade(&a);
    drop(a);
    dedup.remove_lru(0);
    assert!(weak.upgrade().is_none());
}

#[test]
fn dedup_eviction_sweeps_set() {
    let mut dedup: CacheDedup<u32, u32> = CacheDedup::with_capacity(1..=2);
    let first = Arc::downgrade(dedup.get_or_init(&1, Cow::Owned(100)));
    dedup.get_or_init(&2, Cow::Owned(200));
    dedup.get_or_init(&3, Cow::Owned(300));
    assert!(dedup.get(&1).is_none());
    assert_eq!(**dedup.get(&2).unwrap(), 200);
    assert_eq!(**dedup.get(&3).unwrap(), 300);
    // nothing held the evicted value, so it left the set at once
    assert!(first.upgrade().is_none());
}

#[test]
fn dedup_sweeps_and_capacity() {
    let mut dedup: CacheDedup<u32, u32, RandomState> =
        CacheDedup::with_capacity_and_hasher(10..=20, RandomState::new());
    for k in 0..5 {
        dedup.get_or_init(&k, Cow::Owned(k % 2));
    }
    dedup.remove_untouched();
    assert!(dedup.get(&0).is_some());
    dedup.remove_untouched();
    assert!(dedup.get(&0).is_some());
    assert!(dedup.get(&1).is_none());
    dedup.remove_untouched_if(|_k: &u32, _v: &Arc<u32>| true);
    dedup.remove_untouched_if(|_k: &u32, _v: &Arc<u32>| true);
    assert!(dedup.get(&0).is_none());

    let mut other: CacheDedup<u32, u32, RandomState> = CacheDedup::with_hasher(RandomState::new());
    for k in 0..6 {
        other.get_or_init(&k, Cow::Owned(k));
    }
    other.set_capacity(1..=3);
    assert!(other.get(&5).is_some());
    assert!(other.get(&0).is_none());
    other.shrink_to_fit();
    assert!(other.get(&5).is_some());
}

#[test]
fn iter_mut_touch_changes_eviction_order() {
    let mut cache = Cache::with_capacity(2..=3);
    cache.insert(0, 0);
    cache.insert(1, 1);
    cache.insert(2, 2);
    {
        let mut it = cache.iter_mut();
        while let Some(mut item) = it.next() {
            if *item.key() == 0 {
                *item.touch_value() += 100;
            } else {
                *item.value() += 10;
            }
        }
    }
    cache.insert(3, 3);
    assert!(!cache.contains_key(&1));
    assert_eq!(cache.get(&0), Some(&100));
    assert_eq!(cache.get(&2), Some(&12));
}

#[test]
fn values_mut_writes_and_touches() {
    let mut cache = Cache::with_capacity(1..=2);
    cache.insert(0, 1);
    cache.insert(1, 2);
    {
        let mut it = cache.values_mut();
        while let Some(mut v) = it.next() {
            if *v.value() == 1 {
                *v.touch_value() = 5;
            } else {
                *v.value() *= 3;
            }
        }
    }
    assert_eq!(sorted_values(&cache), vec![5, 6]);
    cache.insert(2, 7);
    assert!(cache.contains_key(&0));
    assert!(!cache.contains_key(&1));
}

#[test]
fn defaults_start_empty() {
    let mut cache: Cache<u32, u32> = Cache::default();
    assert!(cache.is_empty());
    cache.insert(1, 1);
    assert_eq!(cache.len(), 1);
    let mut set: ArcHashSet<u32> = ArcHashSet::default();
    assert!(set.get(&1).is_none());
    drop(set.get_or_init(Cow::Owned(1)));
    assert!(set.get(&1).is_some());
    let mut dedup: CacheDedup<u32, u32> = CacheDedup::default();
    assert_eq!(**dedup.get_or_init(&1, Cow::Owned(8)), 8);
}

#[test]
fn remove_lru_with_largest_count_empties() {
    let mut cache = Cache::new();
    for k in 0..3 {
        cache.insert(k, k);
    }
    cache.remove_lru(usize::MAX);
    assert!(cache.is_empty());
}

#[test]
fn selector_huge_count_returns_all() {
    let out = find_lru_item_to_remove(vec![(1u32, 2u64), (2, 1)], usize::MAX);
    assert_eq!(out, vec![(2, 1), (1, 2)]);
}

#[test]
fn unreferenced_means_one_holder() {
    assert!(is_unreferenced(1));
    assert!(!is_unreferenced(2));
    assert!(!is_unreferenced(0));
}

#[test]
fn second_sweep_empties_untouched_cache() {
    let mut cache = Cache::new();
    cache.insert(1, 1);
    cache.insert(2, 2);
    cache.remove_untouched();
    cache.remove_untouched();
    assert!(cache.is_empty());
}

#[test]
fn removal_follows_given_holder_count() {
    let mut set: ArcHashSet<u32> = ArcHashSet::new();
    let kept = set.get_or_init(Cow::Owned(1));
    set.remove_if_sole_holder(&1, 2);
    assert!(set.get(&1).is_some());
    set.remove_if_sole_holder(&1, 1);
    assert!(set.get(&1).is_none());
    assert_eq!(Arc::strong_count(&kept), 1);

    let a = set.get_or_init(Cow::Owned(5));
    let b = set.get_or_init(Cow::Owned(6));
    set.drop_sole_held(vec![(a.clone(), 1), (b.clone(), 3)]);
    assert!(set.get(&5).is_none());
    assert!(set.get(&6).is_some());
}

#[test]
fn dedup_miss_keeps_new_handle_interned() {
    let mut dedup: CacheDedup<u32, u32> = CacheDedup::with_capacity(1..=1);
    let first = Arc::downgrade(dedup.get_or_init(&1, Cow::Owned(10)));
    let second = dedup.get_or_init(&2, Cow::Owned(20)).clone();
    // the evicted value left the set; the new one stays in it
    assert!(first.upgrade().is_none());
    assert_eq!(Arc::strong_count(&second), 3);
}
