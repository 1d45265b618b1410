//! In-process caching toolkit: a capacity-bounded cache ordered by recency,
//! a set that interns shared values, and the two composed into a cache that
//! stores equal values once.

pub mod select;
mod stdx;
pub mod cache;
pub mod arc_hash_set;
pub mod cache_dedup;

pub use arc_hash_set::{is_unreferenced, ArcHashSet};
pub use cache::{
    Cache, CacheItem, CacheItemMut, CacheValue, CacheValueMut, Iter, IterMut, Values, ValuesMut,
};
pub use cache_dedup::CacheDedup;

pub use select::find_lru_item_to_remove;
