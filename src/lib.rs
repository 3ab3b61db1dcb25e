//! A least-recently-used cache whose capacity is a total weight rather than
//! an entry count. Each value reports its own weight through [`Weighted`].

mod cache;
mod links;
mod model;
mod weighted;

pub use cache::{key_eq_is_identity, LruCacheItem, LruError, LruWeightedCache};
pub use model::{
    distinct_keys, evict, has_key, inserted, lemma_evict_oldest_first, lemma_inserted_is_newest,
    position_of, total_weight, value_of, without_key,
};
pub use weighted::Weighted;
