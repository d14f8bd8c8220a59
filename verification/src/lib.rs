//! An in-memory least-frequently-used (LFU) cache.
//!
//! The cache keeps each entry in a frequency bucket; buckets are ordered
//! by strictly ascending access count, and within a bucket the most
//! recently placed entry sits at the head.  `insert` of a fresh key at
//! capacity evicts the head entry of the lowest-frequency bucket.

pub mod cache;
pub mod model;
pub mod text;

pub use cache::CacheNode;
pub use cache::FrequencyList;
pub use cache::LFUCache;
