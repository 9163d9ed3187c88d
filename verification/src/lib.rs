//! A verified least-recently-used cache, with the property checks that
//! exercise it.
pub mod cache;

pub use cache::CacheKey;
pub use cache::LruCache;
pub mod etna;
pub mod runner;
pub mod report;
pub mod text;
