pub mod lru;
pub mod model;
pub mod prune;
pub mod validate;

pub use lru::LruCache;
