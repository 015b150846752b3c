pub mod cache_map;
pub mod laws;

pub use cache_map::CacheMap;
pub use cache_map::IntoIter;
pub use cache_map::Iter;
