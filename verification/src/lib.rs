//! A segment-structured key-value cache.

pub mod builder;
pub mod error;
pub mod expire;
pub mod hashtable;
mod integrity;
pub mod image;
pub mod insert;
pub mod item;
pub mod laws;
mod platform;
pub mod seg;
pub mod segments;
pub mod snapshot;
pub mod space;
pub mod storage;
pub mod structure;
pub mod ttl_buckets;

pub use error::SegError;
pub use item::Item;
pub use seg::Seg;
pub use segments::Policy;
