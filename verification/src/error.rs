//! Errors returned by the cache.
use vstd::prelude::*;

verus! {

/// Errors that cache operations may return.
#[derive(Debug, PartialEq, Eq)]
pub enum SegError<'a> {
    /// No segment could be obtained to hold the item.
    NoFreeSegments,
    /// The key is not in the cache.
    NotFound,
    /// The CAS value given does not match the item's.
    Exists,
    /// The hash bucket of the key has no room for another item.
    HashTableInsertEx,
    /// The item cannot be stored: it is larger than a segment, or its key or
    /// optional data are longer than an item header can record.
    ItemOversized { size: usize, key: &'a [u8] },
    /// The cache's data is not consistent.
    DataCorrupted,
}

} // verus!
