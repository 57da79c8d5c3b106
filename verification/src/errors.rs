use vstd::prelude::*;

verus! {

/// The error kinds that cache operations report.
///
/// Every fallible operation returns one of these; no operation panics or
/// silently swallows a failure.
#[derive(Clone, Copy, Debug, PartialEq, Eq, Structural)]
pub enum CacheError {
    /// `get` or `delete` named a key that is absent from the mapping.
    NotFound,
    /// `set` needed an eviction victim but the recency tracker was empty.
    /// Reachable only with capacity zero, or if the mapping and the tracker
    /// were allowed to desynchronize.
    CapacityExhausted,
    /// A buffer shape was too large to allocate, or a region write named a
    /// region that is out of bounds or does not match the written values.
    InvalidShape,
}

impl CacheError {
    /// A human-readable description of the error.
    pub fn message(&self) -> (r: &'static str)
        ensures
            *self is NotFound ==> r@ == "Key not found in cache"@,
            *self is CapacityExhausted ==> r@ == "Cache is full and unable to evict items"@,
            *self is InvalidShape ==> r@ == "Invalid shape or region"@,
    {
        match self {
            CacheError::NotFound => "Key not found in cache",
            CacheError::CapacityExhausted => "Cache is full and unable to evict items",
            CacheError::InvalidShape => "Invalid shape or region",
        }
    }
}

} // verus!
