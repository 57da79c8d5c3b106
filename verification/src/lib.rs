//! A fixed-capacity in-memory cache for multi-dimensional numeric buffers,
//! evicted in least-recently-used order.
//!
//! The cache pairs a key-to-buffer mapping with a recency tracker; every
//! mutation of the mapping is mirrored in the tracker so the two never
//! diverge. Buffers are dense zero-initialized numeric arrays supplied by
//! the `ndarray` collaborator.

pub mod cache;
pub mod errors;
pub mod lru;
pub mod storage;
pub mod tensor;
