//! Storage core of a replicated key-value store: a multi-version key index,
//! a versioned value store, and the speculative-execution / commit pipeline
//! that turns consensus proposals into revisions and watch events.

pub mod bytes;
pub mod compare;
pub mod engine;
pub mod index;
pub mod log;
pub mod pool;
pub mod range;
pub mod store;
pub mod types;
