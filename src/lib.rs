//! A fixed-capacity key/value cache with least-recently-used eviction.
pub mod cache;
pub mod laws;
pub mod model;
pub mod recency;
