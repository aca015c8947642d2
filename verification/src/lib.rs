//! A paged key-value cache for language model inference: a fixed pool of reference-counted
//! blocks, per-request block tables, a prefix cache and the scheduler that drives them.
pub mod block_pool;
pub mod block_table;
pub mod decoding;
pub mod effects;
pub mod eviction;
mod keys;
pub mod laws;
pub mod lists;
pub mod operations;
pub mod order;
pub mod prefix_cache;
pub mod schedule;
pub mod sequence;
