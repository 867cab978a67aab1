//! Distribution and reconstruction of erasure-coded shard chunks.
pub mod codec;
pub mod fixture;
pub mod manager;
pub mod merkle;
pub mod store;
