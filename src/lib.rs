//! Aggregate statistics over time windows of trade fills, answered through a
//! range-coalescing cache that only asks a slow backend for uncovered gaps.

pub mod decimal;
pub mod time_range;
pub mod fill;
pub mod aggregate;
pub mod query;
pub mod recency;
pub mod pieces;
pub mod cache;
pub mod resolve;
