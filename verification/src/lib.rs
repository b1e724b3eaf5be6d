//! Aggregation and re-sharding engine for cluster-workload interval records.
//!
//! The library ingests per-task usage intervals (start time, end time, raw
//! machine identifier, usage value), bins them into fixed-width time slots,
//! accumulates them into a growable per-(node, slot) matrix, and partitions
//! the finished matrix into day / node-range output grids.
//!
//! Usage values are carried as fixed-point integers (millionths of a unit),
//! so that accumulation is exact and fully specified.

pub mod error;
pub mod mapper;
pub mod matrix;
pub mod parse;
pub mod shard;
pub mod slots;
pub mod transfer;
pub mod trim;
