//! Aggregation of live order-book snapshots from several crypto venues.
//!
//! The crate decodes per-venue order-book frames into a uniform snapshot,
//! merges the snapshots of all venues into a bounded top-N view per side,
//! and exposes the pieces a streaming server needs: a staged builder, the
//! merge engine, and the summary arithmetic.  All data is carried as
//! fixed-point integers with eight fractional digits so that every rule of
//! the book can be stated and proved exactly.

pub mod book;
pub mod builder;
pub mod cli;
pub mod codec;
pub mod exchanges;
pub mod hash_heap;
pub mod levels;
pub mod server;
