//! A verified query engine over ride-transaction records: records decoded
//! from delimited rows, a persistent key→record index over an append-only
//! frame store, a boolean filter tree, a planner that chooses between an
//! index point lookup and a full scan, result sinks for filtered rows,
//! aggregates and popular destinations, and pagination arithmetic.

pub mod amount;
pub mod codec;
pub mod disk_hash;
pub mod filters;
pub mod pagination;
pub mod query;
pub mod report;
pub mod results;
pub mod rows;
pub mod store;
pub mod trip;
