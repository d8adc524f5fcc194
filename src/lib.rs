//! Funding graphs over a range of blocks: a generic directed graph with
//! idempotent insertion, and the construction that records, for every
//! transaction input that spends an earlier output, an edge from the spent
//! transaction to the spending one.

pub mod graph;
pub mod funding;
