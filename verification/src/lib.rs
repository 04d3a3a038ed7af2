//! A lazy computation-graph engine for batch data-parallel pipelines.
//!
//! A directed acyclic graph of deferred computations is built first
//! (`graph`, `deferred`), then materialized by a pluggable scheduling
//! strategy (`scheduler`).  On top of the graph sit partitioned-shuffle
//! and grouped-aggregation algorithms (`shuffle`) and a user-facing
//! sequence-of-partitions abstraction (`collection`).

pub mod value;
pub mod graph;
pub mod scheduler;
pub mod deferred;
pub mod shuffle;
pub mod collection;
