//! A task execution engine: named tasks form a dependency DAG, independent
//! tasks may run concurrently, cached tasks are skipped, and an upstream
//! failure forecloses every downstream dependent without running it.
//!
//! This crate holds the verified core: the graph with its topological order,
//! the per-task status state machine, the scheduler's decision rules, the
//! failure-propagation semantics, and the change-notification counter.
//! Terminal rendering, subprocess execution and the async run loop live in a
//! thin unverified layer around it.

pub mod engine;
pub mod graph;
pub mod notify;
pub mod status;
pub mod summary;
