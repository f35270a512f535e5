//! Barrier bookkeeping for a streaming dataflow node.
//!
//! The manager tracks, per actor, which barriers are still owed, and per partial graph,
//! which epochs are still being collected, which have been collected by every actor,
//! and which have completed their (possibly empty) state-store sync. Completions of a
//! partial graph are reported strictly in epoch order.

pub mod actor;
pub mod barrier;
pub mod connector;
pub mod graph;
pub mod id_set;
pub mod keyed;
pub mod laws;
pub mod manager;
pub mod model;
pub mod task;
