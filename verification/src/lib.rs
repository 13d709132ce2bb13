//! Statistics-driven synthesis of workflow DAGs.
//!
//! The crate fits empirical distributions of structural quantities
//! (critical-path length, per-level fan-out, instance counts, task cost)
//! over a population of task graphs, and then grows new task graphs whose
//! shape matches those distributions.  A finished task graph can further be
//! expanded into an instance-level graph under a fixed
//! computation/communication ratio.

pub mod config;
pub mod dag;
pub mod levels;
pub mod fit;
pub mod classify;
pub mod stats;
pub mod synth;
pub mod expand;
pub mod fifo;
pub mod randsrc;
