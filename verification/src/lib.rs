//! A per-learner mastery tracker for a curriculum modeled as a dependency
//! graph of atomic knowledge units ("cards").
//!
//! The crate provides an immutable, validated dependency graph
//! ([`graph::CourseGraph`]), a per-learner progress store
//! ([`progress_store::ProgressStore`]), and the reconciliation operations
//! that keep the store consistent with elapsed time and with the dependency
//! structure. The global guarantees of the propagation pass — idempotence,
//! monotonicity of the fail phase, soundness of recovery, and independence
//! from iteration order — are stated and proved in [`laws`].

pub mod graph;
pub mod laws;
pub mod propagate;
pub mod progress_store;
