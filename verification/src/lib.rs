//! Verified PageRank: iterative rank propagation over a directed graph.
//!
//! Rank mass is held in fixed-point arithmetic (`model::SCALE` units make one
//! whole unit of probability mass), which keeps every step of the power
//! iteration exact, deterministic and provable. The damping factor is given
//! in parts per million (`model::PPM` parts make one).
//!
//! - [`graph`] holds the validated adjacency structure: construction rejects
//!   any edge whose target is not a node index.
//! - [`engine`] holds the rank engine; its `rank` is proved to compute the
//!   recurrence `model::ranks_after` exactly. A dangling node's mass is
//!   redistributed uniformly over all nodes each iteration — the library's
//!   explicit zero-out-degree policy.
//! - [`model`] is the specification: the recurrence and the lemmas showing
//!   that no iteration creates mass.
//! - [`laws`] states and proves the library-wide guarantees.

pub mod engine;
pub mod graph;
pub mod laws;
pub mod model;
