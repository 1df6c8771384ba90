//! Simplified path history over a graph of software artifacts.
//!
//! Given a revision and a path, the library finds the ancestor revisions in
//! which the entry at that path changed, following the default history
//! simplification of a version-control log restricted to one path.
//!
//! - [`graph`]: the artifact graph as plain values.
//! - [`path`]: from the text of a path to its names.
//! - [`resolve`]: from a revision and a path to the entry the path names.
//! - [`frontier`]: the pending revisions, most recent first.
//! - [`simplify`]: the decision about one revision.
//! - [`walk`]: the walk from a starting revision, and its report.
//! - [`theorems`]: what holds of every decision and of every walk.
//! - [`origins`]: the latest snapshot, tip and root tree of an origin.
//! - [`metrics`]: node counts and content sizes.

pub mod error;
pub mod frontier;
pub mod graph;
pub mod metrics;
pub mod origins;
pub mod path;
pub mod resolve;
pub mod simplify;
pub mod theorems;
pub mod walk;
