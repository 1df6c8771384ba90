//! The ways in which a walk can fail.

use vstd::prelude::*;
use crate::graph::NodeId;

verus! {

/// Why a walk was refused or aborted.
#[derive(Clone, Copy, Debug, PartialEq, Eq, Structural)]
pub enum WalkError {
    /// The starting identifier names no node of the graph.
    UnknownNode(NodeId),
    /// The starting node is not a revision.
    NotARevision(NodeId),
    /// A revision met during the walk has no directory among its successors.
    NoRootTree(NodeId),
}

impl WalkError {
    /// The node the error is about.
    pub fn node(&self) -> (id: NodeId)
        ensures
            id == match *self {
                WalkError::UnknownNode(n) => n,
                WalkError::NotARevision(n) => n,
                WalkError::NoRootTree(n) => n,
            },
    {
        match *self {
            WalkError::UnknownNode(n) => n,
            WalkError::NotARevision(n) => n,
            WalkError::NoRootTree(n) => n,
        }
    }
}

} // verus!
