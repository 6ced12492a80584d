//! The failures that the graph store reports.

use vstd::prelude::*;

verus! {

/// Why an operation on the graph did not take place.
#[derive(Clone, Copy, Debug, PartialEq, Eq, Structural)]
pub enum GraphError {
    /// A node key is stale or was issued by another graph.
    UnknownNode,
    /// An edge key is stale or was issued by another graph.
    UnknownEdge,
    /// An entity that already belongs to a graph was handed in to be attached.
    InvariantViolation,
}

} // verus!
