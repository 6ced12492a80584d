//! The distances, in whole units, that decide what a point picks.

use vstd::prelude::*;

verus! {

/// Radius of a node. A point picks a node within twice this distance.
pub const NODE_RADIUS: i64 = 10;

/// The distance from an edge's line within which a point picks the edge.
pub const EDGE_THICKNESS: u32 = 5;

/// A node this close to a point wins the pick over any edge.
pub const SELECTED_NODE_RADIUS: i64 = 12;

} // verus!
