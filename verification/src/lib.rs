//! A planar directed graph engine: a key-stable store of nodes and edges with
//! consistent adjacency, spatial queries for picking, and shortest paths.
//!
//! Positions are points of an integer lattice, so that every test of a point
//! against a node or an edge is exact. The length of an edge is not: on a
//! path it counts in 256ths of a unit, rounded down, and a shortest path is
//! one for which these lengths add up to the least. Nodes and edges live in
//! two key arenas; a key stays valid until its entity is removed.

pub mod arena;
pub mod edge;
pub mod error;
pub mod graph;
mod heap;
pub mod keys;
pub mod laws;
pub mod lists;
pub mod node;
pub mod path;
pub mod places;
pub mod point;
pub mod query;
pub mod select;
pub mod seqs;
pub mod variables;

pub use crate::edge::{Edge, EdgeGetSet};
pub use crate::error::GraphError;
pub use crate::graph::Graph;
pub use crate::keys::{EdgeKey, EdgeKeys, NodeKey, NodeKeys};
pub use crate::node::{Node, NodeGetSet};
pub use crate::path::{find_shortest_path, UNREACHABLE};
pub use crate::point::{Point, LENGTH_SCALE};
pub use crate::query::SL;
pub use crate::variables::{EDGE_THICKNESS, NODE_RADIUS, SELECTED_NODE_RADIUS};
