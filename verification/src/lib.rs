//! Precomputed next-hop shortest paths on unweighted, undirected graphs.
//!
//! Every edge carries a bit vector indexed by destination node. Bits are
//! passed between the edges that meet at a node until each edge knows, for
//! every destination, whether it leads towards it. A built graph then
//! answers "where next from here to there" by looking at one bit for each
//! neighbor.
//!
//! - [bitvec]: the bit vectors, a growable one and an atomic one, and
//!   [digit], the facts about single digits that they rest on.
//! - [graph]: the graph and its two engines. [graph::model] says over sets
//!   what the rounds compute, and [graph::sequential] and [graph::parallel]
//!   compute it, to the same rows. [graph::correct] shows that the rows
//!   tell the shortest paths to every destination whose part of the graph
//!   has no cycle of odd length, and [graph::reach] that no edge leads
//!   towards a destination that cannot be reached.
//! - [prim]: graphs of at most 16, 32, 64 or 128 nodes in packed words.
//! - [laws]: what holds over more than one call.
//! - [maze]: a maze generator to try the library on.

use vstd::prelude::*;
use vstd::std_specs::cmp::PartialOrdIs;
use vstd::std_specs::cmp::PartialOrdSpec;

pub mod bitvec;
pub mod digit;
pub mod graph;
pub mod laws;
pub mod maze;
pub mod prim;

pub use graph::{Graph, GraphBuilder};
pub use prim::{
    Graph128, Graph128Builder, Graph16, Graph16Builder, Graph32, Graph32Builder, Graph64,
    Graph64Builder,
};

verus! {

/// The canonical form of an undirected edge: its two endpoints in ascending order.
pub open spec fn spec_edge_id<T: Ord>(a: T, b: T) -> (T, T) {
    if a.is_gt(&b) {
        (b, a)
    } else {
        (a, b)
    }
}

/// Given two node IDs, return a tuple of the two IDs in ascending order.
pub fn edge_id<T: Ord>(node_a_index: T, node_b_index: T) -> (r: (T, T))
    ensures
        T::obeys_partial_cmp_spec() ==> r == spec_edge_id(node_a_index, node_b_index),
{
    if node_a_index > node_b_index {
        (node_b_index, node_a_index)
    } else {
        (node_a_index, node_b_index)
    }
}

} // verus!
