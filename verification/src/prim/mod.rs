//! Graph implementations using primitive data types.
//!
//! If you know the maximum number of nodes is less than or equal to 16, 32, 64, or 128, use the corresponding graph type.
//! If you think the number of nodes will exceed 128, use the general [Graph](crate::graph::Graph) implementation.
//!
//! Each node has one packed word for its neighbors, and each edge one for
//! its decision row. The neighbors of a node come in ascending order.

use crate::graph::model::{fresh, Tables};
use crate::graph::sequential::{accepted_first, first_of, tables_connect, tables_disconnect};
use crate::prim::packed::{
    sets_connect, sets_disconnect, NodeBitsIter, PrimGraph, PrimGraphBuilder, PrimNextNodes,
    PrimPath,
};
use vstd::prelude::*;

pub mod packed;
pub mod word;

verus! {

/// Graph of at most 16 nodes, with packed words as the node bits storage.
///
/// Number of nodes must be equal or lower than 16.
#[derive(Debug, Clone)]
pub struct Graph16 {
    pub inner: PrimGraph,
}

/// Builder for the Graph16
#[derive(Debug, Clone)]
pub struct Graph16Builder {
    pub inner: PrimGraphBuilder,
}

impl Graph16 {
    /// The graph is well formed and has at most 16 nodes.
    pub open spec fn wf(&self) -> bool {
        self.inner.wf() && self.inner.nodes.inner@.len() <= 16
    }

    /// The neighbors of `curr` that lead towards `dest`, in ascending order;
    /// none where `curr` is `dest`.
    pub open spec fn spec_next_nodes(&self, curr: u8, dest: u8) -> Seq<u8> {
        self.inner.spec_next_nodes(curr, dest)
    }

    /// A builder for a graph of `nodes_len` nodes, at most 16.
    pub fn builder(nodes_len: usize) -> (r: Graph16Builder)
        requires
            nodes_len <= 16,
        ensures
            r.wf(),
            r.inner.nodes.inner@ == Seq::new(nodes_len as nat, |a: int| 0u128),
            r.inner.tables() == (Tables { edges: Map::empty(), masks: Map::empty() }),
    {
        Graph16Builder::new(nodes_len)
    }

    /// Converts this graph into a builder. The builder has the nodes and
    /// edges of the graph; what was computed for them is dropped.
    pub fn into_builder(self) -> (b: Graph16Builder)
        requires
            self.wf(),
        ensures
            b.wf(),
            b.inner.nodes.inner@ == self.inner.nodes.inner@,
            b.inner.tables() == fresh(self.inner.nodes.adj()),
    {
        Graph16Builder { inner: self.inner.into_builder() }
    }

    /// Given a current node and a destination node,
    /// return the first neighboring node that is the shortest path to the destination node.
    ///
    /// `None` is returned when:
    /// - `curr` and `dest` are the same node
    /// - `curr` has no path to `dest`
    ///
    /// In case there are multiple neighboring nodes that lead to the
    /// destination node, the one with the smallest id is returned.
    pub fn next_node(&self, curr: u8, dest: u8) -> (r: Option<u8>)
        requires
            self.wf(),
            curr < self.inner.nodes.inner@.len(),
            dest < 16,
        ensures
            r == first_of(self.spec_next_nodes(curr, dest)),
    {
        self.inner.next_node(curr, dest)
    }

    /// Given a current node and a destination node, and a filter function,
    /// return the neighboring node of current that is the shortest path to the destination node.
    ///
    /// `None` is returned when:
    /// - `curr` and `dest` are the same node
    /// - `curr` has no path to `dest`
    /// - The filter function returns `false` for all neighboring nodes
    pub fn next_node_with<F: Fn(u8) -> bool>(&self, curr: u8, dest: u8, f: F) -> (r: Option<u8>)
        requires
            self.wf(),
            curr < self.inner.nodes.inner@.len(),
            dest < 16,
            forall|x: u8| call_requires(f, (x,)),
        ensures
            accepted_first(self.spec_next_nodes(curr, dest), f, r),
    {
        self.inner.next_node_with(curr, dest, f)
    }

    /// Given a current node and a destination node,
    /// return all neighboring nodes of current that are shortest paths to the destination node.
    ///
    /// The nodes come in ascending order.
    pub fn next_nodes(&self, curr: u8, dest: u8) -> (it: PrimNextNodes<'_>)
        requires
            self.wf(),
            curr < self.inner.nodes.inner@.len(),
            dest < 16,
        ensures
            it.wf(),
            it.remaining() == self.spec_next_nodes(curr, dest),
    {
        self.inner.next_nodes(curr, dest)
    }

    /// Given a current node and a destination node,
    /// return a path from the current node to the destination node.
    ///
    /// The path is a list of node IDs, starting with the next node (not current node!) and ending at the destination node.
    pub fn path_to(&self, curr: u8, dest: u8) -> (it: PrimPath<'_>)
        requires
            self.wf(),
            curr < self.inner.nodes.inner@.len(),
            dest < 16,
        ensures
            it.wf(),
            it.graph() == self.inner,
            it.curr() == curr,
            it.dest() == dest,
            !it.done(),
    {
        self.inner.path_to(curr, dest)
    }

    /// Return all neighboring nodes of the given node, in ascending order.
    pub fn neighbors(&self, node: u8) -> (it: NodeBitsIter)
        requires
            node < self.inner.nodes.inner@.len(),
        ensures
            it.node_bits == self.inner.nodes.inner@[node as int],
            it.pos == 0,
    {
        self.inner.neighbors(node)
    }

    /// Return the number of nodes in this graph.
    pub fn nodes_len(&self) -> (r: usize)
        ensures
            r == self.inner.nodes.inner@.len(),
    {
        self.inner.nodes_len()
    }

    /// Return the number of edges in this graph.
    pub fn edges_len(&self) -> (r: usize)
        ensures
            r == self.inner.edges@.dom().len(),
    {
        self.inner.edges_len()
    }
}

impl Graph16Builder {
    /// The builder is well formed and has at most 16 nodes.
    pub open spec fn wf(&self) -> bool {
        self.inner.wf() && self.inner.nodes.inner@.len() <= 16
    }

    /// A builder for a graph of `nodes_len` nodes, at most 16.
    pub fn new(nodes_len: usize) -> (r: Self)
        requires
            nodes_len <= 16,
        ensures
            r.wf(),
            r.inner.nodes.inner@ == Seq::new(nodes_len as nat, |a: int| 0u128),
            r.inner.tables() == (Tables { edges: Map::empty(), masks: Map::empty() }),
    {
        Graph16Builder { inner: PrimGraphBuilder::new(nodes_len) }
    }

    /// Add a edge between node_a and node_b
    pub fn connect(&mut self, a: u8, b: u8)
        requires
            old(self).wf(),
            a < old(self).inner.nodes.inner@.len(),
            b < old(self).inner.nodes.inner@.len(),
        ensures
            final(self).wf(),
            final(self).inner.nodes.sets() == sets_connect(
                old(self).inner.nodes.sets(),
                a as nat,
                b as nat,
            ),
            final(self).inner.tables() == tables_connect(
                old(self).inner.tables(),
                a as nat,
                b as nat,
            ),
    {
        self.inner.connect(a, b);
    }

    /// Remove the edge between node_a and node_b
    pub fn disconnect(&mut self, a: u8, b: u8)
        requires
            old(self).wf(),
            a < old(self).inner.nodes.inner@.len(),
            b < old(self).inner.nodes.inner@.len(),
        ensures
            final(self).wf(),
            final(self).inner.nodes.sets() == sets_disconnect(
                old(self).inner.nodes.sets(),
                a as nat,
                b as nat,
            ),
            final(self).inner.tables() == tables_disconnect(
                old(self).inner.tables(),
                a as nat,
                b as nat,
            ),
    {
        self.inner.disconnect(a, b);
    }

    /// Builds the graph and makes a builder of it again, in place. The
    /// builder of a graph starts from fresh rows, so the words and both
    /// tables are as they were.
    pub fn process(&mut self)
        requires
            old(self).wf(),
        ensures
            final(self).wf(),
            final(self).inner.nodes.inner@ == old(self).inner.nodes.inner@,
            final(self).inner.tables() == old(self).inner.tables(),
    {
        self.inner.process();
    }

    /// Runs the rounds until every node is done, and gives the graph with the
    /// decision rows that they leave.
    pub fn build(self) -> (g: Graph16)
        requires
            self.wf(),
        ensures
            g.wf(),
            g.inner.nodes.inner@ == self.inner.nodes.inner@,
            g.inner.solved(),
    {
        Graph16 { inner: self.inner.build() }
    }
}

/// Graph of at most 32 nodes, with packed words as the node bits storage.
///
/// Number of nodes must be equal or lower than 32.
#[derive(Debug, Clone)]
pub struct Graph32 {
    pub inner: PrimGraph,
}

/// Builder for the Graph32
#[derive(Debug, Clone)]
pub struct Graph32Builder {
    pub inner: PrimGraphBuilder,
}

impl Graph32 {
    /// The graph is well formed and has at most 32 nodes.
    pub open spec fn wf(&self) -> bool {
        self.inner.wf() && self.inner.nodes.inner@.len() <= 32
    }

    /// The neighbors of `curr` that lead towards `dest`, in ascending order;
    /// none where `curr` is `dest`.
    pub open spec fn spec_next_nodes(&self, curr: u8, dest: u8) -> Seq<u8> {
        self.inner.spec_next_nodes(curr, dest)
    }

    /// A builder for a graph of `nodes_len` nodes, at most 32.
    pub fn builder(nodes_len: usize) -> (r: Graph32Builder)
        requires
            nodes_len <= 32,
        ensures
            r.wf(),
            r.inner.nodes.inner@ == Seq::new(nodes_len as nat, |a: int| 0u128),
            r.inner.tables() == (Tables { edges: Map::empty(), masks: Map::empty() }),
    {
        Graph32Builder::new(nodes_len)
    }

    /// Converts this graph into a builder. The builder has the nodes and
    /// edges of the graph; what was computed for them is dropped.
    pub fn into_builder(self) -> (b: Graph32Builder)
        requires
            self.wf(),
        ensures
            b.wf(),
            b.inner.nodes.inner@ == self.inner.nodes.inner@,
            b.inner.tables() == fresh(self.inner.nodes.adj()),
    {
        Graph32Builder { inner: self.inner.into_builder() }
    }

    /// Given a current node and a destination node,
    /// return the first neighboring node that is the shortest path to the destination node.
    ///
    /// `None` is returned when:
    /// - `curr` and `dest` are the same node
    /// - `curr` has no path to `dest`
    ///
    /// In case there are multiple neighboring nodes that lead to the
    /// destination node, the one with the smallest id is returned.
    pub fn next_node(&self, curr: u8, dest: u8) -> (r: Option<u8>)
        requires
            self.wf(),
            curr < self.inner.nodes.inner@.len(),
            dest < 32,
        ensures
            r == first_of(self.spec_next_nodes(curr, dest)),
    {
        self.inner.next_node(curr, dest)
    }

    /// Given a current node and a destination node, and a filter function,
    /// return the neighboring node of current that is the shortest path to the destination node.
    ///
    /// `None` is returned when:
    /// - `curr` and `dest` are the same node
    /// - `curr` has no path to `dest`
    /// - The filter function returns `false` for all neighboring nodes
    pub fn next_node_with<F: Fn(u8) -> bool>(&self, curr: u8, dest: u8, f: F) -> (r: Option<u8>)
        requires
            self.wf(),
            curr < self.inner.nodes.inner@.len(),
            dest < 32,
            forall|x: u8| call_requires(f, (x,)),
        ensures
            accepted_first(self.spec_next_nodes(curr, dest), f, r),
    {
        self.inner.next_node_with(curr, dest, f)
    }

    /// Given a current node and a destination node,
    /// return all neighboring nodes of current that are shortest paths to the destination node.
    ///
    /// The nodes come in ascending order.
    pub fn next_nodes(&self, curr: u8, dest: u8) -> (it: PrimNextNodes<'_>)
        requires
            self.wf(),
            curr < self.inner.nodes.inner@.len(),
            dest < 32,
        ensures
            it.wf(),
            it.remaining() == self.spec_next_nodes(curr, dest),
    {
        self.inner.next_nodes(curr, dest)
    }

    /// Given a current node and a destination node,
    /// return a path from the current node to the destination node.
    ///
    /// The path is a list of node IDs, starting with the next node (not current node!) and ending at the destination node.
    pub fn path_to(&self, curr: u8, dest: u8) -> (it: PrimPath<'_>)
        requires
            self.wf(),
            curr < self.inner.nodes.inner@.len(),
            dest < 32,
        ensures
            it.wf(),
            it.graph() == self.inner,
            it.curr() == curr,
            it.dest() == dest,
            !it.done(),
    {
        self.inner.path_to(curr, dest)
    }

    /// Return all neighboring nodes of the given node, in ascending order.
    pub fn neighbors(&self, node: u8) -> (it: NodeBitsIter)
        requires
            node < self.inner.nodes.inner@.len(),
        ensures
            it.node_bits == self.inner.nodes.inner@[node as int],
            it.pos == 0,
    {
        self.inner.neighbors(node)
    }

    /// Return the number of nodes in this graph.
    pub fn nodes_len(&self) -> (r: usize)
        ensures
            r == self.inner.nodes.inner@.len(),
    {
        self.inner.nodes_len()
    }

    /// Return the number of edges in this graph.
    pub fn edges_len(&self) -> (r: usize)
        ensures
            r == self.inner.edges@.dom().len(),
    {
        self.inner.edges_len()
    }
}

impl Graph32Builder {
    /// The builder is well formed and has at most 32 nodes.
    pub open spec fn wf(&self) -> bool {
        self.inner.wf() && self.inner.nodes.inner@.len() <= 32
    }

    /// A builder for a graph of `nodes_len` nodes, at most 32.
    pub fn new(nodes_len: usize) -> (r: Self)
        requires
            nodes_len <= 32,
        ensures
            r.wf(),
            r.inner.nodes.inner@ == Seq::new(nodes_len as nat, |a: int| 0u128),
            r.inner.tables() == (Tables { edges: Map::empty(), masks: Map::empty() }),
    {
        Graph32Builder { inner: PrimGraphBuilder::new(nodes_len) }
    }

    /// Add a edge between node_a and node_b
    pub fn connect(&mut self, a: u8, b: u8)
        requires
            old(self).wf(),
            a < old(self).inner.nodes.inner@.len(),
            b < old(self).inner.nodes.inner@.len(),
        ensures
            final(self).wf(),
            final(self).inner.nodes.sets() == sets_connect(
                old(self).inner.nodes.sets(),
                a as nat,
                b as nat,
            ),
            final(self).inner.tables() == tables_connect(
                old(self).inner.tables(),
                a as nat,
                b as nat,
            ),
    {
        self.inner.connect(a, b);
    }

    /// Remove the edge between node_a and node_b
    pub fn disconnect(&mut self, a: u8, b: u8)
        requires
            old(self).wf(),
            a < old(self).inner.nodes.inner@.len(),
            b < old(self).inner.nodes.inner@.len(),
        ensures
            final(self).wf(),
            final(self).inner.nodes.sets() == sets_disconnect(
                old(self).inner.nodes.sets(),
                a as nat,
                b as nat,
            ),
            final(self).inner.tables() == tables_disconnect(
                old(self).inner.tables(),
                a as nat,
                b as nat,
            ),
    {
        self.inner.disconnect(a, b);
    }

    /// Builds the graph and makes a builder of it again, in place. The
    /// builder of a graph starts from fresh rows, so the words and both
    /// tables are as they were.
    pub fn process(&mut self)
        requires
            old(self).wf(),
        ensures
            final(self).wf(),
            final(self).inner.nodes.inner@ == old(self).inner.nodes.inner@,
            final(self).inner.tables() == old(self).inner.tables(),
    {
        self.inner.process();
    }

    /// Runs the rounds until every node is done, and gives the graph with the
    /// decision rows that they leave.
    pub fn build(self) -> (g: Graph32)
        requires
            self.wf(),
        ensures
            g.wf(),
            g.inner.nodes.inner@ == self.inner.nodes.inner@,
            g.inner.solved(),
    {
        Graph32 { inner: self.inner.build() }
    }
}

/// Graph of at most 64 nodes, with packed words as the node bits storage.
///
/// Number of nodes must be equal or lower than 64.
#[derive(Debug, Clone)]
pub struct Graph64 {
    pub inner: PrimGraph,
}

/// Builder for the Graph64
#[derive(Debug, Clone)]
pub struct Graph64Builder {
    pub inner: PrimGraphBuilder,
}

impl Graph64 {
    /// The graph is well formed and has at most 64 nodes.
    pub open spec fn wf(&self) -> bool {
        self.inner.wf() && self.inner.nodes.inner@.len() <= 64
    }

    /// The neighbors of `curr` that lead towards `dest`, in ascending order;
    /// none where `curr` is `dest`.
    pub open spec fn spec_next_nodes(&self, curr: u8, dest: u8) -> Seq<u8> {
        self.inner.spec_next_nodes(curr, dest)
    }

    /// A builder for a graph of `nodes_len` nodes, at most 64.
    pub fn builder(nodes_len: usize) -> (r: Graph64Builder)
        requires
            nodes_len <= 64,
        ensures
            r.wf(),
            r.inner.nodes.inner@ == Seq::new(nodes_len as nat, |a: int| 0u128),
            r.inner.tables() == (Tables { edges: Map::empty(), masks: Map::empty() }),
    {
        Graph64Builder::new(nodes_len)
    }

    /// Converts this graph into a builder. The builder has the nodes and
    /// edges of the graph; what was computed for them is dropped.
    pub fn into_builder(self) -> (b: Graph64Builder)
        requires
            self.wf(),
        ensures
            b.wf(),
            b.inner.nodes.inner@ == self.inner.nodes.inner@,
            b.inner.tables() == fresh(self.inner.nodes.adj()),
    {
        Graph64Builder { inner: self.inner.into_builder() }
    }

    /// Given a current node and a destination node,
    /// return the first neighboring node that is the shortest path to the destination node.
    ///
    /// `None` is returned when:
    /// - `curr` and `dest` are the same node
    /// - `curr` has no path to `dest`
    ///
    /// In case there are multiple neighboring nodes that lead to the
    /// destination node, the one with the smallest id is returned.
    pub fn next_node(&self, curr: u8, dest: u8) -> (r: Option<u8>)
        requires
            self.wf(),
            curr < self.inner.nodes.inner@.len(),
            dest < 64,
        ensures
            r == first_of(self.spec_next_nodes(curr, dest)),
    {
        self.inner.next_node(curr, dest)
    }

    /// Given a current node and a destination node, and a filter function,
    /// return the neighboring node of current that is the shortest path to the destination node.
    ///
    /// `None` is returned when:
    /// - `curr` and `dest` are the same node
    /// - `curr` has no path to `dest`
    /// - The filter function returns `false` for all neighboring nodes
    pub fn next_node_with<F: Fn(u8) -> bool>(&self, curr: u8, dest: u8, f: F) -> (r: Option<u8>)
        requires
            self.wf(),
            curr < self.inner.nodes.inner@.len(),
            dest < 64,
            forall|x: u8| call_requires(f, (x,)),
        ensures
            accepted_first(self.spec_next_nodes(curr, dest), f, r),
    {
        self.inner.next_node_with(curr, dest, f)
    }

    /// Given a current node and a destination node,
    /// return all neighboring nodes of current that are shortest paths to the destination node.
    ///
    /// The nodes come in ascending order.
    pub fn next_nodes(&self, curr: u8, dest: u8) -> (it: PrimNextNodes<'_>)
        requires
            self.wf(),
            curr < self.inner.nodes.inner@.len(),
            dest < 64,
        ensures
            it.wf(),
            it.remaining() == self.spec_next_nodes(curr, dest),
    {
        self.inner.next_nodes(curr, dest)
    }

    /// Given a current node and a destination node,
    /// return a path from the current node to the destination node.
    ///
    /// The path is a list of node IDs, starting with the next node (not current node!) and ending at the destination node.
    pub fn path_to(&self, curr: u8, dest: u8) -> (it: PrimPath<'_>)
        requires
            self.wf(),
            curr < self.inner.nodes.inner@.len(),
            dest < 64,
        ensures
            it.wf(),
            it.graph() == self.inner,
            it.curr() == curr,
            it.dest() == dest,
            !it.done(),
    {
        self.inner.path_to(curr, dest)
    }

    /// Return all neighboring nodes of the given node, in ascending order.
    pub fn neighbors(&self, node: u8) -> (it: NodeBitsIter)
        requires
            node < self.inner.nodes.inner@.len(),
        ensures
            it.node_bits == self.inner.nodes.inner@[node as int],
            it.pos == 0,
    {
        self.inner.neighbors(node)
    }

    /// Return the number of nodes in this graph.
    pub fn nodes_len(&self) -> (r: usize)
        ensures
            r == self.inner.nodes.inner@.len(),
    {
        self.inner.nodes_len()
    }

    /// Return the number of edges in this graph.
    pub fn edges_len(&self) -> (r: usize)
        ensures
            r == self.inner.edges@.dom().len(),
    {
        self.inner.edges_len()
    }
}

impl Graph64Builder {
    /// The builder is well formed and has at most 64 nodes.
    pub open spec fn wf(&self) -> bool {
        self.inner.wf() && self.inner.nodes.inner@.len() <= 64
    }

    /// A builder for a graph of `nodes_len` nodes, at most 64.
    pub fn new(nodes_len: usize) -> (r: Self)
        requires
            nodes_len <= 64,
        ensures
            r.wf(),
            r.inner.nodes.inner@ == Seq::new(nodes_len as nat, |a: int| 0u128),
            r.inner.tables() == (Tables { edges: Map::empty(), masks: Map::empty() }),
    {
        Graph64Builder { inner: PrimGraphBuilder::new(nodes_len) }
    }

    /// Add a edge between node_a and node_b
    pub fn connect(&mut self, a: u8, b: u8)
        requires
            old(self).wf(),
            a < old(self).inner.nodes.inner@.len(),
            b < old(self).inner.nodes.inner@.len(),
        ensures
            final(self).wf(),
            final(self).inner.nodes.sets() == sets_connect(
                old(self).inner.nodes.sets(),
                a as nat,
                b as nat,
            ),
            final(self).inner.tables() == tables_connect(
                old(self).inner.tables(),
                a as nat,
                b as nat,
            ),
    {
        self.inner.connect(a, b);
    }

    /// Remove the edge between node_a and node_b
    pub fn disconnect(&mut self, a: u8, b: u8)
        requires
            old(self).wf(),
            a < old(self).inner.nodes.inner@.len(),
            b < old(self).inner.nodes.inner@.len(),
        ensures
            final(self).wf(),
            final(self).inner.nodes.sets() == sets_disconnect(
                old(self).inner.nodes.sets(),
                a as nat,
                b as nat,
            ),
            final(self).inner.tables() == tables_disconnect(
                old(self).inner.tables(),
                a as nat,
                b as nat,
            ),
    {
        self.inner.disconnect(a, b);
    }

    /// Builds the graph and makes a builder of it again, in place. The
    /// builder of a graph starts from fresh rows, so the words and both
    /// tables are as they were.
    pub fn process(&mut self)
        requires
            old(self).wf(),
        ensures
            final(self).wf(),
            final(self).inner.nodes.inner@ == old(self).inner.nodes.inner@,
            final(self).inner.tables() == old(self).inner.tables(),
    {
        self.inner.process();
    }

    /// Runs the rounds until every node is done, and gives the graph with the
    /// decision rows that they leave.
    pub fn build(self) -> (g: Graph64)
        requires
            self.wf(),
        ensures
            g.wf(),
            g.inner.nodes.inner@ == self.inner.nodes.inner@,
            g.inner.solved(),
    {
        Graph64 { inner: self.inner.build() }
    }
}

/// Graph of at most 128 nodes, with packed words as the node bits storage.
///
/// Number of nodes must be equal or lower than 128.
#[derive(Debug, Clone)]
pub struct Graph128 {
    pub inner: PrimGraph,
}

/// Builder for the Graph128
#[derive(Debug, Clone)]
pub struct Graph128Builder {
    pub inner: PrimGraphBuilder,
}

impl Graph128 {
    /// The graph is well formed and has at most 128 nodes.
    pub open spec fn wf(&self) -> bool {
        self.inner.wf() && self.inner.nodes.inner@.len() <= 128
    }

    /// The neighbors of `curr` that lead towards `dest`, in ascending order;
    /// none where `curr` is `dest`.
    pub open spec fn spec_next_nodes(&self, curr: u8, dest: u8) -> Seq<u8> {
        self.inner.spec_next_nodes(curr, dest)
    }

    /// A builder for a graph of `nodes_len` nodes, at most 128.
    pub fn builder(nodes_len: usize) -> (r: Graph128Builder)
        requires
            nodes_len <= 128,
        ensures
            r.wf(),
            r.inner.nodes.inner@ == Seq::new(nodes_len as nat, |a: int| 0u128),
            r.inner.tables() == (Tables { edges: Map::empty(), masks: Map::empty() }),
    {
        Graph128Builder::new(nodes_len)
    }

    /// Converts this graph into a builder. The builder has the nodes and
    /// edges of the graph; what was computed for them is dropped.
    pub fn into_builder(self) -> (b: Graph128Builder)
        requires
            self.wf(),
        ensures
            b.wf(),
            b.inner.nodes.inner@ == self.inner.nodes.inner@,
            b.inner.tables() == fresh(self.inner.nodes.adj()),
    {
        Graph128Builder { inner: self.inner.into_builder() }
    }

    /// Given a current node and a destination node,
    /// return the first neighboring node that is the shortest path to the destination node.
    ///
    /// `None` is returned when:
    /// - `curr` and `dest` are the same node
    /// - `curr` has no path to `dest`
    ///
    /// In case there are multiple neighboring nodes that lead to the
    /// destination node, the one with the smallest id is returned.
    pub fn next_node(&self, curr: u8, dest: u8) -> (r: Option<u8>)
        requires
            self.wf(),
            curr < self.inner.nodes.inner@.len(),
            dest < 128,
        ensures
            r == first_of(self.spec_next_nodes(curr, dest)),
    {
        self.inner.next_node(curr, dest)
    }

    /// Given a current node and a destination node, and a filter function,
    /// return the neighboring node of current that is the shortest path to the destination node.
    ///
    /// `None` is returned when:
    /// - `curr` and `dest` are the same node
    /// - `curr` has no path to `dest`
    /// - The filter function returns `false` for all neighboring nodes
    pub fn next_node_with<F: Fn(u8) -> bool>(&self, curr: u8, dest: u8, f: F) -> (r: Option<u8>)
        requires
            self.wf(),
            curr < self.inner.nodes.inner@.len(),
            dest < 128,
            forall|x: u8| call_requires(f, (x,)),
        ensures
            accepted_first(self.spec_next_nodes(curr, dest), f, r),
    {
        self.inner.next_node_with(curr, dest, f)
    }

    /// Given a current node and a destination node,
    /// return all neighboring nodes of current that are shortest paths to the destination node.
    ///
    /// The nodes come in ascending order.
    pub fn next_nodes(&self, curr: u8, dest: u8) -> (it: PrimNextNodes<'_>)
        requires
            self.wf(),
            curr < self.inner.nodes.inner@.len(),
            dest < 128,
        ensures
            it.wf(),
            it.remaining() == self.spec_next_nodes(curr, dest),
    {
        self.inner.next_nodes(curr, dest)
    }

    /// Given a current node and a destination node,
    /// return a path from the current node to the destination node.
    ///
    /// The path is a list of node IDs, starting with the next node (not current node!) and ending at the destination node.
    pub fn path_to(&self, curr: u8, dest: u8) -> (it: PrimPath<'_>)
        requires
            self.wf(),
            curr < self.inner.nodes.inner@.len(),
            dest < 128,
        ensures
            it.wf(),
            it.graph() == self.inner,
            it.curr() == curr,
            it.dest() == dest,
            !it.done(),
    {
        self.inner.path_to(curr, dest)
    }

    /// Return all neighboring nodes of the given node, in ascending order.
    pub fn neighbors(&self, node: u8) -> (it: NodeBitsIter)
        requires
            node < self.inner.nodes.inner@.len(),
        ensures
            it.node_bits == self.inner.nodes.inner@[node as int],
            it.pos == 0,
    {
        self.inner.neighbors(node)
    }

    /// Return the number of nodes in this graph.
    pub fn nodes_len(&self) -> (r: usize)
        ensures
            r == self.inner.nodes.inner@.len(),
    {
        self.inner.nodes_len()
    }

    /// Return the number of edges in this graph.
    pub fn edges_len(&self) -> (r: usize)
        ensures
            r == self.inner.edges@.dom().len(),
    {
        self.inner.edges_len()
    }
}

impl Graph128Builder {
    /// The builder is well formed and has at most 128 nodes.
    pub open spec fn wf(&self) -> bool {
        self.inner.wf() && self.inner.nodes.inner@.len() <= 128
    }

    /// A builder for a graph of `nodes_len` nodes, at most 128.
    pub fn new(nodes_len: usize) -> (r: Self)
        requires
            nodes_len <= 128,
        ensures
            r.wf(),
            r.inner.nodes.inner@ == Seq::new(nodes_len as nat, |a: int| 0u128),
            r.inner.tables() == (Tables { edges: Map::empty(), masks: Map::empty() }),
    {
        Graph128Builder { inner: PrimGraphBuilder::new(nodes_len) }
    }

    /// Add a edge between node_a and node_b
    pub fn connect(&mut self, a: u8, b: u8)
        requires
            old(self).wf(),
            a < old(self).inner.nodes.inner@.len(),
            b < old(self).inner.nodes.inner@.len(),
        ensures
            final(self).wf(),
            final(self).inner.nodes.sets() == sets_connect(
                old(self).inner.nodes.sets(),
                a as nat,
                b as nat,
            ),
            final(self).inner.tables() == tables_connect(
                old(self).inner.tables(),
                a as nat,
                b as nat,
            ),
    {
        self.inner.connect(a, b);
    }

    /// Remove the edge between node_a and node_b
    pub fn disconnect(&mut self, a: u8, b: u8)
        requires
            old(self).wf(),
            a < old(self).inner.nodes.inner@.len(),
            b < old(self).inner.nodes.inner@.len(),
        ensures
            final(self).wf(),
            final(self).inner.nodes.sets() == sets_disconnect(
                old(self).inner.nodes.sets(),
                a as nat,
                b as nat,
            ),
            final(self).inner.tables() == tables_disconnect(
                old(self).inner.tables(),
                a as nat,
                b as nat,
            ),
    {
        self.inner.disconnect(a, b);
    }

    /// Builds the graph and makes a builder of it again, in place. The
    /// builder of a graph starts from fresh rows, so the words and both
    /// tables are as they were.
    pub fn process(&mut self)
        requires
            old(self).wf(),
        ensures
            final(self).wf(),
            final(self).inner.nodes.inner@ == old(self).inner.nodes.inner@,
            final(self).inner.tables() == old(self).inner.tables(),
    {
        self.inner.process();
    }

    /// Runs the rounds until every node is done, and gives the graph with the
    /// decision rows that they leave.
    pub fn build(self) -> (g: Graph128)
        requires
            self.wf(),
        ensures
            g.wf(),
            g.inner.nodes.inner@ == self.inner.nodes.inner@,
            g.inner.solved(),
    {
        Graph128 { inner: self.inner.build() }
    }
}

} // verus!
