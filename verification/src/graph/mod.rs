//! General-use graph data structure and its builder.

use crate::bitvec::BitVec;
use crate::graph::model::{adj_wf, edge_key, fresh, is_edge, key_set, solve, Tables};
use crate::graph::nodes::{adj_connect, adj_disconnect, ids, Nodes};
use crate::graph::parallel::{ParaGraph, ParaGraphBuilder};
use crate::graph::sequential::{
    accepted_first, first_of, graph_wf, lemma_fresh_wf, next_nodes_of, tables_connect,
    tables_disconnect, tables_of, SeqGraph, SeqGraphBuilder,
};
use vstd::prelude::*;

pub mod correct;
pub mod distance;
pub mod engine;
pub mod model;
pub mod nodes;
pub mod parallel;
pub mod progress;
pub mod reach;
pub mod rounds;
pub mod rows;
pub mod sequential;
mod sealed;

use sealed::Sealed;

verus! {

/// Either u16 or u32: the type of a node id. No other type can have the trait.
pub trait U16orU32: Sealed {
    /// Maximum number of nodes that can be stored
    const MAX_NODES: usize;

    /// The node id as a number.
    spec fn index(self) -> nat;

    /// The number of values of the type.
    spec fn limit() -> nat;

    /// `MAX_NODES` as a number.
    spec fn max_nodes() -> nat;

    /// Two node ids with the same number are the same.
    proof fn lemma_index(a: Self, b: Self)
        ensures
            a.index() < Self::limit(),
            a.index() == b.index() ==> a == b,
    ;

    /// Every node of a graph of `MAX_NODES` nodes has an id, and ids fit in 32 bits.
    proof fn lemma_limits()
        ensures
            0 < Self::limit() <= 0x1_0000_0000,
            Self::MAX_NODES == Self::max_nodes(),
            Self::MAX_NODES <= Self::limit(),
            Self::MAX_NODES <= 0xffff_ffff,
    ;

    /// Cast type as usize.
    fn as_usize(self) -> (r: usize)
        ensures
            r == self.index(),
    ;

    /// Convert usize to NodeId, keeping the low bits that fit.
    fn from_usize(value: usize) -> (r: Self)
        ensures
            r.index() == value as nat % Self::limit(),
    ;
}

impl U16orU32 for u16 {
    const MAX_NODES: usize = 0x1_0000;

    open spec fn index(self) -> nat {
        self as nat
    }

    open spec fn limit() -> nat {
        0x1_0000
    }

    open spec fn max_nodes() -> nat {
        0x1_0000
    }

    proof fn lemma_index(a: Self, b: Self) {
    }

    proof fn lemma_limits() {
    }

    fn as_usize(self) -> (r: usize) {
        self as usize
    }

    fn from_usize(value: usize) -> (r: Self) {
        (value % 0x1_0000) as u16
    }
}

impl U16orU32 for u32 {
    /// One less than the number of values of `u32`: the greatest count
    /// that `usize` holds on a machine with addresses of 32 bits.
    const MAX_NODES: usize = 0xffff_ffff;

    open spec fn index(self) -> nat {
        self as nat
    }

    open spec fn limit() -> nat {
        0x1_0000_0000
    }

    open spec fn max_nodes() -> nat {
        0xffff_ffff
    }

    proof fn lemma_index(a: Self, b: Self) {
    }

    proof fn lemma_limits() {
    }

    fn as_usize(self) -> (r: usize) {
        self as usize
    }

    fn from_usize(value: usize) -> (r: Self) {
        ((value as u64) % 0x1_0000_0000u64) as u32
    }
}

/// Unweighted Undirected graph that can be used to find shortest paths between nodes.
///
/// All shortest paths between all nodes are already precomputed.
///
/// This graph is read-only.
///
/// If you want to add or remove edges, you can
/// convert it into a builder by calling `.into_builder()`.
#[derive(Debug)]
pub enum Graph<NodeId: U16orU32> {
    Sequential(SeqGraph<NodeId>),
    Parallel(ParaGraph<NodeId>),
}

/// An iterator that returns a path from the current node to the destination node.
///
/// Current node is not included in the path.
pub enum PathIter<'a, NodeId: U16orU32> {
    Sequential(sequential::PathIter<'a, NodeId>),
    Parallel(parallel::PathIter<'a, NodeId>),
}

impl<'a, NodeId: U16orU32> PathIter<'a, NodeId> {
    /// The neighbor lists of the graph that is walked.
    pub open spec fn nodes(&self) -> Nodes<NodeId> {
        match self {
            PathIter::Sequential(it) => it.nodes(),
            PathIter::Parallel(it) => it.nodes(),
        }
    }

    /// The rows of the graph that is walked.
    pub open spec fn tables(&self) -> Tables {
        match self {
            PathIter::Sequential(it) => it.tables(),
            PathIter::Parallel(it) => it.tables(),
        }
    }

    /// The node at which the walk stands.
    pub open spec fn curr(&self) -> NodeId {
        match self {
            PathIter::Sequential(it) => it.curr(),
            PathIter::Parallel(it) => it.curr(),
        }
    }

    /// The node to which the walk leads.
    pub open spec fn dest(&self) -> NodeId {
        match self {
            PathIter::Sequential(it) => it.dest(),
            PathIter::Parallel(it) => it.dest(),
        }
    }

    /// The graph is well formed and the walk stands at one of its nodes.
    pub open spec fn wf(&self) -> bool {
        match self {
            PathIter::Sequential(it) => it.wf(),
            PathIter::Parallel(it) => it.wf(),
        }
    }

    /// One step towards the destination: the first neighbor of the current
    /// node that leads there, to which the walk moves. `None`, and no move,
    /// at the destination and where no neighbor leads on.
    pub fn next(&mut self) -> (r: Option<NodeId>)
        requires
            old(self).wf(),
        ensures
            final(self).wf(),
            final(self).nodes() == old(self).nodes(),
            final(self).tables() == old(self).tables(),
            final(self).dest() == old(self).dest(),
            r == first_of(
                next_nodes_of(old(self).nodes(), old(self).tables(), old(self).curr(), old(self).dest()),
            ),
            final(self).curr() == match r {
                Some(v) => v,
                None => old(self).curr(),
            },
    {
        match self {
            PathIter::Sequential(it) => it.next(),
            PathIter::Parallel(it) => it.next(),
        }
    }
}

/// An iterator that returns neighboring nodes that are shortest paths to the destination node.
pub enum NextNodesIter<'a, NodeId: U16orU32> {
    Sequential(sequential::NeighborsToIter<'a, NodeId>),
    Parallel(parallel::NextNodesIter<'a, NodeId>),
}

impl<'a, NodeId: U16orU32> NextNodesIter<'a, NodeId> {
    /// The walk stands within the neighbor list of a node of a well-formed graph.
    pub open spec fn wf(&self) -> bool {
        match self {
            NextNodesIter::Sequential(it) => it.wf(),
            NextNodesIter::Parallel(it) => it.wf(),
        }
    }

    /// The nodes that are still to come.
    pub open spec fn remaining(&self) -> Seq<NodeId> {
        match self {
            NextNodesIter::Sequential(it) => it.remaining(),
            NextNodesIter::Parallel(it) => it.remaining(),
        }
    }

    /// The next neighbor that leads towards the destination.
    pub fn next(&mut self) -> (r: Option<NodeId>)
        requires
            old(self).wf(),
        ensures
            final(self).wf(),
            r == first_of(old(self).remaining()),
            final(self).remaining() == if r.is_some() {
                old(self).remaining().drop_first()
            } else {
                old(self).remaining()
            },
    {
        match self {
            NextNodesIter::Sequential(it) => it.next(),
            NextNodesIter::Parallel(it) => it.next(),
        }
    }
}

impl<NodeId: U16orU32> Graph<NodeId> {
    /// The neighbor lists.
    pub open spec fn nodes(&self) -> Nodes<NodeId> {
        match self {
            Graph::Sequential(g) => g.nodes,
            Graph::Parallel(g) => g.nodes,
        }
    }

    /// The decision rows.
    pub open spec fn edges(&self) -> Map<u64, BitVec> {
        match self {
            Graph::Sequential(g) => g.edges@,
            Graph::Parallel(g) => g.edges@,
        }
    }

    /// The mask rows.
    pub open spec fn masks(&self) -> Map<u64, BitVec> {
        match self {
            Graph::Sequential(g) => g.masks@,
            Graph::Parallel(g) => g.masks@,
        }
    }

    /// Both rows of every edge, as sets.
    pub open spec fn tables(&self) -> Tables {
        tables_of(self.edges(), self.masks())
    }

    /// The neighbor lists are those of a simple undirected graph, and there
    /// are two well-formed rows for each of its edges.
    pub open spec fn wf(&self) -> bool {
        graph_wf(self.nodes(), self.edges(), self.masks())
    }

    /// The rows are those that the computation gives for the graph.
    pub open spec fn solved(&self) -> bool {
        self.tables() == solve(self.nodes().adj())
    }

    /// The neighbors of `curr` that lead towards `dest`, in the order of the
    /// neighbor list; none where `curr` is `dest`.
    pub open spec fn spec_next_nodes(&self, curr: NodeId, dest: NodeId) -> Seq<NodeId> {
        next_nodes_of(self.nodes(), self.tables(), curr, dest)
    }

    /// Create a new GraphBuilder with the given number of nodes.
    ///
    /// The number of nodes must not exceed the limit of the NodeId type.
    ///
    /// `u16` can hold up to 65536 nodes.
    /// If you need more nodes, you can specify u32 as the NodeId type, like `Graph::<u32>::builder(100_000)`
    pub fn builder(nodes_len: usize) -> (r: GraphBuilder<NodeId>)
        requires
            nodes_len <= NodeId::max_nodes(),
        ensures
            r.wf(),
            r.adj() == Seq::new(nodes_len as nat, |a: int| Seq::<nat>::empty()),
            r.tables() == (Tables { edges: Map::empty(), masks: Map::empty() }),
            !r.parallel(),
    {
        GraphBuilder::new(nodes_len)
    }

    /// Converts this graph into a builder, for the engine that built the graph.
    ///
    /// The builder has the nodes and edges of the graph; what was computed
    /// for them is dropped.
    pub fn into_builder(self) -> (b: GraphBuilder<NodeId>)
        requires
            self.wf(),
        ensures
            b.wf(),
            b.adj() == self.nodes().adj(),
            b.lists() == Seq::new(
                self.nodes().inner@.len(),
                |a: int| self.nodes().inner@[a]@,
            ),
            b.tables() == fresh(self.nodes().adj()),
            b.tables().edges.dom() == self.edges().dom(),
            b.parallel() == (self is Parallel),
    {
        proof {
            lemma_fresh_wf(self.nodes().adj());
        }
        let nodes_len: usize = self.nodes_len();
        match self {
            Graph::Sequential(graph) => GraphBuilder {
                inner: GraphBuilderEnum::Sequential(graph.into_builder()),
                multi_threaded: Some(false),
                nodes_len,
            },
            Graph::Parallel(graph) => GraphBuilder {
                inner: GraphBuilderEnum::Parallel(graph.into_builder()),
                multi_threaded: Some(true),
                nodes_len,
            },
        }
    }

    /// Given a current node and a destination node,
    /// return the first neighboring node that is the shortest path to the destination node.
    ///
    /// This operation is very fast as all paths for all nodes are precomputed.
    ///
    /// `None` is returned when:
    /// - `curr` and `dest` are the same node
    /// - `curr` has no path to `dest`
    ///
    /// **Note:** In case there are multiple neighboring nodes that lead to the destination node,
    /// the first one in the neighbor list of `curr` will be returned.
    pub fn next_node(&self, curr: NodeId, dest: NodeId) -> (r: Option<NodeId>)
        requires
            self.wf(),
            curr.index() < self.nodes().inner@.len(),
        ensures
            r == first_of(self.spec_next_nodes(curr, dest)),
    {
        match self {
            Graph::Sequential(graph) => graph.neighbor_to(curr, dest),
            Graph::Parallel(graph) => graph.next_node(curr, dest),
        }
    }

    /// Given a current node and a destination node, and a filter function,
    /// return the neighboring node of current that is the shortest path to the destination node.
    ///
    /// This may be useful if you want some custom behavior when choosing the next node.
    ///
    /// `None` is returned when:
    /// - `curr` and `dest` are the same node
    /// - `curr` has no path to `dest`
    /// - The filter function returns `false` for all neighboring nodes
    pub fn next_node_with<F: Fn(NodeId) -> bool>(&self, curr: NodeId, dest: NodeId, f: F) -> (r:
        Option<NodeId>)
        requires
            self.wf(),
            curr.index() < self.nodes().inner@.len(),
            forall|x: NodeId| call_requires(f, (x,)),
        ensures
            accepted_first(self.spec_next_nodes(curr, dest), f, r),
    {
        match self {
            Graph::Sequential(graph) => graph.neighbor_to_with(curr, dest, f),
            Graph::Parallel(graph) => graph.next_node_with(curr, dest, f),
        }
    }

    /// Given a current node and a destination node,
    /// return all neighboring nodes of current that are shortest paths to the destination node.
    ///
    /// The nodes come in the order of the neighbor list of `curr`.
    pub fn next_nodes(&self, curr: NodeId, dest: NodeId) -> (it: NextNodesIter<'_, NodeId>)
        requires
            self.wf(),
            curr.index() < self.nodes().inner@.len(),
        ensures
            it.wf(),
            it.remaining() == self.spec_next_nodes(curr, dest),
    {
        match self {
            Graph::Sequential(graph) => NextNodesIter::Sequential(graph.neighbors_to(curr, dest)),
            Graph::Parallel(graph) => NextNodesIter::Parallel(graph.next_nodes(curr, dest)),
        }
    }

    /// Given a current node and a destination node,
    /// return a path from the current node to the destination node.
    ///
    /// The path is a list of node IDs, starting with the next node (not current node!) and ending at the destination node.
    pub fn path_to(&self, curr: NodeId, dest: NodeId) -> (it: PathIter<'_, NodeId>)
        requires
            self.wf(),
            curr.index() < self.nodes().inner@.len(),
        ensures
            it.wf(),
            it.nodes() == self.nodes(),
            it.tables() == self.tables(),
            it.curr() == curr,
            it.dest() == dest,
    {
        match self {
            Graph::Sequential(graph) => PathIter::Sequential(graph.path_to(curr, dest)),
            Graph::Parallel(graph) => PathIter::Parallel(graph.path_to(curr, dest)),
        }
    }

    /// Check if there is a path from the current node to the destination node.
    pub fn path_exists(&self, curr: NodeId, dest: NodeId) -> (r: bool)
        requires
            self.wf(),
            curr.index() < self.nodes().inner@.len(),
        ensures
            r == (curr == dest || self.spec_next_nodes(curr, dest).len() > 0),
    {
        match self {
            Graph::Sequential(graph) => graph.path_exists(curr, dest),
            Graph::Parallel(graph) => graph.path_exists(curr, dest),
        }
    }

    /// Return a list of all neighboring nodes of the given node.
    pub fn neighbors(&self, node: NodeId) -> (r: &[NodeId])
        requires
            node.index() < self.nodes().inner@.len(),
        ensures
            r@ == self.nodes().inner@[node.index() as int]@,
    {
        match self {
            Graph::Sequential(graph) => graph.neighbors(node),
            Graph::Parallel(graph) => graph.neighbors(node),
        }
    }

    /// Return the number of nodes in the graph.
    pub fn nodes_len(&self) -> (r: usize)
        ensures
            r == self.nodes().adj().len(),
    {
        match self {
            Graph::Sequential(graph) => graph.nodes_len(),
            Graph::Parallel(graph) => graph.nodes_len(),
        }
    }

    /// Return the number of edges in the graph.
    pub fn edges_len(&self) -> (r: usize)
        ensures
            r == self.edges().dom().len(),
    {
        match self {
            Graph::Sequential(graph) => graph.edges_len(),
            Graph::Parallel(graph) => graph.edges_len(),
        }
    }
}

/// A builder for creating a new graph and all shortest paths.
#[derive(Debug)]
pub struct GraphBuilder<NodeId: U16orU32> {
    inner: GraphBuilderEnum<NodeId>,
    multi_threaded: Option<bool>,
    nodes_len: usize,
}

#[derive(Debug)]
enum GraphBuilderEnum<NodeId: U16orU32> {
    Sequential(SeqGraphBuilder<NodeId>),
    Parallel(ParaGraphBuilder<NodeId>),
    /// No engine has been chosen yet.
    Unset,
}

impl<NodeId: U16orU32> GraphBuilderEnum<NodeId> {
    fn is_none(&self) -> (r: bool)
        ensures
            r == (self is Unset),
    {
        matches!(self, GraphBuilderEnum::Unset)
    }

    /// Makes the builder of the engine that was asked for: the parallel one
    /// where `multi_threaded` is `Some(true)`, else the sequential one.
    fn set_builder(&mut self, nodes_len: usize, multi_threaded: Option<bool>)
        requires
            nodes_len <= NodeId::max_nodes(),
        ensures
            match *final(self) {
                GraphBuilderEnum::Sequential(b) => multi_threaded != Some(true) && b.wf()
                    && b.nodes.adj() == Seq::new(nodes_len as nat, |a: int| Seq::<nat>::empty())
                    && b.tables() == (Tables { edges: Map::empty(), masks: Map::empty() }),
                GraphBuilderEnum::Parallel(b) => multi_threaded == Some(true) && b.wf()
                    && b.nodes.adj() == Seq::new(nodes_len as nat, |a: int| Seq::<nat>::empty())
                    && b.tables() == (Tables { edges: Map::empty(), masks: Map::empty() }),
                GraphBuilderEnum::Unset => false,
            },
    {
        let parallel: bool = match multi_threaded {
            Some(m) => m,
            None => false,
        };
        let builder = if parallel {
            GraphBuilderEnum::Parallel(ParaGraphBuilder::new(nodes_len))
        } else {
            GraphBuilderEnum::Sequential(SeqGraphBuilder::new(nodes_len))
        };
        *self = builder;
    }
}

impl<NodeId: U16orU32> GraphBuilder<NodeId> {
    /// The neighbor lists as numbers.
    pub closed spec fn adj(&self) -> Seq<Seq<nat>> {
        match self.inner {
            GraphBuilderEnum::Sequential(b) => b.nodes.adj(),
            GraphBuilderEnum::Parallel(b) => b.nodes.adj(),
            GraphBuilderEnum::Unset => Seq::new(self.nodes_len as nat, |a: int| Seq::<nat>::empty()),
        }
    }

    /// The neighbor list of each node.
    pub closed spec fn lists(&self) -> Seq<Seq<NodeId>> {
        match self.inner {
            GraphBuilderEnum::Sequential(b) => Seq::new(
                b.nodes.inner@.len(),
                |a: int| b.nodes.inner@[a]@,
            ),
            GraphBuilderEnum::Parallel(b) => Seq::new(
                b.nodes.inner@.len(),
                |a: int| b.nodes.inner@[a]@,
            ),
            GraphBuilderEnum::Unset => Seq::new(
                self.nodes_len as nat,
                |a: int| Seq::<NodeId>::empty(),
            ),
        }
    }

    /// The rows of both tables as sets.
    pub closed spec fn tables(&self) -> Tables {
        match self.inner {
            GraphBuilderEnum::Sequential(b) => b.tables(),
            GraphBuilderEnum::Parallel(b) => b.tables(),
            GraphBuilderEnum::Unset => Tables { edges: Map::empty(), masks: Map::empty() },
        }
    }

    /// Whether the graph will be built by the parallel engine.
    pub closed spec fn parallel(&self) -> bool {
        match self.inner {
            GraphBuilderEnum::Sequential(b) => false,
            GraphBuilderEnum::Parallel(b) => true,
            GraphBuilderEnum::Unset => self.multi_threaded == Some(true),
        }
    }

    /// The neighbor lists are those of a simple undirected graph, and both
    /// tables hold a well-formed row for each of its edges.
    pub closed spec fn wf(&self) -> bool {
        &&& self.nodes_len <= NodeId::max_nodes()
        &&& match self.inner {
            GraphBuilderEnum::Sequential(b) => b.wf() && b.nodes.inner@.len() == self.nodes_len,
            GraphBuilderEnum::Parallel(b) => b.wf() && b.nodes.inner@.len() == self.nodes_len,
            GraphBuilderEnum::Unset => true,
        }
    }

    /// What a well-formed builder holds: the neighbor lists of a simple
    /// undirected graph, the same as numbers and as node ids, and the fresh
    /// rows of that graph.
    pub proof fn lemma_wf(&self)
        requires
            self.wf(),
        ensures
            adj_wf(self.adj()),
            self.adj().len() <= NodeId::max_nodes(),
            self.tables() == fresh(self.adj()),
            self.tables().edges.dom() == key_set(self.adj()),
            self.lists().len() == self.adj().len(),
            forall|a: int|
                0 <= a < self.lists().len() ==> ids(#[trigger] self.lists()[a]) == self.adj()[a],
    {
        lemma_fresh_wf(self.adj());
        NodeId::lemma_limits();
        match self.inner {
            GraphBuilderEnum::Unset => {
                let adj = self.adj();
                assert forall|a: nat, b: nat| !is_edge(adj, a, b) by {
                    if a < adj.len() {
                        assert(adj[a as int] =~= Seq::<nat>::empty());
                    }
                }
                assert(adj_wf(adj));
                assert(key_set(adj) =~= Set::<u64>::empty()) by {
                    assert forall|k: u64| !key_set(adj).contains(k) by {
                        if key_set(adj).contains(k) {
                            let (a, b) = choose|a: nat, b: nat|
                                is_edge(adj, a, b) && k == edge_key(a, b);
                            assert(adj[a as int].contains(b));
                        }
                    }
                }
                assert(fresh(adj).edges =~= Map::<u64, Set<nat>>::empty());
                assert(fresh(adj).masks =~= Map::<u64, Set<nat>>::empty());
                assert forall|a: int| 0 <= a < self.lists().len() implies ids(
                    #[trigger] self.lists()[a],
                ) == self.adj()[a] by {
                    assert(ids(self.lists()[a]) =~= self.adj()[a]);
                }
            },
            _ => {},
        }
    }

    /// A builder for a graph of `nodes_len` nodes, for the sequential engine.
    pub fn new(nodes_len: usize) -> (r: Self)
        requires
            nodes_len <= NodeId::max_nodes(),
        ensures
            r.wf(),
            r.adj() == Seq::new(nodes_len as nat, |a: int| Seq::<nat>::empty()),
            r.tables() == (Tables { edges: Map::empty(), masks: Map::empty() }),
            !r.parallel(),
    {
        GraphBuilder { inner: GraphBuilderEnum::Unset, multi_threaded: None, nodes_len }
    }

    /// Chooses the engine: the parallel one for `true`, the sequential one
    /// for `false`. Once an edge has been added or removed, the engine stays
    /// as it is.
    pub fn multi_threaded(self, multi_threaded: bool) -> (r: Self)
        requires
            self.wf(),
        ensures
            r.wf(),
            r.adj() == self.adj(),
            r.tables() == self.tables(),
            r.parallel() == if self.untouched() {
                multi_threaded
            } else {
                self.parallel()
            },
            r.untouched() == self.untouched(),
    {
        let mut r = self;
        r.multi_threaded = Some(multi_threaded);
        r
    }

    /// No edge has been added or removed yet.
    pub closed spec fn untouched(&self) -> bool {
        self.inner is Unset
    }

    /// Add an edge between node_a and node_b
    pub fn connect(&mut self, a: NodeId, b: NodeId)
        requires
            old(self).wf(),
            a.index() < old(self).adj().len(),
            b.index() < old(self).adj().len(),
        ensures
            final(self).wf(),
            final(self).adj() == adj_connect(old(self).adj(), a.index(), b.index()),
            final(self).tables() == tables_connect(old(self).tables(), a.index(), b.index()),
            final(self).parallel() == old(self).parallel(),
            !final(self).untouched(),
    {
        if self.inner.is_none() {
            self.inner.set_builder(self.nodes_len, self.multi_threaded);
        }
        match &mut self.inner {
            GraphBuilderEnum::Sequential(builder) => builder.connect(a, b),
            GraphBuilderEnum::Parallel(builder) => builder.connect(a, b),
            GraphBuilderEnum::Unset => {},
        }
    }

    /// Remove an edge between node_a and node_b
    pub fn disconnect(&mut self, a: NodeId, b: NodeId)
        requires
            old(self).wf(),
            a.index() < old(self).adj().len(),
            b.index() < old(self).adj().len(),
        ensures
            final(self).wf(),
            final(self).adj() == adj_disconnect(old(self).adj(), a.index(), b.index()),
            final(self).tables() == tables_disconnect(old(self).tables(), a.index(), b.index()),
            final(self).parallel() == old(self).parallel(),
            !final(self).untouched(),
    {
        if self.inner.is_none() {
            self.inner.set_builder(self.nodes_len, self.multi_threaded);
        }
        match &mut self.inner {
            GraphBuilderEnum::Sequential(builder) => builder.disconnect(a, b),
            GraphBuilderEnum::Parallel(builder) => builder.disconnect(a, b),
            GraphBuilderEnum::Unset => {},
        }
    }

    /// Runs the rounds and gives the graph: it has the nodes and edges of
    /// the builder and the rows that the rounds leave, whichever engine ran
    /// them.
    pub fn build(self) -> (g: Graph<NodeId>)
        requires
            self.wf(),
        ensures
            g.wf(),
            g.nodes().adj() == self.adj(),
            g.nodes().inner@.len() == self.lists().len(),
            forall|a: int|
                0 <= a < self.lists().len() ==> (#[trigger] g.nodes().inner@[a])@
                    == self.lists()[a],
            g.edges().dom() == self.tables().edges.dom(),
            (g is Parallel) == self.parallel(),
            g.solved(),
    {
        proof {
            lemma_fresh_wf(self.adj());
        }
        let mut builder = self.inner;
        if builder.is_none() {
            builder.set_builder(self.nodes_len, self.multi_threaded);
        }
        let ghost lists = self.lists();
        let g = match builder {
            GraphBuilderEnum::Sequential(builder) => Graph::Sequential(builder.build()),
            GraphBuilderEnum::Parallel(builder) => Graph::Parallel(builder.build()),
            GraphBuilderEnum::Unset => Graph::Sequential(SeqGraphBuilder::new(0).build()),
        };
        proof {
            assert(g.nodes().inner@.len() == lists.len());
            assert forall|a: int| 0 <= a < lists.len() implies (#[trigger] g.nodes().inner@[a])@
                == lists[a] by {
                if self.inner is Unset {
                    assert(ids(g.nodes().inner@[a]@) == g.nodes().adj()[a]);
                    assert(g.nodes().inner@[a]@ =~= lists[a]);
                }
            }
        }
        g
    }

    /// Return the number of nodes in this graph.
    pub fn nodes_len(&self) -> (r: usize)
        requires
            self.wf(),
        ensures
            r == self.adj().len(),
    {
        match &self.inner {
            GraphBuilderEnum::Sequential(builder) => builder.nodes_len(),
            GraphBuilderEnum::Parallel(builder) => builder.nodes_len(),
            GraphBuilderEnum::Unset => self.nodes_len,
        }
    }

    /// Return the number of edges in this graph.
    pub fn edges_len(&self) -> (r: usize)
        ensures
            r == self.tables().edges.dom().len(),
    {
        match &self.inner {
            GraphBuilderEnum::Sequential(builder) => builder.edges_len(),
            GraphBuilderEnum::Parallel(builder) => builder.edges_len(),
            GraphBuilderEnum::Unset => 0,
        }
    }

    /// Return the neighbors of the given node.
    pub fn neighbors(&self, node: NodeId) -> (r: &[NodeId])
        requires
            self.wf(),
            node.index() < self.adj().len(),
        ensures
            r@ == self.lists()[node.index() as int],
            ids(r@) == self.adj()[node.index() as int],
    {
        match &self.inner {
            GraphBuilderEnum::Sequential(builder) => builder.neighbors(node),
            GraphBuilderEnum::Parallel(builder) => builder.neighbors(node),
            GraphBuilderEnum::Unset => &[],
        }
    }
}

} // verus!
