//! The engine that has worker threads work out the visits of a round.
//!
//! A visit reads the rows of the edges at its node, and the visits of one
//! round come in the order of the nodes. So the workers work out ahead, for
//! a chunk of nodes at a time, what each visit finds on the rows as they
//! are; the visits are then made in order, and one whose rows an earlier
//! visit of the chunk has written to is worked out anew. After the visits
//! the workers move the frontiers on, each node by itself. The rows that a
//! round leaves are those of the sequential engine.

use crate::bitvec::atomic_bitvec::{digits_for, AtomicBitVec};
use crate::bitvec::BitVec;
use crate::graph::engine::{
    apply_rows, depth_wf, edge_key_of, fronts_of, moved, moved_to, rows_wf, views, visited_of,
};
use crate::graph::model::{
    edge_key, fresh, full, local, next_frontier, next_frontiers, next_visited, next_visiteds,
    pass, solve, tables_wf, visit, Pass, Tables,
};
use crate::graph::nodes::{adj_connect, adj_disconnect, ids, lemma_edge_key_injective, Nodes};
use crate::graph::rounds::run_rounds;
use crate::graph::rows::lemma_merge_rows;
use crate::graph::sequential::{
    accepted_first, builder_wf, connect_edge, decide, disconnect_edge, first_of, first_towards,
    first_towards_with, found_at, graph_wf, lemma_row_exists, next_nodes_of, tables_connect,
    tables_disconnect, tables_of, NeighborsToIter, SeqGraph, SeqGraphBuilder,
};
use crate::graph::U16orU32;
use rayon::iter::{IntoParallelIterator, ParallelIterator};
use std::collections::HashMap;
use vstd::prelude::*;

verus! {

/// Map of edges and their shortest paths to other nodes, with rows that
/// several threads can write to.
///
/// key: the key of the edge
///
/// value: for each bit, if this edge is the shortest path
/// to that bit location's node, bit is set to 1
#[derive(Debug)]
pub struct Edges {
    pub inner: HashMap<u64, AtomicBitVec>,
}

impl Edges {
    /// A table without rows.
    pub fn new() -> (r: Self)
        ensures
            r.inner@ == Map::<u64, AtomicBitVec>::empty(),
    {
        Edges { inner: HashMap::new() }
    }

    /// Every row has the digits for `n` bits.
    pub open spec fn rows_of_len(&self, n: nat) -> bool {
        forall|k: u64| self.inner@.contains_key(k) ==> (#[trigger] self.inner@[k]).0@.len() == n
    }

    /// Return the shortest-paths-indicating bit vector.
    pub fn get<NodeId: U16orU32>(&self, edge_id: (NodeId, NodeId)) -> (r: Option<&AtomicBitVec>)
        ensures
            match r {
                Some(v) => self.inner@.contains_key(edge_key(edge_id.0.index(), edge_id.1.index()))
                    && *v == self.inner@[edge_key(edge_id.0.index(), edge_id.1.index())],
                None => !self.inner@.contains_key(
                    edge_key(edge_id.0.index(), edge_id.1.index()),
                ),
            },
    {
        proof {
            NodeId::lemma_index(edge_id.0, edge_id.1);
            NodeId::lemma_index(edge_id.1, edge_id.0);
            NodeId::lemma_limits();
        }
        let k: u64 = edge_key_of(edge_id.0.as_usize(), edge_id.1.as_usize());
        self.inner.get(&k)
    }

    /// Insert a new edge with its shortest paths, in a row for `nodes_len` bits.
    ///
    /// If the edge already exists, the shortest paths will be merged.
    pub fn insert<NodeId: U16orU32>(
        &mut self,
        edge_id: (NodeId, NodeId),
        val: BitVec,
        nodes_len: usize,
    )
        requires
            old(self).rows_of_len(digits_for(nodes_len as nat)),
            val.0@.len() <= digits_for(nodes_len as nat),
        ensures
            final(self).rows_of_len(digits_for(nodes_len as nat)),
            final(self).inner@.dom() == old(self).inner@.dom().insert(
                edge_key(edge_id.0.index(), edge_id.1.index()),
            ),
    {
        proof {
            NodeId::lemma_index(edge_id.0, edge_id.1);
            NodeId::lemma_index(edge_id.1, edge_id.0);
            NodeId::lemma_limits();
        }
        let k: u64 = edge_key_of(edge_id.0.as_usize(), edge_id.1.as_usize());
        match self.inner.get(&k) {
            Some(bits) => {
                bits.bitor_assign(&val);
                assert(self.inner@.dom() =~= old(self).inner@.dom().insert(k));
            },
            None => {
                self.inner.insert(k, AtomicBitVec::from_bitvec(&val, nodes_len));
            },
        }
    }

    /// Update the shortest paths for the given edge: the bits of `val` are
    /// set in its row. An edge without a row is left out.
    pub fn update<NodeId: U16orU32>(&self, edge_id: (NodeId, NodeId), val: BitVec) {
        if let Some(bits) = self.get(edge_id) {
            bits.bitor_assign(&val);
        }
    }

    /// Sets the bits of `val` in the row with key `k`, if there is one.
    pub fn update_key(&self, k: u64, val: &BitVec) {
        if let Some(bits) = self.inner.get(&k) {
            bits.bitor_assign(val);
        }
    }
}

/// What the visit of node `a` would find on the rows as they are now;
/// `None` for a node that is done already.
fn guess_at<NodeId: U16orU32>(
    nodes: &Nodes<NodeId>,
    edges: &HashMap<u64, BitVec>,
    masks: &HashMap<u64, BitVec>,
    depth: &Vec<(BitVec, BitVec)>,
    full_mask: &BitVec,
    done_nodes: &BitVec,
    a: usize,
) -> (r: Option<(Vec<BitVec>, Vec<BitVec>, BitVec)>)
    requires
        nodes.wf(),
        tables_wf(nodes.adj(), tables_of(edges@, masks@)),
        rows_wf(edges@),
        rows_wf(masks@),
        depth@.len() == nodes.inner@.len(),
        depth_wf(depth@, nodes.inner@.len() as nat),
        a < nodes.inner@.len(),
        full_mask.wf(),
        full_mask@ == full(nodes.inner@.len() as nat),
    ensures
        guessed(
            nodes.adj(),
            tables_of(edges@, masks@),
            fronts_of(depth@),
            done_nodes@,
            nodes.inner@.len() as nat,
            a as nat,
            r,
        ),
{
    if done_nodes.get_bit(a) {
        None
    } else {
        decide(nodes, edges, masks, depth, full_mask, a)
    }
}

/// Whether `r` is what `guess_at` gives for node `a`: anything for a node
/// that is done, else what its visit finds.
pub open spec fn guessed(
    adj: Seq<Seq<nat>>,
    t: Tables,
    fr: Seq<Set<nat>>,
    done: Set<nat>,
    n: nat,
    a: nat,
    r: Option<(Vec<BitVec>, Vec<BitVec>, BitVec)>,
) -> bool {
    done.contains(a) || found_at(adj, t, fr, n, a, r)
}

/// What `guess_at` gives for each of the nodes from `lo` up to `hi`, each
/// worked out on a worker thread. Through `into_par_iter`, `map` and
/// `collect` of rayon: the result holds what the function gives for each
/// node of the range, in the order of the nodes.
#[verifier::external_body]
fn par_decide<NodeId: U16orU32>(
    nodes: &Nodes<NodeId>,
    edges: &HashMap<u64, BitVec>,
    masks: &HashMap<u64, BitVec>,
    depth: &Vec<(BitVec, BitVec)>,
    full_mask: &BitVec,
    done_nodes: &BitVec,
    lo: usize,
    hi: usize,
) -> (r: Vec<Option<(Vec<BitVec>, Vec<BitVec>, BitVec)>>)
    requires
        nodes.wf(),
        tables_wf(nodes.adj(), tables_of(edges@, masks@)),
        rows_wf(edges@),
        rows_wf(masks@),
        depth@.len() == nodes.inner@.len(),
        depth_wf(depth@, nodes.inner@.len() as nat),
        lo <= hi <= nodes.inner@.len(),
        full_mask.wf(),
        full_mask@ == full(nodes.inner@.len() as nat),
    ensures
        r@.len() == hi - lo,
        forall|i: int|
            0 <= i < r@.len() ==> guessed(
                nodes.adj(),
                tables_of(edges@, masks@),
                fronts_of(depth@),
                done_nodes@,
                nodes.inner@.len() as nat,
                (lo + i) as nat,
                #[trigger] r@[i],
            ),
{
    (lo..hi).into_par_iter().map(
        |a| guess_at(nodes, edges, masks, depth, full_mask, done_nodes, a),
    ).collect()
}

/// The rows of the edges at node `x` are the same in `t` and in `t2`.
pub open spec fn same_rows_at(adj: Seq<Seq<nat>>, t: Tables, t2: Tables, x: nat) -> bool {
    forall|i: int|
        0 <= i < adj[x as int].len() ==> {
            let k = #[trigger] edge_key(x, adj[x as int][i]);
            t.edges[k] == t2.edges[k] && t.masks[k] == t2.masks[k]
        }
}

/// A node sees the same on two tables that agree on the rows of its edges.
proof fn lemma_same_local(adj: Seq<Seq<nat>>, t: Tables, t2: Tables, fr: Seq<Set<nat>>, x: nat)
    requires
        same_rows_at(adj, t, t2, x),
    ensures
        local(adj, t, fr, x) == local(adj, t2, fr, x),
{
    let l = local(adj, t, fr, x);
    let l2 = local(adj, t2, fr, x);
    assert forall|i: int| 0 <= i < adj[x as int].len() implies l.vals[i] == l2.vals[i]
        && l.masks[i] == l2.masks[i] by {
        let k = edge_key(x, adj[x as int][i]);
    }
    assert(l.vals =~= l2.vals);
    assert(l.masks =~= l2.masks);
}

/// Writes what the visit of node `a` found: a node that is done is noted in
/// `found`; else the bits go to the rows of its edges, the neighbors that
/// told something are added to `active`, and each neighbor from `lo` on is
/// marked in `touched`, because a row of one of its edges may have changed.
fn apply_found<NodeId: U16orU32>(
    nodes: &Nodes<NodeId>,
    edges: &mut HashMap<u64, BitVec>,
    masks: &mut HashMap<u64, BitVec>,
    active: &mut BitVec,
    found: &mut BitVec,
    touched: &mut Vec<bool>,
    lo: usize,
    a: usize,
    r: &Option<(Vec<BitVec>, Vec<BitVec>, BitVec)>,
    Ghost(fr): Ghost<Seq<Set<nat>>>,
)
    requires
        nodes.wf(),
        tables_wf(nodes.adj(), tables_of(old(edges)@, old(masks)@)),
        rows_wf(old(edges)@),
        rows_wf(old(masks)@),
        a < nodes.inner@.len(),
        old(active).wf(),
        old(active)@.subset_of(full(nodes.inner@.len() as nat)),
        old(found).wf(),
        lo + old(touched)@.len() <= usize::MAX,
        found_at(
            nodes.adj(),
            tables_of(old(edges)@, old(masks)@),
            fr,
            nodes.inner@.len() as nat,
            a as nat,
            *r,
        ),
    ensures
        tables_wf(nodes.adj(), tables_of(final(edges)@, final(masks)@)),
        rows_wf(final(edges)@),
        rows_wf(final(masks)@),
        final(active).wf(),
        final(active)@.subset_of(full(nodes.inner@.len() as nat)),
        final(found).wf(),
        final(touched)@.len() == old(touched)@.len(),
        forall|i: int| 0 <= i < old(touched)@.len() && old(touched)@[i] ==> final(touched)@[i],
        ({
            let p = Pass {
                tables: tables_of(old(edges)@, old(masks)@),
                done: old(found)@,
                active: old(active)@,
            };
            let q = visit(nodes.adj(), p, fr, a as nat);
            &&& tables_of(final(edges)@, final(masks)@) == q.tables
            &&& final(found)@ == q.done
            &&& final(active)@ == q.active
        }),
        forall|x: nat|
            lo <= x < lo + old(touched)@.len() && x < nodes.inner@.len() && x != a
                && !#[trigger] final(touched)@[x - lo] ==> same_rows_at(
                nodes.adj(),
                tables_of(final(edges)@, final(masks)@),
                tables_of(old(edges)@, old(masks)@),
                x,
            ),
{
    let ghost adj = nodes.adj();
    let ghost t = tables_of(edges@, masks@);
    let ghost t_len = touched@.len();
    match r {
        None => {
            found.set_bit(a, true);
        },
        Some((ups, cps, act)) => {
            let nbrs: &[NodeId] = nodes.inner[a].as_slice();
            proof {
                assert(ids(nbrs@) == adj[a as int]);
                assert forall|j: int| 0 <= j < nbrs@.len() implies {
                    let k = #[trigger] edge_key(a as nat, nbrs@[j].index());
                    edges@.contains_key(k) && masks@.contains_key(k)
                } by {
                    lemma_row_exists(adj, t, a as nat, j);
                    assert(adj[a as int][j] == nbrs@[j].index());
                }
                assert forall|i: int| 0 <= i < adj[a as int].len() implies t.edges.contains_key(
                    #[trigger] edge_key(a as nat, adj[a as int][i]),
                ) && t.masks.contains_key(edge_key(a as nat, adj[a as int][i])) by {
                    lemma_row_exists(adj, t, a as nat, i);
                }
                lemma_merge_rows(adj, t, a as nat, views(ups@), views(cps@), nbrs@.len() as nat);
            }
            apply_rows(a, nbrs, edges, masks, ups, cps);
            active.bitor_assign(act);
            let d: usize = nbrs.len();
            let mut j: usize = 0;
            while j < d
                invariant
                    j <= d,
                    d == nbrs@.len(),
                    touched@.len() == t_len,
                    lo + t_len <= usize::MAX,
                    forall|i: int| 0 <= i < t_len && old(touched)@[i] ==> touched@[i],
                    forall|i: int|
                        0 <= i < j && lo <= (#[trigger] nbrs@[i]).index() < lo + t_len
                            ==> touched@[nbrs@[i].index() - lo],
                decreases d - j,
            {
                let x: usize = nbrs[j].as_usize();
                if lo <= x && x - lo < touched.len() {
                    touched[x - lo] = true;
                }
                j += 1;
            }
            proof {
                let t2 = tables_of(edges@, masks@);
                assert forall|x: nat|
                    lo <= x < lo + t_len && x < nodes.inner@.len() && x != a
                        && !#[trigger] touched@[x - lo] implies same_rows_at(adj, t2, t, x) by {
                    assert forall|i: int| 0 <= i < adj[x as int].len() implies {
                        let k = #[trigger] edge_key(x, adj[x as int][i]);
                        t2.edges[k] == t.edges[k] && t2.masks[k] == t.masks[k]
                    } by {
                        let y = adj[x as int][i];
                        let k = edge_key(x, y);
                        assert(y < adj.len());
                        assert forall|jj: int| 0 <= jj < nbrs@.len() implies k != #[trigger] edge_key(
                            a as nat,
                            adj[a as int][jj],
                        ) by {
                            let c = adj[a as int][jj];
                            assert(c < adj.len());
                            if k == edge_key(a as nat, c) {
                                lemma_edge_key_injective(x, y, a as nat, c);
                                assert(x == c);
                                assert(nbrs@[jj].index() == x);
                                assert(touched@[nbrs@[jj].index() - lo]);
                            }
                        }
                    }
                }
            }
        },
    }
}

/// The visits of the nodes from `lo` up to `hi`, in ascending order, after
/// those of the nodes below `lo`. What each visit finds is taken from
/// `guesses`, which were made on the rows as they were before the first of
/// these visits, unless a row at the node has been written to since: then
/// the visit is worked out anew.
fn merge_chunk<NodeId: U16orU32>(
    nodes: &Nodes<NodeId>,
    edges: &mut HashMap<u64, BitVec>,
    masks: &mut HashMap<u64, BitVec>,
    depth: &Vec<(BitVec, BitVec)>,
    full_mask: &BitVec,
    done_nodes: &BitVec,
    active: &mut BitVec,
    found: &mut BitVec,
    lo: usize,
    hi: usize,
    guesses: &Vec<Option<(Vec<BitVec>, Vec<BitVec>, BitVec)>>,
    Ghost(t0): Ghost<Tables>,
)
    requires
        nodes.wf(),
        tables_wf(nodes.adj(), tables_of(old(edges)@, old(masks)@)),
        rows_wf(old(edges)@),
        rows_wf(old(masks)@),
        depth@.len() == nodes.inner@.len(),
        depth_wf(depth@, nodes.inner@.len() as nat),
        full_mask.wf(),
        full_mask@ == full(nodes.inner@.len() as nat),
        done_nodes.wf(),
        old(active).wf(),
        old(active)@.subset_of(full(nodes.inner@.len() as nat)),
        old(found).wf(),
        lo <= hi <= nodes.inner@.len(),
        guesses@.len() == hi - lo,
        forall|i: int|
            0 <= i < guesses@.len() ==> guessed(
                nodes.adj(),
                tables_of(old(edges)@, old(masks)@),
                fronts_of(depth@),
                done_nodes@,
                nodes.inner@.len() as nat,
                (lo + i) as nat,
                #[trigger] guesses@[i],
            ),
        ({
            let p = pass(nodes.adj(), t0, fronts_of(depth@), done_nodes@, lo as nat);
            &&& tables_of(old(edges)@, old(masks)@) == p.tables
            &&& old(found)@ == p.done
            &&& old(active)@ == p.active
        }),
    ensures
        tables_wf(nodes.adj(), tables_of(final(edges)@, final(masks)@)),
        rows_wf(final(edges)@),
        rows_wf(final(masks)@),
        final(active).wf(),
        final(active)@.subset_of(full(nodes.inner@.len() as nat)),
        final(found).wf(),
        ({
            let p = pass(nodes.adj(), t0, fronts_of(depth@), done_nodes@, hi as nat);
            &&& tables_of(final(edges)@, final(masks)@) == p.tables
            &&& final(found)@ == p.done
            &&& final(active)@ == p.active
        }),
{
    let n: usize = nodes.inner.len();
    let ghost adj = nodes.adj();
    let ghost fr = fronts_of(depth@);
    let ghost done = done_nodes@;
    let ghost tc = tables_of(edges@, masks@);
    let mut touched: Vec<bool> = Vec::with_capacity(hi - lo);
    let mut i: usize = lo;
    while i < hi
        invariant
            lo <= i <= hi,
            touched@.len() == i - lo,
            forall|x: int| 0 <= x < touched@.len() ==> !touched@[x],
        decreases hi - i,
    {
        touched.push(false);
        i += 1;
    }
    let mut a: usize = lo;
    while a < hi
        invariant
            lo <= a <= hi,
            hi <= n,
            n == nodes.inner@.len(),
            nodes.wf(),
            adj == nodes.adj(),
            fr == fronts_of(depth@),
            done == done_nodes@,
            tables_wf(adj, tables_of(edges@, masks@)),
            rows_wf(edges@),
            rows_wf(masks@),
            depth@.len() == n,
            depth_wf(depth@, n as nat),
            full_mask.wf(),
            full_mask@ == full(n as nat),
            found.wf(),
            active.wf(),
            active@.subset_of(full(n as nat)),
            touched@.len() == hi - lo,
            guesses@.len() == hi - lo,
            forall|i: int|
                0 <= i < guesses@.len() ==> guessed(
                    adj,
                    tc,
                    fr,
                    done,
                    n as nat,
                    (lo + i) as nat,
                    #[trigger] guesses@[i],
                ),
            forall|x: nat|
                a <= x < hi && !#[trigger] touched@[x - lo] ==> same_rows_at(
                    adj,
                    tables_of(edges@, masks@),
                    tc,
                    x,
                ),
            tables_of(edges@, masks@) == pass(adj, t0, fr, done, a as nat).tables,
            found@ == pass(adj, t0, fr, done, a as nat).done,
            active@ == pass(adj, t0, fr, done, a as nat).active,
        decreases hi - a,
    {
        let ghost p = pass(adj, t0, fr, done, a as nat);
        let ghost t = tables_of(edges@, masks@);
        if !done_nodes.get_bit(a) {
            if touched[a - lo] {
                let r = decide(nodes, edges, masks, depth, full_mask, a);
                apply_found(nodes, edges, masks, active, found, &mut touched, lo, a, &r, Ghost(fr));
            } else {
                proof {
                    lemma_same_local(adj, t, tc, fr, a as nat);
                    assert(guessed(adj, tc, fr, done, n as nat, (lo + (a - lo)) as nat, guesses@[a - lo]));
                }
                apply_found(
                    nodes,
                    edges,
                    masks,
                    active,
                    found,
                    &mut touched,
                    lo,
                    a,
                    &guesses[a - lo],
                    Ghost(fr),
                );
            }
            proof {
                let t2 = tables_of(edges@, masks@);
                assert forall|x: nat|
                    a + 1 <= x < hi && !#[trigger] touched@[x - lo] implies same_rows_at(
                    adj,
                    t2,
                    tc,
                    x,
                ) by {
                    assert(same_rows_at(adj, t2, t, x));
                    assert(same_rows_at(adj, t, tc, x));
                }
            }
        }
        proof {
            assert(pass(adj, t0, fr, done, (a + 1) as nat) == if done.contains(a as nat) {
                p
            } else {
                visit(adj, p, fr, a as nat)
            });
        }
        a += 1;
    }
}

/// One pass over the nodes that are not done, in ascending order, as
/// `run_pass` makes it, with the visits worked out ahead by worker threads,
/// `chunk_size` nodes at a time. Returns the nodes that it found done;
/// `active` gets the nodes that told a neighbor something.
pub fn par_pass<NodeId: U16orU32>(
    nodes: &Nodes<NodeId>,
    edges: &mut HashMap<u64, BitVec>,
    masks: &mut HashMap<u64, BitVec>,
    depth: &Vec<(BitVec, BitVec)>,
    full_mask: &BitVec,
    done_nodes: &BitVec,
    active: &mut BitVec,
    chunk_size: usize,
) -> (found: BitVec)
    requires
        nodes.wf(),
        tables_wf(nodes.adj(), tables_of(old(edges)@, old(masks)@)),
        rows_wf(old(edges)@),
        rows_wf(old(masks)@),
        depth@.len() == nodes.inner@.len(),
        depth_wf(depth@, nodes.inner@.len() as nat),
        full_mask.wf(),
        full_mask@ == full(nodes.inner@.len() as nat),
        done_nodes.wf(),
        old(active).wf(),
        old(active)@ == Set::<nat>::empty(),
        chunk_size > 0,
    ensures
        tables_wf(nodes.adj(), tables_of(final(edges)@, final(masks)@)),
        rows_wf(final(edges)@),
        rows_wf(final(masks)@),
        found.wf(),
        final(active).wf(),
        final(active)@.subset_of(full(nodes.inner@.len() as nat)),
        ({
            let p = pass(
                nodes.adj(),
                tables_of(old(edges)@, old(masks)@),
                fronts_of(depth@),
                done_nodes@,
                nodes.inner@.len() as nat,
            );
            &&& tables_of(final(edges)@, final(masks)@) == p.tables
            &&& found@ == p.done
            &&& final(active)@ == p.active
        }),
{
    let n: usize = nodes.inner.len();
    let ghost adj = nodes.adj();
    let ghost t0 = tables_of(edges@, masks@);
    let ghost fr = fronts_of(depth@);
    let ghost done = done_nodes@;
    let mut found: BitVec = BitVec::zero();
    let mut lo: usize = 0;
    while lo < n
        invariant
            lo <= n,
            n == nodes.inner@.len(),
            chunk_size > 0,
            nodes.wf(),
            adj == nodes.adj(),
            fr == fronts_of(depth@),
            done == done_nodes@,
            tables_wf(adj, tables_of(edges@, masks@)),
            rows_wf(edges@),
            rows_wf(masks@),
            depth@.len() == n,
            depth_wf(depth@, n as nat),
            full_mask.wf(),
            full_mask@ == full(n as nat),
            done_nodes.wf(),
            found.wf(),
            active.wf(),
            active@.subset_of(full(n as nat)),
            tables_of(edges@, masks@) == pass(adj, t0, fr, done, lo as nat).tables,
            found@ == pass(adj, t0, fr, done, lo as nat).done,
            active@ == pass(adj, t0, fr, done, lo as nat).active,
        decreases n - lo,
    {
        let hi: usize = if n - lo < chunk_size {
            n
        } else {
            lo + chunk_size
        };
        let guesses = par_decide(nodes, edges, masks, depth, full_mask, done_nodes, lo, hi);
        merge_chunk(
            nodes,
            edges,
            masks,
            depth,
            full_mask,
            done_nodes,
            active,
            &mut found,
            lo,
            hi,
            &guesses,
            Ghost(t0),
        );
        lo = hi;
    }
    found
}

/// The frontier and the visited set of every node after a pass, each
/// worked out by `moved` on a worker thread. Through `into_par_iter`, `map`
/// and `collect` of rayon: the result holds what the function gives for
/// each node, in the order of the nodes.
#[verifier::external_body]
fn par_moved<NodeId: U16orU32>(
    nodes: &Nodes<NodeId>,
    depth: &Vec<(BitVec, BitVec)>,
    active: &BitVec,
) -> (r: Vec<(BitVec, BitVec)>)
    requires
        nodes.wf(),
        depth@.len() == nodes.inner@.len(),
        depth_wf(depth@, nodes.inner@.len() as nat),
    ensures
        r@.len() == depth@.len(),
        forall|a: int|
            0 <= a < r@.len() ==> moved_to(nodes.adj(), depth@, active@, a as nat, #[trigger] r@[a]),
{
    (0..depth.len()).into_par_iter().map(|a| moved(nodes, depth, active, a)).collect()
}

/// Every active node moves its frontier one step on, as `advance_all` has
/// it, each node on a worker thread.
pub fn par_advance_all<NodeId: U16orU32>(
    nodes: &Nodes<NodeId>,
    depth: &mut Vec<(BitVec, BitVec)>,
    active: &BitVec,
)
    requires
        nodes.wf(),
        old(depth)@.len() == nodes.inner@.len(),
        depth_wf(old(depth)@, nodes.inner@.len() as nat),
        active.wf(),
        active@.subset_of(full(nodes.inner@.len() as nat)),
    ensures
        final(depth)@.len() == nodes.inner@.len(),
        depth_wf(final(depth)@, nodes.inner@.len() as nat),
        fronts_of(final(depth)@) == next_frontiers(
            nodes.adj(),
            fronts_of(old(depth)@),
            visited_of(old(depth)@),
            active@,
        ),
        visited_of(final(depth)@) == next_visiteds(
            nodes.adj(),
            fronts_of(old(depth)@),
            visited_of(old(depth)@),
            active@,
        ),
{
    let next = par_moved(nodes, depth, active);
    proof {
        let adj = nodes.adj();
        let fr = fronts_of(depth@);
        let vis = visited_of(depth@);
        assert forall|a: int| 0 <= a < next@.len() implies fronts_of(next@)[a] == next_frontier(
            adj,
            fr,
            vis,
            active@,
            a as nat,
        ) && visited_of(next@)[a] == next_visited(fr, vis, active@, a as nat) by {
            assert(moved_to(adj, depth@, active@, a as nat, next@[a]));
        }
        assert(fronts_of(next@) =~= next_frontiers(adj, fr, vis, active@));
        assert(visited_of(next@) =~= next_visiteds(adj, fr, vis, active@));
        assert forall|b: int| 0 <= b < next@.len() implies {
            &&& (#[trigger] next@[b]).0.wf()
            &&& next@[b].1.wf()
            &&& next@[b].0@.subset_of(full(nodes.inner@.len() as nat))
            &&& next@[b].1@.subset_of(full(nodes.inner@.len() as nat))
            &&& next@[b].0@.disjoint(next@[b].1@)
        } by {
            assert(moved_to(adj, depth@, active@, b as nat, next@[b]));
        }
    }
    *depth = next;
}

/// A builder for creating a ParaGraph.
#[derive(Debug)]
pub struct ParaGraphBuilder<NodeId: U16orU32> {
    /// key: node_id
    /// value: neighbors of node
    pub nodes: Nodes<NodeId>,
    /// value: for each bit, if this edge is the shortest path
    /// to that bit location's node, bit is set to 1
    pub edges: crate::graph::sequential::Edges,
    /// value: for each edge, bit is set to 1 if the node with the bit location is computed for this edge
    pub edge_masks: crate::graph::sequential::Edges,
}

impl<NodeId: U16orU32> ParaGraphBuilder<NodeId> {
    /// The rows of both tables as sets.
    pub open spec fn tables(&self) -> Tables {
        tables_of(self.edges.inner@, self.edge_masks.inner@)
    }

    /// The neighbor lists are those of a simple undirected graph, and both
    /// tables hold a well-formed row for each of its edges.
    pub open spec fn wf(&self) -> bool {
        builder_wf(self.nodes, self.edges.inner@, self.edge_masks.inner@)
    }

    /// Create a new ParaGraphBuilder with the given number of nodes.
    pub fn new(nodes_len: usize) -> (r: Self)
        requires
            nodes_len <= NodeId::max_nodes(),
        ensures
            r.wf(),
            r.nodes.adj() == Seq::new(nodes_len as nat, |a: int| Seq::<nat>::empty()),
            r.tables() == (Tables { edges: Map::empty(), masks: Map::empty() }),
    {
        let SeqGraphBuilder { nodes, edges, edge_masks } = SeqGraphBuilder::new(nodes_len);
        ParaGraphBuilder { nodes, edges, edge_masks }
    }

    /// Add an edge between node_a and node_b
    pub fn connect(&mut self, a: NodeId, b: NodeId)
        requires
            old(self).wf(),
            a.index() < old(self).nodes.inner@.len(),
            b.index() < old(self).nodes.inner@.len(),
        ensures
            final(self).wf(),
            final(self).nodes.adj() == adj_connect(old(self).nodes.adj(), a.index(), b.index()),
            final(self).tables() == tables_connect(old(self).tables(), a.index(), b.index()),
    {
        connect_edge(&mut self.nodes, &mut self.edges.inner, &mut self.edge_masks.inner, a, b);
    }

    /// Remove an edge between node_a and node_b
    pub fn disconnect(&mut self, a: NodeId, b: NodeId)
        requires
            old(self).wf(),
            a.index() < old(self).nodes.inner@.len(),
            b.index() < old(self).nodes.inner@.len(),
        ensures
            final(self).wf(),
            final(self).nodes.adj() == adj_disconnect(old(self).nodes.adj(), a.index(), b.index()),
            final(self).tables() == tables_disconnect(old(self).tables(), a.index(), b.index()),
    {
        disconnect_edge(&mut self.nodes, &mut self.edges.inner, &mut self.edge_masks.inner, a, b);
    }

    /// Build the ParaGraph from the current state of the builder.
    ///
    /// The rounds are those of the sequential engine, with the visits of one
    /// round worked out ahead by worker threads. The graph has the nodes and
    /// the edges of the builder, and the rows that the rounds leave.
    pub fn build(self) -> (g: ParaGraph<NodeId>)
        requires
            self.wf(),
        ensures
            g.wf(),
            g.nodes == self.nodes,
            g.solved(),
    {
        let ParaGraphBuilder { nodes, edges, edge_masks } = self;
        let chunk_size: usize = 64;
        let (edges, masks) = run_rounds(&nodes, edges.inner, edge_masks.inner, chunk_size);
        ParaGraph { nodes, edges, masks }
    }

    /// Return the number of nodes in this graph.
    pub fn nodes_len(&self) -> (r: usize)
        ensures
            r == self.nodes.adj().len(),
    {
        self.nodes.len()
    }

    /// Return the number of edges in this graph.
    pub fn edges_len(&self) -> (r: usize)
        ensures
            r == self.tables().edges.dom().len(),
    {
        proof {
            assert(self.tables().edges.dom() =~= self.edges.inner@.dom());
        }
        self.edges.inner.len()
    }

    /// Return the neighbors of the given node.
    pub fn neighbors(&self, node: NodeId) -> (r: &[NodeId])
        requires
            node.index() < self.nodes.inner@.len(),
        ensures
            r@ == self.nodes.inner@[node.index() as int]@,
    {
        self.nodes.neighbors(node)
    }
}

/// A graph whose shortest paths have been computed by the parallel engine.
#[derive(Debug)]
pub struct ParaGraph<NodeId: U16orU32> {
    pub nodes: Nodes<NodeId>,
    /// For each edge, the destinations towards which it leads from its
    /// smaller endpoint.
    pub edges: HashMap<u64, BitVec>,
    /// For each edge, the destinations for which that was decided.
    pub masks: HashMap<u64, BitVec>,
}

/// An iterator that returns neighboring nodes that are shortest paths to the destination node.
pub struct NextNodesIter<'a, NodeId: U16orU32> {
    inner: NeighborsToIter<'a, NodeId>,
}

impl<'a, NodeId: U16orU32> NextNodesIter<'a, NodeId> {
    /// The walk stands within the neighbor list of a node of a well-formed graph.
    pub closed spec fn wf(&self) -> bool {
        self.inner.wf()
    }

    /// The nodes that are still to come.
    pub closed spec fn remaining(&self) -> Seq<NodeId> {
        self.inner.remaining()
    }

    /// The next neighbor that leads towards the destination.
    pub fn next(&mut self) -> (r: Option<NodeId>)
        requires
            old(self).wf(),
        ensures
            final(self).wf(),
            r == first_of(old(self).remaining()),
            final(self).remaining() == if r.is_some() {
                old(self).remaining().drop_first()
            } else {
                old(self).remaining()
            },
    {
        self.inner.next()
    }
}

/// An iterator that returns a path from the current node to the destination node.
///
/// Current node is not included in the path.
pub struct PathIter<'a, NodeId: U16orU32> {
    inner: crate::graph::sequential::PathIter<'a, NodeId>,
}

impl<'a, NodeId: U16orU32> PathIter<'a, NodeId> {
    /// The neighbor lists of the graph that is walked.
    pub closed spec fn nodes(&self) -> Nodes<NodeId> {
        self.inner.nodes()
    }

    /// The decision rows of the graph that is walked.
    pub closed spec fn tables(&self) -> Tables {
        self.inner.tables()
    }

    /// The node at which the walk stands.
    pub closed spec fn curr(&self) -> NodeId {
        self.inner.curr()
    }

    /// The node to which the walk leads.
    pub closed spec fn dest(&self) -> NodeId {
        self.inner.dest()
    }

    /// The graph is well formed and the walk stands at one of its nodes.
    pub closed spec fn wf(&self) -> bool {
        self.inner.wf()
    }

    /// One step towards the destination: the first neighbor of the current
    /// node that leads there, to which the walk moves. `None`, and no move,
    /// at the destination and where no neighbor leads on.
    pub fn next(&mut self) -> (r: Option<NodeId>)
        requires
            old(self).wf(),
        ensures
            final(self).wf(),
            final(self).nodes() == old(self).nodes(),
            final(self).tables() == old(self).tables(),
            final(self).dest() == old(self).dest(),
            r == first_of(
                next_nodes_of(old(self).nodes(), old(self).tables(), old(self).curr(), old(self).dest()),
            ),
            final(self).curr() == match r {
                Some(v) => v,
                None => old(self).curr(),
            },
    {
        self.inner.next()
    }
}

impl<NodeId: U16orU32> ParaGraph<NodeId> {
    /// The neighbor lists are those of a simple undirected graph, and there
    /// is a well-formed decision row for each of its edges.
    pub open spec fn wf(&self) -> bool {
        graph_wf(self.nodes, self.edges@, self.masks@)
    }

    /// Both rows of every edge, as sets.
    pub open spec fn tables(&self) -> Tables {
        tables_of(self.edges@, self.masks@)
    }

    /// The rows are those that the computation gives for the graph.
    pub open spec fn solved(&self) -> bool {
        self.tables() == solve(self.nodes.adj())
    }

    /// The neighbors of `curr` that lead towards `dest`, in the order of the
    /// neighbor list; none where `curr` is `dest`.
    pub open spec fn spec_next_nodes(&self, curr: NodeId, dest: NodeId) -> Seq<NodeId> {
        next_nodes_of(self.nodes, self.tables(), curr, dest)
    }

    /// Create a new ParaGraphBuilder with the given number of nodes.
    ///
    /// Default NodeId is u16, which can hold up to 65536 nodes.
    pub fn builder(nodes_len: usize) -> (r: ParaGraphBuilder<NodeId>)
        requires
            nodes_len <= NodeId::max_nodes(),
        ensures
            r.wf(),
            r.nodes.adj() == Seq::new(nodes_len as nat, |a: int| Seq::<nat>::empty()),
            r.tables() == (Tables { edges: Map::empty(), masks: Map::empty() }),
    {
        ParaGraphBuilder::new(nodes_len)
    }

    /// Convert this ParaGraph into a ParaGraphBuilder.
    ///
    /// The builder has the nodes and edges of the graph; what was computed
    /// for them is dropped.
    pub fn into_builder(self) -> (b: ParaGraphBuilder<NodeId>)
        requires
            self.wf(),
        ensures
            b.wf(),
            b.nodes == self.nodes,
            b.tables() == fresh(self.nodes.adj()),
    {
        let ParaGraph { nodes, edges, masks } = self;
        let SeqGraphBuilder { nodes, edges, edge_masks } = (SeqGraph {
            nodes,
            edges,
            masks,
        }).into_builder();
        ParaGraphBuilder { nodes, edges, edge_masks }
    }

    /// Given a current node and a destination node,
    /// return the first neighboring node that is the shortest path to the destination node.
    ///
    /// `None` is returned when:
    /// - `curr` and `dest` are the same node
    /// - `curr` has no path to `dest`
    pub fn next_node(&self, curr: NodeId, dest: NodeId) -> (r: Option<NodeId>)
        requires
            self.wf(),
            curr.index() < self.nodes.inner@.len(),
        ensures
            r == first_of(self.spec_next_nodes(curr, dest)),
    {
        first_towards(&self.nodes, &self.edges, &self.masks, curr, dest)
    }

    /// Given a current node and a destination node, and a filter function,
    /// return the neighboring node of current that is the shortest path to the destination node.
    ///
    /// `None` is returned when:
    /// - `curr` and `dest` are the same node
    /// - `curr` has no path to `dest`
    /// - The filter function returns `false` for all neighboring nodes
    pub fn next_node_with<F: Fn(NodeId) -> bool>(&self, curr: NodeId, dest: NodeId, f: F) -> (r:
        Option<NodeId>)
        requires
            self.wf(),
            curr.index() < self.nodes.inner@.len(),
            forall|x: NodeId| call_requires(f, (x,)),
        ensures
            accepted_first(self.spec_next_nodes(curr, dest), f, r),
    {
        first_towards_with(&self.nodes, &self.edges, &self.masks, curr, dest, f)
    }

    /// Given a current node and a destination node,
    /// return all neighboring nodes of current that are shortest paths to the destination node.
    ///
    /// The nodes come in the order of the neighbor list of `curr`.
    pub fn next_nodes(&self, curr: NodeId, dest: NodeId) -> (it: NextNodesIter<'_, NodeId>)
        requires
            self.wf(),
            curr.index() < self.nodes.inner@.len(),
        ensures
            it.wf(),
            it.remaining() == self.spec_next_nodes(curr, dest),
    {
        NextNodesIter { inner: NeighborsToIter::new(&self.nodes, &self.edges, &self.masks, curr, dest) }
    }

    /// Given a current node and a destination node,
    /// return a path from the current node to the destination node.
    ///
    /// The path is a list of node IDs, starting with the next node (not current node!) and ending at the destination node.
    pub fn path_to(&self, curr: NodeId, dest: NodeId) -> (it: PathIter<'_, NodeId>)
        requires
            self.wf(),
            curr.index() < self.nodes.inner@.len(),
        ensures
            it.wf(),
            it.nodes() == self.nodes,
            it.tables() == self.tables(),
            it.curr() == curr,
            it.dest() == dest,
    {
        PathIter { inner: crate::graph::sequential::PathIter::new(
                &self.nodes,
                &self.edges,
                &self.masks,
                curr,
                dest,
            ) }
    }

    /// Check if there is a path from the current node to the destination node.
    pub fn path_exists(&self, curr: NodeId, dest: NodeId) -> (r: bool)
        requires
            self.wf(),
            curr.index() < self.nodes.inner@.len(),
        ensures
            r == (curr == dest || self.spec_next_nodes(curr, dest).len() > 0),
    {
        proof {
            NodeId::lemma_index(curr, dest);
        }
        self.next_node(curr, dest).is_some() || curr.as_usize() == dest.as_usize()
    }

    /// Return a list of all neighboring nodes of the given node.
    pub fn neighbors(&self, node: NodeId) -> (r: &[NodeId])
        requires
            node.index() < self.nodes.inner@.len(),
        ensures
            r@ == self.nodes.inner@[node.index() as int]@,
    {
        self.nodes.neighbors(node)
    }

    /// Return the number of nodes in this graph.
    pub fn nodes_len(&self) -> (r: usize)
        ensures
            r == self.nodes.adj().len(),
    {
        self.nodes.len()
    }

    /// Return the number of edges in this graph.
    pub fn edges_len(&self) -> (r: usize)
        ensures
            r == self.edges@.dom().len(),
    {
        self.edges.len()
    }
}

} // verus!
