//! The rounds of the computation, for both engines.

use crate::bitvec::BitVec;
use crate::graph::engine::{depth_wf, fronts_of, rows, rows_wf, visited_of};
use crate::graph::model::{
    after_rounds, finishes, fresh, full, last_round, lemma_last_round_unique, rounds, solve,
    start, step, tables_wf,
};
use crate::graph::nodes::Nodes;
use crate::graph::parallel::{par_advance_all, par_pass};
use crate::graph::progress::{lemma_step_decreases, measure, state_ok};
use crate::graph::sequential::{
    advance_all, graph_wf, lemma_fresh_wf, run_pass, seed_pass, start_depth, tables_of,
};
use crate::graph::U16orU32;
use std::collections::HashMap;
use vstd::prelude::*;

verus! {

/// Runs the rounds on the fresh rows of a graph until every node is done,
/// and gives the rows that they leave. With a `chunk_size` above zero the
/// visits of each round are worked out by worker threads, that many nodes
/// at a time, and so is the move of the frontiers; the rows are the same.
pub fn run_rounds<NodeId: U16orU32>(
    nodes: &Nodes<NodeId>,
    edges: HashMap<u64, BitVec>,
    masks: HashMap<u64, BitVec>,
    chunk_size: usize,
) -> (r: (HashMap<u64, BitVec>, HashMap<u64, BitVec>))
    requires
        nodes.wf(),
        rows_wf(edges@),
        rows_wf(masks@),
        tables_of(edges@, masks@) == fresh(nodes.adj()),
    ensures
        graph_wf(*nodes, r.0@, r.1@),
        tables_of(r.0@, r.1@) == solve(nodes.adj()),
{
    let mut edges = edges;
    let mut masks = masks;
    let n: usize = nodes.len();
    let ghost adj = nodes.adj();
    let ghost t0 = tables_of(edges@, masks@);
    // (neighbors at current depth, neighbors at previous depths)
    let mut depth: Vec<(BitVec, BitVec)> = start_depth(nodes);
    let mut active: BitVec = BitVec::zero();
    // each node's bit is set to 1 if all its edges are done computed
    let mut done_nodes: BitVec = BitVec::zero();
    let full_mask: BitVec = BitVec::ones(n);
    proof {
        lemma_fresh_wf(adj);
    }
    seed_pass(nodes, &mut edges, &mut masks);
    let ghost s0 = start(adj, t0);
    let ghost mut s = s0;
    let ghost mut round: nat = 0;
    proof {
        assert(full_mask@ =~= full(n as nat));
        assert forall|b: int| 0 <= b < n implies (#[trigger] s0.frontier[b]).subset_of(
            full(n as nat),
        ) && s0.visited[b].subset_of(full(n as nat)) && s0.frontier[b].disjoint(
            s0.visited[b],
        ) by {
            assert(depth@[b].0@ == s0.frontier[b]);
            assert(depth@[b].1@ == s0.visited[b]);
        }
    }
    loop
        invariant_except_break
            s == after_rounds(adj, s0, round),
            forall|m: nat| m < round ==> !finishes(adj, after_rounds(adj, s0, m)),
            state_ok(adj, s),
            tables_of(edges@, masks@) == s.tables,
            fronts_of(depth@) == s.frontier,
            visited_of(depth@) == s.visited,
            done_nodes@ == s.done,
            active@ == Set::<nat>::empty(),
        invariant
            n == nodes.inner@.len(),
            nodes.wf(),
            adj == nodes.adj(),
            tables_wf(adj, tables_of(edges@, masks@)),
            rows_wf(edges@),
            rows_wf(masks@),
            depth@.len() == n,
            depth_wf(depth@, n as nat),
            full_mask.wf(),
            full_mask@ == full(n as nat),
            done_nodes.wf(),
            active.wf(),
        ensures
            last_round(adj, s0, round),
            tables_of(edges@, masks@) == step(adj, after_rounds(adj, s0, round)).tables,
        decreases measure(adj, s),
    {
        // iterate through all undone nodes
        let found = if chunk_size == 0 {
            run_pass(nodes, &mut edges, &mut masks, &depth, &full_mask, &done_nodes, &mut active)
        } else {
            par_pass(
                nodes,
                &mut edges,
                &mut masks,
                &depth,
                &full_mask,
                &done_nodes,
                &mut active,
                chunk_size,
            )
        };
        done_nodes.bitor_assign(&found);
        if done_nodes.eq(&full_mask) {
            break ;
        }
        if chunk_size == 0 {
            advance_all(nodes, &mut depth, &active);
        } else {
            par_advance_all(nodes, &mut depth, &active);
        }
        active.clear();
        proof {
            lemma_step_decreases(adj, s);
            s = step(adj, s);
            round = round + 1;
        }
    }
    proof {
        lemma_last_round_unique(adj, s0, round, rounds(adj, t0));
        assert(rows(edges@).dom() =~= edges@.dom());
        assert(rows(masks@).dom() =~= masks@.dom());
    }
    (edges, masks)
}

} // verus!
