//! An edge decides only nodes that its ends can reach.
//!
//! Whatever the graph, the rounds never decide a destination for an edge
//! that no walk leads to from the ends of the edge. So a built graph
//! offers no next node towards a destination that cannot be reached.

use crate::graph::correct::{decided, lemma_local, lemma_merge_edge, lemma_seed, seeded_mask};
use crate::graph::distance::{lemma_neighbor_dist, lemma_within_append, reachable, within};
use crate::graph::model::{
    adj_wf, after_rounds, computed_row, edge_key, fresh, full, gossip_cps, gossip_ups, is_done,
    is_edge, local, merge_rows, pass, rounds, solve, start, step, tables_wf, visit, Pass, State,
    Tables,
};
use crate::graph::nodes::lemma_is_edge_bound;
use crate::graph::rows::lemma_computed_row;
use crate::graph::sequential::leads;
use vstd::prelude::*;

verus! {

/// What an edge has decided, its ends can reach.
pub open spec fn tame(adj: Seq<Seq<nat>>, t: Tables) -> bool {
    forall|u: nat, v: nat, x: nat|
        is_edge(adj, u, v) && #[trigger] decided(t, u, v, x) ==> reachable(adj, u, x)
}

/// What is on the frontier of a node, the node can reach.
pub open spec fn near(adj: Seq<Seq<nat>>, fr: Seq<Set<nat>>) -> bool {
    &&& fr.len() == adj.len()
    &&& forall|b: nat, x: nat|
        b < adj.len() && #[trigger] fr[b as int].contains(x) ==> reachable(adj, b, x)
}

/// What a neighbor of a node can reach, the node can reach.
pub proof fn lemma_reach_on(adj: Seq<Seq<nat>>, a: nat, b: nat, x: nat)
    requires
        is_edge(adj, a, b),
        reachable(adj, b, x),
    ensures
        reachable(adj, a, x),
{
    let k = choose|k: nat| within(adj, b, x, k);
    lemma_neighbor_dist(adj, a, b, x, k);
}

/// A visit keeps the rows tame.
pub proof fn lemma_visit_tame(adj: Seq<Seq<nat>>, p: Pass, fr: Seq<Set<nat>>, a: nat)
    requires
        adj_wf(adj),
        a < adj.len(),
        tables_wf(adj, p.tables),
        tame(adj, p.tables),
        near(adj, fr),
    ensures
        tables_wf(adj, visit(adj, p, fr, a).tables),
        tame(adj, visit(adj, p, fr, a).tables),
{
    let t = p.tables;
    let l = local(adj, t, fr, a);
    let q = visit(adj, p, fr, a);
    let nbrs = adj[a as int];
    let d = nbrs.len();
    if !is_done(l, full(adj.len())) {
        lemma_local(adj, t, fr, a);
        let r = merge_rows(t, a, nbrs, gossip_ups(l), gossip_cps(l), d);
        assert(l.nbrs == nbrs);
        assert(q.tables == r);
        assert forall|u: nat, v: nat, x: nat|
            is_edge(adj, u, v) && #[trigger] decided(q.tables, u, v, x) implies reachable(
            adj,
            u,
            x,
        ) by {
            lemma_is_edge_bound(adj, u, v);
            lemma_merge_edge(adj, t, a, gossip_ups(l), gossip_cps(l), u, v);
            let key = edge_key(u, v);
            if !decided(t, u, v, x) {
                assert(u == a || v == a);
                let c = if u == a {
                    v
                } else {
                    u
                };
                let j = choose|j: int|
                    0 <= j < d && #[trigger] nbrs[j] == c && r.masks[key] == t.masks[key].union(
                        gossip_cps(l)[j],
                    );
                assert(computed_row(l, j, d).contains(x));
                lemma_computed_row(l, j, d);
                let i = choose|i: int|
                    0 <= i < d && i != j && #[trigger] l.fronts[i].contains(x)
                        && !l.masks[j].contains(x);
                let b = nbrs[i];
                assert(nbrs.contains(b));
                assert(is_edge(adj, a, b));
                lemma_is_edge_bound(adj, a, b);
                assert(fr[b as int].contains(x));
                lemma_reach_on(adj, a, b, x);
                if u != a {
                    assert(is_edge(adj, u, a));
                    lemma_reach_on(adj, u, a, x);
                }
            }
        }
        lemma_merge_edge(adj, t, a, gossip_ups(l), gossip_cps(l), a, nbrs[0]);
    }
}

/// A pass keeps the rows tame.
pub proof fn lemma_pass_tame(
    adj: Seq<Seq<nat>>,
    t: Tables,
    fr: Seq<Set<nat>>,
    done: Set<nat>,
    n: nat,
)
    requires
        adj_wf(adj),
        n <= adj.len(),
        tables_wf(adj, t),
        tame(adj, t),
        near(adj, fr),
    ensures
        tables_wf(adj, pass(adj, t, fr, done, n).tables),
        tame(adj, pass(adj, t, fr, done, n).tables),
    decreases n,
{
    if n > 0 {
        lemma_pass_tame(adj, t, fr, done, (n - 1) as nat);
        if !done.contains((n - 1) as nat) {
            lemma_visit_tame(adj, pass(adj, t, fr, done, (n - 1) as nat), fr, (n - 1) as nat);
        }
    }
}

/// A round keeps the rows tame and the frontiers near.
pub proof fn lemma_step_tame(adj: Seq<Seq<nat>>, s: State)
    requires
        adj_wf(adj),
        tables_wf(adj, s.tables),
        tame(adj, s.tables),
        near(adj, s.frontier),
    ensures
        tables_wf(adj, step(adj, s).tables),
        tame(adj, step(adj, s).tables),
        near(adj, step(adj, s).frontier),
{
    lemma_pass_tame(adj, s.tables, s.frontier, s.done, adj.len());
    let s2 = step(adj, s);
    assert forall|b: nat, x: nat|
        b < adj.len() && #[trigger] s2.frontier[b as int].contains(x) implies reachable(
        adj,
        b,
        x,
    ) by {
        if !s.frontier[b as int].contains(x) {
            let y = choose|y: nat| s.frontier[b as int].contains(y) && is_edge(adj, y, x);
            assert(reachable(adj, b, y));
            let k = choose|k: nat| within(adj, b, y, k);
            lemma_within_append(adj, b, y, x, k);
        }
    }
}

/// The rounds keep the rows tame and the frontiers near.
pub proof fn lemma_rounds_tame(adj: Seq<Seq<nat>>, s: State, n: nat)
    requires
        adj_wf(adj),
        tables_wf(adj, s.tables),
        tame(adj, s.tables),
        near(adj, s.frontier),
    ensures
        tables_wf(adj, after_rounds(adj, s, n).tables),
        tame(adj, after_rounds(adj, s, n).tables),
        near(adj, after_rounds(adj, s, n).frontier),
    decreases n,
{
    if n > 0 {
        lemma_rounds_tame(adj, s, (n - 1) as nat);
        lemma_step_tame(adj, after_rounds(adj, s, (n - 1) as nat));
    }
}

/// The rows that the computation gives for a graph are tame.
pub proof fn lemma_solve_tame(adj: Seq<Seq<nat>>)
    requires
        adj_wf(adj),
    ensures
        tame(adj, solve(adj)),
{
    let s = start(adj, fresh(adj));
    lemma_seed(adj, adj.len());
    assert forall|u: nat, v: nat, x: nat|
        is_edge(adj, u, v) && #[trigger] decided(s.tables, u, v, x) implies reachable(
        adj,
        u,
        x,
    ) by {
        lemma_is_edge_bound(adj, u, v);
        assert(s.tables.masks[edge_key(u, v)] == seeded_mask(adj, adj.len(), u, v));
        assert(within(adj, u, u, 0));
        if x == u {
        } else if x == v {
            lemma_within_append(adj, u, u, v, 0);
        } else if adj[u as int].contains(x) {
            assert(is_edge(adj, u, x));
            lemma_within_append(adj, u, u, x, 0);
        } else {
            assert(is_edge(adj, v, x));
            lemma_within_append(adj, u, u, v, 0);
            lemma_within_append(adj, u, v, x, 1);
        }
    }
    assert forall|b: nat, x: nat|
        b < adj.len() && #[trigger] s.frontier[b as int].contains(x) implies reachable(
        adj,
        b,
        x,
    ) by {
        assert(is_edge(adj, b, x));
        assert(within(adj, b, b, 0));
        lemma_within_append(adj, b, b, x, 0);
    }
    let n = rounds(adj, fresh(adj));
    lemma_rounds_tame(adj, s, n);
    lemma_step_tame(adj, after_rounds(adj, s, n));
}

/// In the rows that the computation gives, no edge leads towards a
/// destination that its end cannot reach.
pub proof fn lemma_leads_reach(adj: Seq<Seq<nat>>, a: nat, c: nat, x: nat)
    requires
        adj_wf(adj),
        is_edge(adj, a, c),
        leads(solve(adj), a, c, x),
    ensures
        reachable(adj, a, x),
{
    lemma_solve_tame(adj);
    assert(decided(solve(adj), a, c, x));
}

} // verus!
