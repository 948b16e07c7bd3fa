//! Distances in a graph, counted in edges.

use crate::graph::model::{adj_wf, is_edge, reach};
use crate::graph::nodes::lemma_is_edge_bound;
use vstd::prelude::*;

verus! {

/// The nodes at distance at most `k` from `b`: `b` itself, and with each
/// node its neighbors, `k` times over.
pub open spec fn ball(adj: Seq<Seq<nat>>, b: nat, k: nat) -> Set<nat>
    decreases k,
{
    if k == 0 {
        set![b]
    } else {
        ball(adj, b, (k - 1) as nat).union(reach(adj, ball(adj, b, (k - 1) as nat)))
    }
}

/// There is a walk of at most `k` edges from `a` to `x`.
pub open spec fn within(adj: Seq<Seq<nat>>, a: nat, x: nat, k: nat) -> bool {
    ball(adj, a, k).contains(x)
}

/// The distance from `a` to `x` is `k`.
pub open spec fn dist_is(adj: Seq<Seq<nat>>, a: nat, x: nat, k: nat) -> bool {
    within(adj, a, x, k) && (k > 0 ==> !within(adj, a, x, (k - 1) as nat))
}

/// There is a walk from `a` to `x`.
pub open spec fn reachable(adj: Seq<Seq<nat>>, a: nat, x: nat) -> bool {
    exists|k: nat| within(adj, a, x, k)
}

/// `b` is one edge closer to `x` than `a` is.
pub open spec fn closer(adj: Seq<Seq<nat>>, b: nat, a: nat, x: nat) -> bool {
    exists|k: nat| dist_is(adj, b, x, k) && #[trigger] dist_is(adj, a, x, k + 1)
}

/// Of the two ends of every edge from which `x` can be reached, one is
/// closer to `x` than the other: the part of the graph that `x` lies in has
/// no cycle of odd length.
pub open spec fn fair(adj: Seq<Seq<nat>>, x: nat) -> bool {
    forall|a: nat, c: nat|
        is_edge(adj, a, c) && reachable(adj, a, x) ==> #[trigger] closer(adj, a, c, x)
            || #[trigger] closer(adj, c, a, x)
}

/// The nodes at distance `k` from `b`.
pub open spec fn ring(adj: Seq<Seq<nat>>, b: nat, k: nat) -> Set<nat> {
    Set::new(|x: nat| dist_is(adj, b, x, k))
}

/// A walk of at most `k` edges is a walk of at most `m` edges, for `m` at least `k`.
pub proof fn lemma_within_more(adj: Seq<Seq<nat>>, a: nat, x: nat, k: nat, m: nat)
    requires
        within(adj, a, x, k),
        k <= m,
    ensures
        within(adj, a, x, m),
    decreases m - k,
{
    if k < m {
        lemma_within_more(adj, a, x, k, (m - 1) as nat);
    }
}

/// A walk ends at a node.
pub proof fn lemma_within_node(adj: Seq<Seq<nat>>, a: nat, x: nat, k: nat)
    requires
        adj_wf(adj),
        a < adj.len(),
        within(adj, a, x, k),
    ensures
        x < adj.len(),
    decreases k,
{
    if k > 0 {
        if within(adj, a, x, (k - 1) as nat) {
            lemma_within_node(adj, a, x, (k - 1) as nat);
        } else {
            let y = choose|y: nat| ball(adj, a, (k - 1) as nat).contains(y) && is_edge(adj, y, x);
            lemma_is_edge_bound(adj, y, x);
        }
    }
}

/// A node has one distance from another at most.
pub proof fn lemma_dist_unique(adj: Seq<Seq<nat>>, a: nat, x: nat, k: nat, m: nat)
    requires
        dist_is(adj, a, x, k),
        dist_is(adj, a, x, m),
    ensures
        k == m,
{
    if k < m {
        lemma_within_more(adj, a, x, k, (m - 1) as nat);
    }
    if m < k {
        lemma_within_more(adj, a, x, m, (k - 1) as nat);
    }
}

/// A node within reach has a distance.
pub proof fn lemma_dist_exists(adj: Seq<Seq<nat>>, a: nat, x: nat, k: nat) -> (d: nat)
    requires
        within(adj, a, x, k),
    ensures
        d <= k,
        dist_is(adj, a, x, d),
    decreases k,
{
    if k > 0 && within(adj, a, x, (k - 1) as nat) {
        lemma_dist_exists(adj, a, x, (k - 1) as nat)
    } else {
        k
    }
}

/// A walk can be made one edge longer at its end.
pub proof fn lemma_within_append(adj: Seq<Seq<nat>>, a: nat, y: nat, z: nat, k: nat)
    requires
        within(adj, a, y, k),
        is_edge(adj, y, z),
    ensures
        within(adj, a, z, k + 1),
{
    assert(reach(adj, ball(adj, a, k)).contains(z));
}

/// A walk of at most `k + 1` edges is one of at most `k` edges, or goes on
/// from a neighbor with at most `k` edges.
pub proof fn lemma_within_first(adj: Seq<Seq<nat>>, a: nat, x: nat, k: nat)
    requires
        within(adj, a, x, k + 1),
    ensures
        within(adj, a, x, k) || exists|b: nat| is_edge(adj, a, b) && #[trigger] within(adj, b, x, k),
    decreases k,
{
    if !within(adj, a, x, k) {
        let y = choose|y: nat| ball(adj, a, k).contains(y) && is_edge(adj, y, x);
        if k == 0 {
            assert(is_edge(adj, a, x) && within(adj, x, x, 0));
        } else {
            lemma_within_first(adj, a, y, (k - 1) as nat);
            if within(adj, a, y, (k - 1) as nat) {
                lemma_within_append(adj, a, y, x, (k - 1) as nat);
            } else {
                let b = choose|b: nat|
                    is_edge(adj, a, b) && #[trigger] within(adj, b, y, (k - 1) as nat);
                lemma_within_append(adj, b, y, x, (k - 1) as nat);
                assert(is_edge(adj, a, b) && within(adj, b, x, k));
            }
        }
    }
}

/// What is within `k` edges of a neighbor of `a` is within `k + 1` edges of `a`.
pub proof fn lemma_neighbor_dist(adj: Seq<Seq<nat>>, a: nat, b: nat, x: nat, k: nat)
    requires
        is_edge(adj, a, b),
        within(adj, b, x, k),
    ensures
        within(adj, a, x, k + 1),
    decreases k,
{
    if k == 0 {
        assert(within(adj, a, a, 0));
        lemma_within_append(adj, a, a, b, 0);
    } else {
        if within(adj, b, x, (k - 1) as nat) {
            lemma_neighbor_dist(adj, a, b, x, (k - 1) as nat);
            lemma_within_more(adj, a, x, k, k + 1);
        } else {
            let y = choose|y: nat| ball(adj, b, (k - 1) as nat).contains(y) && is_edge(adj, y, x);
            lemma_neighbor_dist(adj, a, b, y, (k - 1) as nat);
            lemma_within_append(adj, a, y, x, k);
        }
    }
}

/// A walk can be gone the other way.
pub proof fn lemma_within_back(adj: Seq<Seq<nat>>, a: nat, x: nat, k: nat)
    requires
        adj_wf(adj),
        within(adj, a, x, k),
    ensures
        within(adj, x, a, k),
    decreases k,
{
    if k > 0 {
        if within(adj, a, x, (k - 1) as nat) {
            lemma_within_back(adj, a, x, (k - 1) as nat);
            lemma_within_more(adj, x, a, (k - 1) as nat, k);
        } else {
            let y = choose|y: nat| ball(adj, a, (k - 1) as nat).contains(y) && is_edge(adj, y, x);
            lemma_within_back(adj, a, y, (k - 1) as nat);
            assert(is_edge(adj, x, y));
            lemma_neighbor_dist(adj, x, y, a, (k - 1) as nat);
        }
    }
}

/// A node at distance `k + 1` from `a` lies next to a node at distance `k` from `a`.
pub proof fn lemma_last_step(adj: Seq<Seq<nat>>, a: nat, z: nat, k: nat) -> (y: nat)
    requires
        dist_is(adj, a, z, k + 1),
    ensures
        dist_is(adj, a, y, k),
        is_edge(adj, y, z),
{
    let y = choose|y: nat| ball(adj, a, k).contains(y) && is_edge(adj, y, z);
    if k > 0 && within(adj, a, y, (k - 1) as nat) {
        lemma_within_append(adj, a, y, z, (k - 1) as nat);
    }
    y
}

/// A node at distance `k + 1` from `a` is at distance `k` from a neighbor of `a`.
pub proof fn lemma_first_step(adj: Seq<Seq<nat>>, a: nat, x: nat, k: nat) -> (b: nat)
    requires
        dist_is(adj, a, x, k + 1),
    ensures
        is_edge(adj, a, b),
        dist_is(adj, b, x, k),
{
    lemma_within_first(adj, a, x, k);
    let b = choose|b: nat| is_edge(adj, a, b) && #[trigger] within(adj, b, x, k);
    if k > 0 && within(adj, b, x, (k - 1) as nat) {
        lemma_neighbor_dist(adj, a, b, x, (k - 1) as nat);
    }
    b
}

/// On a shortest walk from `b` to `x` lies a node at each distance from `b`
/// up to that of `x`, and it is as much closer to `x`.
pub proof fn lemma_on_the_way(adj: Seq<Seq<nat>>, b: nat, x: nat, k: nat, i: nat) -> (y: nat)
    requires
        adj_wf(adj),
        dist_is(adj, b, x, k),
        i <= k,
    ensures
        dist_is(adj, b, y, i),
        dist_is(adj, y, x, (k - i) as nat),
    decreases k - i,
{
    if i == k {
        assert(within(adj, x, x, 0));
        x
    } else {
        let y = lemma_on_the_way(adj, b, x, k, i + 1);
        let z = lemma_last_step(adj, b, y, i);
        // z is at distance i from b and next to y
        assert(within(adj, z, x, (k - i) as nat)) by {
            lemma_neighbor_dist(adj, z, y, x, (k - i - 1) as nat);
        }
        if k - i > 0 && within(adj, z, x, (k - i - 1) as nat) {
            // then x would be nearer to b
            lemma_within_join(adj, b, z, x, i, (k - i - 1) as nat);
        }
        z
    }
}

/// Two walks that meet make one walk.
pub proof fn lemma_within_join(adj: Seq<Seq<nat>>, a: nat, y: nat, x: nat, i: nat, j: nat)
    requires
        within(adj, a, y, i),
        within(adj, y, x, j),
    ensures
        within(adj, a, x, i + j),
    decreases j,
{
    if j > 0 {
        if within(adj, y, x, (j - 1) as nat) {
            lemma_within_join(adj, a, y, x, i, (j - 1) as nat);
            lemma_within_more(adj, a, x, (i + j - 1) as nat, i + j);
        } else {
            let z = choose|z: nat| ball(adj, y, (j - 1) as nat).contains(z) && is_edge(adj, z, x);
            lemma_within_join(adj, a, y, z, i, (j - 1) as nat);
            lemma_within_append(adj, a, z, x, (i + j - 1) as nat);
        }
    }
}

/// The ring at distance `k + 1` holds the nodes next to the ring at
/// distance `k` that are not within distance `k`.
pub proof fn lemma_ring_step(adj: Seq<Seq<nat>>, b: nat, k: nat)
    requires
        adj_wf(adj),
    ensures
        reach(adj, ring(adj, b, k)).difference(ball(adj, b, k)) == ring(adj, b, k + 1),
        ball(adj, b, k).union(ring(adj, b, k + 1)) == ball(adj, b, k + 1),
        k > 0 ==> ball(adj, b, (k - 1) as nat).union(ring(adj, b, k)) == ball(adj, b, k),
{
    let lhs = reach(adj, ring(adj, b, k)).difference(ball(adj, b, k));
    assert forall|x: nat| lhs.contains(x) <==> ring(adj, b, k + 1).contains(x) by {
        if lhs.contains(x) {
            let y = choose|y: nat| ring(adj, b, k).contains(y) && is_edge(adj, y, x);
            lemma_within_append(adj, b, y, x, k);
        }
        if ring(adj, b, k + 1).contains(x) {
            let y = lemma_last_step(adj, b, x, k);
            assert(ring(adj, b, k).contains(y) && is_edge(adj, y, x));
        }
    }
    assert(lhs =~= ring(adj, b, k + 1));
    let next = ball(adj, b, k + 1);
    let sum = ball(adj, b, k).union(ring(adj, b, k + 1));
    assert forall|x: nat| #[trigger] next.contains(x) implies sum.contains(x) by {
        assert(within(adj, b, x, k + 1));
    }
    assert(ball(adj, b, k).union(ring(adj, b, k + 1)) =~= ball(adj, b, k + 1));
    if k > 0 {
        assert(ball(adj, b, (k - 1) as nat).union(ring(adj, b, k)) =~= ball(adj, b, k));
    }
}

} // verus!
