//! Why the rows that the rounds leave say where the shortest paths go.
//!
//! This holds for each destination whose part of the graph has no cycle of
//! odd length: of the two ends of every edge that can reach it, one is then
//! closer to it than the other. Where an edge has two ends that are equally
//! far from a node, the one bit that its row has for that node says that
//! the edge leads towards it from one end, and so from one of the two ends
//! the edge is taken for a way to the node that it is not. What the rounds
//! decide and when they end does not depend on this.

use crate::graph::distance::{
    ball, closer, dist_is, fair, lemma_dist_exists, lemma_dist_unique, lemma_first_step,
    lemma_neighbor_dist, lemma_on_the_way, lemma_ring_step, lemma_within_append,
    lemma_within_more, lemma_within_node, reachable, ring, within,
};
use crate::graph::model::{
    adj_wf, computed_row, edge_key, full, gossip_apply, gossip_cps, gossip_ups, is_done,
    is_edge, key_set, lemma_upsert_subset, local, local_active, local_settled, same_side,
    next_frontier, next_visited, pass, step, tables_wf, upsert_row, visit, Pass, State, Tables,
};
use crate::graph::model::{
    after_rounds, finishes, fresh, last_round, lemma_key_ends, lemma_last_round_unique,
    merge_rows, nbr_set, reach, rounds, seed, seed_cps, seed_ups, solve, start,
};
use crate::graph::progress::{lemma_shift, lemma_step_decreases, measure, state_ok};
use crate::graph::sequential::lemma_fresh_wf;
use crate::graph::nodes::lemma_edge_key_injective;
use crate::graph::progress::lemma_local_active;
use crate::graph::rows::{lemma_computed_row, lemma_merge_rows, lemma_upsert_row};
use crate::graph::nodes::lemma_is_edge_bound;
use crate::graph::sequential::{leads, points};
use vstd::prelude::*;

verus! {

/// The edge between `a` and `c` has decided the destination `x`.
pub open spec fn decided(t: Tables, a: nat, c: nat, x: nat) -> bool {
    t.masks[edge_key(a, c)].contains(x)
}

/// What the rows of the edge from `a` to `c` say of the destination `x` is
/// right: where it is decided, the edge leads towards `x` exactly if `c` is
/// closer to `x` than `a`; where it is not, no bit is set.
pub open spec fn sound_at(adj: Seq<Seq<nat>>, t: Tables, a: nat, c: nat, x: nat) -> bool {
    if decided(t, a, c, x) {
        x < adj.len() && (points(t.edges, a, c, x) <==> closer(adj, c, a, x))
    } else {
        !t.edges[edge_key(a, c)].contains(x)
    }
}

/// What the rows say is right, for every edge and every destination whose
/// part of the graph has no cycle of odd length.
pub open spec fn sound(adj: Seq<Seq<nat>>, t: Tables) -> bool {
    forall|a: nat, c: nat, x: nat|
        is_edge(adj, a, c) && fair(adj, x) ==> #[trigger] sound_at(adj, t, a, c, x)
}

/// Every edge has decided the destinations within `k + 1` edges of one of its ends.
pub open spec fn known(adj: Seq<Seq<nat>>, t: Tables, k: nat) -> bool {
    forall|a: nat, c: nat, x: nat|
        is_edge(adj, a, c) && within(adj, a, x, k + 1) ==> #[trigger] decided(t, a, c, x)
}

/// What is decided in `t` is decided in `t2`.
pub open spec fn grows(adj: Seq<Seq<nat>>, t: Tables, t2: Tables) -> bool {
    forall|a: nat, c: nat, x: nat|
        is_edge(adj, a, c) && decided(t, a, c, x) ==> #[trigger] decided(t2, a, c, x)
}

/// Every edge at `a` has decided every destination that `a` can reach.
pub open spec fn complete(adj: Seq<Seq<nat>>, t: Tables, a: nat) -> bool {
    forall|c: nat, x: nat|
        is_edge(adj, a, c) && reachable(adj, a, x) ==> #[trigger] decided(t, a, c, x)
}

/// The neighbor `b` has something to tell `a`.
pub open spec fn tells(fr: Seq<Set<nat>>, b: nat, a: nat) -> bool {
    fr[b as int].remove(a) != Set::<nat>::empty()
}

/// No neighbor of `b` that is not done is told anything by the ring at
/// distance `depth` from `b`.
pub open spec fn quiet(adj: Seq<Seq<nat>>, done: Set<nat>, b: nat, depth: nat) -> bool {
    forall|a: nat|
        is_edge(adj, b, a) && !done.contains(a) ==> #[trigger] ring(adj, b, depth).remove(a)
            == Set::<nat>::empty()
}

/// The frontier of `b` has kept step with the rounds.
pub open spec fn synced(adj: Seq<Seq<nat>>, s: State, b: nat, k: nat) -> bool {
    s.frontier[b as int] == ring(adj, b, k + 1) && s.visited[b as int] == ball(adj, b, k)
}

/// The frontier of `b` stands still since round `i`, in which it told
/// nothing to any neighbor that is not done.
pub open spec fn stopped(adj: Seq<Seq<nat>>, s: State, b: nat, i: nat) -> bool {
    &&& s.frontier[b as int] == ring(adj, b, i + 1)
    &&& s.visited[b as int] == ball(adj, b, i)
    &&& quiet(adj, s.done, b, i + 1)
}

/// The frontier of `b` has kept step with the rounds, or stands still.
pub open spec fn in_step(adj: Seq<Seq<nat>>, s: State, b: nat, k: nat) -> bool {
    synced(adj, s, b, k) || exists|i: nat| i < k && #[trigger] stopped(adj, s, b, i)
}

/// What holds before round `k`.
pub open spec fn good(adj: Seq<Seq<nat>>, s: State, k: nat) -> bool {
    &&& adj_wf(adj)
    &&& tables_wf(adj, s.tables)
    &&& s.frontier.len() == adj.len()
    &&& s.visited.len() == adj.len()
    &&& sound(adj, s.tables)
    &&& known(adj, s.tables, k)
    &&& forall|b: nat| b < adj.len() ==> #[trigger] in_step(adj, s, b, k)
    &&& forall|a: nat| #[trigger] s.done.contains(a) ==> a < adj.len() && complete(adj, s.tables, a)
}

/// The key of an edge is the same from both ends.
pub proof fn lemma_key_sym(a: nat, c: nat)
    ensures
        edge_key(a, c) == edge_key(c, a),
{
}

/// What a neighbor tells a node that is not done, and that an edge of the
/// node has not decided, is news: it lies `k + 1` edges from the neighbor,
/// one more from the node, and one more again from the other end of the edge.
pub proof fn lemma_news(
    adj: Seq<Seq<nat>>,
    s: State,
    k: nat,
    t: Tables,
    a: nat,
    b: nat,
    c: nat,
    x: nat,
)
    requires
        good(adj, s, k),
        grows(adj, s.tables, t),
        is_edge(adj, a, b),
        is_edge(adj, a, c),
        !s.done.contains(a),
        s.frontier[b as int].remove(a).contains(x),
        !decided(t, a, c, x),
        fair(adj, x),
    ensures
        x < adj.len(),
        dist_is(adj, b, x, k + 1),
        dist_is(adj, a, x, k + 2),
        dist_is(adj, c, x, k + 3),
        closer(adj, b, a, x),
        closer(adj, a, c, x),
        !closer(adj, c, a, x),
{
    lemma_is_edge_bound(adj, a, b);
    lemma_is_edge_bound(adj, a, c);
    assert(is_edge(adj, b, a));
    assert(is_edge(adj, c, a));
    assert(in_step(adj, s, b, k));
    if !synced(adj, s, b, k) {
        let i = choose|i: nat| i < k && #[trigger] stopped(adj, s, b, i);
        assert(ring(adj, b, i + 1).remove(a) == Set::<nat>::empty());
        assert(false);
    }
    assert(ring(adj, b, k + 1).contains(x));
    assert(dist_is(adj, b, x, k + 1));
    lemma_within_node(adj, b, x, k + 1);
    lemma_neighbor_dist(adj, a, b, x, k + 1);
    if within(adj, a, x, k + 1) {
        assert(decided(s.tables, a, c, x));
        assert(decided(t, a, c, x));
    }
    assert(dist_is(adj, a, x, k + 2));
    if within(adj, c, x, k + 1) {
        assert(decided(s.tables, c, a, x));
        assert(decided(t, c, a, x));
        lemma_key_sym(a, c);
    }
    assert(within(adj, a, x, k + 2));
    assert(reachable(adj, a, x));
    assert(closer(adj, a, c, x) || closer(adj, c, a, x));
    if closer(adj, c, a, x) {
        let m = choose|m: nat| dist_is(adj, c, x, m) && #[trigger] dist_is(adj, a, x, m + 1);
        lemma_dist_unique(adj, a, x, m + 1, k + 2);
    }
    let m = choose|m: nat| dist_is(adj, a, x, m) && #[trigger] dist_is(adj, c, x, m + 1);
    lemma_dist_unique(adj, a, x, m, k + 2);
    assert(dist_is(adj, b, x, k + 1) && dist_is(adj, a, x, (k + 1) + 1));
}

/// What lies `k + 1` edges from a neighbor and one more from a node that is
/// not done, the neighbor tells the node in round `k`.
pub proof fn lemma_news_arrives(adj: Seq<Seq<nat>>, s: State, k: nat, a: nat, b: nat, x: nat)
    requires
        good(adj, s, k),
        is_edge(adj, a, b),
        !s.done.contains(a),
        dist_is(adj, b, x, k + 1),
        dist_is(adj, a, x, k + 2),
    ensures
        s.frontier[b as int].remove(a).contains(x),
{
    lemma_is_edge_bound(adj, a, b);
    assert(is_edge(adj, b, a));
    assert(within(adj, a, a, 0));
    if x == a {
        lemma_within_more(adj, a, a, 0, k + 1);
    }
    assert(in_step(adj, s, b, k));
    if !synced(adj, s, b, k) {
        let i = choose|i: nat| i < k && #[trigger] stopped(adj, s, b, i);
        let y = lemma_on_the_way(adj, b, x, k + 1, i + 1);
        if y == a {
            lemma_dist_unique(adj, a, x, (k - i) as nat, k + 2);
        }
        assert(ring(adj, b, i + 1).remove(a).contains(y));
        assert(ring(adj, b, i + 1).remove(a) == Set::<nat>::empty());
        assert(false);
    }
    assert(ring(adj, b, k + 1).contains(x));
}

/// A node that is not done and that no neighbor tells anything has all its
/// edges decided for every destination that it can reach.
pub proof fn lemma_inactive_complete(adj: Seq<Seq<nat>>, s: State, k: nat, t: Tables, a: nat)
    requires
        good(adj, s, k),
        grows(adj, s.tables, t),
        a < adj.len(),
        !s.done.contains(a),
        forall|b: nat| is_edge(adj, a, b) ==> !#[trigger] tells(s.frontier, b, a),
    ensures
        complete(adj, t, a),
{
    assert forall|c: nat, x: nat|
        is_edge(adj, a, c) && reachable(adj, a, x) implies #[trigger] decided(t, a, c, x) by {
        let far = choose|far: nat| within(adj, a, x, far);
        let m = lemma_dist_exists(adj, a, x, far);
        assert(dist_is(adj, a, x, m));
        if m <= k + 1 {
            lemma_within_more(adj, a, x, m, k + 1);
            assert(decided(s.tables, a, c, x));
        } else {
            let y = lemma_on_the_way(adj, a, x, m, k + 2);
            let b = lemma_first_step(adj, a, y, k + 1);
            lemma_news_arrives(adj, s, k, a, b, y);
            assert(tells(s.frontier, b, a));
            assert(false);
        }
    }
}

/// A neighbor of `a` is one of its list.
pub proof fn lemma_neighbor_index(adj: Seq<Seq<nat>>, a: nat, c: nat) -> (j: int)
    requires
        is_edge(adj, a, c),
    ensures
        0 <= j < adj[a as int].len(),
        adj[a as int][j] == c,
{
    choose|j: int| 0 <= j < adj[a as int].len() && adj[a as int][j] == c
}

/// What a node sees.
pub proof fn lemma_local(adj: Seq<Seq<nat>>, t: Tables, fr: Seq<Set<nat>>, a: nat)
    ensures
        ({
            let l = local(adj, t, fr, a);
            &&& l.a == a
            &&& l.nbrs == adj[a as int]
            &&& l.vals.len() == l.nbrs.len()
            &&& l.masks.len() == l.nbrs.len()
            &&& l.fronts.len() == l.nbrs.len()
            &&& forall|i: int|
                0 <= i < l.nbrs.len() ==> #[trigger] l.vals[i] == t.edges[edge_key(
                    a,
                    adj[a as int][i],
                )]
            &&& forall|i: int|
                0 <= i < l.nbrs.len() ==> #[trigger] l.masks[i] == t.masks[edge_key(
                    a,
                    adj[a as int][i],
                )]
            &&& forall|i: int|
                0 <= i < l.nbrs.len() ==> #[trigger] l.fronts[i] == fr[adj[a as int][i] as int].remove(
                    a,
                )
        }),
{
}

/// Where the stored bit of an edge is set exactly if the edge is stored
/// towards `a`, the edge leads towards the destination from `c`, not from `a`.
pub proof fn lemma_orient(edges: Map<u64, Set<nat>>, a: nat, c: nat, x: nat)
    requires
        a != c,
        edges[edge_key(a, c)].contains(x) <==> a > c,
    ensures
        !points(edges, a, c, x),
        points(edges, c, a, x),
{
    lemma_key_sym(a, c);
}

/// What a visit of `a` leaves in the rows of the edge to its neighbor `j`
/// for the destination `x`. What was decided stays as it is. What is
/// decided anew lies `k + 2` edges from `a` and one more from the neighbor,
/// and the bit that is set says so.
pub proof fn lemma_row_sound(
    adj: Seq<Seq<nat>>,
    s: State,
    k: nat,
    t: Tables,
    a: nat,
    j: int,
    x: nat,
)
    requires
        good(adj, s, k),
        grows(adj, s.tables, t),
        sound(adj, t),
        fair(adj, x),
        a < adj.len(),
        !s.done.contains(a),
        0 <= j < adj[a as int].len(),
    ensures
        ({
            let l = local(adj, t, s.frontier, a);
            let d = adj[a as int].len();
            let c = adj[a as int][j];
            let key = edge_key(a, c);
            let new_e = t.edges[key].union(upsert_row(l, j, d));
            &&& decided(t, a, c, x) ==> (new_e.contains(x) <==> t.edges[key].contains(x))
            &&& !decided(t, a, c, x) && computed_row(l, j, d).contains(x) ==> {
                &&& x < adj.len()
                &&& dist_is(adj, a, x, k + 2)
                &&& closer(adj, a, c, x)
                &&& !closer(adj, c, a, x)
                &&& (new_e.contains(x) <==> a > c)
            }
            &&& !decided(t, a, c, x) && !computed_row(l, j, d).contains(x) ==> !new_e.contains(x)
        }),
{
    let l = local(adj, t, s.frontier, a);
    let nbrs = adj[a as int];
    let d = nbrs.len();
    let c = nbrs[j];
    let key = edge_key(a, c);
    lemma_local(adj, t, s.frontier, a);
    lemma_computed_row(l, j, d);
    lemma_upsert_row(l, j, d);
    lemma_upsert_subset(l, j, d);
    assert(nbrs.contains(c));
    assert(is_edge(adj, a, c));
    assert(sound_at(adj, t, a, c, x));
    assert(l.masks[j] == t.masks[key]);
    if decided(t, a, c, x) {
        assert(!computed_row(l, j, d).contains(x));
        assert(!upsert_row(l, j, d).contains(x));
    } else if computed_row(l, j, d).contains(x) {
        // every neighbor that tells of `x` says the same
        assert forall|i: int|
            0 <= i < d && i != j && #[trigger] l.fronts[i].contains(x) implies (same_side(
            a,
            nbrs[i],
            c,
        ) != l.vals[i].contains(x)) == (a > c) by {
            let b = nbrs[i];
            assert(nbrs.contains(b));
            assert(is_edge(adj, a, b));
            assert(l.fronts[i] == s.frontier[b as int].remove(a));
            lemma_news(adj, s, k, t, a, b, c, x);
            lemma_is_edge_bound(adj, a, b);
            // the edge to `b` has decided `x`, and leads towards it
            lemma_within_more(adj, b, x, k + 1, k + 1);
            assert(is_edge(adj, b, a));
            assert(decided(s.tables, b, a, x));
            assert(decided(t, b, a, x));
            lemma_key_sym(a, b);
            assert(sound_at(adj, t, a, b, x));
            assert(points(t.edges, a, b, x));
            assert(l.vals[i] == t.edges[edge_key(a, b)]);
        }
        let i0 = choose|i: int|
            0 <= i < d && i != j && #[trigger] l.fronts[i].contains(x) && !l.masks[j].contains(x);
        let b0 = nbrs[i0];
        assert(nbrs.contains(b0));
        assert(l.fronts[i0] == s.frontier[b0 as int].remove(a));
        lemma_news(adj, s, k, t, a, b0, c, x);
        if a > c {
            assert((same_side(a, nbrs[i0], c) != l.vals[i0].contains(x)) == (a > c));
            assert(upsert_row(l, j, d).contains(x));
        } else {
            if upsert_row(l, j, d).contains(x) {
                let i1 = choose|i: int|
                    0 <= i < d && i != j && #[trigger] l.fronts[i].contains(x)
                        && !l.masks[j].contains(x) && (same_side(l.a, l.nbrs[i], l.nbrs[j])
                        != l.vals[i].contains(x));
                assert((same_side(a, nbrs[i1], c) != l.vals[i1].contains(x)) == (a > c));
                assert(false);
            }
        }
    } else {
        assert(!upsert_row(l, j, d).contains(x));
    }
}

/// After the visit of a node that is not done, each of its edges has
/// decided the destinations that lie `k + 2` edges from it.
pub proof fn lemma_row_known(
    adj: Seq<Seq<nat>>,
    s: State,
    k: nat,
    t: Tables,
    a: nat,
    j: int,
    x: nat,
)
    requires
        good(adj, s, k),
        grows(adj, s.tables, t),
        a < adj.len(),
        !s.done.contains(a),
        0 <= j < adj[a as int].len(),
        dist_is(adj, a, x, k + 2),
    ensures
        ({
            let l = local(adj, t, s.frontier, a);
            let c = adj[a as int][j];
            decided(t, a, c, x) || computed_row(l, j, adj[a as int].len()).contains(x)
        }),
{
    let l = local(adj, t, s.frontier, a);
    let nbrs = adj[a as int];
    let d = nbrs.len();
    let c = nbrs[j];
    lemma_local(adj, t, s.frontier, a);
    lemma_computed_row(l, j, d);
    assert(nbrs.contains(c));
    assert(is_edge(adj, a, c));
    let b = lemma_first_step(adj, a, x, k + 1);
    if b == c {
        lemma_is_edge_bound(adj, a, c);
        assert(is_edge(adj, c, a));
        assert(decided(s.tables, c, a, x));
        assert(decided(t, c, a, x));
        lemma_key_sym(a, c);
    } else {
        let i = lemma_neighbor_index(adj, a, b);
        lemma_news_arrives(adj, s, k, a, b, x);
        assert(l.fronts[i] == s.frontier[b as int].remove(a));
        assert(l.masks[j] == t.masks[edge_key(a, c)]);
        if !decided(t, a, c, x) {
            assert(0 <= i < d && i != j && l.fronts[i].contains(x) && !l.masks[j].contains(x));
        }
    }
}

/// What the rows of an edge are after the visit of `a`: the rows of the
/// edge to neighbor `j` of `a` have what the visit decided added, and every
/// other edge is as it was.
pub proof fn lemma_apply_rows(
    adj: Seq<Seq<nat>>,
    t: Tables,
    fr: Seq<Set<nat>>,
    a: nat,
    u: nat,
    v: nat,
)
    requires
        adj_wf(adj),
        tables_wf(adj, t),
        a < adj.len(),
        is_edge(adj, u, v),
    ensures
        ({
            let q = gossip_apply(adj, t, fr, a);
            let l = local(adj, t, fr, a);
            let d = adj[a as int].len();
            let key = edge_key(u, v);
            &&& tables_wf(adj, q)
            &&& u == a ==> exists|j: int|
                0 <= j < d && #[trigger] adj[a as int][j] == v && q.edges[key]
                    == t.edges[key].union(upsert_row(l, j, d)) && q.masks[key]
                    == t.masks[key].union(computed_row(l, j, d))
            &&& v == a ==> exists|j: int|
                0 <= j < d && #[trigger] adj[a as int][j] == u && q.edges[key]
                    == t.edges[key].union(upsert_row(l, j, d)) && q.masks[key]
                    == t.masks[key].union(computed_row(l, j, d))
            &&& u != a && v != a ==> q.edges[key] == t.edges[key] && q.masks[key] == t.masks[key]
        }),
{
    let l = local(adj, t, fr, a);
    lemma_local(adj, t, fr, a);
    lemma_merge_edge(adj, t, a, gossip_ups(l), gossip_cps(l), u, v);
    let d = adj[a as int].len();
    let q = gossip_apply(adj, t, fr, a);
    let key = edge_key(u, v);
    if u == a {
        let j = choose|j: int|
            0 <= j < d && #[trigger] adj[a as int][j] == v && q.edges[key] == t.edges[key].union(
                gossip_ups(l)[j],
            ) && q.masks[key] == t.masks[key].union(gossip_cps(l)[j]);
        assert(adj[a as int][j] == v && q.edges[key] == t.edges[key].union(upsert_row(l, j, d)));
    }
    if v == a {
        let j = choose|j: int|
            0 <= j < d && #[trigger] adj[a as int][j] == u && q.edges[key] == t.edges[key].union(
                gossip_ups(l)[j],
            ) && q.masks[key] == t.masks[key].union(gossip_cps(l)[j]);
        assert(adj[a as int][j] == u && q.edges[key] == t.edges[key].union(upsert_row(l, j, d)));
    }
}

/// Some node that is not done is told something by `b`.
pub open spec fn woken(adj: Seq<Seq<nat>>, s: State, b: nat) -> bool {
    exists|a: nat| is_edge(adj, a, b) && !s.done.contains(a) && #[trigger] tells(s.frontier, b, a)
}

/// What the visit of a node that is not done keeps and brings about.
pub proof fn lemma_visit_good(adj: Seq<Seq<nat>>, s: State, k: nat, p: Pass, a: nat)
    requires
        good(adj, s, k),
        a < adj.len(),
        !s.done.contains(a),
        tables_wf(adj, p.tables),
        sound(adj, p.tables),
        grows(adj, s.tables, p.tables),
    ensures
        ({
            let q = visit(adj, p, s.frontier, a);
            &&& tables_wf(adj, q.tables)
            &&& sound(adj, q.tables)
            &&& grows(adj, p.tables, q.tables)
            &&& forall|b: nat|
                q.active.contains(b) ==> p.active.contains(b) || (is_edge(adj, a, b) && tells(
                    s.frontier,
                    b,
                    a,
                ))
            &&& forall|b: nat| p.active.contains(b) ==> q.active.contains(b)
            &&& (q.done == p.done.insert(a) && complete(adj, q.tables, a)) || (q.done == p.done
                && forall|b: nat|
                is_edge(adj, a, b) && #[trigger] tells(s.frontier, b, a) ==> q.active.contains(b))
            &&& forall|c: nat, x: nat|
                is_edge(adj, a, c) && dist_is(adj, a, x, k + 2) ==> #[trigger] decided(
                    q.tables,
                    a,
                    c,
                    x,
                )
        }),
{
    let t = p.tables;
    let fr = s.frontier;
    let q = visit(adj, p, fr, a);
    let l = local(adj, t, fr, a);
    let nbrs = adj[a as int];
    let d = nbrs.len();
    let n = adj.len();
    lemma_local(adj, t, fr, a);
    lemma_local_active(l, d);
    if is_done(l, full(n)) {
        if local_settled(l, full(n)) {
            assert forall|c: nat, x: nat|
                is_edge(adj, a, c) && reachable(adj, a, x) implies #[trigger] decided(
                t,
                a,
                c,
                x,
            ) by {
                let j = lemma_neighbor_index(adj, a, c);
                assert(l.masks[j] == full(n));
                let far = choose|far: nat| within(adj, a, x, far);
                lemma_within_node(adj, a, x, far);
            }
        } else {
            assert forall|b: nat| is_edge(adj, a, b) implies !#[trigger] tells(fr, b, a) by {
                let i = lemma_neighbor_index(adj, a, b);
                if tells(fr, b, a) {
                    assert(l.fronts[i] == fr[b as int].remove(a));
                    assert(local_active(l, d).contains(b));
                }
            }
            lemma_inactive_complete(adj, s, k, t, a);
        }
        assert forall|c: nat, x: nat|
            is_edge(adj, a, c) && dist_is(adj, a, x, k + 2) implies #[trigger] decided(
            q.tables,
            a,
            c,
            x,
        ) by {
            lemma_within_node(adj, a, x, k + 2);
            assert(within(adj, a, x, k + 2));
            assert(reachable(adj, a, x));
        }
    } else {
        assert(q.tables == gossip_apply(adj, t, fr, a));
        assert forall|u: nat, v: nat, x: nat|
            is_edge(adj, u, v) && fair(adj, x) implies #[trigger] sound_at(
            adj,
            q.tables,
            u,
            v,
            x,
        ) by {
            lemma_apply_rows(adj, t, fr, a, u, v);
            lemma_is_edge_bound(adj, u, v);
            assert(sound_at(adj, t, u, v, x));
            let key = edge_key(u, v);
            if u == a {
                let j = choose|j: int|
                    0 <= j < d && #[trigger] adj[a as int][j] == v && q.tables.edges[key]
                        == t.edges[key].union(upsert_row(l, j, d)) && q.tables.masks[key]
                        == t.masks[key].union(computed_row(l, j, d));
                lemma_row_sound(adj, s, k, t, a, j, x);
                if !decided(t, a, v, x) && computed_row(l, j, d).contains(x) {
                    lemma_orient(q.tables.edges, a, v, x);
                }
            } else if v == a {
                let j = choose|j: int|
                    0 <= j < d && #[trigger] adj[a as int][j] == u && q.tables.edges[key]
                        == t.edges[key].union(upsert_row(l, j, d)) && q.tables.masks[key]
                        == t.masks[key].union(computed_row(l, j, d));
                lemma_key_sym(a, u);
                lemma_row_sound(adj, s, k, t, a, j, x);
                assert(sound_at(adj, t, a, u, x));
                if !decided(t, a, u, x) && computed_row(l, j, d).contains(x) {
                    lemma_orient(q.tables.edges, a, u, x);
                }
            }
        }
        assert forall|u: nat, v: nat, x: nat|
            is_edge(adj, u, v) && decided(t, u, v, x) implies #[trigger] decided(
            q.tables,
            u,
            v,
            x,
        ) by {
            lemma_apply_rows(adj, t, fr, a, u, v);
        }
        assert(tables_wf(adj, q.tables)) by {
            if d > 0 {
                assert(nbrs.contains(nbrs[0]));
                lemma_apply_rows(adj, t, fr, a, a, nbrs[0]);
            } else {
                assert(q.tables == t);
            }
        }
        assert forall|b: nat| is_edge(adj, a, b) && #[trigger] tells(fr, b, a) implies q.active.contains(
            b,
        ) by {
            let i = lemma_neighbor_index(adj, a, b);
            assert(l.fronts[i] == fr[b as int].remove(a));
            assert(local_active(l, d).contains(b));
        }
        assert forall|b: nat| q.active.contains(b) implies p.active.contains(b) || (is_edge(
            adj,
            a,
            b,
        ) && tells(fr, b, a)) by {
            if !p.active.contains(b) {
                assert(local_active(l, d).contains(b));
                let i = choose|i: int|
                    0 <= i < d && l.nbrs[i] == b && l.fronts[i] != Set::<nat>::empty();
                assert(nbrs.contains(b));
                assert(l.fronts[i] == fr[b as int].remove(a));
            }
        }
        assert forall|c: nat, x: nat|
            is_edge(adj, a, c) && dist_is(adj, a, x, k + 2) implies #[trigger] decided(
            q.tables,
            a,
            c,
            x,
        ) by {
            let j0 = lemma_neighbor_index(adj, a, c);
            lemma_row_known(adj, s, k, t, a, j0, x);
            lemma_apply_rows(adj, t, fr, a, a, c);
            let j = choose|j: int|
                0 <= j < d && #[trigger] adj[a as int][j] == c && q.tables.edges[edge_key(a, c)]
                    == t.edges[edge_key(a, c)].union(upsert_row(l, j, d)) && q.tables.masks[edge_key(
                    a,
                    c,
                )] == t.masks[edge_key(a, c)].union(computed_row(l, j, d));
            assert(j == j0);
        }
    }
}

/// What holds after the pass of round `k` has come to node `n`.
pub open spec fn pass_good(adj: Seq<Seq<nat>>, s: State, k: nat, n: nat) -> bool {
    let p = pass(adj, s.tables, s.frontier, s.done, n);
    &&& tables_wf(adj, p.tables)
    &&& sound(adj, p.tables)
    &&& grows(adj, s.tables, p.tables)
    &&& forall|a: nat| #[trigger]
        p.done.contains(a) ==> a < n && !s.done.contains(a) && complete(adj, p.tables, a)
    &&& forall|a: nat, c: nat, x: nat|
        a < n && !s.done.contains(a) && is_edge(adj, a, c) && dist_is(adj, a, x, k + 2)
            ==> #[trigger] decided(p.tables, a, c, x)
    &&& forall|a: nat, b: nat|
        a < n && !s.done.contains(a) && !p.done.contains(a) && is_edge(adj, a, b) && #[trigger] tells(
            s.frontier,
            b,
            a,
        ) ==> p.active.contains(b)
    &&& forall|b: nat| p.active.contains(b) ==> #[trigger] woken(adj, s, b)
}

/// The pass keeps what holds before the round, node by node.
pub proof fn lemma_pass_good(adj: Seq<Seq<nat>>, s: State, k: nat, n: nat)
    requires
        good(adj, s, k),
        n <= adj.len(),
    ensures
        pass_good(adj, s, k, n),
    decreases n,
{
    if n == 0 {
        let p = pass(adj, s.tables, s.frontier, s.done, 0);
        assert(p.tables == s.tables);
        assert(p.done =~= Set::<nat>::empty());
        assert(p.active =~= Set::<nat>::empty());
    } else {
        let a = (n - 1) as nat;
        lemma_pass_good(adj, s, k, a);
        let p = pass(adj, s.tables, s.frontier, s.done, a);
        let q = pass(adj, s.tables, s.frontier, s.done, n);
        if s.done.contains(a) {
            assert(q == p);
            assert forall|u: nat| #[trigger] q.done.contains(u) implies u < n && !s.done.contains(
                u,
            ) && complete(adj, q.tables, u) by {
                assert(p.done.contains(u));
            }
        } else {
            assert(q == visit(adj, p, s.frontier, a));
            lemma_visit_good(adj, s, k, p, a);
            assert forall|u: nat, v: nat, x: nat|
                is_edge(adj, u, v) && decided(s.tables, u, v, x) implies #[trigger] decided(
                q.tables,
                u,
                v,
                x,
            ) by {
                assert(decided(p.tables, u, v, x));
            }
            assert forall|u: nat| #[trigger] q.done.contains(u) implies u < n && !s.done.contains(
                u,
            ) && complete(adj, q.tables, u) by {
                if u != a || p.done.contains(u) {
                    assert(p.done.contains(u));
                    assert(complete(adj, p.tables, u));
                    assert(u < a && !s.done.contains(u));
                    assert forall|c: nat, x: nat|
                        is_edge(adj, u, c) && reachable(adj, u, x) implies #[trigger] decided(
                        q.tables,
                        u,
                        c,
                        x,
                    ) by {
                        assert(decided(p.tables, u, c, x));
                    }
                }
            }
            assert forall|u: nat, c: nat, x: nat|
                u < n && !s.done.contains(u) && is_edge(adj, u, c) && dist_is(
                    adj,
                    u,
                    x,
                    k + 2,
                ) implies #[trigger] decided(q.tables, u, c, x) by {
                if u < a {
                    assert(decided(p.tables, u, c, x));
                }
            }
            assert forall|u: nat, b: nat|
                u < n && !s.done.contains(u) && !q.done.contains(u) && is_edge(adj, u, b)
                    && #[trigger] tells(s.frontier, b, u) implies q.active.contains(b) by {
                if u < a {
                    assert(!p.done.contains(u));
                    assert(p.active.contains(b));
                }
            }
            assert forall|b: nat| q.active.contains(b) implies #[trigger] woken(adj, s, b) by {
                if !p.active.contains(b) {
                    assert(is_edge(adj, a, b) && !s.done.contains(a) && tells(s.frontier, b, a));
                }
            }
        }
    }
}

/// A round keeps what holds before it.
pub proof fn lemma_step_good(adj: Seq<Seq<nat>>, s: State, k: nat)
    requires
        good(adj, s, k),
    ensures
        good(adj, step(adj, s), k + 1),
        pass_good(adj, s, k, adj.len()),
{
    let n = adj.len();
    let p = pass(adj, s.tables, s.frontier, s.done, n);
    let s2 = step(adj, s);
    lemma_pass_good(adj, s, k, n);
    assert(s2.tables == p.tables);
    assert forall|a: nat, c: nat, x: nat|
        is_edge(adj, a, c) && within(adj, a, x, k + 2) implies #[trigger] decided(
        s2.tables,
        a,
        c,
        x,
    ) by {
        lemma_is_edge_bound(adj, a, c);
        lemma_within_node(adj, a, x, k + 2);
        if within(adj, a, x, k + 1) {
            assert(decided(s.tables, a, c, x));
        } else if s.done.contains(a) {
            assert(complete(adj, s.tables, a));
            assert(reachable(adj, a, x));
            assert(decided(s.tables, a, c, x));
        } else {
            assert(dist_is(adj, a, x, k + 2));
        }
    }
    assert forall|a: nat| #[trigger] s2.done.contains(a) implies a < n && complete(
        adj,
        s2.tables,
        a,
    ) by {
        if s.done.contains(a) {
            assert(complete(adj, s.tables, a));
            assert(a < n);
            assert forall|c: nat, x: nat|
                is_edge(adj, a, c) && reachable(adj, a, x) implies #[trigger] decided(
                s2.tables,
                a,
                c,
                x,
            ) by {
                assert(decided(s.tables, a, c, x));
            }
        } else {
            assert(p.done.contains(a));
            assert(complete(adj, p.tables, a));
            assert(a < n);
        }
    }
    assert forall|b: nat| b < n implies #[trigger] in_step(adj, s2, b, k + 1) by {
        assert(in_step(adj, s, b, k));
        assert(s2.frontier[b as int] == next_frontier(adj, s.frontier, s.visited, p.active, b));
        assert(s2.visited[b as int] == next_visited(s.frontier, s.visited, p.active, b));
        if p.active.contains(b) {
            assert(woken(adj, s, b));
            let a = choose|a: nat|
                is_edge(adj, a, b) && !s.done.contains(a) && #[trigger] tells(s.frontier, b, a);
            lemma_is_edge_bound(adj, a, b);
            assert(is_edge(adj, b, a));
            if !synced(adj, s, b, k) {
                let i = choose|i: nat| i < k && #[trigger] stopped(adj, s, b, i);
                assert(ring(adj, b, i + 1).remove(a) == Set::<nat>::empty());
                assert(false);
            }
            assert(s.frontier[b as int] != Set::<nat>::empty()) by {
                if s.frontier[b as int] == Set::<nat>::empty() {
                    assert(s.frontier[b as int].remove(a) =~= Set::<nat>::empty());
                }
            }
            lemma_ring_step(adj, b, k + 1);
            lemma_ring_step(adj, b, k);
            assert(synced(adj, s2, b, k + 1));
        } else {
            if synced(adj, s, b, k) {
                assert forall|a: nat| is_edge(adj, b, a) && !s2.done.contains(a) implies #[trigger] ring(
                    adj,
                    b,
                    k + 1,
                ).remove(a) == Set::<nat>::empty() by {
                    lemma_is_edge_bound(adj, b, a);
                    assert(is_edge(adj, a, b));
                    if tells(s.frontier, b, a) {
                        assert(p.active.contains(b));
                    }
                }
                assert(stopped(adj, s2, b, k));
            } else {
                let i = choose|i: nat| i < k && #[trigger] stopped(adj, s, b, i);
                assert forall|a: nat| is_edge(adj, b, a) && !s2.done.contains(a) implies #[trigger] ring(
                    adj,
                    b,
                    i + 1,
                ).remove(a) == Set::<nat>::empty() by {}
                assert(stopped(adj, s2, b, i));
            }
        }
    }
}

/// What the rows of an edge are after a node has written to the edges of
/// all its neighbors: the rows of the edge to neighbor `j` of `a` have
/// `ups[j]` and `cps[j]` added, and every other edge is as it was.
pub proof fn lemma_merge_edge(
    adj: Seq<Seq<nat>>,
    t: Tables,
    a: nat,
    ups: Seq<Set<nat>>,
    cps: Seq<Set<nat>>,
    u: nat,
    v: nat,
)
    requires
        adj_wf(adj),
        tables_wf(adj, t),
        a < adj.len(),
        ups.len() == adj[a as int].len(),
        cps.len() == adj[a as int].len(),
        is_edge(adj, u, v),
    ensures
        ({
            let q = merge_rows(t, a, adj[a as int], ups, cps, adj[a as int].len());
            let d = adj[a as int].len();
            let key = edge_key(u, v);
            &&& tables_wf(adj, q)
            &&& u == a ==> exists|j: int|
                0 <= j < d && #[trigger] adj[a as int][j] == v && q.edges[key]
                    == t.edges[key].union(ups[j]) && q.masks[key] == t.masks[key].union(cps[j])
            &&& v == a ==> exists|j: int|
                0 <= j < d && #[trigger] adj[a as int][j] == u && q.edges[key]
                    == t.edges[key].union(ups[j]) && q.masks[key] == t.masks[key].union(cps[j])
            &&& u != a && v != a ==> q.edges[key] == t.edges[key] && q.masks[key] == t.masks[key]
        }),
{
    let nbrs = adj[a as int];
    let d = nbrs.len();
    let q = merge_rows(t, a, nbrs, ups, cps, d);
    let key = edge_key(u, v);
    assert forall|i: int| 0 <= i < d implies t.edges.contains_key(
        #[trigger] edge_key(a, nbrs[i]),
    ) && t.masks.contains_key(edge_key(a, nbrs[i])) by {
        assert(nbrs.contains(nbrs[i]));
        assert(is_edge(adj, a, nbrs[i]));
        assert(key_set(adj).contains(edge_key(a, nbrs[i])));
    }
    lemma_merge_rows(adj, t, a, ups, cps, d);
    lemma_is_edge_bound(adj, u, v);
    if u == a {
        let j = lemma_neighbor_index(adj, a, v);
        assert(q.edges[edge_key(a, nbrs[j])] == t.edges[edge_key(a, nbrs[j])].union(ups[j]));
    } else if v == a {
        assert(is_edge(adj, a, u));
        let j = lemma_neighbor_index(adj, a, u);
        lemma_key_sym(a, u);
        assert(q.edges[edge_key(a, nbrs[j])] == t.edges[edge_key(a, nbrs[j])].union(ups[j]));
    } else {
        assert forall|j: int| 0 <= j < d implies key != #[trigger] edge_key(a, nbrs[j]) by {
            if key == edge_key(a, nbrs[j]) {
                assert(nbrs[j] < adj.len());
                lemma_edge_key_injective(u, v, a, nbrs[j]);
            }
        }
        assert(q.edges[key] == t.edges[key]);
    }
}

/// What the edge between `u` and `v` has decided when the nodes below `n`
/// have seeded their edges: its two ends, and the other neighbors of each
/// end that is below `n`.
pub open spec fn seeded_mask(adj: Seq<Seq<nat>>, n: nat, u: nat, v: nat) -> Set<nat> {
    Set::new(
        |x: nat|
            x == u || x == v || (u < n && adj[u as int].contains(x) && x != v) || (v < n
                && adj[v as int].contains(x) && x != u),
    )
}

/// The bits of the edge between `u` and `v` when the nodes below `n` have
/// seeded their edges: its larger end, and the other neighbors of that end
/// if it is below `n`.
pub open spec fn seeded_edge(adj: Seq<Seq<nat>>, n: nat, u: nat, v: nat) -> Set<nat> {
    let hi = if u > v {
        u
    } else {
        v
    };
    let lo = if u > v {
        v
    } else {
        u
    };
    Set::new(|x: nat| x == hi || (hi < n && adj[hi as int].contains(x) && x != lo))
}

/// The rows after the nodes below `n` have seeded their edges.
pub proof fn lemma_seed(adj: Seq<Seq<nat>>, n: nat)
    requires
        adj_wf(adj),
        n <= adj.len(),
    ensures
        tables_wf(adj, seed(adj, fresh(adj), n)),
        forall|u: nat, v: nat|
            is_edge(adj, u, v) ==> seed(adj, fresh(adj), n).masks[#[trigger] edge_key(u, v)]
                == seeded_mask(adj, n, u, v) && seed(adj, fresh(adj), n).edges[edge_key(u, v)]
                == seeded_edge(adj, n, u, v),
    decreases n,
{
    let t = seed(adj, fresh(adj), n);
    if n == 0 {
        lemma_fresh_wf(adj);
        assert forall|u: nat, v: nat| is_edge(adj, u, v) implies t.masks[#[trigger] edge_key(u, v)]
            == seeded_mask(adj, n, u, v) && t.edges[edge_key(u, v)] == seeded_edge(
            adj,
            n,
            u,
            v,
        ) by {
            lemma_is_edge_bound(adj, u, v);
            lemma_key_ends(u, v);
            assert(key_set(adj).contains(edge_key(u, v)));
            assert(t.masks[edge_key(u, v)] =~= seeded_mask(adj, n, u, v));
            assert(t.edges[edge_key(u, v)] =~= seeded_edge(adj, n, u, v));
        }
    } else {
        let a = (n - 1) as nat;
        let p = seed(adj, fresh(adj), a);
        lemma_seed(adj, a);
        let ups = seed_ups(adj, a);
        let cps = seed_cps(adj, a);
        assert(t == merge_rows(p, a, adj[a as int], ups, cps, adj[a as int].len()));
        assert forall|u: nat, v: nat| is_edge(adj, u, v) implies t.masks[#[trigger] edge_key(u, v)]
            == seeded_mask(adj, n, u, v) && t.edges[edge_key(u, v)] == seeded_edge(
            adj,
            n,
            u,
            v,
        ) by {
            lemma_is_edge_bound(adj, u, v);
            lemma_merge_edge(adj, p, a, ups, cps, u, v);
            let key = edge_key(u, v);
            assert(p.masks[key] == seeded_mask(adj, a, u, v));
            assert(p.edges[key] == seeded_edge(adj, a, u, v));
            if u == a {
                let j = choose|j: int|
                    0 <= j < adj[a as int].len() && #[trigger] adj[a as int][j] == v && t.edges[key]
                        == p.edges[key].union(ups[j]) && t.masks[key] == p.masks[key].union(
                        cps[j],
                    );
                assert(t.masks[key] =~= seeded_mask(adj, n, u, v));
                assert(t.edges[key] =~= seeded_edge(adj, n, u, v));
            } else if v == a {
                let j = choose|j: int|
                    0 <= j < adj[a as int].len() && #[trigger] adj[a as int][j] == u && t.edges[key]
                        == p.edges[key].union(ups[j]) && t.masks[key] == p.masks[key].union(
                        cps[j],
                    );
                assert(t.masks[key] =~= seeded_mask(adj, n, u, v));
                assert(t.edges[key] =~= seeded_edge(adj, n, u, v));
            } else {
                assert(t.masks[key] =~= seeded_mask(adj, n, u, v));
                assert(t.edges[key] =~= seeded_edge(adj, n, u, v));
            }
        }
        if adj[a as int].len() > 0 {
            assert(adj[a as int].contains(adj[a as int][0]));
            lemma_merge_edge(adj, p, a, ups, cps, a, adj[a as int][0]);
        } else {
            assert(t == p);
        }
    }
}

/// The distance of a node from itself is none, and from a neighbor one.
pub proof fn lemma_near(adj: Seq<Seq<nat>>, a: nat, x: nat)
    requires
        adj_wf(adj),
        a < adj.len(),
    ensures
        dist_is(adj, a, a, 0),
        within(adj, a, x, 0) <==> x == a,
        within(adj, a, x, 1) <==> (x == a || is_edge(adj, a, x)),
        is_edge(adj, a, x) ==> dist_is(adj, a, x, 1),
{
    assert(ball(adj, a, 0).contains(a));
    if is_edge(adj, a, x) {
        lemma_is_edge_bound(adj, a, x);
        assert(ball(adj, a, 0).contains(a) && is_edge(adj, a, x));
        assert(reach(adj, ball(adj, a, 0)).contains(x));
    }
    if within(adj, a, x, 1) && x != a {
        let y = choose|y: nat| ball(adj, a, 0).contains(y) && is_edge(adj, y, x);
        assert(y == a);
    }
}

/// Before the first round all is well.
pub proof fn lemma_start_good(adj: Seq<Seq<nat>>)
    requires
        adj_wf(adj),
    ensures
        good(adj, start(adj, fresh(adj)), 0),
{
    let n = adj.len();
    let s = start(adj, fresh(adj));
    let t = s.tables;
    lemma_seed(adj, n);
    assert forall|u: nat, v: nat, x: nat|
        is_edge(adj, u, v) && fair(adj, x) implies #[trigger] sound_at(adj, t, u, v, x) by {
        lemma_is_edge_bound(adj, u, v);
        assert(is_edge(adj, v, u));
        let key = edge_key(u, v);
        assert(t.masks[key] == seeded_mask(adj, n, u, v));
        assert(t.edges[key] == seeded_edge(adj, n, u, v));
        lemma_near(adj, u, x);
        lemma_near(adj, v, x);
        lemma_near(adj, u, v);
        lemma_near(adj, v, u);
        if decided(t, u, v, x) {
            if adj[u as int].contains(x) {
                lemma_is_edge_bound(adj, u, x);
            }
            if adj[v as int].contains(x) {
                lemma_is_edge_bound(adj, v, x);
            }
            assert(reachable(adj, u, x)) by {
                assert(within(adj, u, u, 0));
                lemma_within_append(adj, u, u, v, 0);
                if x == u {
                } else if x == v {
                } else if is_edge(adj, u, x) {
                    lemma_within_append(adj, u, u, x, 0);
                } else {
                    assert(is_edge(adj, v, x));
                    lemma_within_append(adj, u, v, x, 1);
                }
            }
            assert(closer(adj, u, v, x) || closer(adj, v, u, x));
            if closer(adj, v, u, x) {
                let m = choose|m: nat| dist_is(adj, v, x, m) && #[trigger] dist_is(adj, u, x, m + 1);
                if x == u {
                    lemma_dist_unique(adj, u, x, m + 1, 0);
                }
                if is_edge(adj, u, x) {
                    lemma_dist_unique(adj, u, x, m + 1, 1);
                    lemma_dist_unique(adj, v, x, m, 0);
                }
            } else {
                let m = choose|m: nat| dist_is(adj, u, x, m) && #[trigger] dist_is(adj, v, x, m + 1);
                if x == v {
                    lemma_dist_unique(adj, v, x, m + 1, 0);
                }
                if is_edge(adj, v, x) {
                    lemma_dist_unique(adj, v, x, m + 1, 1);
                    lemma_dist_unique(adj, u, x, m, 0);
                }
            }
            if x == v {
                assert(dist_is(adj, v, x, 0) && dist_is(adj, u, x, 0 + 1));
            } else if x != u && is_edge(adj, v, x) {
                // v is next to x, so u is not: else both were equally far
                assert(closer(adj, v, u, x));
            }
        }
    }
    assert forall|a: nat, c: nat, x: nat|
        is_edge(adj, a, c) && within(adj, a, x, 0 + 1) implies #[trigger] decided(t, a, c, x) by {
        lemma_is_edge_bound(adj, a, c);
        lemma_near(adj, a, x);
        assert(t.masks[edge_key(a, c)] == seeded_mask(adj, n, a, c));
    }
    assert forall|b: nat| b < n implies #[trigger] in_step(adj, s, b, 0) by {
        assert(s.frontier[b as int] == nbr_set(adj, b));
        assert(s.visited[b as int] == set![b]);
        assert forall|x: nat| nbr_set(adj, b).contains(x) <==> ring(adj, b, 1).contains(x) by {
            lemma_near(adj, b, x);
            if is_edge(adj, b, x) {
                lemma_is_edge_bound(adj, b, x);
            }
        }
        assert(nbr_set(adj, b) =~= ring(adj, b, 1));
        assert(set![b] =~= ball(adj, b, 0));
        assert(synced(adj, s, b, 0));
    }
}

/// Where nothing is amiss, the state is one in which the rounds come to an end.
pub proof fn lemma_good_ok(adj: Seq<Seq<nat>>, s: State, k: nat)
    requires
        good(adj, s, k),
    ensures
        state_ok(adj, s),
{
    let n = adj.len();
    assert forall|b: int| 0 <= b < n implies {
        &&& (#[trigger] s.frontier[b]).subset_of(full(n))
        &&& s.visited[b].subset_of(full(n))
        &&& s.frontier[b].disjoint(s.visited[b])
    } by {
        assert(in_step(adj, s, b as nat, k));
        let i: nat = if synced(adj, s, b as nat, k) {
            k
        } else {
            choose|i: nat| i < k && #[trigger] stopped(adj, s, b as nat, i)
        };
        assert(s.frontier[b] == ring(adj, b as nat, i + 1));
        assert(s.visited[b] == ball(adj, b as nat, i));
        assert forall|x: nat| s.frontier[b].contains(x) implies full(n).contains(x) by {
            lemma_within_node(adj, b as nat, x, i + 1);
        }
        assert forall|x: nat| s.visited[b].contains(x) implies full(n).contains(x) by {
            lemma_within_node(adj, b as nat, x, i);
        }
    }
    assert(s.done.subset_of(full(n)));
}

/// The rounds come to an end, and all is well before the last.
pub proof fn lemma_runs_out(adj: Seq<Seq<nat>>, s: State, k: nat) -> (n: nat)
    requires
        good(adj, s, k),
    ensures
        last_round(adj, s, n),
        good(adj, after_rounds(adj, s, n), k + n),
    decreases measure(adj, s),
{
    lemma_good_ok(adj, s, k);
    if finishes(adj, s) {
        0
    } else {
        lemma_step_decreases(adj, s);
        lemma_step_good(adj, s, k);
        let m = lemma_runs_out(adj, step(adj, s), k + 1);
        lemma_shift(adj, s, m);
        assert forall|j: nat| j < m + 1 implies !finishes(adj, after_rounds(adj, s, j)) by {
            if j > 0 {
                lemma_shift(adj, s, (j - 1) as nat);
            }
        }
        m + 1
    }
}

/// For a destination whose part of the graph has no cycle of odd length,
/// the rows that the rounds leave say where the shortest paths go: an edge
/// leads from `a` towards the destination exactly if its other end is one
/// edge closer to it.
pub proof fn lemma_solved(adj: Seq<Seq<nat>>, a: nat, c: nat, x: nat)
    requires
        adj_wf(adj),
        fair(adj, x),
        is_edge(adj, a, c),
    ensures
        leads(solve(adj), a, c, x) <==> closer(adj, c, a, x),
{
    let s0 = start(adj, fresh(adj));
    lemma_start_good(adj);
    let n = lemma_runs_out(adj, s0, 0);
    lemma_last_round_unique(adj, s0, n, rounds(adj, fresh(adj)));
    let last = after_rounds(adj, s0, n);
    lemma_step_good(adj, last, n);
    let end = step(adj, last);
    assert(end.tables == solve(adj));
    lemma_is_edge_bound(adj, a, c);
    assert(end.done.contains(a));
    assert(complete(adj, end.tables, a));
    assert(sound_at(adj, end.tables, a, c, x));
    if reachable(adj, a, x) {
        assert(decided(end.tables, a, c, x));
    } else {
        if closer(adj, c, a, x) {
            let m = choose|m: nat| dist_is(adj, c, x, m) && #[trigger] dist_is(adj, a, x, m + 1);
            assert(within(adj, a, x, m + 1));
        }
    }
}

} // verus!
