//! Why the rounds come to an end.
//!
//! Every round either finds a node done or lets some node visit more nodes
//! than before. Both are bounded by the number of nodes.

use crate::graph::model::{
    adj_wf, advances, after_rounds, finishes, full, is_done, is_edge, last_round, local,
    local_active, pass, reach, start, step, Local, State, Tables,
};
use crate::graph::nodes::lemma_is_edge_bound;
use vstd::prelude::*;
use vstd::set_lib::{lemma_len_subset, lemma_set_subset_finite};

verus! {

/// There are `n` node ids below `n`.
pub proof fn lemma_full_len(n: nat)
    ensures
        full(n).finite(),
        full(n).len() == n,
    decreases n,
{
    if n == 0 {
        assert(full(0) =~= Set::<nat>::empty());
    } else {
        lemma_full_len((n - 1) as nat);
        assert(full(n) =~= full((n - 1) as nat).insert((n - 1) as nat));
    }
}

/// A set of node ids of a graph with `n` nodes has at most `n` elements.
pub proof fn lemma_node_set_len(s: Set<nat>, n: nat)
    requires
        s.subset_of(full(n)),
    ensures
        s.finite(),
        s.len() <= n,
{
    lemma_full_len(n);
    lemma_set_subset_finite(full(n), s);
    lemma_len_subset(s, full(n));
}

/// How many nodes the first `k` nodes have not visited yet, in sum.
pub open spec fn slack(vis: Seq<Set<nat>>, n: nat, k: nat) -> int
    decreases k,
{
    if k == 0 {
        0
    } else {
        slack(vis, n, (k - 1) as nat) + (n - vis[k - 1].len())
    }
}

/// What is left to do: the nodes not done, and the nodes not visited.
pub open spec fn measure(adj: Seq<Seq<nat>>, s: State) -> int {
    (adj.len() - s.done.len()) + slack(s.visited, adj.len(), adj.len())
}

/// The frontiers and visited sets are disjoint sets of nodes, one pair for each
/// node, and the nodes that are done are nodes.
pub open spec fn state_ok(adj: Seq<Seq<nat>>, s: State) -> bool {
    &&& adj_wf(adj)
    &&& s.frontier.len() == adj.len()
    &&& s.visited.len() == adj.len()
    &&& s.done.subset_of(full(adj.len()))
    &&& forall|b: int|
        0 <= b < adj.len() ==> {
            &&& (#[trigger] s.frontier[b]).subset_of(full(adj.len()))
            &&& s.visited[b].subset_of(full(adj.len()))
            &&& s.frontier[b].disjoint(s.visited[b])
        }
}

/// Growing visited sets leave less to do.
pub proof fn lemma_slack_mono(v1: Seq<Set<nat>>, v2: Seq<Set<nat>>, n: nat, k: nat)
    requires
        k <= v1.len(),
        k <= v2.len(),
        forall|b: int| 0 <= b < k ==> (#[trigger] v1[b]).subset_of(v2[b]) && v2[b].subset_of(full(n)),
    ensures
        slack(v2, n, k) <= slack(v1, n, k),
        slack(v2, n, k) >= 0,
    decreases k,
{
    if k > 0 {
        assert forall|b: int| 0 <= b < k - 1 implies (#[trigger] v1[b]).subset_of(v2[b])
            && v2[b].subset_of(full(n)) by {}
        lemma_slack_mono(v1, v2, n, (k - 1) as nat);
        assert(v1[k - 1].subset_of(v2[k - 1]));
        lemma_node_set_len(v2[k - 1], n);
        lemma_len_subset(v1[k - 1], v2[k - 1]);
    }
}

/// A visited set that grew leaves strictly less to do.
pub proof fn lemma_slack_strict(v1: Seq<Set<nat>>, v2: Seq<Set<nat>>, n: nat, k: nat, b0: int)
    requires
        k <= v1.len(),
        k <= v2.len(),
        forall|b: int| 0 <= b < k ==> (#[trigger] v1[b]).subset_of(v2[b]) && v2[b].subset_of(full(n)),
        0 <= b0 < k,
        v1[b0].len() < v2[b0].len(),
    ensures
        slack(v2, n, k) < slack(v1, n, k),
    decreases k,
{
    if b0 == k - 1 {
        assert forall|b: int| 0 <= b < k - 1 implies (#[trigger] v1[b]).subset_of(v2[b])
            && v2[b].subset_of(full(n)) by {}
        lemma_slack_mono(v1, v2, n, (k - 1) as nat);
    } else {
        assert forall|b: int| 0 <= b < k - 1 implies (#[trigger] v1[b]).subset_of(v2[b])
            && v2[b].subset_of(full(n)) by {}
        lemma_slack_strict(v1, v2, n, (k - 1) as nat, b0);
        assert(v1[k - 1].subset_of(v2[k - 1]));
        lemma_node_set_len(v2[k - 1], n);
        lemma_len_subset(v1[k - 1], v2[k - 1]);
    }
}

/// An active neighbor is a neighbor that has something to tell.
pub proof fn lemma_local_active(l: Local, n: nat)
    requires
        n <= l.nbrs.len(),
        l.fronts.len() == l.nbrs.len(),
    ensures
        forall|x: nat|
            local_active(l, n).contains(x) <==> exists|i: int|
                0 <= i < n && l.nbrs[i] == x && l.fronts[i] != Set::<nat>::empty(),
    decreases n,
{
    if n > 0 {
        lemma_local_active(l, (n - 1) as nat);
        let rest = local_active(l, (n - 1) as nat);
        assert forall|x: nat|
            local_active(l, n).contains(x) <==> exists|i: int|
                0 <= i < n && l.nbrs[i] == x && l.fronts[i] != Set::<nat>::empty() by {
            if local_active(l, n).contains(x) {
                if rest.contains(x) {
                    let i = choose|i: int|
                        0 <= i < n - 1 && l.nbrs[i] == x && l.fronts[i] != Set::<nat>::empty();
                    assert(0 <= i < n && l.nbrs[i] == x && l.fronts[i] != Set::<nat>::empty());
                } else {
                    assert(l.nbrs[n - 1] == x && l.fronts[n - 1] != Set::<nat>::empty());
                }
            }
            if exists|i: int| 0 <= i < n && l.nbrs[i] == x && l.fronts[i] != Set::<nat>::empty() {
                let i = choose|i: int|
                    0 <= i < n && l.nbrs[i] == x && l.fronts[i] != Set::<nat>::empty();
                if i < n - 1 {
                    assert(rest.contains(x));
                }
            }
        }
    }
}

/// What a pass over the nodes below `n` leaves: the nodes it found done are
/// below `n`, the active nodes are nodes with a frontier that is not empty,
/// and every node below `n` that was to be visited and was not found done
/// has an active neighbor.
pub proof fn lemma_pass(
    adj: Seq<Seq<nat>>,
    t: Tables,
    fr: Seq<Set<nat>>,
    done: Set<nat>,
    n: nat,
)
    requires
        adj_wf(adj),
        n <= adj.len(),
        fr.len() == adj.len(),
    ensures
        pass(adj, t, fr, done, n).done.subset_of(full(n)),
        forall|b: nat| #[trigger]
            pass(adj, t, fr, done, n).active.contains(b) ==> b < adj.len() && fr[b as int]
                != Set::<nat>::empty(),
        forall|a: nat|
            a < n && !done.contains(a) && !pass(adj, t, fr, done, n).done.contains(a)
                ==> exists|b: nat| #[trigger]
                pass(adj, t, fr, done, n).active.contains(b) && b < adj.len(),
    decreases n,
{
    if n > 0 {
        let a = (n - 1) as nat;
        let p = pass(adj, t, fr, done, a);
        let q = pass(adj, t, fr, done, n);
        lemma_pass(adj, t, fr, done, a);
        let l = local(adj, p.tables, fr, a);
        lemma_local_active(l, l.nbrs.len());
        assert forall|b: nat| #[trigger] q.active.contains(b) implies b < adj.len() && fr[b as int]
            != Set::<nat>::empty() by {
            if !p.active.contains(b) {
                let i = choose|i: int|
                    0 <= i < l.nbrs.len() && l.nbrs[i] == b && l.fronts[i] != Set::<nat>::empty();
                assert(adj[a as int][i] < adj.len());
                if fr[b as int] == Set::<nat>::empty() {
                    assert(l.fronts[i] =~= Set::<nat>::empty());
                }
            }
        }
        assert forall|x: nat| x < n && !done.contains(x) && !q.done.contains(x) implies exists|
            b: nat,
        | #[trigger] q.active.contains(b) && b < adj.len() by {
            if x < a {
                let b = choose|b: nat| #[trigger] p.active.contains(b) && b < adj.len();
                assert(q.active.contains(b));
            } else {
                assert(!is_done(l, full(adj.len())));
                let act = local_active(l, l.nbrs.len());
                assert(act != Set::<nat>::empty());
                assert(exists|b: nat| act.contains(b)) by {
                    if forall|b: nat| !act.contains(b) {
                        assert(act =~= Set::<nat>::empty());
                    }
                }
                let b = choose|b: nat| act.contains(b);
                assert(q.active.contains(b));
            }
        }
    }
}

/// A round that is not the last leaves strictly less to do.
pub proof fn lemma_step_decreases(adj: Seq<Seq<nat>>, s: State)
    requires
        state_ok(adj, s),
        !finishes(adj, s),
    ensures
        state_ok(adj, step(adj, s)),
        0 <= measure(adj, step(adj, s)) < measure(adj, s),
{
    let n = adj.len();
    let p = pass(adj, s.tables, s.frontier, s.done, n);
    let s2 = step(adj, s);
    lemma_pass(adj, s.tables, s.frontier, s.done, n);
    assert forall|b: int| 0 <= b < n implies {
        &&& (#[trigger] s2.frontier[b]).subset_of(full(n))
        &&& s2.visited[b].subset_of(full(n))
        &&& s2.frontier[b].disjoint(s2.visited[b])
        &&& s.visited[b].subset_of(s2.visited[b])
    } by {
        assert(s.frontier[b].subset_of(full(n)));
        if advances(s.frontier, p.active, b as nat) {
            assert forall|x: nat| reach(adj, s.frontier[b]).contains(x) implies full(n).contains(
                x,
            ) by {
                let y = choose|y: nat| s.frontier[b].contains(y) && is_edge(adj, y, x);
                lemma_is_edge_bound(adj, y, x);
            }
        }
    }
    assert forall|b: int| 0 <= b < n implies (#[trigger] s.visited[b]).subset_of(s2.visited[b])
        && s2.visited[b].subset_of(full(n)) by {
        assert(s2.frontier[b].subset_of(full(n)));
    }
    lemma_node_set_len(s.done, n);
    lemma_node_set_len(s2.done, n);
    lemma_len_subset(s.done, s2.done);
    lemma_slack_mono(s.visited, s2.visited, n, n);
    if s2.done.len() == s.done.len() {
        // no node was found done: some node that is not done has an active neighbor
        assert(s2.done =~= s.done) by {
            if !(s2.done =~= s.done) {
                let x = choose|x: nat| s2.done.contains(x) && !s.done.contains(x);
                s.done.lemma_subset_not_in_lt(s2.done, x);
            }
        }
        assert(s2.done != full(n));
        assert(exists|a: nat| a < n && !s2.done.contains(a)) by {
            if forall|a: nat| a < n ==> s2.done.contains(a) {
                assert(s2.done =~= full(n));
            }
        }
        let a = choose|a: nat| a < n && !s2.done.contains(a);
        assert(!s.done.contains(a) && !p.done.contains(a));
        let b = choose|b: nat| #[trigger] p.active.contains(b) && b < n;
        assert(advances(s.frontier, p.active, b));
        let f = s.frontier[b as int];
        let v = s.visited[b as int];
        assert(s2.visited[b as int] == v.union(f));
        lemma_node_set_len(f, n);
        lemma_node_set_len(v, n);
        vstd::set_lib::lemma_set_disjoint_lens(v, f);
        assert(f.len() > 0) by {
            if f.len() == 0 {
                f.lemma_len0_is_empty();
            }
        }
        lemma_slack_strict(s.visited, s2.visited, n, n, b as int);
    }
}

/// Before the first round the frontiers and visited sets are in order.
pub proof fn lemma_start_ok(adj: Seq<Seq<nat>>, t: Tables)
    requires
        adj_wf(adj),
    ensures
        state_ok(adj, start(adj, t)),
        measure(adj, start(adj, t)) <= adj.len() + adj.len() * adj.len(),
{
    let n = adj.len();
    let s = start(adj, t);
    assert forall|b: int| 0 <= b < n implies {
        &&& (#[trigger] s.frontier[b]).subset_of(full(n))
        &&& s.visited[b].subset_of(full(n))
        &&& s.frontier[b].disjoint(s.visited[b])
    } by {
        assert forall|x: nat| s.frontier[b].contains(x) implies full(n).contains(x) && x != b by {
            let i = choose|i: int| 0 <= i < adj[b].len() && adj[b][i] == x;
            assert(adj[b][i] < n && adj[b][i] != b);
        }
    }
    assert(s.done =~= Set::<nat>::empty());
    lemma_slack_bound(s.visited, n, n);
    assert(n * n == n * n);
}

/// Each node has at most all nodes left to visit.
pub proof fn lemma_slack_bound(vis: Seq<Set<nat>>, n: nat, k: nat)
    ensures
        slack(vis, n, k) <= k * n,
    decreases k,
{
    if k > 0 {
        lemma_slack_bound(vis, n, (k - 1) as nat);
        assert((k - 1) * n + n == k * n) by (nonlinear_arith);
    }
}

/// The rounds come to an end, whatever the graph: after no more rounds
/// than there is left to do.
pub proof fn lemma_rounds_end(adj: Seq<Seq<nat>>, s: State) -> (n: nat)
    requires
        state_ok(adj, s),
        measure(adj, s) >= 0,
    ensures
        last_round(adj, s, n),
        n <= measure(adj, s),
    decreases measure(adj, s),
{
    if finishes(adj, s) {
        0
    } else {
        lemma_step_decreases(adj, s);
        let m = lemma_rounds_end(adj, step(adj, s));
        lemma_shift(adj, s, m);
        assert forall|j: nat| j < m + 1 implies !finishes(adj, after_rounds(adj, s, j)) by {
            if j > 0 {
                lemma_shift(adj, s, (j - 1) as nat);
            }
        }
        m + 1
    }
}

/// The state after one round more is the state after as many rounds from
/// the state after the first.
pub proof fn lemma_shift(adj: Seq<Seq<nat>>, s: State, n: nat)
    ensures
        after_rounds(adj, s, n + 1) == after_rounds(adj, step(adj, s), n),
    decreases n,
{
    if n > 0 {
        lemma_shift(adj, s, (n - 1) as nat);
    } else {
        assert(after_rounds(adj, s, 1) == step(adj, after_rounds(adj, s, 0)));
    }
}

/// What is left to do is never less than nothing.
pub proof fn lemma_measure(adj: Seq<Seq<nat>>, s: State)
    requires
        state_ok(adj, s),
    ensures
        measure(adj, s) >= 0,
{
    let n = adj.len();
    lemma_node_set_len(s.done, n);
    assert forall|b: int| 0 <= b < n implies (#[trigger] s.visited[b]).subset_of(s.visited[b])
        && s.visited[b].subset_of(full(n)) by {
        assert(s.frontier[b].subset_of(full(n)));
    }
    lemma_slack_mono(s.visited, s.visited, n, n);
}

} // verus!
