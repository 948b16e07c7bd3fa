//! The gossip computation, stated over sets.
//!
//! A graph is a sequence of neighbor lists. Each edge has two rows of bits,
//! both indexed by destination node: the decision row, which says for which
//! destinations the edge leads from its smaller endpoint towards them, and
//! the mask row, which says for which destinations that has been decided.
//! The functions here say how one visit of a node, one round over all nodes
//! and the whole computation change those rows. The engines are proved to
//! compute exactly these functions.

use vstd::prelude::*;

verus! {

/// The key of the undirected edge between `a` and `b`: both endpoints packed
/// into one integer, the smaller one in the upper half.
pub open spec fn edge_key(a: nat, b: nat) -> u64 {
    if a > b {
        (b * 0x1_0000_0000 + a) as u64
    } else {
        (a * 0x1_0000_0000 + b) as u64
    }
}

/// The set of all node ids of a graph with `n` nodes.
pub open spec fn full(n: nat) -> Set<nat> {
    Set::new(|i: nat| i < n)
}

/// The neighbors of `a` as a set.
pub open spec fn nbr_set(adj: Seq<Seq<nat>>, a: nat) -> Set<nat> {
    Set::new(|x: nat| adj[a as int].contains(x))
}

/// Whether `b` is listed as a neighbor of `a`.
pub open spec fn is_edge(adj: Seq<Seq<nat>>, a: nat, b: nat) -> bool {
    a < adj.len() && adj[a as int].contains(b)
}

/// The keys of the edges of a graph.
pub open spec fn key_set(adj: Seq<Seq<nat>>) -> Set<u64> {
    Set::new(|k: u64| exists|a: nat, b: nat| is_edge(adj, a, b) && k == edge_key(a, b))
}

/// Neighbor lists of a simple undirected graph: every neighbor is a node other
/// than the node itself, is listed once, and lists the node in turn.
pub open spec fn adj_wf(adj: Seq<Seq<nat>>) -> bool {
    &&& adj.len() <= 0xffff_ffff
    &&& forall|a: int, i: int|
        0 <= a < adj.len() && 0 <= i < adj[a].len() ==> #[trigger] adj[a][i] < adj.len()
            && adj[a][i] != a
    &&& forall|a: int, i: int, j: int|
        0 <= a < adj.len() && 0 <= i < adj[a].len() && 0 <= j < adj[a].len() && i != j
            ==> #[trigger] adj[a][i] != #[trigger] adj[a][j]
    &&& forall|a: nat, b: nat| is_edge(adj, a, b) ==> is_edge(adj, b, a)
}

/// The two rows of every edge.
pub struct Tables {
    /// For each edge, the destinations towards which it leads from its smaller endpoint.
    pub edges: Map<u64, Set<nat>>,
    /// For each edge, the destinations for which that is decided.
    pub masks: Map<u64, Set<nat>>,
}

/// Both tables have a row for each edge of the graph and for nothing else.
pub open spec fn tables_wf(adj: Seq<Seq<nat>>, t: Tables) -> bool {
    &&& t.edges.dom() == key_set(adj)
    &&& t.masks.dom() == key_set(adj)
}

/// The smaller endpoint of the edge with key `k`.
pub open spec fn key_lo(k: u64) -> nat {
    (k / 0x1_0000_0000) as nat
}

/// The larger endpoint of the edge with key `k`.
pub open spec fn key_hi(k: u64) -> nat {
    (k % 0x1_0000_0000) as nat
}

/// A key gives both endpoints back.
pub proof fn lemma_key_ends(a: nat, b: nat)
    requires
        a <= 0xffff_ffff,
        b <= 0xffff_ffff,
    ensures
        key_lo(edge_key(a, b)) == if a > b {
            b
        } else {
            a
        },
        key_hi(edge_key(a, b)) == if a > b {
            a
        } else {
            b
        },
{
}

/// The tables of a graph on which nothing has been computed: each edge
/// leads towards its larger endpoint, and its two endpoints are decided.
pub open spec fn fresh(adj: Seq<Seq<nat>>) -> Tables {
    Tables {
        edges: Map::new(|k: u64| key_set(adj).contains(k), |k: u64| set![key_hi(k)]),
        masks: Map::new(|k: u64| key_set(adj).contains(k), |k: u64| set![key_lo(k), key_hi(k)]),
    }
}

/// What a node sees when it is visited: its neighbors and, for the edge to
/// each of them, the decision row, the mask row, and what that neighbor has
/// to tell.
pub struct Local {
    /// The visited node.
    pub a: nat,
    /// Its neighbors, in the order of its list.
    pub nbrs: Seq<nat>,
    /// For each neighbor, the decision row of the edge to it.
    pub vals: Seq<Set<nat>>,
    /// For each neighbor, the mask row of the edge to it.
    pub masks: Seq<Set<nat>>,
    /// For each neighbor, the nodes on its frontier, but for the visited node.
    pub fronts: Seq<Set<nat>>,
}

/// What node `a` sees on the tables `t` with the frontiers `fr`.
pub open spec fn local(adj: Seq<Seq<nat>>, t: Tables, fr: Seq<Set<nat>>, a: nat) -> Local {
    let nbrs = adj[a as int];
    Local {
        a,
        nbrs,
        vals: Seq::new(nbrs.len(), |i: int| t.edges[edge_key(a, nbrs[i])]),
        masks: Seq::new(nbrs.len(), |i: int| t.masks[edge_key(a, nbrs[i])]),
        fronts: Seq::new(nbrs.len(), |i: int| fr[nbrs[i] as int].remove(a)),
    }
}

/// The destinations that neighbor `i` decides for the edge to neighbor `j`:
/// those it has heard of that the edge has not decided yet.
pub open spec fn contrib_mask(l: Local, i: int, j: int) -> Set<nat> {
    if i == j {
        Set::empty()
    } else {
        l.fronts[i].difference(l.masks[j])
    }
}

/// Whether the edges from `a` to `b` and from `a` to `c` are stored in the
/// same direction as seen from `a`.
pub open spec fn same_side(a: nat, b: nat, c: nat) -> bool {
    (a > b) == (a > c)
}

/// The bits that neighbor `i` sets in the decision row of the edge to
/// neighbor `j`. Seen from the visited node, the edge to `j` leads towards a
/// destination exactly when the edge to `i` does not.
pub open spec fn contrib_bits(l: Local, i: int, j: int) -> Set<nat> {
    let cm = contrib_mask(l, i, j);
    if same_side(l.a, l.nbrs[i], l.nbrs[j]) {
        cm.difference(l.vals[i])
    } else {
        cm.intersect(l.vals[i])
    }
}

/// What the first `n` neighbors decide for the edge to neighbor `j`.
pub open spec fn computed_row(l: Local, j: int, n: nat) -> Set<nat>
    decreases n,
{
    if n == 0 {
        Set::empty()
    } else {
        computed_row(l, j, (n - 1) as nat).union(contrib_mask(l, n - 1, j))
    }
}

/// The bits that the first `n` neighbors set for the edge to neighbor `j`.
pub open spec fn upsert_row(l: Local, j: int, n: nat) -> Set<nat>
    decreases n,
{
    if n == 0 {
        Set::empty()
    } else {
        upsert_row(l, j, (n - 1) as nat).union(contrib_bits(l, n - 1, j))
    }
}

/// A bit is only set for a destination that is decided.
pub proof fn lemma_upsert_subset(l: Local, j: int, n: nat)
    ensures
        upsert_row(l, j, n).subset_of(computed_row(l, j, n)),
    decreases n,
{
    if n > 0 {
        lemma_upsert_subset(l, j, (n - 1) as nat);
    }
}

/// Those among the first `n` neighbors that have something to tell.
pub open spec fn local_active(l: Local, n: nat) -> Set<nat>
    decreases n,
{
    if n == 0 {
        Set::empty()
    } else {
        let rest = local_active(l, (n - 1) as nat);
        if l.fronts[n - 1] == Set::<nat>::empty() {
            rest
        } else {
            rest.insert(l.nbrs[n - 1])
        }
    }
}

/// Every edge at the node has decided every destination in `all`.
pub open spec fn local_settled(l: Local, all: Set<nat>) -> bool {
    forall|i: int| 0 <= i < l.masks.len() ==> #[trigger] l.masks[i] == all
}

/// Adds `up` to the decision row and `cp` to the mask row of the edge with key `k`.
pub open spec fn merge_row(t: Tables, k: u64, up: Set<nat>, cp: Set<nat>) -> Tables {
    Tables {
        edges: t.edges.insert(k, t.edges[k].union(up)),
        masks: t.masks.insert(k, t.masks[k].union(cp)),
    }
}

/// Adds `ups[j]` and `cps[j]` to the rows of the edge from `a` to its
/// neighbor `j`, for the first `n` neighbors.
pub open spec fn merge_rows(
    t: Tables,
    a: nat,
    nbrs: Seq<nat>,
    ups: Seq<Set<nat>>,
    cps: Seq<Set<nat>>,
    n: nat,
) -> Tables
    decreases n,
{
    if n == 0 {
        t
    } else {
        merge_row(
            merge_rows(t, a, nbrs, ups, cps, (n - 1) as nat),
            edge_key(a, nbrs[n - 1]),
            ups[n - 1],
            cps[n - 1],
        )
    }
}

/// The bits that a visit sets, for each neighbor's edge.
pub open spec fn gossip_ups(l: Local) -> Seq<Set<nat>> {
    Seq::new(l.nbrs.len(), |j: int| upsert_row(l, j, l.nbrs.len()))
}

/// The destinations that a visit decides, for each neighbor's edge.
pub open spec fn gossip_cps(l: Local) -> Seq<Set<nat>> {
    Seq::new(l.nbrs.len(), |j: int| computed_row(l, j, l.nbrs.len()))
}

/// The tables after the visit of `a` has written what its neighbors decided.
pub open spec fn gossip_apply(adj: Seq<Seq<nat>>, t: Tables, fr: Seq<Set<nat>>, a: nat) -> Tables {
    let l = local(adj, t, fr, a);
    merge_rows(t, a, l.nbrs, gossip_ups(l), gossip_cps(l), l.nbrs.len())
}

/// What one pass over the nodes has done so far.
pub struct Pass {
    pub tables: Tables,
    /// The nodes found done in this pass.
    pub done: Set<nat>,
    /// The nodes that told a neighbor something in this pass.
    pub active: Set<nat>,
}

/// The visit of node `a`. A node whose edges are all decided, or none of
/// whose neighbors has anything to tell, is done and changes nothing.
pub open spec fn visit(adj: Seq<Seq<nat>>, p: Pass, fr: Seq<Set<nat>>, a: nat) -> Pass {
    let l = local(adj, p.tables, fr, a);
    if is_done(l, full(adj.len())) {
        Pass { done: p.done.insert(a), ..p }
    } else {
        Pass {
            tables: gossip_apply(adj, p.tables, fr, a),
            done: p.done,
            active: p.active.union(local_active(l, l.nbrs.len())),
        }
    }
}

/// A node is done when its edges have decided every destination, or when
/// none of its neighbors has anything to tell.
pub open spec fn is_done(l: Local, all: Set<nat>) -> bool {
    local_settled(l, all) || local_active(l, l.nbrs.len()) == Set::<nat>::empty()
}

/// One pass over the nodes below `n` in ascending order, skipping those in `done`.
pub open spec fn pass(
    adj: Seq<Seq<nat>>,
    t: Tables,
    fr: Seq<Set<nat>>,
    done: Set<nat>,
    n: nat,
) -> Pass
    decreases n,
{
    if n == 0 {
        Pass { tables: t, done: Set::empty(), active: Set::empty() }
    } else {
        let p = pass(adj, t, fr, done, (n - 1) as nat);
        if done.contains((n - 1) as nat) {
            p
        } else {
            visit(adj, p, fr, (n - 1) as nat)
        }
    }
}

/// A pass does nothing at nodes that are done.
pub proof fn lemma_pass_skip(
    adj: Seq<Seq<nat>>,
    t: Tables,
    fr: Seq<Set<nat>>,
    done: Set<nat>,
    lo: nat,
    hi: nat,
)
    requires
        lo <= hi,
        forall|x: nat| lo <= x < hi ==> done.contains(x),
    ensures
        pass(adj, t, fr, done, hi) == pass(adj, t, fr, done, lo),
    decreases hi - lo,
{
    if lo < hi {
        lemma_pass_skip(adj, t, fr, done, lo, (hi - 1) as nat);
    }
}

/// The nodes next to a node of `s`.
pub open spec fn reach(adj: Seq<Seq<nat>>, s: Set<nat>) -> Set<nat> {
    Set::new(|x: nat| exists|b: nat| s.contains(b) && is_edge(adj, b, x))
}

/// The state between two rounds.
pub struct State {
    pub tables: Tables,
    /// For each node, the nodes at the current distance from it.
    pub frontier: Seq<Set<nat>>,
    /// For each node, the nodes at a smaller distance from it.
    pub visited: Seq<Set<nat>>,
    /// The nodes that are done.
    pub done: Set<nat>,
}

/// Whether node `a` moves its frontier on after a pass with the given active nodes.
pub open spec fn advances(fr: Seq<Set<nat>>, active: Set<nat>, a: nat) -> bool {
    active.contains(a) && fr[a as int] != Set::<nat>::empty()
}

/// The frontier of `a` after the pass: one step further if `a` was active.
pub open spec fn next_frontier(
    adj: Seq<Seq<nat>>,
    fr: Seq<Set<nat>>,
    vis: Seq<Set<nat>>,
    active: Set<nat>,
    a: nat,
) -> Set<nat> {
    if advances(fr, active, a) {
        reach(adj, fr[a as int]).difference(vis[a as int].union(fr[a as int]))
    } else {
        fr[a as int]
    }
}

/// The visited set of `a` after the pass.
pub open spec fn next_visited(
    fr: Seq<Set<nat>>,
    vis: Seq<Set<nat>>,
    active: Set<nat>,
    a: nat,
) -> Set<nat> {
    if advances(fr, active, a) {
        vis[a as int].union(fr[a as int])
    } else {
        vis[a as int]
    }
}

/// The frontiers after every active node has moved on.
pub open spec fn next_frontiers(
    adj: Seq<Seq<nat>>,
    fr: Seq<Set<nat>>,
    vis: Seq<Set<nat>>,
    active: Set<nat>,
) -> Seq<Set<nat>> {
    Seq::new(adj.len(), |a: int| next_frontier(adj, fr, vis, active, a as nat))
}

/// The visited sets after every active node has moved on.
pub open spec fn next_visiteds(
    adj: Seq<Seq<nat>>,
    fr: Seq<Set<nat>>,
    vis: Seq<Set<nat>>,
    active: Set<nat>,
) -> Seq<Set<nat>> {
    Seq::new(adj.len(), |a: int| next_visited(fr, vis, active, a as nat))
}

/// One round: a pass over the nodes that are not done, then every active
/// node moves its frontier on.
pub open spec fn step(adj: Seq<Seq<nat>>, s: State) -> State {
    let p = pass(adj, s.tables, s.frontier, s.done, adj.len());
    State {
        tables: p.tables,
        frontier: next_frontiers(adj, s.frontier, s.visited, p.active),
        visited: next_visiteds(adj, s.frontier, s.visited, p.active),
        done: s.done.union(p.done),
    }
}

/// Whether the round that starts in `s` is the last: after its pass every node is done.
pub open spec fn finishes(adj: Seq<Seq<nat>>, s: State) -> bool {
    step(adj, s).done == full(adj.len())
}

/// The state after `n` rounds.
pub open spec fn after_rounds(adj: Seq<Seq<nat>>, s: State, n: nat) -> State
    decreases n,
{
    if n == 0 {
        s
    } else {
        step(adj, after_rounds(adj, s, (n - 1) as nat))
    }
}

/// Round `n` is the first that finishes.
pub open spec fn last_round(adj: Seq<Seq<nat>>, s: State, n: nat) -> bool {
    &&& finishes(adj, after_rounds(adj, s, n))
    &&& forall|m: nat| m < n ==> !finishes(adj, after_rounds(adj, s, m))
}

/// The bits that node `a` sets before any round, for each neighbor's edge:
/// every other neighbor of `a`, where the edge is stored towards `a`.
pub open spec fn seed_ups(adj: Seq<Seq<nat>>, a: nat) -> Seq<Set<nat>> {
    Seq::new(
        adj[a as int].len(),
        |j: int|
            if a > adj[a as int][j] {
                nbr_set(adj, a).remove(adj[a as int][j])
            } else {
                Set::empty()
            },
    )
}

/// The destinations that node `a` decides before any round, for each
/// neighbor's edge: every other neighbor of `a`. Seen from `a`, the edge
/// does not lead towards them.
pub open spec fn seed_cps(adj: Seq<Seq<nat>>, a: nat) -> Seq<Set<nat>> {
    Seq::new(adj[a as int].len(), |j: int| nbr_set(adj, a).remove(adj[a as int][j]))
}

/// The tables after the nodes below `n` have seeded their edges.
pub open spec fn seed(adj: Seq<Seq<nat>>, t: Tables, n: nat) -> Tables
    decreases n,
{
    if n == 0 {
        t
    } else {
        let a = (n - 1) as nat;
        merge_rows(
            seed(adj, t, a),
            a,
            adj[a as int],
            seed_ups(adj, a),
            seed_cps(adj, a),
            adj[a as int].len(),
        )
    }
}

/// The frontiers before the first round: each node's neighbors.
pub open spec fn start_frontiers(adj: Seq<Seq<nat>>) -> Seq<Set<nat>> {
    Seq::new(adj.len(), |a: int| nbr_set(adj, a as nat))
}

/// The visited sets before the first round: each node by itself.
pub open spec fn start_visiteds(adj: Seq<Seq<nat>>) -> Seq<Set<nat>> {
    Seq::new(adj.len(), |a: int| set![a as nat])
}

/// The state before the first round: seeded tables, each node's frontier its
/// neighbors, each node visited by itself, no node done.
pub open spec fn start(adj: Seq<Seq<nat>>, t: Tables) -> State {
    State {
        tables: seed(adj, t, adj.len()),
        frontier: start_frontiers(adj),
        visited: start_visiteds(adj),
        done: Set::empty(),
    }
}

/// Only one round is the first that finishes.
pub proof fn lemma_last_round_unique(adj: Seq<Seq<nat>>, s: State, n1: nat, n2: nat)
    requires
        last_round(adj, s, n1),
        last_round(adj, s, n2),
    ensures
        n1 == n2,
{
    if n1 < n2 {
        assert(!finishes(adj, after_rounds(adj, s, n1)));
    }
    if n2 < n1 {
        assert(!finishes(adj, after_rounds(adj, s, n2)));
    }
}

/// The number of rounds before the one that finishes.
pub open spec fn rounds(adj: Seq<Seq<nat>>, t: Tables) -> nat {
    choose|n: nat| last_round(adj, start(adj, t), n)
}

/// What the computation makes of the tables `t`: the tables after the pass
/// of the first round that finishes.
pub open spec fn built(adj: Seq<Seq<nat>>, t: Tables) -> Tables {
    step(adj, after_rounds(adj, start(adj, t), rounds(adj, t))).tables
}

/// The rows of a graph: what the computation makes of its fresh tables.
pub open spec fn solve(adj: Seq<Seq<nat>>) -> Tables {
    built(adj, fresh(adj))
}

} // verus!
