//! What a visit writes, row by row.

use crate::graph::model::{
    adj_wf, computed_row, contrib_bits, contrib_mask, edge_key, is_edge, merge_row, merge_rows,
    same_side, upsert_row, Local, Tables,
};
use crate::graph::nodes::lemma_edge_key_injective;
use vstd::prelude::*;

verus! {

/// The edges from a node to two of its neighbors have two keys.
pub proof fn lemma_keys_differ(adj: Seq<Seq<nat>>, a: nat, i: int, j: int)
    requires
        adj_wf(adj),
        a < adj.len(),
        0 <= i < adj[a as int].len(),
        0 <= j < adj[a as int].len(),
        i != j,
    ensures
        edge_key(a, adj[a as int][i]) != edge_key(a, adj[a as int][j]),
{
    let b = adj[a as int][i];
    let c = adj[a as int][j];
    assert(b < adj.len() && b != a);
    assert(c < adj.len() && c != a);
    assert(b != c);
    if edge_key(a, b) == edge_key(a, c) {
        lemma_edge_key_injective(a, b, a, c);
    }
}

/// What the rows are after a node has written to the edges of its first `n`
/// neighbors: the row of each of those edges has what was written to it
/// added, and every other row is as it was.
pub proof fn lemma_merge_rows(
    adj: Seq<Seq<nat>>,
    t: Tables,
    a: nat,
    ups: Seq<Set<nat>>,
    cps: Seq<Set<nat>>,
    n: nat,
)
    requires
        adj_wf(adj),
        a < adj.len(),
        n <= adj[a as int].len(),
        ups.len() == adj[a as int].len(),
        cps.len() == adj[a as int].len(),
        forall|i: int|
            0 <= i < adj[a as int].len() ==> t.edges.contains_key(
                #[trigger] edge_key(a, adj[a as int][i]),
            ) && t.masks.contains_key(edge_key(a, adj[a as int][i])),
    ensures
        ({
            let r = merge_rows(t, a, adj[a as int], ups, cps, n);
            &&& r.edges.dom() == t.edges.dom()
            &&& r.masks.dom() == t.masks.dom()
            &&& forall|j: int|
                0 <= j < n ==> r.edges[#[trigger] edge_key(a, adj[a as int][j])]
                    == t.edges[edge_key(a, adj[a as int][j])].union(ups[j]) && r.masks[edge_key(
                    a,
                    adj[a as int][j],
                )] == t.masks[edge_key(a, adj[a as int][j])].union(cps[j])
            &&& forall|k: u64|
                (forall|j: int| 0 <= j < n ==> k != #[trigger] edge_key(a, adj[a as int][j]))
                    ==> #[trigger] r.edges[k] == t.edges[k] && r.masks[k] == t.masks[k]
        }),
    decreases n,
{
    let nbrs = adj[a as int];
    if n > 0 {
        let m = (n - 1) as nat;
        lemma_merge_rows(adj, t, a, ups, cps, m);
        let p = merge_rows(t, a, nbrs, ups, cps, m);
        let r = merge_rows(t, a, nbrs, ups, cps, n);
        let key = edge_key(a, nbrs[m as int]);
        assert(r == merge_row(p, key, ups[m as int], cps[m as int]));
        assert(t.edges.contains_key(key) && t.masks.contains_key(key));
        assert(r.edges.dom() =~= t.edges.dom());
        assert(r.masks.dom() =~= t.masks.dom());
        assert(p.edges[key] == t.edges[key] && p.masks[key] == t.masks[key]) by {
            assert forall|j: int| 0 <= j < m implies key != #[trigger] edge_key(a, nbrs[j]) by {
                lemma_keys_differ(adj, a, m as int, j);
            }
        }
        assert forall|j: int| 0 <= j < n implies r.edges[#[trigger] edge_key(a, nbrs[j])]
            == t.edges[edge_key(a, nbrs[j])].union(ups[j]) && r.masks[edge_key(a, nbrs[j])]
            == t.masks[edge_key(a, nbrs[j])].union(cps[j]) by {
            if j < m {
                lemma_keys_differ(adj, a, m as int, j);
            }
        }
        assert forall|k: u64|
            (forall|j: int| 0 <= j < n ==> k != #[trigger] edge_key(a, nbrs[j])) implies #[trigger] r.edges[k]
            == t.edges[k] && r.masks[k] == t.masks[k] by {
            assert(k != edge_key(a, nbrs[m as int]));
            assert forall|j: int| 0 <= j < m implies k != #[trigger] edge_key(a, nbrs[j]) by {}
        }
    }
}

/// What the neighbors decide for the edge to neighbor `j`: of what any
/// other neighbor tells, what the edge has not decided yet.
pub proof fn lemma_computed_row(l: Local, j: int, n: nat)
    ensures
        forall|x: nat|
            computed_row(l, j, n).contains(x) <==> exists|i: int|
                0 <= i < n && i != j && #[trigger] l.fronts[i].contains(x) && !l.masks[j].contains(
                    x,
                ),
    decreases n,
{
    if n > 0 {
        lemma_computed_row(l, j, (n - 1) as nat);
        let m = n - 1;
        assert forall|x: nat|
            computed_row(l, j, n).contains(x) <==> exists|i: int|
                0 <= i < n && i != j && #[trigger] l.fronts[i].contains(x) && !l.masks[j].contains(
                    x,
                ) by {
            if computed_row(l, j, n).contains(x) {
                if computed_row(l, j, (n - 1) as nat).contains(x) {
                    let i = choose|i: int|
                        0 <= i < n - 1 && i != j && #[trigger] l.fronts[i].contains(x)
                            && !l.masks[j].contains(x);
                    assert(0 <= i < n && i != j && l.fronts[i].contains(x));
                } else {
                    assert(contrib_mask(l, m, j).contains(x));
                    assert(m != j && l.fronts[m].contains(x));
                }
            }
            if exists|i: int|
                0 <= i < n && i != j && #[trigger] l.fronts[i].contains(x) && !l.masks[j].contains(
                    x,
                ) {
                let i = choose|i: int|
                    0 <= i < n && i != j && #[trigger] l.fronts[i].contains(x)
                        && !l.masks[j].contains(x);
                if i < n - 1 {
                    assert(computed_row(l, j, (n - 1) as nat).contains(x));
                } else {
                    assert(contrib_mask(l, m, j).contains(x));
                }
            }
        }
    }
}

/// The bits that the neighbors set for the edge to neighbor `j`: a bit is
/// set where some neighbor decides it and the flip rule gives one.
pub proof fn lemma_upsert_row(l: Local, j: int, n: nat)
    ensures
        forall|x: nat|
            upsert_row(l, j, n).contains(x) <==> exists|i: int|
                0 <= i < n && i != j && #[trigger] l.fronts[i].contains(x) && !l.masks[j].contains(
                    x,
                ) && (same_side(l.a, l.nbrs[i], l.nbrs[j]) != l.vals[i].contains(x)),
    decreases n,
{
    if n > 0 {
        lemma_upsert_row(l, j, (n - 1) as nat);
        let m = n - 1;
        assert forall|x: nat|
            upsert_row(l, j, n).contains(x) <==> exists|i: int|
                0 <= i < n && i != j && #[trigger] l.fronts[i].contains(x) && !l.masks[j].contains(
                    x,
                ) && (same_side(l.a, l.nbrs[i], l.nbrs[j]) != l.vals[i].contains(x)) by {
            if upsert_row(l, j, n).contains(x) {
                if upsert_row(l, j, (n - 1) as nat).contains(x) {
                    let i = choose|i: int|
                        0 <= i < n - 1 && i != j && #[trigger] l.fronts[i].contains(x)
                            && !l.masks[j].contains(x) && (same_side(l.a, l.nbrs[i], l.nbrs[j])
                            != l.vals[i].contains(x));
                    assert(0 <= i < n && i != j && l.fronts[i].contains(x));
                } else {
                    assert(contrib_bits(l, m, j).contains(x));
                    assert(contrib_mask(l, m, j).contains(x));
                    assert(m != j && l.fronts[m].contains(x));
                }
            }
            if exists|i: int|
                0 <= i < n && i != j && #[trigger] l.fronts[i].contains(x) && !l.masks[j].contains(
                    x,
                ) && (same_side(l.a, l.nbrs[i], l.nbrs[j]) != l.vals[i].contains(x)) {
                let i = choose|i: int|
                    0 <= i < n && i != j && #[trigger] l.fronts[i].contains(x)
                        && !l.masks[j].contains(x) && (same_side(l.a, l.nbrs[i], l.nbrs[j])
                        != l.vals[i].contains(x));
                if i < n - 1 {
                    assert(upsert_row(l, j, (n - 1) as nat).contains(x));
                } else {
                    assert(contrib_mask(l, m, j).contains(x));
                    assert(contrib_bits(l, m, j).contains(x));
                }
            }
        }
    }
}

} // verus!
