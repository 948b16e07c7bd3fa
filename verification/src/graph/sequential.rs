use crate::bitvec::BitVec;
use crate::graph::engine::{
    advance, all_wf, all_wf_ref, apply_rows, depth_wf, edge_key_of, fronts_of, gossip_kernel,
    rows, rows_wf, seed_kernel, told, views, views_ref, visited_of,
};
use crate::graph::model::{
    adj_wf, edge_key, full, gossip_cps, gossip_ups, is_done, is_edge, key_set, lemma_pass_skip,
    local, local_active, nbr_set, next_frontier, next_frontiers, next_visited, next_visiteds,
    pass, seed, seed_cps, seed_ups, start_frontiers, start_visiteds, tables_wf, visit, Local,
    Tables,
};
use crate::graph::engine::merge_into;
use crate::graph::model::{fresh, key_hi, key_lo, lemma_key_ends, rounds, solve, step};
use crate::graph::nodes::{
    adj_connect, adj_disconnect, ids, lemma_adj_connect, lemma_adj_disconnect, Nodes,
};
use crate::graph::rounds::run_rounds;
use crate::graph::U16orU32;
use std::collections::HashMap;
use vstd::prelude::*;

verus! {

/// The rows of both tables as sets.
pub open spec fn tables_of(edges: Map<u64, BitVec>, masks: Map<u64, BitVec>) -> Tables {
    Tables { edges: rows(edges), masks: rows(masks) }
}

/// The edge between `a` and its neighbor number `i` has a row in both tables.
pub proof fn lemma_row_exists(adj: Seq<Seq<nat>>, t: Tables, a: nat, i: int)
    requires
        adj_wf(adj),
        tables_wf(adj, t),
        a < adj.len(),
        0 <= i < adj[a as int].len(),
    ensures
        t.edges.contains_key(edge_key(a, adj[a as int][i])),
        t.masks.contains_key(edge_key(a, adj[a as int][i])),
        adj[a as int][i] < adj.len(),
        adj.len() <= 0xffff_ffff,
{
    let b = adj[a as int][i];
    assert(adj[a as int].contains(b));
    assert(is_edge(adj, a, b));
    assert(key_set(adj).contains(edge_key(a, b)));
}

/// Whether `r` is what the visit of node `a` finds on the tables `t` with
/// the frontiers `fr`, in a graph of `n` nodes: `None` when the node is
/// done, else the bits to write to the rows of its edges and the neighbors
/// that had something to tell.
pub open spec fn found_at(
    adj: Seq<Seq<nat>>,
    t: Tables,
    fr: Seq<Set<nat>>,
    n: nat,
    a: nat,
    r: Option<(Vec<BitVec>, Vec<BitVec>, BitVec)>,
) -> bool {
    let l = local(adj, t, fr, a);
    let all = full(n);
    match r {
        None => is_done(l, all),
        Some((ups, cps, active)) => {
            &&& !is_done(l, all)
            &&& active.wf()
            &&& active@ == local_active(l, l.nbrs.len())
            &&& active@.subset_of(all)
            &&& all_wf(ups@)
            &&& all_wf(cps@)
            &&& ups@.len() == l.nbrs.len()
            &&& cps@.len() == l.nbrs.len()
            &&& views(ups@) == gossip_ups(l)
            &&& views(cps@) == gossip_cps(l)
            &&& forall|j: int| 0 <= j < ups@.len() ==> (#[trigger] ups@[j])@.subset_of(cps@[j]@)
        },
    }
}

/// What the visit of node `a` finds: `None` when the node is done, else the
/// bits to write to the rows of its edges and the neighbors that had
/// something to tell.
pub fn decide<NodeId: U16orU32>(
    nodes: &Nodes<NodeId>,
    edges: &HashMap<u64, BitVec>,
    masks: &HashMap<u64, BitVec>,
    depth: &Vec<(BitVec, BitVec)>,
    full_mask: &BitVec,
    a: usize,
) -> (r: Option<(Vec<BitVec>, Vec<BitVec>, BitVec)>)
    requires
        nodes.wf(),
        tables_wf(nodes.adj(), tables_of(edges@, masks@)),
        rows_wf(edges@),
        rows_wf(masks@),
        depth@.len() == nodes.inner@.len(),
        depth_wf(depth@, nodes.inner@.len() as nat),
        a < nodes.inner@.len(),
        full_mask.wf(),
        full_mask@ == full(nodes.inner@.len() as nat),
    ensures
        found_at(
            nodes.adj(),
            tables_of(edges@, masks@),
            fronts_of(depth@),
            nodes.inner@.len() as nat,
            a as nat,
            r,
        ),
{
    let ghost adj = nodes.adj();
    let ghost t = tables_of(edges@, masks@);
    let ghost fr = fronts_of(depth@);
    let ghost l = local(adj, t, fr, a as nat);
    let ghost all = full(nodes.inner@.len() as nat);
    let nbrs: &[NodeId] = nodes.inner[a].as_slice();
    let d: usize = nbrs.len();
    assert(ids(nbrs@) == adj[a as int]);
    // get all neighbors' masks
    let mut mask_refs: Vec<&BitVec> = Vec::with_capacity(d);
    let mut settled: bool = true;
    let mut i: usize = 0;
    while i < d
        invariant
            i <= d,
            d == nbrs@.len(),
            a < nodes.inner@.len(),
            nodes.wf(),
            adj == nodes.adj(),
            ids(nbrs@) == adj[a as int],
            t == tables_of(edges@, masks@),
            tables_wf(adj, t),
            rows_wf(masks@),
            full_mask.wf(),
            full_mask@ == all,
            mask_refs@.len() == i,
            all_wf_ref(mask_refs@),
            forall|k: int| 0 <= k < i ==> (*#[trigger] mask_refs@[k])@ == l.masks[k],
            l == local(adj, t, fr, a as nat),
            settled == (forall|k: int| 0 <= k < i ==> #[trigger] l.masks[k] == all),
        decreases d - i,
    {
        proof {
            lemma_row_exists(adj, t, a as nat, i as int);
            assert(adj[a as int][i as int] == nbrs@[i as int].index());
        }
        let k: u64 = edge_key_of(a, nbrs[i].as_usize());
        let m: &BitVec = masks.get(&k).unwrap();
        assert(m@ == l.masks[i as int]);
        if !m.eq(full_mask) {
            settled = false;
        }
        mask_refs.push(m);
        i += 1;
    }
    if settled {
        return None;
    }
    // what each neighbor has to tell
    let mut fronts: Vec<&BitVec> = Vec::with_capacity(d);
    let mut active: BitVec = BitVec::zero();
    let mut i: usize = 0;
    while i < d
        invariant
            i <= d,
            d == nbrs@.len(),
            a < nodes.inner@.len(),
            nodes.wf(),
            adj == nodes.adj(),
            ids(nbrs@) == adj[a as int],
            depth@.len() == nodes.inner@.len(),
            depth_wf(depth@, nodes.inner@.len() as nat),
            fr == fronts_of(depth@),
            all == full(nodes.inner@.len() as nat),
            l == local(adj, t, fr, a as nat),
            fronts@.len() == i,
            all_wf_ref(fronts@),
            forall|k: int| 0 <= k < i ==> (*#[trigger] fronts@[k])@.remove(a as nat) == l.fronts[k],
            forall|k: int| 0 <= k < i ==> (#[trigger] fronts@[k])@.subset_of(all),
            active.wf(),
            active@ == local_active(l, i as nat),
            active@.subset_of(all),
        decreases d - i,
    {
        let b: usize = nbrs[i].as_usize();
        proof {
            assert(adj[a as int][i as int] == b);
            assert(adj[a as int][i as int] < adj.len());
        }
        let f: &BitVec = &depth[b].0;
        assert(f@.remove(a as nat) == l.fronts[i as int]);
        if !f.is_zero_without(a) {
            active.set_bit(b, true);
        }
        fronts.push(f);
        i += 1;
    }
    // if none of a's neighbors are active, then a is done
    if active.is_zero() {
        return None;
    }
    let mut val_refs: Vec<&BitVec> = Vec::with_capacity(d);
    let mut i: usize = 0;
    while i < d
        invariant
            i <= d,
            d == nbrs@.len(),
            a < nodes.inner@.len(),
            nodes.wf(),
            adj == nodes.adj(),
            ids(nbrs@) == adj[a as int],
            t == tables_of(edges@, masks@),
            tables_wf(adj, t),
            rows_wf(edges@),
            l == local(adj, t, fr, a as nat),
            val_refs@.len() == i,
            all_wf_ref(val_refs@),
            forall|k: int| 0 <= k < i ==> (*#[trigger] val_refs@[k])@ == l.vals[k],
        decreases d - i,
    {
        proof {
            lemma_row_exists(adj, t, a as nat, i as int);
            assert(adj[a as int][i as int] == nbrs@[i as int].index());
        }
        let k: u64 = edge_key_of(a, nbrs[i].as_usize());
        let v: &BitVec = edges.get(&k).unwrap();
        assert(v@ == l.vals[i as int]);
        val_refs.push(v);
        i += 1;
    }
    let (ups, cps) = gossip_kernel(a, nbrs, &val_refs, &mask_refs, &fronts, full_mask);
    proof {
        let lk = Local {
            a: a as nat,
            nbrs: ids(nbrs@),
            vals: views_ref(val_refs@),
            masks: views_ref(mask_refs@),
            fronts: told(fronts@, a as nat),
        };
        assert(lk.vals =~= l.vals);
        assert(lk.masks =~= l.masks);
        assert(lk.fronts =~= l.fronts);
        assert(lk == l);
        assert(views(ups@) =~= gossip_ups(l));
        assert(views(cps@) =~= gossip_cps(l));
    }
    Some((ups, cps, active))
}

/// The state of every node before the first round: its frontier holds its
/// neighbors, and it has visited itself.
pub fn start_depth<NodeId: U16orU32>(nodes: &Nodes<NodeId>) -> (depth: Vec<(BitVec, BitVec)>)
    requires
        nodes.wf(),
    ensures
        depth@.len() == nodes.inner@.len(),
        depth_wf(depth@, nodes.inner@.len() as nat),
        fronts_of(depth@) == start_frontiers(nodes.adj()),
        visited_of(depth@) == start_visiteds(nodes.adj()),
{
    let n: usize = nodes.inner.len();
    let ghost adj = nodes.adj();
    let mut depth: Vec<(BitVec, BitVec)> = Vec::with_capacity(n);
    let mut a: usize = 0;
    while a < n
        invariant
            a <= n,
            n == nodes.inner@.len(),
            nodes.wf(),
            adj == nodes.adj(),
            depth@.len() == a,
            depth_wf(depth@, n as nat),
            forall|b: int| 0 <= b < a ==> (#[trigger] depth@[b]).0@ == nbr_set(adj, b as nat),
            forall|b: int| 0 <= b < a ==> (#[trigger] depth@[b]).1@ == set![b as nat],
        decreases n - a,
    {
        let list: &Vec<NodeId> = &nodes.inner[a];
        let mut neighbors: BitVec = BitVec::zero();
        let mut i: usize = 0;
        while i < list.len()
            invariant
                i <= list@.len(),
                a < n,
                n == nodes.inner@.len(),
                nodes.wf(),
                adj == nodes.adj(),
                list == &nodes.inner@[a as int],
                neighbors.wf(),
                neighbors@ == Set::new(|x: nat| exists|k: int| 0 <= k < i && adj[a as int][k] == x),
            decreases list@.len() - i,
        {
            let c: usize = list[i].as_usize();
            proof {
                assert(adj[a as int][i as int] == c);
                let before = Set::new(|x: nat| exists|k: int| 0 <= k < i && adj[a as int][k] == x);
                let after = Set::new(
                    |x: nat| exists|k: int| 0 <= k < i + 1 && adj[a as int][k] == x,
                );
                assert(after =~= before.insert(c as nat));
            }
            neighbors.set_bit(c, true);
            i += 1;
        }
        proof {
            assert(neighbors@ =~= nbr_set(adj, a as nat));
            assert forall|x: nat| neighbors@.contains(x) implies full(n as nat).contains(x) && x
                != a by {
                let k = choose|k: int| 0 <= k < adj[a as int].len() && adj[a as int][k] == x;
                assert(adj[a as int][k] < adj.len() && adj[a as int][k] != a);
            }
        }
        let own: BitVec = BitVec::one(a);
        depth.push((neighbors, own));
        a += 1;
    }
    proof {
        assert(fronts_of(depth@) =~= start_frontiers(adj));
        assert(visited_of(depth@) =~= start_visiteds(adj));
    }
    depth
}

/// Before any round, every node tells each of its edges about its other
/// neighbors.
pub fn seed_pass<NodeId: U16orU32>(
    nodes: &Nodes<NodeId>,
    edges: &mut HashMap<u64, BitVec>,
    masks: &mut HashMap<u64, BitVec>,
)
    requires
        nodes.wf(),
        tables_wf(nodes.adj(), tables_of(old(edges)@, old(masks)@)),
        rows_wf(old(edges)@),
        rows_wf(old(masks)@),
    ensures
        tables_wf(nodes.adj(), tables_of(final(edges)@, final(masks)@)),
        rows_wf(final(edges)@),
        rows_wf(final(masks)@),
        tables_of(final(edges)@, final(masks)@) == seed(
            nodes.adj(),
            tables_of(old(edges)@, old(masks)@),
            nodes.inner@.len() as nat,
        ),
{
    let n: usize = nodes.inner.len();
    let ghost adj = nodes.adj();
    let ghost t0 = tables_of(edges@, masks@);
    let mut a: usize = 0;
    while a < n
        invariant
            a <= n,
            n == nodes.inner@.len(),
            nodes.wf(),
            adj == nodes.adj(),
            tables_wf(adj, tables_of(edges@, masks@)),
            rows_wf(edges@),
            rows_wf(masks@),
            tables_of(edges@, masks@) == seed(adj, t0, a as nat),
        decreases n - a,
    {
        let nbrs: &[NodeId] = nodes.inner[a].as_slice();
        let ghost t = tables_of(edges@, masks@);
        proof {
            assert(ids(nbrs@) == adj[a as int]);
            assert forall|i: int, j: int|
                0 <= i < nbrs@.len() && 0 <= j < nbrs@.len() && i != j implies nbrs@[i].index()
                != nbrs@[j].index() by {
                assert(adj[a as int][i] != adj[a as int][j]);
            }
            assert forall|j: int| 0 <= j < nbrs@.len() implies {
                let k = #[trigger] edge_key(a as nat, nbrs@[j].index());
                edges@.contains_key(k) && masks@.contains_key(k)
            } by {
                lemma_row_exists(adj, t, a as nat, j);
                assert(adj[a as int][j] == nbrs@[j].index());
            }
        }
        let (ups, cps) = seed_kernel(a, nbrs);
        proof {
            assert(Set::new(|x: nat| ids(nbrs@).contains(x)) =~= nbr_set(adj, a as nat));
            assert(views(ups@) =~= seed_ups(adj, a as nat));
            assert(views(cps@) =~= seed_cps(adj, a as nat));
            assert forall|j: int| 0 <= j < nbrs@.len() implies (#[trigger] ups@[j])@.subset_of(
                cps@[j]@,
            ) by {}
        }
        apply_rows(a, nbrs, edges, masks, &ups, &cps);
        a += 1;
    }
}

/// One pass over the nodes that are not done, in ascending order. Returns the
/// nodes that it found done; `active` gets the nodes that told a neighbor
/// something.
pub fn run_pass<NodeId: U16orU32>(
    nodes: &Nodes<NodeId>,
    edges: &mut HashMap<u64, BitVec>,
    masks: &mut HashMap<u64, BitVec>,
    depth: &Vec<(BitVec, BitVec)>,
    full_mask: &BitVec,
    done_nodes: &BitVec,
    active: &mut BitVec,
) -> (found: BitVec)
    requires
        nodes.wf(),
        tables_wf(nodes.adj(), tables_of(old(edges)@, old(masks)@)),
        rows_wf(old(edges)@),
        rows_wf(old(masks)@),
        depth@.len() == nodes.inner@.len(),
        depth_wf(depth@, nodes.inner@.len() as nat),
        full_mask.wf(),
        full_mask@ == full(nodes.inner@.len() as nat),
        done_nodes.wf(),
        old(active).wf(),
        old(active)@ == Set::<nat>::empty(),
    ensures
        tables_wf(nodes.adj(), tables_of(final(edges)@, final(masks)@)),
        rows_wf(final(edges)@),
        rows_wf(final(masks)@),
        found.wf(),
        final(active).wf(),
        final(active)@.subset_of(full(nodes.inner@.len() as nat)),
        ({
            let p = pass(
                nodes.adj(),
                tables_of(old(edges)@, old(masks)@),
                fronts_of(depth@),
                done_nodes@,
                nodes.inner@.len() as nat,
            );
            &&& tables_of(final(edges)@, final(masks)@) == p.tables
            &&& found@ == p.done
            &&& final(active)@ == p.active
        }),
{
    let n: usize = nodes.inner.len();
    let ghost adj = nodes.adj();
    let ghost t0 = tables_of(edges@, masks@);
    let ghost fr = fronts_of(depth@);
    let ghost done = done_nodes@;
    let mut found: BitVec = BitVec::zero();
    let mut it = done_nodes.iter_zeros();
    loop
        invariant_except_break
            it.wf(),
            it.data() == *done_nodes,
            it.cursor() <= n,
            tables_of(edges@, masks@) == pass(adj, t0, fr, done, it.cursor()).tables,
            found@ == pass(adj, t0, fr, done, it.cursor()).done,
            active@ == pass(adj, t0, fr, done, it.cursor()).active,
        invariant
            n == nodes.inner@.len(),
            nodes.wf(),
            adj == nodes.adj(),
            fr == fronts_of(depth@),
            done == done_nodes@,
            tables_wf(adj, tables_of(edges@, masks@)),
            rows_wf(edges@),
            rows_wf(masks@),
            depth@.len() == n,
            depth_wf(depth@, n as nat),
            full_mask.wf(),
            full_mask@ == full(n as nat),
            found.wf(),
            active.wf(),
            active@.subset_of(full(n as nat)),
        ensures
            tables_of(edges@, masks@) == pass(adj, t0, fr, done, n as nat).tables,
            found@ == pass(adj, t0, fr, done, n as nat).done,
            active@ == pass(adj, t0, fr, done, n as nat).active,
        decreases usize::MAX + 1 - it.cursor(),
    {
        let ghost c0 = it.cursor();
        match it.next() {
            None => {
                proof {
                    lemma_pass_skip(adj, t0, fr, done, c0, n as nat);
                }
                break ;
            },
            Some(a) => {
                if a >= n {
                    proof {
                        lemma_pass_skip(adj, t0, fr, done, c0, n as nat);
                    }
                    break ;
                }
                proof {
                    lemma_pass_skip(adj, t0, fr, done, c0, a as nat);
                }
                let ghost p = pass(adj, t0, fr, done, a as nat);
                match decide(nodes, edges, masks, depth, full_mask, a) {
                    None => {
                        found.set_bit(a, true);
                    },
                    Some((ups, cps, act)) => {
                        let nbrs: &[NodeId] = nodes.inner[a].as_slice();
                        proof {
                            let t = tables_of(edges@, masks@);
                            assert(ids(nbrs@) == adj[a as int]);
                            assert forall|j: int| 0 <= j < nbrs@.len() implies {
                                let k = #[trigger] edge_key(a as nat, nbrs@[j].index());
                                edges@.contains_key(k) && masks@.contains_key(k)
                            } by {
                                lemma_row_exists(adj, t, a as nat, j);
                                assert(adj[a as int][j] == nbrs@[j].index());
                            }
                        }
                        apply_rows(a, nbrs, edges, masks, &ups, &cps);
                        active.bitor_assign(&act);
                    },
                }
                proof {
                    assert(pass(adj, t0, fr, done, (a + 1) as nat) == visit(adj, p, fr, a as nat));
                }
            },
        }
    }
    found
}

/// Every active node moves its frontier one step on.
pub fn advance_all<NodeId: U16orU32>(
    nodes: &Nodes<NodeId>,
    depth: &mut Vec<(BitVec, BitVec)>,
    active: &BitVec,
)
    requires
        nodes.wf(),
        old(depth)@.len() == nodes.inner@.len(),
        depth_wf(old(depth)@, nodes.inner@.len() as nat),
        active.wf(),
        active@.subset_of(full(nodes.inner@.len() as nat)),
    ensures
        final(depth)@.len() == nodes.inner@.len(),
        depth_wf(final(depth)@, nodes.inner@.len() as nat),
        fronts_of(final(depth)@) == next_frontiers(
            nodes.adj(),
            fronts_of(old(depth)@),
            visited_of(old(depth)@),
            active@,
        ),
        visited_of(final(depth)@) == next_visiteds(
            nodes.adj(),
            fronts_of(old(depth)@),
            visited_of(old(depth)@),
            active@,
        ),
{
    let n: usize = nodes.inner.len();
    let ghost adj = nodes.adj();
    let ghost d0 = depth@;
    let ghost fr = fronts_of(d0);
    let ghost vis = visited_of(d0);
    let mut it = active.iter_ones();
    loop
        invariant_except_break
            it.wf(),
            it.data() == *active,
        invariant
            n == nodes.inner@.len(),
            nodes.wf(),
            adj == nodes.adj(),
            active@.subset_of(full(n as nat)),
            depth@.len() == n,
            d0.len() == n,
            depth_wf(depth@, n as nat),
            fr == fronts_of(d0),
            vis == visited_of(d0),
            it.cursor() <= usize::MAX + 1,
            forall|x: int|
                0 <= x < n && x < it.cursor() ==> (#[trigger] depth@[x]).0@ == next_frontier(
                    adj,
                    fr,
                    vis,
                    active@,
                    x as nat,
                ) && depth@[x].1@ == next_visited(fr, vis, active@, x as nat),
            forall|x: int| 0 <= x < n && x >= it.cursor() ==> #[trigger] depth@[x] == d0[x],
        ensures
            forall|x: int|
                0 <= x < n ==> (#[trigger] depth@[x]).0@ == next_frontier(
                    adj,
                    fr,
                    vis,
                    active@,
                    x as nat,
                ) && depth@[x].1@ == next_visited(fr, vis, active@, x as nat),
        decreases usize::MAX + 1 - it.cursor(),
    {
        match it.next() {
            None => {
                break ;
            },
            Some(a) => {
                assert(active@.contains(a as nat));
                assert(full(n as nat).contains(a as nat));
                advance(nodes, depth, a);
            },
        }
    }
    proof {
        assert(fronts_of(depth@) =~= next_frontiers(adj, fr, vis, active@));
        assert(visited_of(depth@) =~= next_visiteds(adj, fr, vis, active@));
    }
}

/// The row with key `k`, or the empty row where the table has none.
pub open spec fn row_or_empty(m: Map<u64, Set<nat>>, k: u64) -> Set<nat> {
    if m.contains_key(k) {
        m[k]
    } else {
        Set::empty()
    }
}

/// The tables after an edge between `a` and `b` is added. Its decision row
/// says that it leads towards its larger endpoint, and both endpoints are
/// decided.
pub open spec fn tables_connect(t: Tables, a: nat, b: nat) -> Tables {
    if a == b {
        t
    } else {
        let k = edge_key(a, b);
        let hi = if a > b {
            a
        } else {
            b
        };
        Tables {
            edges: t.edges.insert(k, row_or_empty(t.edges, k).insert(hi)),
            masks: t.masks.insert(k, row_or_empty(t.masks, k).insert(a).insert(b)),
        }
    }
}

/// The tables after the edge between `a` and `b` is removed.
pub open spec fn tables_disconnect(t: Tables, a: nat, b: nat) -> Tables {
    if a == b {
        t
    } else {
        Tables { edges: t.edges.remove(edge_key(a, b)), masks: t.masks.remove(edge_key(a, b)) }
    }
}

/// The neighbor lists are those of a simple undirected graph, and both
/// tables hold a well-formed row for each of its edges, on which nothing
/// has been computed.
pub open spec fn builder_wf<NodeId: U16orU32>(
    nodes: Nodes<NodeId>,
    edges: Map<u64, BitVec>,
    masks: Map<u64, BitVec>,
) -> bool {
    &&& nodes.wf()
    &&& tables_of(edges, masks) == fresh(nodes.adj())
    &&& rows_wf(edges)
    &&& rows_wf(masks)
}

/// Fresh tables have a row for each edge and for nothing else.
pub proof fn lemma_fresh_wf(adj: Seq<Seq<nat>>)
    ensures
        tables_wf(adj, fresh(adj)),
{
    assert(fresh(adj).edges.dom() =~= key_set(adj));
    assert(fresh(adj).masks.dom() =~= key_set(adj));
}

/// The fresh tables of a graph with one edge more are the fresh tables with that edge added.
pub proof fn lemma_fresh_connect(adj: Seq<Seq<nat>>, adj2: Seq<Seq<nat>>, a: nat, b: nat)
    requires
        a != b,
        a <= 0xffff_ffff,
        b <= 0xffff_ffff,
        key_set(adj2) == key_set(adj).insert(edge_key(a, b)),
    ensures
        tables_connect(fresh(adj), a, b) == fresh(adj2),
{
    let t = tables_connect(fresh(adj), a, b);
    let k = edge_key(a, b);
    lemma_key_ends(a, b);
    assert(t.edges.dom() =~= fresh(adj2).edges.dom());
    assert(t.masks.dom() =~= fresh(adj2).masks.dom());
    assert(t.edges[k] =~= fresh(adj2).edges[k]);
    assert(t.masks[k] =~= fresh(adj2).masks[k]);
    assert(t.edges =~= fresh(adj2).edges);
    assert(t.masks =~= fresh(adj2).masks);
}

/// The fresh tables of a graph with one edge less are the fresh tables without that edge.
pub proof fn lemma_fresh_disconnect(adj: Seq<Seq<nat>>, adj2: Seq<Seq<nat>>, a: nat, b: nat)
    requires
        a != b,
        key_set(adj2) == key_set(adj).remove(edge_key(a, b)),
    ensures
        tables_disconnect(fresh(adj), a, b) == fresh(adj2),
{
    let t = tables_disconnect(fresh(adj), a, b);
    assert(t.edges.dom() =~= fresh(adj2).edges.dom());
    assert(t.masks.dom() =~= fresh(adj2).masks.dom());
    assert(t.edges =~= fresh(adj2).edges);
    assert(t.masks =~= fresh(adj2).masks);
}

/// Adds the edge between `a` and `b` to the neighbor lists and to both
/// tables. An edge from a node to itself is not added.
pub fn connect_edge<NodeId: U16orU32>(
    nodes: &mut Nodes<NodeId>,
    edges: &mut HashMap<u64, BitVec>,
    masks: &mut HashMap<u64, BitVec>,
    a: NodeId,
    b: NodeId,
)
    requires
        builder_wf(*old(nodes), old(edges)@, old(masks)@),
        a.index() < old(nodes).inner@.len(),
        b.index() < old(nodes).inner@.len(),
    ensures
        builder_wf(*final(nodes), final(edges)@, final(masks)@),
        final(nodes).adj() == adj_connect(old(nodes).adj(), a.index(), b.index()),
        tables_of(final(edges)@, final(masks)@) == tables_connect(
            tables_of(old(edges)@, old(masks)@),
            a.index(),
            b.index(),
        ),
{
    let ai: usize = a.as_usize();
    let bi: usize = b.as_usize();
    if ai == bi {
        return ;
    }
    proof {
        lemma_adj_connect(nodes.adj(), a.index(), b.index());
        lemma_fresh_wf(nodes.adj());
    }
    nodes.connect(a, b);
    // the edge leads from its smaller endpoint towards its larger one
    let hi: usize = if ai > bi {
        ai
    } else {
        bi
    };
    let lo: usize = if ai > bi {
        bi
    } else {
        ai
    };
    let k: u64 = edge_key_of(ai, bi);
    let edge: BitVec = BitVec::one(hi);
    merge_into(edges, k, &edge);
    let mut mask: BitVec = BitVec::one(hi);
    mask.set_bit(lo, true);
    merge_into(masks, k, &mask);
    proof {
        let want = tables_connect(tables_of(old(edges)@, old(masks)@), a.index(), b.index());
        let t = tables_of(edges@, masks@);
        assert(t.edges.dom() =~= want.edges.dom());
        assert(t.masks.dom() =~= want.masks.dom());
        assert(t.edges[k] =~= want.edges[k]);
        assert(t.masks[k] =~= want.masks[k]);
        assert(t.edges =~= want.edges);
        assert(t.masks =~= want.masks);
        lemma_fresh_connect(old(nodes).adj(), nodes.adj(), a.index(), b.index());
    }
}

/// Removes the edge between `a` and `b` from the neighbor lists and from
/// both tables.
pub fn disconnect_edge<NodeId: U16orU32>(
    nodes: &mut Nodes<NodeId>,
    edges: &mut HashMap<u64, BitVec>,
    masks: &mut HashMap<u64, BitVec>,
    a: NodeId,
    b: NodeId,
)
    requires
        builder_wf(*old(nodes), old(edges)@, old(masks)@),
        a.index() < old(nodes).inner@.len(),
        b.index() < old(nodes).inner@.len(),
    ensures
        builder_wf(*final(nodes), final(edges)@, final(masks)@),
        final(nodes).adj() == adj_disconnect(old(nodes).adj(), a.index(), b.index()),
        tables_of(final(edges)@, final(masks)@) == tables_disconnect(
            tables_of(old(edges)@, old(masks)@),
            a.index(),
            b.index(),
        ),
{
    let ai: usize = a.as_usize();
    let bi: usize = b.as_usize();
    if ai == bi {
        return ;
    }
    proof {
        lemma_adj_disconnect(nodes.adj(), a.index(), b.index());
        lemma_fresh_wf(nodes.adj());
    }
    nodes.disconnect(a, b);
    let k: u64 = edge_key_of(ai, bi);
    if masks.remove(&k).is_some() {
        edges.remove(&k);
    }
    proof {
        let want = tables_disconnect(tables_of(old(edges)@, old(masks)@), a.index(), b.index());
        let t = tables_of(edges@, masks@);
        assert(t.edges.dom() =~= want.edges.dom());
        assert(t.masks.dom() =~= want.masks.dom());
        assert(t.edges =~= want.edges);
        assert(t.masks =~= want.masks);
        lemma_fresh_disconnect(old(nodes).adj(), nodes.adj(), a.index(), b.index());
    }
}

/// Map of edges and their shortest paths to other nodes.
///
/// key: the key of the edge
///
/// value: for each bit, if this edge is the shortest path
/// to that bit location's node, bit is set to 1
#[derive(Debug, Clone)]
pub struct Edges {
    pub inner: HashMap<u64, BitVec>,
}

impl Edges {
    /// A table without rows.
    pub fn new() -> (r: Self)
        ensures
            r.inner@ == Map::<u64, BitVec>::empty(),
            rows_wf(r.inner@),
    {
        Edges { inner: HashMap::new() }
    }

    /// Return the shortest-paths-indicating bit vector.
    pub fn get<NodeId: U16orU32>(&self, edge_id: (NodeId, NodeId)) -> (r: Option<&BitVec>)
        ensures
            match r {
                Some(v) => self.inner@.contains_key(edge_key(edge_id.0.index(), edge_id.1.index()))
                    && *v == self.inner@[edge_key(edge_id.0.index(), edge_id.1.index())],
                None => !self.inner@.contains_key(
                    edge_key(edge_id.0.index(), edge_id.1.index()),
                ),
            },
    {
        proof {
            NodeId::lemma_index(edge_id.0, edge_id.1);
            NodeId::lemma_index(edge_id.1, edge_id.0);
            NodeId::lemma_limits();
        }
        let k: u64 = edge_key_of(edge_id.0.as_usize(), edge_id.1.as_usize());
        self.inner.get(&k)
    }

    /// Insert a new edge with its shortest paths.
    ///
    /// If the edge already exists, the shortest paths will be merged.
    pub fn insert<NodeId: U16orU32>(&mut self, edge_id: (NodeId, NodeId), val: BitVec)
        requires
            rows_wf(old(self).inner@),
            val.wf(),
        ensures
            rows_wf(final(self).inner@),
            rows(final(self).inner@) == rows(old(self).inner@).insert(
                edge_key(edge_id.0.index(), edge_id.1.index()),
                row_or_empty(
                    rows(old(self).inner@),
                    edge_key(edge_id.0.index(), edge_id.1.index()),
                ).union(val@),
            ),
    {
        proof {
            NodeId::lemma_index(edge_id.0, edge_id.1);
            NodeId::lemma_index(edge_id.1, edge_id.0);
            NodeId::lemma_limits();
        }
        let k: u64 = edge_key_of(edge_id.0.as_usize(), edge_id.1.as_usize());
        merge_into(&mut self.inner, k, &val);
        proof {
            let want = rows(old(self).inner@).insert(
                k,
                row_or_empty(rows(old(self).inner@), k).union(val@),
            );
            assert(rows(self.inner@)[k] =~= want[k]);
            assert(rows(self.inner@) =~= want);
        }
    }
}

/// A builder for creating a [SeqGraph].
#[derive(Debug, Clone)]
pub struct SeqGraphBuilder<NodeId: U16orU32> {
    /// key: node_id
    ///
    /// value: neighbors of node
    pub nodes: Nodes<NodeId>,
    /// value: for each bit, if this edge is the shortest path
    /// to that bit location's node, bit is set to 1
    pub edges: Edges,
    /// value: for each edge, bit is set to 1 if the node is computed
    pub edge_masks: Edges,
}

impl<NodeId: U16orU32> SeqGraphBuilder<NodeId> {
    /// The rows of both tables as sets.
    pub open spec fn tables(&self) -> Tables {
        tables_of(self.edges.inner@, self.edge_masks.inner@)
    }

    /// The neighbor lists are those of a simple undirected graph, and both
    /// tables hold a well-formed row for each of its edges.
    pub open spec fn wf(&self) -> bool {
        builder_wf(self.nodes, self.edges.inner@, self.edge_masks.inner@)
    }

    /// Create a new SeqGraphBuilder with the given number of nodes.
    pub fn new(nodes_len: usize) -> (r: Self)
        requires
            nodes_len <= NodeId::max_nodes(),
        ensures
            r.wf(),
            r.nodes.adj() == Seq::new(nodes_len as nat, |a: int| Seq::<nat>::empty()),
            r.tables() == (Tables { edges: Map::empty(), masks: Map::empty() }),
    {
        let r = SeqGraphBuilder { nodes: Nodes::new(nodes_len), edges: Edges::new(), edge_masks: Edges::new() };
        proof {
            assert(r.tables().edges =~= Map::<u64, Set<nat>>::empty());
            assert(r.tables().masks =~= Map::<u64, Set<nat>>::empty());
            assert forall|k: u64| !key_set(r.nodes.adj()).contains(k) by {
                if key_set(r.nodes.adj()).contains(k) {
                    let (a, b) = choose|a: nat, b: nat|
                        is_edge(r.nodes.adj(), a, b) && k == edge_key(a, b);
                    assert(r.nodes.adj()[a as int].len() == 0);
                }
            }
            assert(key_set(r.nodes.adj()) =~= Set::<u64>::empty());
            assert(r.tables().edges.dom() =~= Set::<u64>::empty());
            assert(r.tables().masks.dom() =~= Set::<u64>::empty());
            assert(r.tables().edges =~= fresh(r.nodes.adj()).edges);
            assert(r.tables().masks =~= fresh(r.nodes.adj()).masks);
        }
        r
    }

    /// Add a edge between node_a and node_b
    pub fn connect(&mut self, a: NodeId, b: NodeId)
        requires
            old(self).wf(),
            a.index() < old(self).nodes.inner@.len(),
            b.index() < old(self).nodes.inner@.len(),
        ensures
            final(self).wf(),
            final(self).nodes.adj() == adj_connect(old(self).nodes.adj(), a.index(), b.index()),
            final(self).tables() == tables_connect(old(self).tables(), a.index(), b.index()),
    {
        connect_edge(&mut self.nodes, &mut self.edges.inner, &mut self.edge_masks.inner, a, b);
    }

    /// Remove the edge between node_a and node_b
    pub fn disconnect(&mut self, a: NodeId, b: NodeId)
        requires
            old(self).wf(),
            a.index() < old(self).nodes.inner@.len(),
            b.index() < old(self).nodes.inner@.len(),
        ensures
            final(self).wf(),
            final(self).nodes.adj() == adj_disconnect(old(self).nodes.adj(), a.index(), b.index()),
            final(self).tables() == tables_disconnect(old(self).tables(), a.index(), b.index()),
    {
        disconnect_edge(&mut self.nodes, &mut self.edges.inner, &mut self.edge_masks.inner, a, b);
    }

    /// Runs the rounds until every node is done, and gives the graph with the
    /// rows that they leave.
    pub fn build(self) -> (g: SeqGraph<NodeId>)
        requires
            self.wf(),
        ensures
            g.wf(),
            g.nodes == self.nodes,
            g.solved(),
    {
        let SeqGraphBuilder { nodes, edges, edge_masks } = self;
        let (edges, masks) = run_rounds(&nodes, edges.inner, edge_masks.inner, 0);
        SeqGraph { nodes, edges, masks }
    }

    /// Return the number of nodes in this graph.
    pub fn nodes_len(&self) -> (r: usize)
        ensures
            r == self.nodes.adj().len(),
    {
        self.nodes.len()
    }

    /// Return the number of edges in this graph.
    pub fn edges_len(&self) -> (r: usize)
        ensures
            r == self.tables().edges.dom().len(),
    {
        proof {
            assert(self.tables().edges.dom() =~= self.edges.inner@.dom());
        }
        self.edges.inner.len()
    }

    /// Return the neighbors of the given node.
    pub fn neighbors(&self, node: NodeId) -> (r: &[NodeId])
        requires
            node.index() < self.nodes.inner@.len(),
        ensures
            r@ == self.nodes.inner@[node.index() as int]@,
    {
        self.nodes.neighbors(node)
    }
}

/// A graph whose shortest paths have been computed.
#[derive(Debug, Clone)]
pub struct SeqGraph<NodeId: U16orU32> {
    pub nodes: Nodes<NodeId>,
    /// For each edge, the destinations towards which it leads from its
    /// smaller endpoint.
    pub edges: HashMap<u64, BitVec>,
    /// For each edge, the destinations for which that was decided.
    pub masks: HashMap<u64, BitVec>,
}

impl<NodeId: U16orU32> SeqGraph<NodeId> {
    /// The neighbor lists are those of a simple undirected graph, and there
    /// are two well-formed rows for each of its edges.
    pub open spec fn wf(&self) -> bool {
        graph_wf(self.nodes, self.edges@, self.masks@)
    }

    /// Both rows of every edge, as sets.
    pub open spec fn tables(&self) -> Tables {
        tables_of(self.edges@, self.masks@)
    }

    /// The rows are those that the computation gives for the graph.
    pub open spec fn solved(&self) -> bool {
        self.tables() == solve(self.nodes.adj())
    }
}

/// Whether, seen from `curr`, the edge to its neighbor `nb` leads towards
/// `dest`. An edge leads nowhere for a destination that it has not decided.
/// For one that it has, its decision row says so for its smaller endpoint,
/// and the opposite for the larger one.
pub open spec fn leads(t: Tables, curr: nat, nb: nat, dest: nat) -> bool {
    t.masks[edge_key(curr, nb)].contains(dest) && points(t.edges, curr, nb, dest)
}

/// What the decision row of the edge between `curr` and `nb` says of `dest`,
/// seen from `curr`: the bit itself for the smaller endpoint, the opposite
/// for the larger one. It means something only where the edge has decided
/// `dest`.
pub open spec fn points(edges: Map<u64, Set<nat>>, curr: nat, nb: nat, dest: nat) -> bool {
    let bit = edges[edge_key(curr, nb)].contains(dest);
    if curr > nb {
        !bit
    } else {
        bit
    }
}

/// The neighbors from number `i` on whose edge leads towards `dest`, in the
/// order of the list.
pub open spec fn towards_from<NodeId: U16orU32>(
    nbrs: Seq<NodeId>,
    t: Tables,
    curr: nat,
    dest: nat,
    i: int,
) -> Seq<NodeId>
    decreases nbrs.len() - i,
{
    if i < 0 || i >= nbrs.len() {
        Seq::empty()
    } else if leads(t, curr, nbrs[i].index(), dest) {
        seq![nbrs[i]] + towards_from(nbrs, t, curr, dest, i + 1)
    } else {
        towards_from(nbrs, t, curr, dest, i + 1)
    }
}

/// Each of the neighbors that lead towards `dest` is a neighbor.
pub proof fn lemma_towards_from<NodeId: U16orU32>(
    nbrs: Seq<NodeId>,
    t: Tables,
    curr: nat,
    dest: nat,
    i: int,
)
    requires
        0 <= i,
    ensures
        forall|j: int|
            0 <= j < towards_from(nbrs, t, curr, dest, i).len() ==> nbrs.contains(
                #[trigger] towards_from(nbrs, t, curr, dest, i)[j],
            ),
    decreases nbrs.len() - i,
{
    if i < nbrs.len() {
        lemma_towards_from(nbrs, t, curr, dest, i + 1);
        let rest = towards_from(nbrs, t, curr, dest, i + 1);
        let all = towards_from(nbrs, t, curr, dest, i);
        assert forall|j: int| 0 <= j < all.len() implies nbrs.contains(#[trigger] all[j]) by {
            if leads(t, curr, nbrs[i].index(), dest) {
                if j == 0 {
                    assert(all[0] == nbrs[i]);
                } else {
                    assert(all[j] == rest[j - 1]);
                }
            }
        }
    }
}

/// The first element of a sequence, if it has one.
pub open spec fn first_of<T>(s: Seq<T>) -> Option<T> {
    if s.len() > 0 {
        Some(s[0])
    } else {
        None
    }
}

/// The neighbor lists are those of a simple undirected graph, and there are
/// a well-formed decision row and a well-formed mask row for each of its
/// edges.
pub open spec fn graph_wf<NodeId: U16orU32>(
    nodes: Nodes<NodeId>,
    edges: Map<u64, BitVec>,
    masks: Map<u64, BitVec>,
) -> bool {
    &&& nodes.wf()
    &&& rows_wf(edges)
    &&& rows_wf(masks)
    &&& edges.dom() == key_set(nodes.adj())
    &&& masks.dom() == key_set(nodes.adj())
}

/// The neighbors of `curr` that lead towards `dest`, in the order of the
/// neighbor list; none where `curr` is `dest`.
pub open spec fn next_nodes_of<NodeId: U16orU32>(
    nodes: Nodes<NodeId>,
    t: Tables,
    curr: NodeId,
    dest: NodeId,
) -> Seq<NodeId> {
    if curr == dest {
        Seq::empty()
    } else {
        towards_from(nodes.inner@[curr.index() as int]@, t, curr.index(), dest.index(), 0)
    }
}

/// Each of the neighbors of `curr` that lead towards `dest` is a node of the graph.
pub proof fn lemma_next_nodes_of<NodeId: U16orU32>(
    nodes: Nodes<NodeId>,
    t: Tables,
    curr: NodeId,
    dest: NodeId,
)
    requires
        nodes.wf(),
        curr.index() < nodes.inner@.len(),
    ensures
        forall|j: int|
            0 <= j < next_nodes_of(nodes, t, curr, dest).len() ==> (#[trigger] next_nodes_of(
                nodes,
                t,
                curr,
                dest,
            )[j]).index() < nodes.inner@.len(),
{
    let s = next_nodes_of(nodes, t, curr, dest);
    let list = nodes.inner@[curr.index() as int]@;
    lemma_towards_from(list, t, curr.index(), dest.index(), 0);
    assert forall|j: int| 0 <= j < s.len() implies (#[trigger] s[j]).index()
        < nodes.inner@.len() by {
        assert(list.contains(s[j]));
        let i = choose|i: int| 0 <= i < list.len() && list[i] == s[j];
        assert(nodes.adj()[curr.index() as int][i] == s[j].index());
        assert(nodes.adj()[curr.index() as int][i] < nodes.adj().len());
    }
}

/// An iterator that returns neighboring nodes that are shortest paths to the destination node.
pub struct NeighborsToIter<'a, NodeId: U16orU32> {
    nodes: &'a Nodes<NodeId>,
    edges: &'a HashMap<u64, BitVec>,
    masks: &'a HashMap<u64, BitVec>,
    curr: NodeId,
    dest: NodeId,
    pos: usize,
}

impl<'a, NodeId: U16orU32> NeighborsToIter<'a, NodeId> {
    /// The graph is well formed and the walk stands within the neighbor list of
    /// a node of the graph.
    pub closed spec fn wf(&self) -> bool {
        &&& graph_wf(*self.nodes, self.edges@, self.masks@)
        &&& self.curr.index() < self.nodes.inner@.len()
        &&& self.pos <= self.nodes.inner@[self.curr.index() as int]@.len()
    }

    /// The nodes that are still to come.
    pub closed spec fn remaining(&self) -> Seq<NodeId> {
        if self.curr == self.dest {
            Seq::empty()
        } else {
            towards_from(
                self.nodes.inner@[self.curr.index() as int]@,
                tables_of(self.edges@, self.masks@),
                self.curr.index(),
                self.dest.index(),
                self.pos as int,
            )
        }
    }

    /// The neighbors of `curr` that lead towards `dest`, from the first on.
    pub fn new(
        nodes: &'a Nodes<NodeId>,
        edges: &'a HashMap<u64, BitVec>,
        masks: &'a HashMap<u64, BitVec>,
        curr: NodeId,
        dest: NodeId,
    ) -> (it: Self)
        requires
            graph_wf(*nodes, edges@, masks@),
            curr.index() < nodes.inner@.len(),
        ensures
            it.wf(),
            it.remaining() == next_nodes_of(*nodes, tables_of(edges@, masks@), curr, dest),
    {
        NeighborsToIter { nodes, edges, masks, curr, dest, pos: 0 }
    }

    /// The next neighbor that leads towards the destination.
    pub fn next(&mut self) -> (r: Option<NodeId>)
        requires
            old(self).wf(),
        ensures
            final(self).wf(),
            r == first_of(old(self).remaining()),
            final(self).remaining() == if r.is_some() {
                old(self).remaining().drop_first()
            } else {
                old(self).remaining()
            },
    {
        let ci: usize = self.curr.as_usize();
        let di: usize = self.dest.as_usize();
        if ci == di {
            proof {
                NodeId::lemma_index(self.curr, self.dest);
            }
            return None;
        }
        proof {
            NodeId::lemma_index(self.curr, self.dest);
        }
        let ghost adj = self.nodes.adj();
        let ghost e = tables_of(self.edges@, self.masks@);
        let nbrs: &[NodeId] = self.nodes.inner[ci].as_slice();
        while self.pos < nbrs.len()
            invariant
                self.wf(),
                self.nodes == old(self).nodes,
                self.edges == old(self).edges,
                self.masks == old(self).masks,
                self.curr == old(self).curr,
                self.dest == old(self).dest,
                self.curr != self.dest,
                ci == self.curr.index(),
                di == self.dest.index(),
                adj == self.nodes.adj(),
                e == tables_of(self.edges@, self.masks@),
                nbrs@ == self.nodes.inner@[ci as int]@,
                self.remaining() == old(self).remaining(),
            decreases nbrs@.len() - self.pos,
        {
            let neighbor: NodeId = nbrs[self.pos];
            proof {
                assert(adj[ci as int][self.pos as int] == neighbor.index());
                assert(adj[ci as int].contains(neighbor.index()));
                assert(is_edge(adj, ci as nat, neighbor.index()));
                assert(key_set(adj).contains(edge_key(ci as nat, neighbor.index())));
                assert(adj[ci as int][self.pos as int] < adj.len());
            }
            let ni: usize = neighbor.as_usize();
            let k: u64 = edge_key_of(ci, ni);
            let row: &BitVec = self.edges.get(&k).unwrap();
            let mask: &BitVec = self.masks.get(&k).unwrap();
            let bit: bool = mask.get_bit(di) && row.get_bit(di) != (ci > ni);
            self.pos += 1;
            if bit {
                proof {
                    let rest = towards_from(nbrs@, e, ci as nat, di as nat, self.pos as int);
                    assert((seq![neighbor] + rest).drop_first() =~= rest);
                }
                return Some(neighbor);
            }
        }
        None
    }
}

/// The first neighbor of `curr` that leads towards `dest`.
pub fn first_towards<NodeId: U16orU32>(
    nodes: &Nodes<NodeId>,
    edges: &HashMap<u64, BitVec>,
    masks: &HashMap<u64, BitVec>,
    curr: NodeId,
    dest: NodeId,
) -> (r: Option<NodeId>)
    requires
        graph_wf(*nodes, edges@, masks@),
        curr.index() < nodes.inner@.len(),
    ensures
        r == first_of(next_nodes_of(*nodes, tables_of(edges@, masks@), curr, dest)),
{
    let mut it = NeighborsToIter::new(nodes, edges, masks, curr, dest);
    it.next()
}

/// The first neighbor of `curr` that leads towards `dest` and that `f` accepts.
pub fn first_towards_with<NodeId: U16orU32, F: Fn(NodeId) -> bool>(
    nodes: &Nodes<NodeId>,
    edges: &HashMap<u64, BitVec>,
    masks: &HashMap<u64, BitVec>,
    curr: NodeId,
    dest: NodeId,
    f: F,
) -> (r: Option<NodeId>)
    requires
        graph_wf(*nodes, edges@, masks@),
        curr.index() < nodes.inner@.len(),
        forall|x: NodeId| call_requires(f, (x,)),
    ensures
        accepted_first(next_nodes_of(*nodes, tables_of(edges@, masks@), curr, dest), f, r),
{
    let ghost s = next_nodes_of(*nodes, tables_of(edges@, masks@), curr, dest);
    let mut it = NeighborsToIter::new(nodes, edges, masks, curr, dest);
    let ghost mut seen: int = 0;
    loop
        invariant
            it.wf(),
            s == next_nodes_of(*nodes, tables_of(edges@, masks@), curr, dest),
            0 <= seen <= s.len(),
            it.remaining() == s.subrange(seen, s.len() as int),
            forall|i: int| 0 <= i < seen ==> call_ensures(f, (#[trigger] s[i],), false),
            forall|x: NodeId| call_requires(f, (x,)),
        decreases s.len() - seen,
    {
        match it.next() {
            None => {
                assert(s.subrange(seen, s.len() as int).len() == 0);
                return None;
            },
            Some(v) => {
                assert(s.subrange(seen, s.len() as int)[0] == s[seen]);
                if f(v) {
                    assert(s[seen] == v && call_ensures(f, (v,), true));
                    return Some(v);
                }
                proof {
                    assert(s.subrange(seen, s.len() as int).drop_first() =~= s.subrange(
                        seen + 1,
                        s.len() as int,
                    ));
                    seen = seen + 1;
                }
            },
        }
    }
}

/// `r` is the first node of `s` that `f` accepts, or `None` where it accepts none.
pub open spec fn accepted_first<T, F: Fn(T) -> bool>(s: Seq<T>, f: F, r: Option<T>) -> bool {
    match r {
        Some(v) => exists|j: int|
            {
                &&& 0 <= j < s.len()
                &&& #[trigger] s[j] == v
                &&& call_ensures(f, (v,), true)
                &&& forall|i: int| 0 <= i < j ==> call_ensures(f, (#[trigger] s[i],), false)
            },
        None => forall|i: int| 0 <= i < s.len() ==> call_ensures(f, (#[trigger] s[i],), false),
    }
}

/// An iterator that returns a path from the current node to the destination node.
///
/// The current node is not part of the path.
pub struct PathIter<'a, NodeId: U16orU32> {
    nodes: &'a Nodes<NodeId>,
    edges: &'a HashMap<u64, BitVec>,
    masks: &'a HashMap<u64, BitVec>,
    curr: NodeId,
    dest: NodeId,
}

impl<'a, NodeId: U16orU32> PathIter<'a, NodeId> {
    /// The neighbor lists of the graph that is walked.
    pub closed spec fn nodes(&self) -> Nodes<NodeId> {
        *self.nodes
    }

    /// The rows of the graph that is walked.
    pub closed spec fn tables(&self) -> Tables {
        tables_of(self.edges@, self.masks@)
    }

    /// The node at which the walk stands.
    pub closed spec fn curr(&self) -> NodeId {
        self.curr
    }

    /// The node to which the walk leads.
    pub closed spec fn dest(&self) -> NodeId {
        self.dest
    }

    /// The graph is well formed and the walk stands at one of its nodes.
    pub closed spec fn wf(&self) -> bool {
        graph_wf(*self.nodes, self.edges@, self.masks@) && self.curr.index()
            < self.nodes.inner@.len()
    }

    /// A walk from `curr` to `dest`.
    pub fn new(
        nodes: &'a Nodes<NodeId>,
        edges: &'a HashMap<u64, BitVec>,
        masks: &'a HashMap<u64, BitVec>,
        curr: NodeId,
        dest: NodeId,
    ) -> (it: Self)
        requires
            graph_wf(*nodes, edges@, masks@),
            curr.index() < nodes.inner@.len(),
        ensures
            it.wf(),
            it.nodes() == *nodes,
            it.tables() == tables_of(edges@, masks@),
            it.curr() == curr,
            it.dest() == dest,
    {
        PathIter { nodes, edges, masks, curr, dest }
    }

    /// One step towards the destination: the first neighbor of the current
    /// node that leads there, to which the walk moves. `None`, and no move,
    /// at the destination and where no neighbor leads on.
    pub fn next(&mut self) -> (r: Option<NodeId>)
        requires
            old(self).wf(),
        ensures
            final(self).wf(),
            final(self).nodes() == old(self).nodes(),
            final(self).tables() == old(self).tables(),
            final(self).dest() == old(self).dest(),
            r == first_of(
                next_nodes_of(old(self).nodes(), old(self).tables(), old(self).curr(), old(self).dest()),
            ),
            final(self).curr() == match r {
                Some(v) => v,
                None => old(self).curr(),
            },
    {
        let next = first_towards(self.nodes, self.edges, self.masks, self.curr, self.dest);
        match next {
            Some(v) => {
                proof {
                    let t = tables_of(self.edges@, self.masks@);
                    lemma_next_nodes_of(*self.nodes, t, self.curr, self.dest);
                    let s = next_nodes_of(*self.nodes, t, self.curr, self.dest);
                    assert(s[0] == v);
                }
                self.curr = v;
                Some(v)
            },
            None => None,
        }
    }
}

impl<NodeId: U16orU32> SeqGraph<NodeId> {
    /// The neighbors of `curr` that lead towards `dest`, in the order of the
    /// neighbor list; none where `curr` is `dest`.
    pub open spec fn spec_neighbors_to(&self, curr: NodeId, dest: NodeId) -> Seq<NodeId> {
        next_nodes_of(self.nodes, self.tables(), curr, dest)
    }

    /// Create a new SeqGraphBuilder with the given number of nodes.
    ///
    /// Default NodeId is u16, which can hold up to 65536 nodes.
    pub fn builder(nodes_len: usize) -> (r: SeqGraphBuilder<NodeId>)
        requires
            nodes_len <= NodeId::max_nodes(),
        ensures
            r.wf(),
            r.nodes.adj() == Seq::new(nodes_len as nat, |a: int| Seq::<nat>::empty()),
            r.tables() == (Tables { edges: Map::empty(), masks: Map::empty() }),
    {
        SeqGraphBuilder::new(nodes_len)
    }

    /// Given a current node and a destination node,
    /// return the first neighboring node that is the shortest path to the destination node.
    ///
    /// `None` is returned when:
    /// - `curr` and `dest` are the same node
    /// - `curr` has no path to `dest`
    pub fn neighbor_to(&self, curr: NodeId, dest: NodeId) -> (r: Option<NodeId>)
        requires
            self.wf(),
            curr.index() < self.nodes.inner@.len(),
        ensures
            r == first_of(self.spec_neighbors_to(curr, dest)),
    {
        first_towards(&self.nodes, &self.edges, &self.masks, curr, dest)
    }

    /// Given a current node and a destination node, and a filter function,
    /// return the neighboring node that is the shortest path to the destination node.
    ///
    /// `None` is returned when:
    /// - `curr` and `dest` are the same node
    /// - `curr` has no path to `dest`
    /// - The filter function returns `false` for all neighboring nodes
    pub fn neighbor_to_with<F: Fn(NodeId) -> bool>(&self, curr: NodeId, dest: NodeId, f: F) -> (r:
        Option<NodeId>)
        requires
            self.wf(),
            curr.index() < self.nodes.inner@.len(),
            forall|x: NodeId| call_requires(f, (x,)),
        ensures
            accepted_first(self.spec_neighbors_to(curr, dest), f, r),
    {
        first_towards_with(&self.nodes, &self.edges, &self.masks, curr, dest, f)
    }

    /// Given a current node and a destination node,
    /// return all neighboring nodes that are shortest paths to the destination node.
    ///
    /// The nodes come in the order of the neighbor list of `curr`.
    pub fn neighbors_to(&self, curr: NodeId, dest: NodeId) -> (it: NeighborsToIter<'_, NodeId>)
        requires
            self.wf(),
            curr.index() < self.nodes.inner@.len(),
        ensures
            it.wf(),
            it.remaining() == self.spec_neighbors_to(curr, dest),
    {
        NeighborsToIter::new(&self.nodes, &self.edges, &self.masks, curr, dest)
    }

    /// Given a current node and a destination node,
    /// return a path from the current node to the destination node.
    ///
    /// The path starts with the node after the current node and ends at the
    /// destination node. It is the same as calling `.neighbor_to` repeatedly.
    pub fn path_to(&self, curr: NodeId, dest: NodeId) -> (it: PathIter<'_, NodeId>)
        requires
            self.wf(),
            curr.index() < self.nodes.inner@.len(),
        ensures
            it.wf(),
            it.nodes() == self.nodes,
            it.tables() == self.tables(),
            it.curr() == curr,
            it.dest() == dest,
    {
        PathIter::new(&self.nodes, &self.edges, &self.masks, curr, dest)
    }

    /// Check if there is a path from the current node to the destination node.
    pub fn path_exists(&self, curr: NodeId, dest: NodeId) -> (r: bool)
        requires
            self.wf(),
            curr.index() < self.nodes.inner@.len(),
        ensures
            r == (curr == dest || self.spec_neighbors_to(curr, dest).len() > 0),
    {
        proof {
            NodeId::lemma_index(curr, dest);
        }
        self.neighbor_to(curr, dest).is_some() || curr.as_usize() == dest.as_usize()
    }

    /// Return a list of all neighboring nodes of the given node.
    pub fn neighbors(&self, node: NodeId) -> (r: &[NodeId])
        requires
            node.index() < self.nodes.inner@.len(),
        ensures
            r@ == self.nodes.inner@[node.index() as int]@,
    {
        self.nodes.neighbors(node)
    }

    /// Return the number of nodes in this graph.
    pub fn nodes_len(&self) -> (r: usize)
        ensures
            r == self.nodes.adj().len(),
    {
        self.nodes.len()
    }

    /// Return the number of edges in this graph.
    pub fn edges_len(&self) -> (r: usize)
        ensures
            r == self.edges@.dom().len(),
    {
        self.edges.len()
    }
}

/// The keys of the edges from the nodes below `a`, and from `a` to its first `i` neighbors.
pub open spec fn keys_upto(adj: Seq<Seq<nat>>, a: int, i: int) -> Set<u64> {
    Set::new(
        |k: u64|
            exists|x: int, j: int|
                0 <= x < adj.len() && 0 <= j < adj[x].len() && (x < a || (x == a && j < i)) && k
                    == edge_key(x as nat, #[trigger] adj[x][j]),
    )
}

/// The keys of the edges of the graph, each as often as the edge is listed.
pub fn edge_keys<NodeId: U16orU32>(nodes: &Nodes<NodeId>) -> (keys: Vec<u64>)
    requires
        nodes.wf(),
    ensures
        forall|k: u64| key_set(nodes.adj()).contains(k) <==> keys@.contains(k),
{
    let n: usize = nodes.inner.len();
    let ghost adj = nodes.adj();
    let mut keys: Vec<u64> = Vec::new();
    let mut a: usize = 0;
    while a < n
        invariant
            a <= n,
            n == nodes.inner@.len(),
            nodes.wf(),
            adj == nodes.adj(),
            forall|k: u64| keys_upto(adj, a as int, 0).contains(k) <==> keys@.contains(k),
        decreases n - a,
    {
        let list: &Vec<NodeId> = &nodes.inner[a];
        let mut i: usize = 0;
        while i < list.len()
            invariant
                i <= list@.len(),
                a < n,
                n == nodes.inner@.len(),
                nodes.wf(),
                adj == nodes.adj(),
                list == &nodes.inner@[a as int],
                forall|k: u64| keys_upto(adj, a as int, i as int).contains(k) <==> keys@.contains(k),
            decreases list@.len() - i,
        {
            proof {
                assert(adj[a as int][i as int] == list@[i as int].index());
                assert(adj[a as int][i as int] < adj.len());
            }
            let k: u64 = edge_key_of(a, list[i].as_usize());
            let ghost before = keys@;
            keys.push(k);
            proof {
                assert forall|x: u64| keys_upto(adj, a as int, i + 1).contains(x)
                    <==> keys@.contains(x) by {
                    if x == k {
                        assert(k == edge_key(a as nat, adj[a as int][i as int]));
                        assert(keys@[before.len() as int] == k);
                    }
                    if before.contains(x) {
                        let j = choose|j: int| 0 <= j < before.len() && before[j] == x;
                        assert(keys@[j] == x);
                    }
                    if keys@.contains(x) && x != k {
                        let j = choose|j: int| 0 <= j < keys@.len() && keys@[j] == x;
                        assert(before[j] == x);
                    }
                }
            }
            i += 1;
        }
        proof {
            assert(keys_upto(adj, a as int, list@.len() as int) =~= keys_upto(adj, a + 1, 0));
        }
        a += 1;
    }
    proof {
        assert forall|k: u64| keys_upto(adj, n as int, 0).contains(k) <==> key_set(adj).contains(
            k,
        ) by {
            if keys_upto(adj, n as int, 0).contains(k) {
                let (x, j) = choose|x: int, j: int|
                    0 <= x < adj.len() && 0 <= j < adj[x].len() && (x < n || (x == n && j < 0))
                        && k == edge_key(x as nat, #[trigger] adj[x][j]);
                assert(adj[x].contains(adj[x][j]));
                assert(is_edge(adj, x as nat, adj[x][j]));
            }
            if key_set(adj).contains(k) {
                let (x, y) = choose|x: nat, y: nat| is_edge(adj, x, y) && k == edge_key(x, y);
                let j = choose|j: int| 0 <= j < adj[x as int].len() && adj[x as int][j] == y;
                assert(k == edge_key(x as nat, adj[x as int][j]));
            }
        }
    }
    keys
}

/// The tables of the graph on which nothing has been computed: each edge
/// leads towards its larger endpoint, and its two endpoints are decided.
pub fn fresh_rows<NodeId: U16orU32>(nodes: &Nodes<NodeId>) -> (r: (
    HashMap<u64, BitVec>,
    HashMap<u64, BitVec>,
))
    requires
        nodes.wf(),
    ensures
        rows_wf(r.0@),
        rows_wf(r.1@),
        tables_of(r.0@, r.1@) == fresh(nodes.adj()),
{
    let keys: Vec<u64> = edge_keys(nodes);
    let mut edges: HashMap<u64, BitVec> = HashMap::new();
    let mut masks: HashMap<u64, BitVec> = HashMap::new();
    let mut i: usize = 0;
    while i < keys.len()
        invariant
            i <= keys@.len(),
            rows_wf(edges@),
            rows_wf(masks@),
            forall|k: u64| edges@.contains_key(k) <==> exists|j: int| 0 <= j < i && keys@[j] == k,
            forall|k: u64| masks@.contains_key(k) <==> exists|j: int| 0 <= j < i && keys@[j] == k,
            forall|k: u64| #[trigger] edges@.contains_key(k) ==> edges@[k]@ == set![key_hi(k)],
            forall|k: u64| #[trigger]
                masks@.contains_key(k) ==> masks@[k]@ == set![key_lo(k), key_hi(k)],
        decreases keys@.len() - i,
    {
        let k: u64 = keys[i];
        let lo: usize = (k / 0x1_0000_0000) as usize;
        let hi: usize = (k % 0x1_0000_0000) as usize;
        let ghost edges0 = edges@;
        let ghost masks0 = masks@;
        edges.insert(k, BitVec::one(hi));
        let mut mask: BitVec = BitVec::one(hi);
        mask.set_bit(lo, true);
        proof {
            assert(mask@ =~= set![key_lo(k), key_hi(k)]);
        }
        masks.insert(k, mask);
        proof {
            assert forall|x: u64| edges@.contains_key(x) <==> exists|j: int|
                0 <= j < i + 1 && keys@[j] == x by {
                if x == k {
                    assert(keys@[i as int] == x);
                }
            }
            assert forall|x: u64| masks@.contains_key(x) <==> exists|j: int|
                0 <= j < i + 1 && keys@[j] == x by {
                if x == k {
                    assert(keys@[i as int] == x);
                }
            }
            assert forall|x: u64| #[trigger] edges@.contains_key(x) implies edges@[x]@
                == set![key_hi(x)] by {
                if x != k {
                    assert(edges0.contains_key(x));
                }
            }
            assert forall|x: u64| #[trigger] masks@.contains_key(x) implies masks@[x]@
                == set![key_lo(x), key_hi(x)] by {
                if x != k {
                    assert(masks0.contains_key(x));
                }
            }
        }
        i += 1;
    }
    proof {
        let adj = nodes.adj();
        assert forall|k: u64| edges@.contains_key(k) <==> key_set(adj).contains(k) by {
            if keys@.contains(k) {
                let j = choose|j: int| 0 <= j < keys@.len() && keys@[j] == k;
                assert(edges@.contains_key(k));
            }
            if edges@.contains_key(k) {
                let j = choose|j: int| 0 <= j < keys@.len() && keys@[j] == k;
                assert(keys@.contains(k));
            }
        }
        assert forall|k: u64| masks@.contains_key(k) <==> key_set(adj).contains(k) by {
            if keys@.contains(k) {
                let j = choose|j: int| 0 <= j < keys@.len() && keys@[j] == k;
                assert(masks@.contains_key(k));
            }
            if masks@.contains_key(k) {
                let j = choose|j: int| 0 <= j < keys@.len() && keys@[j] == k;
                assert(keys@.contains(k));
            }
        }
        let t = tables_of(edges@, masks@);
        assert(t.edges.dom() =~= fresh(adj).edges.dom());
        assert(t.masks.dom() =~= fresh(adj).masks.dom());
        assert(t.edges =~= fresh(adj).edges);
        assert(t.masks =~= fresh(adj).masks);
    }
    (edges, masks)
}

impl<NodeId: U16orU32> SeqGraph<NodeId> {
    /// Converts this graph into a builder.
    ///
    /// This is useful if you want to update the graph,
    /// like adding or removing edges.
    ///
    /// Then you can build the graph again. The builder has the nodes and
    /// edges of the graph; what was computed for them is dropped, so that a
    /// change of the edges cannot leave a wrong decision behind.
    pub fn into_builder(self) -> (b: SeqGraphBuilder<NodeId>)
        requires
            self.wf(),
        ensures
            b.wf(),
            b.nodes == self.nodes,
            b.tables() == fresh(self.nodes.adj()),
    {
        let SeqGraph { nodes, edges: _, masks: _ } = self;
        let (edges, masks) = fresh_rows(&nodes);
        SeqGraphBuilder { nodes, edges: Edges { inner: edges }, edge_masks: Edges { inner: masks } }
    }
}

} // verus!
