//! What holds of the library as a whole, over more than one call.

use crate::bitvec::bitvec::{lemma_normalized_unique, seq_bit, BitVec};
use crate::bitvec::iter::{IterOnes, IterZeros};
use crate::digit::lemma_bit_zero;
use crate::graph::engine::{rows, rows_wf};
use crate::graph::model::{
    adj_wf, edge_key, fresh, full, is_edge, key_set, last_round, lemma_last_round_unique, rounds,
    solve, start, Tables,
};
use crate::graph::progress::{lemma_measure, lemma_rounds_end, lemma_start_ok};
use crate::graph::reach::lemma_leads_reach;
use crate::graph::nodes::{adj_connect, ids, lemma_push_new, push_new, Nodes};
use crate::graph::parallel::ParaGraph;
use crate::graph::correct::{lemma_near, lemma_solved};
use crate::graph::distance::{
    closer, dist_is, fair, lemma_dist_exists, lemma_dist_unique, lemma_first_step, reachable,
    within,
};
use crate::graph::sequential::{
    first_of, leads, lemma_next_nodes_of, next_nodes_of, tables_connect,
    towards_from, SeqGraph, SeqGraphBuilder,
};
use crate::graph::{Graph, GraphBuilder, U16orU32};
use crate::prim::packed::{lemma_word_adj, prim_towards, word_rows, PrimGraph};
use crate::prim::word::word_bit;
use crate::prim::word::lemma_word_set_ext;
use vstd::prelude::*;

verus! {

/// Adding the bits of `b` to `a` and then clearing them leaves the bits of
/// `a` that are not in `b`: the same vector, digit for digit, as clearing
/// them at once.
pub proof fn law_or_then_and_not(a: BitVec, b: BitVec, sum: BitVec, left: BitVec, right: BitVec)
    requires
        sum@ == a@.union(b@),
        left@ == sum@.difference(b@),
        right@ == a@.difference(b@),
        left.wf(),
        right.wf(),
    ensures
        left@ == a@.difference(b@),
        left.0@ == right.0@,
{
    assert(left@ =~= right@);
    lemma_normalized_unique(left.0@, right.0@);
}

/// The indices of the one bits come in strictly ascending order: each is
/// greater than the one before.
pub proof fn law_iter_ones_ascending(
    it0: IterOnes,
    it1: IterOnes,
    it2: IterOnes,
    first: usize,
    second: usize,
)
    requires
        it0.steps_to(it1, Some(first)),
        it1.steps_to(it2, Some(second)),
    ensures
        first < second,
{
}

/// The walk over the one bits leaves none out: what lies between two
/// indices that follow each other is zero.
pub proof fn law_iter_ones_complete(
    it0: IterOnes,
    it1: IterOnes,
    it2: IterOnes,
    first: usize,
    second: usize,
    j: nat,
)
    requires
        it0.steps_to(it1, Some(first)),
        it1.steps_to(it2, Some(second)),
        first < j < second,
    ensures
        !it0.data()@.contains(j),
{
}

/// The indices of the zero bits come in strictly ascending order: each is
/// greater than the one before.
pub proof fn law_iter_zeros_ascending(
    it0: IterZeros,
    it1: IterZeros,
    it2: IterZeros,
    first: usize,
    second: usize,
)
    requires
        it0.steps_to(it1, Some(first)),
        it1.steps_to(it2, Some(second)),
    ensures
        first < second,
{
}

/// Past the digits of the vector the walk over the zero bits goes on, one
/// index per step: after an index at or past the last digit comes the next
/// index, as long as there is one.
pub proof fn law_iter_zeros_goes_on(
    it0: IterZeros,
    it1: IterZeros,
    it2: IterZeros,
    first: usize,
    r: Option<usize>,
)
    requires
        it0.steps_to(it1, Some(first)),
        it1.steps_to(it2, r),
        first + 1 >= it0.data().0@.len() * 64,
        first < usize::MAX,
    ensures
        r == Some((first + 1) as usize),
{
    let next = (first + 1) as nat;
    assert(!it0.data()@.contains(next)) by {
        assert(it0.data()@.contains(next) == seq_bit(it0.data().0@, next));
        lemma_bit_zero(next % 64);
    }
}

/// Connecting `a` with `b` and then `b` with `a` is the same as connecting
/// `a` with `b` once: the neighbor lists are the same, and so are the tables.
pub proof fn law_connect_commutes(adj: Seq<Seq<nat>>, t: Tables, a: nat, b: nat)
    requires
        adj_wf(adj),
        a < adj.len(),
        b < adj.len(),
    ensures
        adj_connect(adj_connect(adj, a, b), b, a) == adj_connect(adj, a, b),
        tables_connect(tables_connect(t, a, b), b, a) == tables_connect(t, a, b),
{
    if a != b {
        let once = adj_connect(adj, a, b);
        let twice = adj_connect(once, b, a);
        lemma_push_new(adj[a as int], b);
        lemma_push_new(adj[b as int], a);
        assert(once[b as int] == push_new(adj[b as int], a));
        assert(once[a as int] == push_new(adj[a as int], b));
        assert(once[b as int].contains(a));
        assert(once[a as int].contains(b));
        assert(twice =~= once);
        let t1 = tables_connect(t, a, b);
        let t2 = tables_connect(t1, b, a);
        let k = edge_key(a, b);
        assert(edge_key(b, a) == k);
        assert(t2.edges[k] =~= t1.edges[k]);
        assert(t2.masks[k] =~= t1.masks[k]);
        assert(t2.edges =~= t1.edges);
        assert(t2.masks =~= t1.masks);
    }
}

/// A builder is determined by its neighbor lists: two well-formed builders
/// of the same graph hold the same tables.
pub proof fn law_builder_determined<NodeId: U16orU32>(
    b1: SeqGraphBuilder<NodeId>,
    b2: SeqGraphBuilder<NodeId>,
)
    requires
        b1.wf(),
        b2.wf(),
        b1.nodes.adj() == b2.nodes.adj(),
    ensures
        b1.tables() == b2.tables(),
{
}

/// Rows that are well formed and hold the same sets are the same, digit
/// for digit.
pub proof fn lemma_same_rows(m1: Map<u64, BitVec>, m2: Map<u64, BitVec>)
    requires
        rows_wf(m1),
        rows_wf(m2),
        rows(m1) == rows(m2),
    ensures
        m1.dom() == m2.dom(),
        forall|k: u64| m1.contains_key(k) ==> (#[trigger] m1[k]).0@ == m2[k].0@,
{
    assert forall|k: u64| m1.contains_key(k) == m2.contains_key(k) by {
        assert(rows(m1).contains_key(k) == m1.contains_key(k));
        assert(rows(m2).contains_key(k) == m2.contains_key(k));
    }
    assert(m1.dom() =~= m2.dom());
    assert forall|k: u64| m1.contains_key(k) implies (#[trigger] m1[k]).0@ == m2[k].0@ by {
        assert(rows(m1).contains_key(k));
        assert(rows(m1)[k] == rows(m2)[k]);
        lemma_normalized_unique(m1[k].0@, m2[k].0@);
    }
}

/// Two lists of node ids that are the same as numbers are the same.
pub proof fn lemma_same_ids<NodeId: U16orU32>(s1: Seq<NodeId>, s2: Seq<NodeId>)
    requires
        ids(s1) == ids(s2),
    ensures
        s1 == s2,
{
    assert(s1.len() == ids(s1).len());
    assert(s2.len() == ids(s2).len());
    assert forall|i: int| 0 <= i < s1.len() implies s1[i] == s2[i] by {
        assert(ids(s1)[i] == s1[i].index());
        assert(ids(s2)[i] == s2[i].index());
        NodeId::lemma_index(s1[i], s2[i]);
    }
    assert(s1 =~= s2);
}

/// Building is deterministic, and the engines agree: two graphs that were
/// built for the same neighbor lists, each by either engine, hold the same
/// rows, digit for digit, and give the same answer, in the same order, to
/// every query.
pub proof fn law_build_deterministic<NodeId: U16orU32>(
    g1: Graph<NodeId>,
    g2: Graph<NodeId>,
    curr: NodeId,
    dest: NodeId,
)
    requires
        g1.wf(),
        g2.wf(),
        g1.solved(),
        g2.solved(),
        g1.nodes().adj() == g2.nodes().adj(),
        curr.index() < g1.nodes().inner@.len(),
    ensures
        g1.edges().dom() == g2.edges().dom(),
        g1.masks().dom() == g2.masks().dom(),
        forall|k: u64|
            g1.edges().contains_key(k) ==> (#[trigger] g1.edges()[k]).0@ == g2.edges()[k].0@,
        forall|k: u64|
            g1.masks().contains_key(k) ==> (#[trigger] g1.masks()[k]).0@ == g2.masks()[k].0@,
        g1.nodes().inner@[curr.index() as int]@ == g2.nodes().inner@[curr.index() as int]@,
        g1.spec_next_nodes(curr, dest) == g2.spec_next_nodes(curr, dest),
{
    let c = curr.index() as int;
    assert(g1.nodes().adj().len() == g1.nodes().inner@.len());
    assert(g2.nodes().adj().len() == g2.nodes().inner@.len());
    assert(g1.nodes().adj()[c] == ids(g1.nodes().inner@[c]@));
    assert(g2.nodes().adj()[c] == ids(g2.nodes().inner@[c]@));
    lemma_same_ids(g1.nodes().inner@[c]@, g2.nodes().inner@[c]@);
    assert(g1.tables() == g2.tables());
    lemma_same_rows(g1.edges(), g2.edges());
    lemma_same_rows(g1.masks(), g2.masks());
}

/// The two engines agree: built for the same neighbor lists, the graph of
/// the sequential engine and that of the parallel engine hold the same
/// rows, digit for digit, and give the same answer, in the same order, to
/// every query.
pub proof fn law_engines_agree<NodeId: U16orU32>(
    seq: SeqGraph<NodeId>,
    par: ParaGraph<NodeId>,
    curr: NodeId,
    dest: NodeId,
)
    requires
        seq.wf(),
        par.wf(),
        seq.solved(),
        par.solved(),
        seq.nodes == par.nodes,
    ensures
        seq.edges@.dom() == par.edges@.dom(),
        forall|k: u64|
            seq.edges@.contains_key(k) ==> (#[trigger] seq.edges@[k]).0@ == par.edges@[k].0@,
        forall|k: u64|
            seq.masks@.contains_key(k) ==> (#[trigger] seq.masks@[k]).0@ == par.masks@[k].0@,
        seq.spec_neighbors_to(curr, dest) == par.spec_next_nodes(curr, dest),
{
    assert(seq.tables() == par.tables());
    lemma_same_rows(seq.edges@, par.edges@);
    lemma_same_rows(seq.masks@, par.masks@);
}

/// Making a builder of a built graph and building again gives a graph that
/// no query tells from the first, whichever engine built them: the builder
/// has the nodes and the edges of the graph, and the graph built from it
/// has the same rows, digit for digit.
pub proof fn law_round_trip<NodeId: U16orU32>(
    g: Graph<NodeId>,
    b: GraphBuilder<NodeId>,
    g2: Graph<NodeId>,
    curr: NodeId,
    dest: NodeId,
)
    requires
        g.wf(),
        g.solved(),
        b.wf(),
        b.adj() == g.nodes().adj(),
        g2.wf(),
        g2.solved(),
        g2.nodes().adj() == b.adj(),
        curr.index() < g.nodes().inner@.len(),
    ensures
        b.tables().edges.dom() == g.edges().dom(),
        g2.edges().dom() == g.edges().dom(),
        forall|k: u64|
            g.edges().contains_key(k) ==> (#[trigger] g2.edges()[k]).0@ == g.edges()[k].0@,
        forall|k: u64|
            g.masks().contains_key(k) ==> (#[trigger] g2.masks()[k]).0@ == g.masks()[k].0@,
        g2.nodes().inner@[curr.index() as int]@ == g.nodes().inner@[curr.index() as int]@,
        g2.spec_next_nodes(curr, dest) == g.spec_next_nodes(curr, dest),
{
    b.lemma_wf();
    law_build_deterministic(g, g2, curr, dest);
}

/// The round trip of a graph of packed words: built again from its own
/// builder, it has the same decision rows, word for word, and the same
/// answers to every query.
pub proof fn law_round_trip_packed(g: PrimGraph, g2: PrimGraph, curr: u8, dest: u8)
    requires
        g.wf(),
        g.solved(),
        g2.wf(),
        g2.solved(),
        g2.nodes.inner@ == g.nodes.inner@,
    ensures
        g2.edges@ == g.edges@,
        g2.masks@ == g.masks@,
        g2.spec_next_nodes(curr, dest) == g.spec_next_nodes(curr, dest),
{
    assert(g2.tables() == g.tables());
    assert(word_rows(g2.edges@) == word_rows(g.edges@));
    assert(word_rows(g2.masks@) == word_rows(g.masks@));
    assert forall|k: u64| g.masks@.contains_key(k) implies #[trigger] g2.masks@[k]
        == g.masks@[k] by {
        assert(word_rows(g.masks@).contains_key(k));
        assert(word_rows(g2.masks@)[k] == word_rows(g.masks@)[k]);
        lemma_word_set_ext(g2.masks@[k], g.masks@[k]);
    }
    assert(g2.masks@.dom() =~= g.masks@.dom());
    assert(g2.masks@ =~= g.masks@);
    assert forall|k: u64| g.edges@.contains_key(k) implies #[trigger] g2.edges@[k]
        == g.edges@[k] by {
        assert(word_rows(g.edges@).contains_key(k));
        assert(word_rows(g2.edges@)[k] == word_rows(g.edges@)[k]);
        lemma_word_set_ext(g2.edges@[k], g.edges@[k]);
    }
    assert(g2.edges@.dom() =~= g.edges@.dom());
    assert(g2.edges@ =~= g.edges@);
}

/// The neighbors that lead towards `dest` are those of the list for which
/// the row of the edge says so.
pub proof fn lemma_towards_member<NodeId: U16orU32>(
    nbrs: Seq<NodeId>,
    t: Tables,
    curr: nat,
    dest: nat,
    i: int,
    v: NodeId,
)
    requires
        0 <= i,
    ensures
        towards_from(nbrs, t, curr, dest, i).contains(v) <==> exists|j: int|
            i <= j < nbrs.len() && #[trigger] nbrs[j] == v && leads(
                t,
                curr,
                nbrs[j].index(),
                dest,
            ),
    decreases nbrs.len() - i,
{
    if i < nbrs.len() {
        lemma_towards_member(nbrs, t, curr, dest, i + 1, v);
        let rest = towards_from(nbrs, t, curr, dest, i + 1);
        let all = towards_from(nbrs, t, curr, dest, i);
        if leads(t, curr, nbrs[i].index(), dest) {
            assert(all == seq![nbrs[i]] + rest);
            if all.contains(v) {
                let k = choose|k: int| 0 <= k < all.len() && all[k] == v;
                if k == 0 {
                    assert(nbrs[i] == v);
                } else {
                    assert(rest[k - 1] == v);
                    assert(rest.contains(v));
                }
            }
            if rest.contains(v) {
                let k = choose|k: int| 0 <= k < rest.len() && rest[k] == v;
                assert(all[k + 1] == v);
            }
            if nbrs[i] == v {
                assert(all[0] == v);
            }
        }
    }
}

/// Taken `n` times, the step from a node to the first of its neighbors that
/// leads towards `dest`: the nodes that the walk comes to, while there is
/// such a neighbor.
pub open spec fn walk<NodeId: U16orU32>(
    nodes: Nodes<NodeId>,
    t: Tables,
    curr: NodeId,
    dest: NodeId,
    n: nat,
) -> Seq<NodeId>
    decreases n,
{
    if n == 0 {
        Seq::empty()
    } else {
        match first_of(next_nodes_of(nodes, t, curr, dest)) {
            Some(v) => seq![v] + walk(nodes, t, v, dest, (n - 1) as nat),
            None => Seq::empty(),
        }
    }
}

/// In a graph that has been built, for a destination whose part of the
/// graph has no cycle of odd length: the neighbors of `curr` that are
/// offered as next nodes towards `dest` are exactly those that are one edge
/// closer to `dest` than `curr` is.
pub proof fn law_next_nodes<NodeId: U16orU32>(
    nodes: Nodes<NodeId>,
    t: Tables,
    curr: NodeId,
    dest: NodeId,
    v: NodeId,
)
    requires
        nodes.wf(),
        t == solve(nodes.adj()),
        fair(nodes.adj(), dest.index()),
        curr.index() < nodes.inner@.len(),
        dest.index() < nodes.inner@.len(),
    ensures
        next_nodes_of(nodes, t, curr, dest).contains(v) <==> (nodes.inner@[curr.index() as int]@.contains(
            v,
        ) && closer(nodes.adj(), v.index(), curr.index(), dest.index())),
{
    let adj = nodes.adj();
    let list = nodes.inner@[curr.index() as int]@;
    lemma_near(adj, curr.index(), dest.index());
    if curr == dest {
        if closer(adj, v.index(), curr.index(), dest.index()) {
            let m = choose|m: nat|
                dist_is(adj, v.index(), dest.index(), m) && #[trigger] dist_is(
                    adj,
                    curr.index(),
                    dest.index(),
                    m + 1,
                );
            lemma_dist_unique(adj, curr.index(), dest.index(), m + 1, 0);
        }
    } else {
        lemma_towards_member(list, t, curr.index(), dest.index(), 0, v);
        assert forall|j: int| 0 <= j < list.len() implies (leads(
            t,
            curr.index(),
            (#[trigger] list[j]).index(),
            dest.index(),
        ) <==> closer(adj, list[j].index(), curr.index(), dest.index())) by {
            assert(adj[curr.index() as int][j] == list[j].index());
            assert(adj[curr.index() as int].contains(list[j].index()));
            lemma_solved(adj, curr.index(), list[j].index(), dest.index());
        }
        if list.contains(v) && closer(adj, v.index(), curr.index(), dest.index()) {
            let j = choose|j: int| 0 <= j < list.len() && list[j] == v;
            assert(list[j] == v && leads(t, curr.index(), list[j].index(), dest.index()));
        }
        if next_nodes_of(nodes, t, curr, dest).contains(v) {
            let j = choose|j: int|
                0 <= j < list.len() && #[trigger] list[j] == v && leads(
                    t,
                    curr.index(),
                    list[j].index(),
                    dest.index(),
                );
            assert(list.contains(v));
        }
    }
}

/// In a graph that has been built, for a destination whose part of the
/// graph has no cycle of odd length: there is a next node towards `dest`
/// exactly if `dest` can be reached from `curr`, and it is a neighbor of
/// `curr` that is one edge closer to `dest`.
pub proof fn law_next_node<NodeId: U16orU32>(
    nodes: Nodes<NodeId>,
    t: Tables,
    curr: NodeId,
    dest: NodeId,
)
    requires
        nodes.wf(),
        t == solve(nodes.adj()),
        fair(nodes.adj(), dest.index()),
        curr.index() < nodes.inner@.len(),
        dest.index() < nodes.inner@.len(),
        curr != dest,
    ensures
        first_of(next_nodes_of(nodes, t, curr, dest)).is_some() <==> reachable(
            nodes.adj(),
            curr.index(),
            dest.index(),
        ),
        match first_of(next_nodes_of(nodes, t, curr, dest)) {
            Some(v) => nodes.inner@[curr.index() as int]@.contains(v) && closer(
                nodes.adj(),
                v.index(),
                curr.index(),
                dest.index(),
            ),
            None => true,
        },
{
    let adj = nodes.adj();
    let list = nodes.inner@[curr.index() as int]@;
    let s = next_nodes_of(nodes, t, curr, dest);
    if s.len() > 0 {
        let v = s[0];
        assert(s.contains(v));
        law_next_nodes(nodes, t, curr, dest, v);
        let m = choose|m: nat|
            dist_is(adj, v.index(), dest.index(), m) && #[trigger] dist_is(
                adj,
                curr.index(),
                dest.index(),
                m + 1,
            );
        assert(within(adj, curr.index(), dest.index(), m + 1));
    }
    if reachable(adj, curr.index(), dest.index()) {
        let k = choose|k: nat| within(adj, curr.index(), dest.index(), k);
        let m = lemma_dist_exists(adj, curr.index(), dest.index(), k);
        lemma_near(adj, curr.index(), dest.index());
        NodeId::lemma_index(curr, dest);
        assert(m > 0);
        let b = lemma_first_step(adj, curr.index(), dest.index(), (m - 1) as nat);
        let j = choose|j: int|
            0 <= j < adj[curr.index() as int].len() && adj[curr.index() as int][j] == b;
        let v = list[j];
        assert(v.index() == b);
        assert(list.contains(v));
        assert(dist_is(adj, b, dest.index(), (m - 1) as nat) && dist_is(
            adj,
            curr.index(),
            dest.index(),
            ((m - 1) as nat) + 1,
        ));
        law_next_nodes(nodes, t, curr, dest, v);
        assert(s.contains(v));
    }
}

/// In a graph that has been built, for a destination whose part of the
/// graph has no cycle of odd length: the walk from `curr` towards `dest`
/// takes as many steps as `dest` is edges away, and ends at `dest`.
pub proof fn law_path<NodeId: U16orU32>(
    nodes: Nodes<NodeId>,
    t: Tables,
    curr: NodeId,
    dest: NodeId,
    m: nat,
    n: nat,
)
    requires
        nodes.wf(),
        t == solve(nodes.adj()),
        fair(nodes.adj(), dest.index()),
        curr.index() < nodes.inner@.len(),
        dest.index() < nodes.inner@.len(),
        dist_is(nodes.adj(), curr.index(), dest.index(), m),
        m <= n,
    ensures
        walk(nodes, t, curr, dest, n).len() == m,
        m > 0 ==> walk(nodes, t, curr, dest, n).last() == dest,
    decreases m,
{
    let adj = nodes.adj();
    lemma_near(adj, curr.index(), dest.index());
    NodeId::lemma_index(curr, dest);
    if m == 0 {
        assert(curr == dest);
        assert(next_nodes_of(nodes, t, curr, dest).len() == 0);
    } else {
        if curr == dest {
            lemma_dist_unique(adj, curr.index(), dest.index(), m, 0);
        }
        assert(within(adj, curr.index(), dest.index(), m));
        law_next_node(nodes, t, curr, dest);
        let v = first_of(next_nodes_of(nodes, t, curr, dest)).unwrap();
        let k = choose|k: nat|
            dist_is(adj, v.index(), dest.index(), k) && #[trigger] dist_is(
                adj,
                curr.index(),
                dest.index(),
                k + 1,
            );
        lemma_dist_unique(adj, curr.index(), dest.index(), k + 1, m);
        lemma_next_nodes_of(nodes, t, curr, dest);
        assert(next_nodes_of(nodes, t, curr, dest)[0] == v);
        law_path(nodes, t, v, dest, (m - 1) as nat, (n - 1) as nat);
        let rest = walk(nodes, t, v, dest, (n - 1) as nat);
        let all = walk(nodes, t, curr, dest, n);
        assert(all == seq![v] + rest);
        if m == 1 {
            lemma_near(adj, v.index(), dest.index());
            NodeId::lemma_index(v, dest);
            assert(v == dest);
        } else {
            assert(all.last() == rest.last());
        }
    }
}

/// In every graph that has been built, with or without cycles of odd
/// length, no neighbor is offered as next node towards a destination that
/// cannot be reached: there is no next node, and the walk ends before its
/// first step.
pub proof fn law_no_path<NodeId: U16orU32>(
    nodes: Nodes<NodeId>,
    t: Tables,
    curr: NodeId,
    dest: NodeId,
    n: nat,
)
    requires
        nodes.wf(),
        t == solve(nodes.adj()),
        curr.index() < nodes.inner@.len(),
        !reachable(nodes.adj(), curr.index(), dest.index()),
    ensures
        next_nodes_of(nodes, t, curr, dest) == Seq::<NodeId>::empty(),
        first_of(next_nodes_of(nodes, t, curr, dest)) is None,
        walk(nodes, t, curr, dest, n) == Seq::<NodeId>::empty(),
{
    let adj = nodes.adj();
    let list = nodes.inner@[curr.index() as int]@;
    let s = next_nodes_of(nodes, t, curr, dest);
    if s.len() > 0 {
        let v = s[0];
        assert(s.contains(v));
        lemma_towards_member(list, t, curr.index(), dest.index(), 0, v);
        let j = choose|j: int|
            0 <= j < list.len() && #[trigger] list[j] == v && leads(
                t,
                curr.index(),
                list[j].index(),
                dest.index(),
            );
        assert(adj[curr.index() as int][j] == v.index());
        assert(adj[curr.index() as int].contains(v.index()));
        lemma_leads_reach(adj, curr.index(), v.index(), dest.index());
    }
    assert(s =~= Seq::<NodeId>::empty());
}

/// In every graph of packed words that has been built, no neighbor is
/// offered as next node towards a destination that cannot be reached.
pub proof fn law_no_path_packed(g: PrimGraph, curr: u8, dest: u8)
    requires
        g.wf(),
        g.solved(),
        curr < g.nodes.inner@.len(),
        dest < 128,
        !reachable(g.nodes.adj(), curr as nat, dest as nat),
    ensures
        g.spec_next_nodes(curr, dest) == Seq::<u8>::empty(),
{
    let adj = g.nodes.adj();
    let w = g.nodes.inner@[curr as int];
    let s = g.spec_next_nodes(curr, dest);
    lemma_word_adj(g.nodes.inner@);
    if s.len() > 0 {
        let v = s[0];
        assert(s.contains(v));
        lemma_prim_towards_member(w, g.tables(), curr as nat, dest as nat, 0, v);
        assert(is_edge(adj, curr as nat, v as nat));
        lemma_packed_leads(g, curr as nat, v as nat, dest as nat);
        lemma_leads_reach(adj, curr as nat, v as nat, dest as nat);
    }
    assert(s =~= Seq::<u8>::empty());
}

/// Where neither end of an edge is closer to a node than the other, and
/// the edge has decided that node, its rows are wrong from one end,
/// whatever they hold: from `a` or from `c` the edge leads towards the
/// node. So the laws above on closer neighbors do not hold for a
/// destination that lies on or behind a cycle of odd length.
pub proof fn law_odd_cycle_misleads(
    adj: Seq<Seq<nat>>,
    t: Tables,
    a: nat,
    c: nat,
    x: nat,
)
    requires
        a != c,
        !closer(adj, a, c, x),
        !closer(adj, c, a, x),
        t.masks[edge_key(a, c)].contains(x),
    ensures
        leads(t, a, c, x) != closer(adj, c, a, x) || leads(t, c, a, x) != closer(
            adj,
            a,
            c,
            x,
        ),
{
    assert(edge_key(a, c) == edge_key(c, a));
}

/// The neighbors of a packed word that lead towards `dest` are those whose
/// bit is one and for which the row of the edge says so.
pub proof fn lemma_prim_towards_member(
    w: u128,
    t: Tables,
    curr: nat,
    dest: nat,
    from: nat,
    v: u8,
)
    ensures
        prim_towards(w, t, curr, dest, from).contains(v) <==> (from <= v < 128 && word_bit(
            w,
            v as nat,
        ) && leads(t, curr, v as nat, dest)),
    decreases 128 - from,
{
    if from < 128 {
        lemma_prim_towards_member(w, t, curr, dest, from + 1, v);
        let rest = prim_towards(w, t, curr, dest, from + 1);
        let all = prim_towards(w, t, curr, dest, from);
        if word_bit(w, from) && leads(t, curr, from, dest) {
            assert(all == seq![from as u8] + rest);
            if all.contains(v) {
                let k = choose|k: int| 0 <= k < all.len() && all[k] == v;
                if k > 0 {
                    assert(rest[k - 1] == v);
                    assert(rest.contains(v));
                }
            }
            if rest.contains(v) {
                let k = choose|k: int| 0 <= k < rest.len() && rest[k] == v;
                assert(all[k + 1] == v);
            }
            if v == from {
                assert(all[0] == v);
            }
        }
    } else {
        assert(prim_towards(w, t, curr, dest, from).len() == 0);
    }
}

/// For a destination below 128, the words of a built graph say of an edge
/// what the rows of the computation say.
pub proof fn lemma_packed_leads(g: PrimGraph, a: nat, c: nat, x: nat)
    requires
        g.wf(),
        g.solved(),
        is_edge(g.nodes.adj(), a, c),
        x < 128,
    ensures
        leads(g.tables(), a, c, x) == leads(solve(g.nodes.adj()), a, c, x),
{
    let adj = g.nodes.adj();
    let key = edge_key(a, c);
    assert(key_set(adj).contains(key));
    assert(word_rows(g.edges@).contains_key(key));
    assert(word_rows(g.masks@).contains_key(key));
    assert(g.tables().edges[key] == solve(adj).edges[key].intersect(full(128)));
    assert(g.tables().masks[key] == solve(adj).masks[key].intersect(full(128)));
    assert(full(128).contains(x));
}

/// In a graph of packed words that has been built, for a destination whose
/// part of the graph has no cycle of odd length: the neighbors of `curr`
/// that are offered as next nodes towards `dest` are exactly those that are
/// one edge closer to `dest` than `curr` is.
pub proof fn law_next_nodes_packed(g: PrimGraph, curr: u8, dest: u8, v: u8)
    requires
        g.wf(),
        g.solved(),
        fair(g.nodes.adj(), dest as nat),
        curr < g.nodes.inner@.len(),
        dest < g.nodes.inner@.len(),
    ensures
        g.spec_next_nodes(curr, dest).contains(v) <==> (word_bit(
            g.nodes.inner@[curr as int],
            v as nat,
        ) && closer(g.nodes.adj(), v as nat, curr as nat, dest as nat)),
{
    let adj = g.nodes.adj();
    let w = g.nodes.inner@[curr as int];
    lemma_word_adj(g.nodes.inner@);
    lemma_near(adj, curr as nat, dest as nat);
    if curr == dest {
        if closer(adj, v as nat, curr as nat, dest as nat) {
            let m = choose|m: nat|
                dist_is(adj, v as nat, dest as nat, m) && #[trigger] dist_is(
                    adj,
                    curr as nat,
                    dest as nat,
                    m + 1,
                );
            lemma_dist_unique(adj, curr as nat, dest as nat, m + 1, 0);
        }
    } else {
        lemma_prim_towards_member(w, g.tables(), curr as nat, dest as nat, 0, v);
        if word_bit(w, v as nat) {
            assert(is_edge(adj, curr as nat, v as nat));
            lemma_solved(adj, curr as nat, v as nat, dest as nat);
            let key = edge_key(curr as nat, v as nat);
            assert(key_set(adj).contains(key));
            lemma_packed_leads(g, curr as nat, v as nat, dest as nat);
        }
    }
}

/// The rounds come to an end for every graph, after no more rounds than
/// one for each node and one for each pair of nodes.
pub proof fn law_rounds_bounded(adj: Seq<Seq<nat>>)
    requires
        adj_wf(adj),
    ensures
        last_round(adj, start(adj, fresh(adj)), rounds(adj, fresh(adj))),
        rounds(adj, fresh(adj)) <= adj.len() + adj.len() * adj.len(),
{
    let s = start(adj, fresh(adj));
    lemma_start_ok(adj, fresh(adj));
    lemma_measure(adj, s);
    let n = lemma_rounds_end(adj, s);
    lemma_last_round_unique(adj, s, n, rounds(adj, fresh(adj)));
}

} // verus!
