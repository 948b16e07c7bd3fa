//! The graph of at most 128 nodes behind the fixed-width graph types: one
//! packed word for the neighbors of each node and for each row of an edge.

use crate::bitvec::BitVec;
use crate::graph::engine::{edge_key_of, rows, rows_wf};
use crate::graph::model::{
    adj_wf, edge_key, fresh, full, is_edge, key_hi, key_lo, key_set, lemma_key_ends, solve,
    tables_wf, Tables,
};
use crate::graph::nodes::{ids, lemma_key_set_insert, lemma_key_set_remove, Nodes};
use crate::graph::U16orU32;
use crate::graph::sequential::{
    accepted_first, edge_keys, first_of, leads, lemma_fresh_connect, lemma_fresh_disconnect,
    lemma_fresh_wf, row_or_empty, tables_connect, tables_disconnect, Edges, SeqGraph, SeqGraphBuilder,
};
use crate::prim::word::{
    bitvec_to_word, lemma_word_zero, word_and_not, word_bit, word_one, word_or, word_set,
    word_test, word_to_bitvec,
};
use std::collections::HashMap;
use vstd::prelude::*;

verus! {

/// The one bits of the word `w` below `k`, in ascending order.
pub open spec fn word_list(w: u128, k: nat) -> Seq<nat>
    decreases k,
{
    if k == 0 {
        Seq::empty()
    } else if word_bit(w, (k - 1) as nat) {
        word_list(w, (k - 1) as nat).push((k - 1) as nat)
    } else {
        word_list(w, (k - 1) as nat)
    }
}

/// The list of the one bits holds each of them once.
pub proof fn lemma_word_list(w: u128, k: nat)
    ensures
        forall|x: nat| word_list(w, k).contains(x) <==> (x < k && word_bit(w, x)),
        forall|i: int, j: int|
            0 <= i < j < word_list(w, k).len() ==> word_list(w, k)[i] < word_list(w, k)[j],
        forall|i: int| 0 <= i < word_list(w, k).len() ==> word_list(w, k)[i] < k,
    decreases k,
{
    if k > 0 {
        let p = word_list(w, (k - 1) as nat);
        let s = word_list(w, k);
        lemma_word_list(w, (k - 1) as nat);
        assert forall|x: nat| s.contains(x) <==> (x < k && word_bit(w, x)) by {
            if s.contains(x) {
                let i = choose|i: int| 0 <= i < s.len() && s[i] == x;
                if i < p.len() {
                    assert(p[i] == x);
                    assert(p.contains(x));
                }
            }
            if x < k && word_bit(w, x) {
                if x == k - 1 {
                    assert(s[p.len() as int] == x);
                } else {
                    assert(p.contains(x));
                    let i = choose|i: int| 0 <= i < p.len() && p[i] == x;
                    assert(s[i] == x);
                }
            }
        }
    }
}

/// The neighbors of each node as the set of the one bits of its word.
pub open spec fn nbr_sets(inner: Seq<u128>) -> Seq<Set<nat>> {
    Seq::new(inner.len(), |a: int| word_set(inner[a]))
}

/// The neighbor lists that the words stand for: for each node, its
/// neighbors in ascending order.
pub open spec fn word_adj(inner: Seq<u128>) -> Seq<Seq<nat>> {
    Seq::new(inner.len(), |a: int| word_list(inner[a], 128))
}

/// The words are those of a simple undirected graph: every neighbor is a
/// node other than the node itself, and has the node as a neighbor.
pub open spec fn words_ok(inner: Seq<u128>) -> bool {
    &&& inner.len() <= 128
    &&& forall|a: int, j: nat|
        0 <= a < inner.len() && #[trigger] word_bit(inner[a], j) ==> j < inner.len() && j != a
            && word_bit(inner[j as int], a as nat)
}

/// Words of a simple undirected graph stand for well-formed neighbor lists,
/// and `b` is listed for `a` exactly where bit `b` of the word of `a` is one.
pub proof fn lemma_word_adj(inner: Seq<u128>)
    requires
        words_ok(inner),
    ensures
        adj_wf(word_adj(inner)),
        forall|a: nat, b: nat|
            is_edge(word_adj(inner), a, b) <==> (a < inner.len() && word_bit(inner[a as int], b)),
{
    let adj = word_adj(inner);
    assert forall|a: nat, b: nat|
        is_edge(adj, a, b) <==> (a < inner.len() && word_bit(inner[a as int], b)) by {
        if a < inner.len() {
            lemma_word_list(inner[a as int], 128);
        }
    }
    assert forall|a: int, i: int| 0 <= a < adj.len() && 0 <= i < adj[a].len() implies #[trigger] adj[a][i]
        < adj.len() && adj[a][i] != a by {
        lemma_word_list(inner[a], 128);
        assert(adj[a].contains(adj[a][i]));
        assert(word_bit(inner[a], adj[a][i]));
    }
    assert forall|a: int, i: int, j: int|
        0 <= a < adj.len() && 0 <= i < adj[a].len() && 0 <= j < adj[a].len() && i != j implies #[trigger] adj[a][i]
        != #[trigger] adj[a][j] by {
        lemma_word_list(inner[a], 128);
    }
    assert forall|a: nat, b: nat| is_edge(adj, a, b) implies is_edge(adj, b, a) by {
        assert(word_bit(inner[a as int], b));
    }
}

/// The rows of a table of words, each as the set of its one bits.
pub open spec fn word_rows(m: Map<u64, u128>) -> Map<u64, Set<nat>> {
    Map::new(|k: u64| m.contains_key(k), |k: u64| word_set(m[k]))
}

/// The rows of both tables as sets.
pub open spec fn word_tables(edges: Map<u64, u128>, masks: Map<u64, u128>) -> Tables {
    Tables { edges: word_rows(edges), masks: word_rows(masks) }
}

/// The neighbor sets after an edge between `a` and `b` is added.
pub open spec fn sets_connect(s: Seq<Set<nat>>, a: nat, b: nat) -> Seq<Set<nat>> {
    if a == b {
        s
    } else {
        s.update(a as int, s[a as int].insert(b)).update(b as int, s[b as int].insert(a))
    }
}

/// The neighbor sets after the edge between `a` and `b` is removed.
pub open spec fn sets_disconnect(s: Seq<Set<nat>>, a: nat, b: nat) -> Seq<Set<nat>> {
    if a == b {
        s
    } else {
        s.update(a as int, s[a as int].remove(b)).update(b as int, s[b as int].remove(a))
    }
}

/// Map of nodes and their neighbors.
///
/// index: node_id
///
/// value: a word with neighbors' bit locations set to `true`
#[derive(Debug, Clone)]
pub struct PrimNodes {
    pub inner: Vec<u128>,
}

impl PrimNodes {
    /// The neighbor lists that the words stand for.
    pub open spec fn adj(&self) -> Seq<Seq<nat>> {
        word_adj(self.inner@)
    }

    /// The neighbors of each node as a set.
    pub open spec fn sets(&self) -> Seq<Set<nat>> {
        nbr_sets(self.inner@)
    }

    /// The words are those of a simple undirected graph of at most 128 nodes.
    pub open spec fn wf(&self) -> bool {
        words_ok(self.inner@)
    }

    /// `nodes_len` nodes without edges.
    pub fn new(nodes_len: usize) -> (r: Self)
        requires
            nodes_len <= 128,
        ensures
            r.wf(),
            r.inner@ == Seq::new(nodes_len as nat, |a: int| 0u128),
    {
        let mut inner: Vec<u128> = Vec::with_capacity(nodes_len);
        let mut i: usize = 0;
        while i < nodes_len
            invariant
                i <= nodes_len,
                inner@.len() == i,
                forall|k: int| 0 <= k < i ==> inner@[k] == 0,
            decreases nodes_len - i,
        {
            inner.push(0);
            i += 1;
        }
        proof {
            lemma_word_zero();
            assert(inner@ =~= Seq::new(nodes_len as nat, |a: int| 0u128));
            assert forall|a: int, j: nat| 0 <= a < inner@.len() && #[trigger] word_bit(
                inner@[a],
                j,
            ) implies false by {
                assert(word_set(0).contains(j));
            }
        }
        PrimNodes { inner }
    }

    /// Get the neighboring nodes
    pub fn neighbors(&self, node: u8) -> (it: NodeBitsIter)
        requires
            node < self.inner@.len(),
        ensures
            it.node_bits == self.inner@[node as int],
            it.pos == 0,
    {
        node_bits_iter(self.inner[node as usize])
    }

    /// Add a edge between node_a and node_b
    /// If the edge was not added, return false
    pub fn connect(&mut self, a: u8, b: u8) -> (r: bool)
        requires
            old(self).wf(),
            a < old(self).inner@.len(),
            b < old(self).inner@.len(),
        ensures
            final(self).wf(),
            r == (a != b),
            final(self).sets() == sets_connect(old(self).sets(), a as nat, b as nat),
            final(self).inner@.len() == old(self).inner@.len(),
            !r ==> final(self).inner@ == old(self).inner@,
    {
        if a == b {
            return false;
        }
        let ghost before = self.inner@;
        let wa: u128 = word_or(self.inner[a as usize], word_one(b as usize));
        self.inner[a as usize] = wa;
        let wb: u128 = word_or(self.inner[b as usize], word_one(a as usize));
        self.inner[b as usize] = wb;
        proof {
            assert(word_set(wa) =~= word_set(before[a as int]).insert(b as nat));
            assert(word_set(wb) =~= word_set(before[b as int]).insert(a as nat));
            let want = sets_connect(nbr_sets(before), a as nat, b as nat);
            assert forall|x: int| 0 <= x < before.len() implies #[trigger] self.sets()[x]
                == want[x] by {}
            assert(self.sets() =~= want);
            assert forall|x: int, j: nat| 0 <= x < self.inner@.len() && #[trigger] word_bit(
                self.inner@[x],
                j,
            ) implies j < self.inner@.len() && j != x && word_bit(self.inner@[j as int], x as nat) by {
                assert(word_set(self.inner@[x]).contains(j));
                assert(self.sets()[x].contains(j));
                if nbr_sets(before)[x].contains(j) {
                    assert(word_bit(before[x], j));
                    assert(word_bit(before[j as int], x as nat));
                    assert(nbr_sets(before)[j as int].contains(x as nat));
                }
                assert(self.sets()[j as int].contains(x as nat));
            }
        }
        true
    }

    /// Remove a edge between node_a and node_b
    /// If the edge was not removed, return false
    pub fn disconnect(&mut self, a: u8, b: u8) -> (r: bool)
        requires
            old(self).wf(),
            a < old(self).inner@.len(),
            b < old(self).inner@.len(),
        ensures
            final(self).wf(),
            r == (a != b),
            final(self).sets() == sets_disconnect(old(self).sets(), a as nat, b as nat),
            final(self).inner@.len() == old(self).inner@.len(),
            !r ==> final(self).inner@ == old(self).inner@,
    {
        if a == b {
            return false;
        }
        let ghost before = self.inner@;
        let wa: u128 = word_and_not(self.inner[a as usize], word_one(b as usize));
        self.inner[a as usize] = wa;
        let wb: u128 = word_and_not(self.inner[b as usize], word_one(a as usize));
        self.inner[b as usize] = wb;
        proof {
            assert(word_set(wa) =~= word_set(before[a as int]).remove(b as nat));
            assert(word_set(wb) =~= word_set(before[b as int]).remove(a as nat));
            let want = sets_disconnect(nbr_sets(before), a as nat, b as nat);
            assert forall|x: int| 0 <= x < before.len() implies #[trigger] self.sets()[x]
                == want[x] by {}
            assert(self.sets() =~= want);
            assert forall|x: int, j: nat| 0 <= x < self.inner@.len() && #[trigger] word_bit(
                self.inner@[x],
                j,
            ) implies j < self.inner@.len() && j != x && word_bit(self.inner@[j as int], x as nat) by {
                assert(word_set(self.inner@[x]).contains(j));
                assert(self.sets()[x].contains(j));
                assert(nbr_sets(before)[x].contains(j));
                assert(word_bit(before[x], j));
                assert(word_bit(before[j as int], x as nat));
                assert(nbr_sets(before)[j as int].contains(x as nat));
                assert(self.sets()[j as int].contains(x as nat));
            }
        }
        true
    }

    /// The number of nodes.
    pub fn len(&self) -> (r: usize)
        ensures
            r == self.inner@.len(),
    {
        self.inner.len()
    }
}

/// Given a value with bits set to 1 at existing nodes' indices,
/// iterate through the node indices
#[derive(Clone, Copy, Debug)]
pub struct NodeBitsIter {
    pub node_bits: u128,
    pub pos: usize,
}

/// The iterator over the one bits of `node_bits`.
pub fn node_bits_iter(node_bits: u128) -> (it: NodeBitsIter)
    ensures
        it.node_bits == node_bits,
        it.pos == 0,
{
    NodeBitsIter { node_bits, pos: 0 }
}

/// The one bits of `w` from `from` upwards, in ascending order.
pub open spec fn bits_from(w: u128, from: nat) -> Seq<nat>
    decreases 128 - from,
{
    if from >= 128 {
        Seq::empty()
    } else if word_bit(w, from) {
        seq![from] + bits_from(w, from + 1)
    } else {
        bits_from(w, from + 1)
    }
}

impl NodeBitsIter {
    /// The nodes that are still to come.
    pub open spec fn remaining(&self) -> Seq<nat> {
        bits_from(self.node_bits, self.pos as nat)
    }

    /// The same nodes without `node`.
    pub fn without(self, node: u8) -> (r: Self)
        requires
            node < 128,
        ensures
            word_set(r.node_bits) == word_set(self.node_bits).remove(node as nat),
            r.pos == self.pos,
    {
        NodeBitsIter {
            node_bits: word_and_not(self.node_bits, word_one(node as usize)),
            pos: self.pos,
        }
    }

    /// The next node, in ascending order.
    pub fn next(&mut self) -> (r: Option<u8>)
        ensures
            final(self).node_bits == old(self).node_bits,
            match r {
                Some(v) => old(self).remaining() == seq![v as nat] + final(self).remaining(),
                None => old(self).remaining() == Seq::<nat>::empty() && final(self).remaining()
                    == Seq::<nat>::empty(),
            },
    {
        while self.pos < 128
            invariant
                self.node_bits == old(self).node_bits,
                self.remaining() == old(self).remaining(),
            decreases 128 - self.pos,
        {
            let p: usize = self.pos;
            self.pos += 1;
            if word_test(self.node_bits, p) {
                assert(word_set(self.node_bits).contains(p as nat) == word_bit(
                    self.node_bits,
                    p as nat,
                ));
                return Some(p as u8);
            }
            assert(word_set(self.node_bits).contains(p as nat) == word_bit(self.node_bits, p as nat));
        }
        None
    }
}

/// Map of edges and bits indicating if the edge is the shortest path to the node.
#[derive(Debug, Clone)]
pub struct PrimEdges {
    /// key: the key of the edge
    /// value: for each bit, if this edge is the shortest path
    /// to that bit location's node, bit is set to 1
    pub inner: HashMap<u64, u128>,
}

impl PrimEdges {
    /// A table without rows.
    pub fn new() -> (r: Self)
        ensures
            r.inner@ == Map::<u64, u128>::empty(),
    {
        PrimEdges { inner: HashMap::new() }
    }

    /// The row of the edge.
    pub fn get(&self, edge_id: (u8, u8)) -> (r: Option<u128>)
        ensures
            match r {
                Some(v) => self.inner@.contains_key(edge_key(edge_id.0 as nat, edge_id.1 as nat))
                    && v == self.inner@[edge_key(edge_id.0 as nat, edge_id.1 as nat)],
                None => !self.inner@.contains_key(edge_key(edge_id.0 as nat, edge_id.1 as nat)),
            },
    {
        let k: u64 = edge_key_of(edge_id.0 as usize, edge_id.1 as usize);
        match self.inner.get(&k) {
            Some(v) => Some(*v),
            None => None,
        }
    }

    /// Adds the bits of `val` to the row of the edge. A row that is not there is made.
    pub fn insert(&mut self, edge_id: (u8, u8), val: u128)
        ensures
            word_rows(final(self).inner@) == word_rows(old(self).inner@).insert(
                edge_key(edge_id.0 as nat, edge_id.1 as nat),
                row_or_empty(
                    word_rows(old(self).inner@),
                    edge_key(edge_id.0 as nat, edge_id.1 as nat),
                ).union(word_set(val)),
            ),
    {
        let k: u64 = edge_key_of(edge_id.0 as usize, edge_id.1 as usize);
        let merged: u128 = match self.inner.get(&k) {
            Some(edge) => word_or(*edge, val),
            None => val,
        };
        self.inner.insert(k, merged);
        proof {
            let want = word_rows(old(self).inner@).insert(
                k,
                row_or_empty(word_rows(old(self).inner@), k).union(word_set(val)),
            );
            assert(word_rows(self.inner@)[k] =~= want[k]);
            assert(word_rows(self.inner@) =~= want);
        }
    }
}

/// Builder for a graph of at most 128 nodes.
#[derive(Debug, Clone)]
pub struct PrimGraphBuilder {
    pub nodes: PrimNodes,
    /// value: for each bit, if this edge is the shortest path
    /// to that bit location's node, bit is set to 1
    pub edges: PrimEdges,
    /// value: for each edge, bit is set to 1 if the node is computed for this edge
    pub edge_masks: PrimEdges,
}

/// The rows that the computation leaves, in words: of each row the node ids below 128.
pub open spec fn packed(rows: Map<u64, Set<nat>>) -> Map<u64, Set<nat>> {
    Map::new(|k: u64| rows.contains_key(k), |k: u64| rows[k].intersect(full(128)))
}

/// Both tables that the computation leaves, in words.
pub open spec fn packed_tables(t: Tables) -> Tables {
    Tables { edges: packed(t.edges), masks: packed(t.masks) }
}

impl PrimGraphBuilder {
    /// The rows of both tables as sets.
    pub open spec fn tables(&self) -> Tables {
        word_tables(self.edges.inner@, self.edge_masks.inner@)
    }

    /// The words are those of a simple undirected graph of at most 128
    /// nodes, and both tables hold a row for each of its edges, on which
    /// nothing has been computed.
    pub open spec fn wf(&self) -> bool {
        self.nodes.wf() && self.tables() == fresh(self.nodes.adj())
    }

    /// A builder for a graph of `nodes_len` nodes.
    pub fn new(nodes_len: usize) -> (r: Self)
        requires
            nodes_len <= 128,
        ensures
            r.wf(),
            r.nodes.inner@ == Seq::new(nodes_len as nat, |a: int| 0u128),
            r.tables() == (Tables { edges: Map::empty(), masks: Map::empty() }),
    {
        let r = PrimGraphBuilder {
            nodes: PrimNodes::new(nodes_len),
            edges: PrimEdges::new(),
            edge_masks: PrimEdges::new(),
        };
        proof {
            lemma_word_adj(r.nodes.inner@);
            lemma_word_zero();
            assert(r.tables().edges =~= Map::<u64, Set<nat>>::empty());
            assert(r.tables().masks =~= Map::<u64, Set<nat>>::empty());
            assert forall|k: u64| !key_set(r.nodes.adj()).contains(k) by {
                if key_set(r.nodes.adj()).contains(k) {
                    let (a, b) = choose|a: nat, b: nat|
                        is_edge(r.nodes.adj(), a, b) && k == edge_key(a, b);
                    assert(word_bit(r.nodes.inner@[a as int], b));
                    assert(word_set(0).contains(b));
                }
            }
            assert(key_set(r.nodes.adj()) =~= Set::<u64>::empty());
            assert(r.tables().edges.dom() =~= Set::<u64>::empty());
            assert(r.tables().masks.dom() =~= Set::<u64>::empty());
            assert(r.tables().edges =~= fresh(r.nodes.adj()).edges);
            assert(r.tables().masks =~= fresh(r.nodes.adj()).masks);
        }
        r
    }

    /// Add a edge between node_a and node_b
    pub fn connect(&mut self, a: u8, b: u8)
        requires
            old(self).wf(),
            a < old(self).nodes.inner@.len(),
            b < old(self).nodes.inner@.len(),
        ensures
            final(self).wf(),
            final(self).nodes.sets() == sets_connect(old(self).nodes.sets(), a as nat, b as nat),
            final(self).nodes.inner@.len() == old(self).nodes.inner@.len(),
            final(self).tables() == tables_connect(old(self).tables(), a as nat, b as nat),
    {
        let ghost inner0 = self.nodes.inner@;
        // if the edge is a loop, return
        if !self.nodes.connect(a, b) {
            return ;
        }
        let a_bit: u128 = word_one(a as usize);
        let b_bit: u128 = word_one(b as usize);
        // the edge leads from its smaller endpoint towards its larger one
        let val: u128 = if a > b {
            a_bit
        } else {
            b_bit
        };
        self.edges.insert((a, b), val);
        self.edge_masks.insert((a, b), word_or(a_bit, b_bit));
        proof {
            let want = tables_connect(old(self).tables(), a as nat, b as nat);
            let t = self.tables();
            let k = edge_key(a as nat, b as nat);
            assert(t.edges[k] =~= want.edges[k]);
            assert(t.masks[k] =~= want.masks[k]);
            assert(t.edges =~= want.edges);
            assert(t.masks =~= want.masks);
            lemma_word_adj(inner0);
            lemma_word_adj(self.nodes.inner@);
            assert forall|x: nat, y: nat|
                is_edge(self.nodes.adj(), x, y) <==> (is_edge(word_adj(inner0), x, y) || (x == a
                    && y == b) || (x == b && y == a)) by {
                if x < inner0.len() {
                    assert(word_set(self.nodes.inner@[x as int]).contains(y) == word_bit(
                        self.nodes.inner@[x as int],
                        y,
                    ));
                    assert(word_set(inner0[x as int]).contains(y) == word_bit(inner0[x as int], y));
                    assert(self.nodes.sets()[x as int] == sets_connect(
                        nbr_sets(inner0),
                        a as nat,
                        b as nat,
                    )[x as int]);
                }
            }
            lemma_key_set_insert(word_adj(inner0), self.nodes.adj(), a as nat, b as nat);
            lemma_fresh_connect(word_adj(inner0), self.nodes.adj(), a as nat, b as nat);
        }
    }

    /// Remove the edge between node_a and node_b
    pub fn disconnect(&mut self, a: u8, b: u8)
        requires
            old(self).wf(),
            a < old(self).nodes.inner@.len(),
            b < old(self).nodes.inner@.len(),
        ensures
            final(self).wf(),
            final(self).nodes.sets() == sets_disconnect(old(self).nodes.sets(), a as nat, b as nat),
            final(self).nodes.inner@.len() == old(self).nodes.inner@.len(),
            final(self).tables() == tables_disconnect(old(self).tables(), a as nat, b as nat),
    {
        let ghost inner0 = self.nodes.inner@;
        // if the edge is a loop, return
        if !self.nodes.disconnect(a, b) {
            return ;
        }
        let k: u64 = edge_key_of(a as usize, b as usize);
        if self.edges.inner.remove(&k).is_some() {
            self.edge_masks.inner.remove(&k);
        }
        proof {
            let want = tables_disconnect(old(self).tables(), a as nat, b as nat);
            let t = self.tables();
            lemma_fresh_wf(word_adj(inner0));
            assert(old(self).tables().edges.dom() =~= old(self).edges.inner@.dom());
            assert(old(self).tables().masks.dom() =~= old(self).edge_masks.inner@.dom());
            assert(t.edges.dom() =~= want.edges.dom());
            assert(t.masks.dom() =~= want.masks.dom());
            assert(t.edges =~= want.edges);
            assert(t.masks =~= want.masks);
            lemma_word_adj(inner0);
            lemma_word_adj(self.nodes.inner@);
            assert forall|x: nat, y: nat|
                is_edge(self.nodes.adj(), x, y) <==> (is_edge(word_adj(inner0), x, y) && !((x == a
                    && y == b) || (x == b && y == a))) by {
                if x < inner0.len() {
                    assert(word_set(self.nodes.inner@[x as int]).contains(y) == word_bit(
                        self.nodes.inner@[x as int],
                        y,
                    ));
                    assert(word_set(inner0[x as int]).contains(y) == word_bit(inner0[x as int], y));
                    assert(self.nodes.sets()[x as int] == sets_disconnect(
                        nbr_sets(inner0),
                        a as nat,
                        b as nat,
                    )[x as int]);
                }
            }
            lemma_key_set_remove(word_adj(inner0), self.nodes.adj(), a as nat, b as nat);
            lemma_fresh_disconnect(word_adj(inner0), self.nodes.adj(), a as nat, b as nat);
        }
    }

    /// The neighbor lists and both tables as the general engine takes them:
    /// the same graph and the same rows.
    pub fn to_general(&self) -> (r: SeqGraphBuilder<u16>)
        requires
            self.wf(),
        ensures
            r.wf(),
            r.nodes.adj() == self.nodes.adj(),
            r.tables() == self.tables(),
    {
        let n: usize = self.nodes.inner.len();
        let mut lists: Vec<Vec<u16>> = Vec::with_capacity(n);
        let mut a: usize = 0;
        while a < n
            invariant
                a <= n,
                n == self.nodes.inner@.len(),
                lists@.len() == a,
                forall|x: int| 0 <= x < a ==> ids((#[trigger] lists@[x])@) == word_list(
                    self.nodes.inner@[x],
                    128,
                ),
            decreases n - a,
        {
            let w: u128 = self.nodes.inner[a];
            let mut list: Vec<u16> = Vec::new();
            let mut j: usize = 0;
            while j < 128
                invariant
                    j <= 128,
                    ids(list@) == word_list(w, j as nat),
                decreases 128 - j,
            {
                if word_test(w, j) {
                    list.push(j as u16);
                    assert(ids(list@) =~= word_list(w, j as nat).push(j as nat));
                }
                proof {
                    assert(word_set(w).contains(j as nat) == word_bit(w, j as nat));
                }
                j += 1;
            }
            lists.push(list);
            a += 1;
        }
        let nodes: Nodes<u16> = Nodes { inner: lists };
        proof {
            assert forall|x: int| 0 <= x < n implies #[trigger] nodes.adj()[x]
                == self.nodes.adj()[x] by {
                assert(ids(lists@[x]@) == word_list(self.nodes.inner@[x], 128));
            }
            assert(nodes.adj() =~= self.nodes.adj());
            lemma_word_adj(self.nodes.inner@);
            <u16 as U16orU32>::lemma_limits();
            assert(adj_wf(nodes.adj()));
            assert(nodes.wf());
        }
        let keys: Vec<u64> = edge_keys(&nodes);
        let mut edges: HashMap<u64, BitVec> = HashMap::new();
        let mut masks: HashMap<u64, BitVec> = HashMap::new();
        let mut i: usize = 0;
        proof {
            lemma_fresh_wf(self.nodes.adj());
        }
        while i < keys.len()
            invariant
                i <= keys@.len(),
                self.wf(),
                tables_wf(self.nodes.adj(), self.tables()),
                nodes.adj() == self.nodes.adj(),
                forall|k: u64| key_set(nodes.adj()).contains(k) <==> keys@.contains(k),
                rows_wf(edges@),
                rows_wf(masks@),
                forall|k: u64| edges@.contains_key(k) <==> exists|j: int| 0 <= j < i && keys@[j] == k,
                forall|k: u64| masks@.contains_key(k) <==> exists|j: int| 0 <= j < i && keys@[j] == k,
                forall|x: u64| #[trigger]
                    edges@.contains_key(x) ==> self.edges.inner@.contains_key(x) && edges@[x]@
                        == word_set(self.edges.inner@[x]),
                forall|x: u64| #[trigger]
                    masks@.contains_key(x) ==> self.edge_masks.inner@.contains_key(x) && masks@[x]@
                        == word_set(self.edge_masks.inner@[x]),
            decreases keys@.len() - i,
        {
            let k: u64 = keys[i];
            proof {
                assert(keys@.contains(k));
                assert(self.tables().edges.dom().contains(k));
                assert(self.tables().masks.dom().contains(k));
            }
            let e: u128 = *self.edges.inner.get(&k).unwrap();
            let m: u128 = *self.edge_masks.inner.get(&k).unwrap();
            let ghost edges0 = edges@;
            let ghost masks0 = masks@;
            edges.insert(k, word_to_bitvec(e));
            masks.insert(k, word_to_bitvec(m));
            proof {
                assert(self.edges.inner@.contains_key(k));
                assert(self.edge_masks.inner@.contains_key(k));
                assert(edges@[k]@ == word_set(self.edges.inner@[k]));
                assert(masks@[k]@ == word_set(self.edge_masks.inner@[k]));
                assert forall|x: u64| #[trigger]
                    edges@.contains_key(x) implies self.edges.inner@.contains_key(x) && edges@[x]@
                    == word_set(self.edges.inner@[x]) by {
                    if x != k {
                        assert(edges0.contains_key(x));
                        assert(edges@[x] == edges0[x]);
                    }
                }
                assert forall|x: u64| #[trigger]
                    masks@.contains_key(x) implies self.edge_masks.inner@.contains_key(x)
                    && masks@[x]@ == word_set(self.edge_masks.inner@[x]) by {
                    if x != k {
                        assert(masks0.contains_key(x));
                        assert(masks@[x] == masks0[x]);
                    }
                }
                assert forall|x: u64| edges@.contains_key(x) <==> exists|j: int|
                    0 <= j < i + 1 && keys@[j] == x by {
                    if x == k {
                        assert(keys@[i as int] == x);
                    }
                }
                assert forall|x: u64| masks@.contains_key(x) <==> exists|j: int|
                    0 <= j < i + 1 && keys@[j] == x by {
                    if x == k {
                        assert(keys@[i as int] == x);
                    }
                }
            }
            i += 1;
        }
        let r = SeqGraphBuilder { nodes, edges: Edges { inner: edges }, edge_masks: Edges { inner: masks } };
        proof {
            assert forall|k: u64| edges@.contains_key(k) <==> key_set(nodes.adj()).contains(k) by {
                if keys@.contains(k) {
                    let j = choose|j: int| 0 <= j < keys@.len() && keys@[j] == k;
                    assert(edges@.contains_key(k));
                }
                if edges@.contains_key(k) {
                    let j = choose|j: int| 0 <= j < keys@.len() && keys@[j] == k;
                    assert(keys@.contains(k));
                }
            }
            assert forall|k: u64| masks@.contains_key(k) <==> key_set(nodes.adj()).contains(k) by {
                if keys@.contains(k) {
                    let j = choose|j: int| 0 <= j < keys@.len() && keys@[j] == k;
                    assert(masks@.contains_key(k));
                }
                if masks@.contains_key(k) {
                    let j = choose|j: int| 0 <= j < keys@.len() && keys@[j] == k;
                    assert(keys@.contains(k));
                }
            }
            assert(r.tables().edges =~= self.tables().edges);
            assert(r.tables().masks =~= self.tables().masks);
        }
        r
    }

    /// Runs the rounds until every node is done, and gives the graph with the
    /// decision rows that they leave.
    pub fn build(self) -> (g: PrimGraph)
        requires
            self.wf(),
        ensures
            g.wf(),
            g.nodes.inner@ == self.nodes.inner@,
            g.solved(),
    {
        let general: SeqGraph<u16> = self.to_general().build();
        let keys: Vec<u64> = edge_keys(&general.nodes);
        let mut edges: HashMap<u64, u128> = HashMap::new();
        let mut masks: HashMap<u64, u128> = HashMap::new();
        let mut i: usize = 0;
        while i < keys.len()
            invariant
                i <= keys@.len(),
                general.wf(),
                forall|k: u64| key_set(general.nodes.adj()).contains(k) <==> keys@.contains(k),
                forall|k: u64| edges@.contains_key(k) <==> exists|j: int| 0 <= j < i && keys@[j] == k,
                forall|k: u64| edges@.contains_key(k) <==> masks@.contains_key(k),
                forall|k: u64|
                    edges@.contains_key(k) ==> word_set(#[trigger] edges@[k])
                        == general.edges@[k]@.intersect(full(128)),
                forall|k: u64|
                    masks@.contains_key(k) ==> word_set(#[trigger] masks@[k])
                        == general.masks@[k]@.intersect(full(128)),
            decreases keys@.len() - i,
        {
            let k: u64 = keys[i];
            proof {
                assert(keys@.contains(k));
            }
            let w: u128 = bitvec_to_word(general.edges.get(&k).unwrap());
            let m: u128 = bitvec_to_word(general.masks.get(&k).unwrap());
            edges.insert(k, w);
            masks.insert(k, m);
            proof {
                assert(Set::new(|i: nat| i < 128) =~= full(128));
                assert forall|x: u64| edges@.contains_key(x) <==> exists|j: int|
                    0 <= j < i + 1 && keys@[j] == x by {
                    if x == k {
                        assert(keys@[i as int] == x);
                    }
                }
            }
            i += 1;
        }
        let g = PrimGraph { nodes: self.nodes, edges, masks };
        proof {
            assert forall|k: u64| edges@.contains_key(k) <==> key_set(
                general.nodes.adj(),
            ).contains(k) by {
                if keys@.contains(k) {
                    let j = choose|j: int| 0 <= j < keys@.len() && keys@[j] == k;
                    assert(edges@.contains_key(k));
                }
                if edges@.contains_key(k) {
                    let j = choose|j: int| 0 <= j < keys@.len() && keys@[j] == k;
                    assert(keys@.contains(k));
                }
            }
            assert(edges@.dom() =~= key_set(self.nodes.adj()));
            assert(masks@.dom() =~= key_set(self.nodes.adj()));
            let want = packed_tables(solve(self.nodes.adj()));
            assert(word_rows(g.edges@) =~= want.edges);
            assert(word_rows(g.masks@) =~= want.masks);
        }
        g
    }

    /// Builds the graph and makes a builder of it again, in place. The
    /// builder of a graph starts from fresh rows, so the words and both
    /// tables are as they were.
    pub fn process(&mut self)
        requires
            old(self).wf(),
        ensures
            final(self).wf(),
            final(self).nodes.inner@ == old(self).nodes.inner@,
            final(self).tables() == old(self).tables(),
    {
        let nodes = PrimNodes { inner: self.nodes.inner.clone() };
        let edges = PrimEdges { inner: self.edges.inner.clone() };
        let edge_masks = PrimEdges { inner: self.edge_masks.inner.clone() };
        let this = PrimGraphBuilder { nodes, edges, edge_masks };
        proof {
            assert(this.nodes.inner@ =~= self.nodes.inner@);
            assert(this.tables().edges =~= self.tables().edges);
            assert(this.tables().masks =~= self.tables().masks);
        }
        *self = this.build().into_builder();
    }
}

/// A graph of at most 128 nodes whose shortest paths have been computed.
#[derive(Debug, Clone)]
pub struct PrimGraph {
    pub nodes: PrimNodes,
    /// For each edge, the destinations towards which it leads from its
    /// smaller endpoint.
    pub edges: HashMap<u64, u128>,
    /// For each edge, the destinations for which that was decided.
    pub masks: HashMap<u64, u128>,
}

impl PrimGraph {
    /// The words are those of a simple undirected graph of at most 128
    /// nodes, and there are two rows for each of its edges.
    pub open spec fn wf(&self) -> bool {
        &&& self.nodes.wf()
        &&& self.edges@.dom() == key_set(self.nodes.adj())
        &&& self.masks@.dom() == key_set(self.nodes.adj())
    }

    /// Both rows of every edge, as sets.
    pub open spec fn tables(&self) -> Tables {
        word_tables(self.edges@, self.masks@)
    }

    /// The rows are those that the computation gives for the graph.
    pub open spec fn solved(&self) -> bool {
        self.tables() == packed_tables(solve(self.nodes.adj()))
    }

    /// Converts this graph into a builder. The builder has the nodes and
    /// edges of the graph; what was computed for them is dropped.
    pub fn into_builder(self) -> (b: PrimGraphBuilder)
        requires
            self.wf(),
        ensures
            b.wf(),
            b.nodes.inner@ == self.nodes.inner@,
            b.tables() == fresh(self.nodes.adj()),
    {
        let ghost adj = self.nodes.adj();
        let n: usize = self.nodes.inner.len();
        let mut edges: HashMap<u64, u128> = HashMap::new();
        let mut masks: HashMap<u64, u128> = HashMap::new();
        let mut a: usize = 0;
        proof {
            lemma_word_adj(self.nodes.inner@);
        }
        while a < n
            invariant
                a <= n,
                n == self.nodes.inner@.len(),
                self.wf(),
                adj == self.nodes.adj(),
                forall|k: u64| edges@.contains_key(k) <==> masks@.contains_key(k),
                forall|k: u64| masks@.contains_key(k) ==> key_set(adj).contains(k),
                forall|k: u64| #[trigger]
                    edges@.contains_key(k) ==> word_set(edges@[k]) == set![key_hi(k)],
                forall|k: u64| #[trigger]
                    masks@.contains_key(k) ==> word_set(masks@[k]) == set![key_lo(k), key_hi(k)],
                forall|x: nat, y: nat|
                    x < a && word_bit(self.nodes.inner@[x as int], y) ==> masks@.contains_key(
                        #[trigger] edge_key(x, y),
                    ),
            decreases n - a,
        {
            let w: u128 = self.nodes.inner[a];
            let mut j: usize = 0;
            while j < 128
                invariant
                    j <= 128,
                    a < n,
                    n == self.nodes.inner@.len(),
                    w == self.nodes.inner@[a as int],
                    self.wf(),
                    adj == self.nodes.adj(),
                    forall|k: u64| edges@.contains_key(k) <==> masks@.contains_key(k),
                    forall|k: u64| masks@.contains_key(k) ==> key_set(adj).contains(k),
                    forall|k: u64| #[trigger]
                        edges@.contains_key(k) ==> word_set(edges@[k]) == set![key_hi(k)],
                    forall|k: u64| #[trigger]
                        masks@.contains_key(k) ==> word_set(masks@[k]) == set![
                            key_lo(k),
                            key_hi(k),
                        ],
                    forall|x: nat, y: nat|
                        (x < a || (x == a && y < j)) && word_bit(self.nodes.inner@[x as int], y)
                            ==> masks@.contains_key(#[trigger] edge_key(x, y)),
                decreases 128 - j,
            {
                if word_test(w, j) {
                    proof {
                        assert(word_set(w).contains(j as nat) == word_bit(w, j as nat));
                        lemma_word_adj(self.nodes.inner@);
                        assert(is_edge(adj, a as nat, j as nat));
                        assert(key_set(adj).contains(edge_key(a as nat, j as nat)));
                        lemma_key_ends(a as nat, j as nat);
                    }
                    let k: u64 = edge_key_of(a, j);
                    let hi: usize = if a > j {
                        a
                    } else {
                        j
                    };
                    let lo: usize = if a > j {
                        j
                    } else {
                        a
                    };
                    let ghost edges0 = edges@;
                    let ghost masks0 = masks@;
                    let e: u128 = word_one(hi);
                    let m: u128 = word_or(word_one(hi), word_one(lo));
                    proof {
                        assert(word_set(m) =~= set![key_lo(k), key_hi(k)]);
                    }
                    edges.insert(k, e);
                    masks.insert(k, m);
                    proof {
                        assert forall|x: u64| #[trigger] edges@.contains_key(x) implies word_set(
                            edges@[x],
                        ) == set![key_hi(x)] by {
                            if x != k {
                                assert(edges0.contains_key(x));
                            }
                        }
                        assert forall|x: u64| #[trigger] masks@.contains_key(x) implies word_set(
                            masks@[x],
                        ) == set![key_lo(x), key_hi(x)] by {
                            if x != k {
                                assert(masks0.contains_key(x));
                            }
                        }
                    }
                }
                j += 1;
            }
            a += 1;
        }
        let b = PrimGraphBuilder {
            nodes: self.nodes,
            edges: PrimEdges { inner: edges },
            edge_masks: PrimEdges { inner: masks },
        };
        proof {
            assert forall|k: u64| masks@.contains_key(k) <==> key_set(adj).contains(k) by {
                if key_set(adj).contains(k) {
                    let (x, y) = choose|x: nat, y: nat| is_edge(adj, x, y) && k == edge_key(x, y);
                    assert(word_bit(b.nodes.inner@[x as int], y));
                    assert(masks@.contains_key(edge_key(x, y)));
                }
            }
            let t = b.tables();
            assert(t.edges.dom() =~= fresh(adj).edges.dom());
            assert(t.masks.dom() =~= fresh(adj).masks.dom());
            assert(t.edges =~= fresh(adj).edges);
            assert(t.masks =~= fresh(adj).masks);
        }
        b
    }
}

/// The neighbors from `from` on whose edge leads towards `dest`, in
/// ascending order.
pub open spec fn prim_towards(
    w: u128,
    t: Tables,
    curr: nat,
    dest: nat,
    from: nat,
) -> Seq<u8>
    decreases 128 - from,
{
    if from >= 128 {
        Seq::empty()
    } else if word_bit(w, from) && leads(t, curr, from, dest) {
        seq![from as u8] + prim_towards(w, t, curr, dest, from + 1)
    } else {
        prim_towards(w, t, curr, dest, from + 1)
    }
}

/// Each of the neighbors that lead towards `dest` is a neighbor.
pub proof fn lemma_prim_towards(
    w: u128,
    t: Tables,
    curr: nat,
    dest: nat,
    from: nat,
)
    ensures
        forall|j: int|
            0 <= j < prim_towards(w, t, curr, dest, from).len() ==> word_bit(
                w,
                (#[trigger] prim_towards(w, t, curr, dest, from)[j]) as nat,
            ),
    decreases 128 - from,
{
    if from < 128 {
        lemma_prim_towards(w, t, curr, dest, from + 1);
        let rest = prim_towards(w, t, curr, dest, from + 1);
        let all = prim_towards(w, t, curr, dest, from);
        assert forall|j: int| 0 <= j < all.len() implies word_bit(w, (#[trigger] all[j]) as nat) by {
            if word_bit(w, from) && leads(t, curr, from, dest) {
                if j > 0 {
                    assert(all[j] == rest[j - 1]);
                }
            }
        }
    }
}

/// Iterator that iterates neighboring nodes which are the shortest paths to the destination node.
pub struct PrimNextNodes<'a> {
    graph: &'a PrimGraph,
    curr: u8,
    dest: u8,
    pos: usize,
}

impl<'a> PrimNextNodes<'a> {
    /// The graph is well formed, the walk stands at one of its nodes, and
    /// the destination is below 128.
    pub closed spec fn wf(&self) -> bool {
        &&& self.graph.wf()
        &&& self.curr < self.graph.nodes.inner@.len()
        &&& self.dest < 128
    }

    /// The nodes that are still to come.
    pub closed spec fn remaining(&self) -> Seq<u8> {
        if self.curr == self.dest {
            Seq::empty()
        } else {
            prim_towards(
                self.graph.nodes.inner@[self.curr as int],
                self.graph.tables(),
                self.curr as nat,
                self.dest as nat,
                self.pos as nat,
            )
        }
    }

    /// The next neighbor that leads towards the destination.
    pub fn next(&mut self) -> (r: Option<u8>)
        requires
            old(self).wf(),
        ensures
            final(self).wf(),
            r == first_of(old(self).remaining()),
            final(self).remaining() == if r.is_some() {
                old(self).remaining().drop_first()
            } else {
                old(self).remaining()
            },
    {
        if self.curr == self.dest {
            return None;
        }
        let w: u128 = self.graph.nodes.inner[self.curr as usize];
        let ghost e = self.graph.tables();
        proof {
            lemma_word_adj(self.graph.nodes.inner@);
        }
        while self.pos < 128
            invariant
                self.wf(),
                self.graph == old(self).graph,
                self.curr == old(self).curr,
                self.dest == old(self).dest,
                self.curr != self.dest,
                e == self.graph.tables(),
                w == self.graph.nodes.inner@[self.curr as int],
                self.remaining() == old(self).remaining(),
            decreases 128 - self.pos,
        {
            let p: usize = self.pos;
            self.pos += 1;
            proof {
                assert(word_set(w).contains(p as nat) == word_bit(w, p as nat));
            }
            if word_test(w, p) {
                proof {
                    lemma_word_adj(self.graph.nodes.inner@);
                    assert(is_edge(self.graph.nodes.adj(), self.curr as nat, p as nat));
                    assert(key_set(self.graph.nodes.adj()).contains(
                        edge_key(self.curr as nat, p as nat),
                    ));
                }
                let k: u64 = edge_key_of(self.curr as usize, p);
                let row: u128 = *self.graph.edges.get(&k).unwrap();
                let mask: u128 = *self.graph.masks.get(&k).unwrap();
                let bit: bool = word_test(mask, self.dest as usize) && word_test(
                    row,
                    self.dest as usize,
                ) != ((self.curr as usize) > p);
                if bit {
                    proof {
                        let rest = prim_towards(
                            w,
                            e,
                            self.curr as nat,
                            self.dest as nat,
                            self.pos as nat,
                        );
                        assert((seq![p as u8] + rest).drop_first() =~= rest);
                    }
                    return Some(p as u8);
                }
            }
        }
        None
    }
}

/// Iterator that returns a path from the current node to the destination node.
///
/// Current node is not included in the path.
pub struct PrimPath<'a> {
    map: &'a PrimGraph,
    curr: u8,
    dest: u8,
    done: bool,
}

impl<'a> PrimPath<'a> {
    /// The graph that is walked.
    pub closed spec fn graph(&self) -> PrimGraph {
        *self.map
    }

    /// The node at which the walk stands.
    pub closed spec fn curr(&self) -> u8 {
        self.curr
    }

    /// The node to which the walk leads.
    pub closed spec fn dest(&self) -> u8 {
        self.dest
    }

    /// The walk has come to a node from which no neighbor leads on.
    pub closed spec fn done(&self) -> bool {
        self.done
    }

    /// The graph is well formed, the walk stands at one of its nodes, and
    /// the destination is below 128.
    pub closed spec fn wf(&self) -> bool {
        &&& self.map.wf()
        &&& self.curr < self.map.nodes.inner@.len()
        &&& self.dest < 128
    }

    /// One step towards the destination: the first neighbor of the current
    /// node that leads there, to which the walk moves. `None`, and no move,
    /// at the destination and where no neighbor leads on; from there on the
    /// walk is done.
    pub fn next(&mut self) -> (r: Option<u8>)
        requires
            old(self).wf(),
        ensures
            final(self).wf(),
            final(self).graph() == old(self).graph(),
            final(self).dest() == old(self).dest(),
            r == if old(self).done() {
                None
            } else {
                first_of(old(self).graph().spec_next_nodes(old(self).curr(), old(self).dest()))
            },
            final(self).curr() == match r {
                Some(v) => v,
                None => old(self).curr(),
            },
            final(self).done() == (old(self).done() || (r.is_none() && old(self).curr() != old(
                self,
            ).dest())),
    {
        if self.done || self.curr == self.dest {
            return None;
        }
        match self.map.next_node(self.curr, self.dest) {
            Some(next) => {
                proof {
                    lemma_prim_towards(
                        self.map.nodes.inner@[self.curr as int],
                        self.map.tables(),
                        self.curr as nat,
                        self.dest as nat,
                        0,
                    );
                    let s = self.map.spec_next_nodes(self.curr, self.dest);
                    assert(word_bit(self.map.nodes.inner@[self.curr as int], s[0] as nat));
                }
                self.curr = next;
                Some(next)
            },
            None => {
                self.done = true;
                None
            },
        }
    }
}

impl PrimGraph {
    /// The neighbors of `curr` that lead towards `dest`, in ascending order;
    /// none where `curr` is `dest`.
    pub open spec fn spec_next_nodes(&self, curr: u8, dest: u8) -> Seq<u8> {
        if curr == dest {
            Seq::empty()
        } else {
            prim_towards(
                self.nodes.inner@[curr as int],
                self.tables(),
                curr as nat,
                dest as nat,
                0,
            )
        }
    }

    /// A builder for a graph of `nodes_len` nodes.
    pub fn builder(nodes_len: usize) -> (r: PrimGraphBuilder)
        requires
            nodes_len <= 128,
        ensures
            r.wf(),
            r.nodes.inner@ == Seq::new(nodes_len as nat, |a: int| 0u128),
            r.tables() == (Tables { edges: Map::empty(), masks: Map::empty() }),
    {
        PrimGraphBuilder::new(nodes_len)
    }

    /// Given a current node and a destination node,
    /// return the first neighboring node that is the shortest path to the destination node.
    ///
    /// `None` is returned when:
    /// - `curr` and `dest` are the same node
    /// - `curr` has no path to `dest`
    ///
    /// In case there are multiple neighboring nodes that lead to the
    /// destination node, the one with the smallest id is returned.
    pub fn next_node(&self, curr: u8, dest: u8) -> (r: Option<u8>)
        requires
            self.wf(),
            curr < self.nodes.inner@.len(),
            dest < 128,
        ensures
            r == first_of(self.spec_next_nodes(curr, dest)),
    {
        let mut it = self.next_nodes(curr, dest);
        it.next()
    }

    /// Given a current node and a destination node, and a filter function,
    /// return the neighboring node of current that is the shortest path to the destination node.
    ///
    /// `None` is returned when:
    /// - `curr` and `dest` are the same node
    /// - `curr` has no path to `dest`
    /// - The filter function returns `false` for all neighboring nodes
    pub fn next_node_with<F: Fn(u8) -> bool>(&self, curr: u8, dest: u8, f: F) -> (r: Option<u8>)
        requires
            self.wf(),
            curr < self.nodes.inner@.len(),
            dest < 128,
            forall|x: u8| call_requires(f, (x,)),
        ensures
            accepted_first(self.spec_next_nodes(curr, dest), f, r),
    {
        let ghost s = self.spec_next_nodes(curr, dest);
        let mut it = self.next_nodes(curr, dest);
        let ghost mut seen: int = 0;
        loop
            invariant
                it.wf(),
                s == self.spec_next_nodes(curr, dest),
                0 <= seen <= s.len(),
                it.remaining() == s.subrange(seen, s.len() as int),
                forall|i: int| 0 <= i < seen ==> call_ensures(f, (#[trigger] s[i],), false),
                forall|x: u8| call_requires(f, (x,)),
            decreases s.len() - seen,
        {
            match it.next() {
                None => {
                    assert(s.subrange(seen, s.len() as int).len() == 0);
                    return None;
                },
                Some(v) => {
                    assert(s.subrange(seen, s.len() as int)[0] == s[seen]);
                    if f(v) {
                        assert(s[seen] == v && call_ensures(f, (v,), true));
                        return Some(v);
                    }
                    proof {
                        assert(s.subrange(seen, s.len() as int).drop_first() =~= s.subrange(
                            seen + 1,
                            s.len() as int,
                        ));
                        seen = seen + 1;
                    }
                },
            }
        }
    }

    /// Given a current node and a destination node,
    /// return all neighboring nodes of current that are shortest paths to the destination node.
    ///
    /// The nodes come in ascending order.
    pub fn next_nodes(&self, curr: u8, dest: u8) -> (it: PrimNextNodes<'_>)
        requires
            self.wf(),
            curr < self.nodes.inner@.len(),
            dest < 128,
        ensures
            it.wf(),
            it.remaining() == self.spec_next_nodes(curr, dest),
    {
        PrimNextNodes { graph: self, curr, dest, pos: 0 }
    }

    /// Given a current node and a destination node,
    /// return a path from the current node to the destination node.
    ///
    /// The path is a list of node IDs, starting with the next node (not current node!) and ending at the destination node.
    pub fn path_to(&self, curr: u8, dest: u8) -> (it: PrimPath<'_>)
        requires
            self.wf(),
            curr < self.nodes.inner@.len(),
            dest < 128,
        ensures
            it.wf(),
            it.graph() == *self,
            it.curr() == curr,
            it.dest() == dest,
            !it.done(),
    {
        PrimPath { map: self, curr, dest, done: false }
    }

    /// Return all neighboring nodes of the given node, in ascending order.
    pub fn neighbors(&self, node: u8) -> (it: NodeBitsIter)
        requires
            node < self.nodes.inner@.len(),
        ensures
            it.node_bits == self.nodes.inner@[node as int],
            it.pos == 0,
    {
        self.nodes.neighbors(node)
    }

    /// Return the number of nodes in this graph.
    pub fn nodes_len(&self) -> (r: usize)
        ensures
            r == self.nodes.inner@.len(),
    {
        self.nodes.len()
    }

    /// Return the number of edges in this graph.
    pub fn edges_len(&self) -> (r: usize)
        ensures
            r == self.edges@.dom().len(),
    {
        self.edges.len()
    }
}

} // verus!
