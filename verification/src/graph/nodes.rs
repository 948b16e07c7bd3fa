use crate::graph::model::{adj_wf, edge_key, is_edge, key_set};
use crate::graph::U16orU32;
use vstd::prelude::*;

verus! {

/// The numbers of a list of node ids.
pub open spec fn ids<NodeId: U16orU32>(s: Seq<NodeId>) -> Seq<nat> {
    Seq::new(s.len(), |i: int| s[i].index())
}

/// `s` with `x` at its end, unless `s` holds `x` already.
pub open spec fn push_new(s: Seq<nat>, x: nat) -> Seq<nat> {
    if s.contains(x) {
        s
    } else {
        s.push(x)
    }
}

/// `s` without `x`: the last element takes its place.
pub open spec fn swap_out(s: Seq<nat>, x: nat) -> Seq<nat> {
    if s.contains(x) {
        s.update(s.index_of(x), s.last()).drop_last()
    } else {
        s
    }
}

/// The neighbor lists after an edge between `a` and `b` is added.
/// An edge from a node to itself is not added.
pub open spec fn adj_connect(adj: Seq<Seq<nat>>, a: nat, b: nat) -> Seq<Seq<nat>> {
    if a == b {
        adj
    } else {
        adj.update(a as int, push_new(adj[a as int], b)).update(
            b as int,
            push_new(adj[b as int], a),
        )
    }
}

/// The neighbor lists after the edge between `a` and `b` is removed.
pub open spec fn adj_disconnect(adj: Seq<Seq<nat>>, a: nat, b: nat) -> Seq<Seq<nat>> {
    if a == b {
        adj
    } else {
        adj.update(a as int, swap_out(adj[a as int], b)).update(
            b as int,
            swap_out(adj[b as int], a),
        )
    }
}

/// Two pairs of node ids with the same key are the same edge.
pub proof fn lemma_edge_key_injective(a: nat, b: nat, c: nat, d: nat)
    requires
        a <= 0xffff_ffff,
        b <= 0xffff_ffff,
        c <= 0xffff_ffff,
        d <= 0xffff_ffff,
        edge_key(a, b) == edge_key(c, d),
    ensures
        (a == c && b == d) || (a == d && b == c),
{
}

/// Where one edge is added to a graph, its key is added to the keys.
pub proof fn lemma_key_set_insert(adj: Seq<Seq<nat>>, adj2: Seq<Seq<nat>>, a: nat, b: nat)
    requires
        forall|x: nat, y: nat|
            is_edge(adj2, x, y) <==> (is_edge(adj, x, y) || (x == a && y == b) || (x == b && y
                == a)),
    ensures
        key_set(adj2) == key_set(adj).insert(edge_key(a, b)),
{
    assert forall|k: u64| key_set(adj2).contains(k) <==> key_set(adj).insert(
        edge_key(a, b),
    ).contains(k) by {
        if key_set(adj2).contains(k) {
            let (x, y) = choose|x: nat, y: nat| is_edge(adj2, x, y) && k == edge_key(x, y);
            if is_edge(adj, x, y) {
                assert(key_set(adj).contains(k));
            }
        }
        if key_set(adj).contains(k) {
            let (x, y) = choose|x: nat, y: nat| is_edge(adj, x, y) && k == edge_key(x, y);
            assert(is_edge(adj2, x, y));
        }
        if k == edge_key(a, b) {
            assert(is_edge(adj2, a, b));
        }
    }
    assert(key_set(adj2) =~= key_set(adj).insert(edge_key(a, b)));
}

/// Where one edge is removed from a graph, its key is removed from the keys.
pub proof fn lemma_key_set_remove(adj: Seq<Seq<nat>>, adj2: Seq<Seq<nat>>, a: nat, b: nat)
    requires
        adj_wf(adj),
        a < adj.len(),
        b < adj.len(),
        forall|x: nat, y: nat|
            is_edge(adj2, x, y) <==> (is_edge(adj, x, y) && !((x == a && y == b) || (x == b && y
                == a))),
    ensures
        key_set(adj2) == key_set(adj).remove(edge_key(a, b)),
{
    assert forall|k: u64| key_set(adj2).contains(k) <==> key_set(adj).remove(
        edge_key(a, b),
    ).contains(k) by {
        if key_set(adj2).contains(k) {
            let (x, y) = choose|x: nat, y: nat| is_edge(adj2, x, y) && k == edge_key(x, y);
            assert(is_edge(adj, x, y));
            lemma_is_edge_bound(adj, x, y);
            if k == edge_key(a, b) {
                lemma_edge_key_injective(x, y, a, b);
            }
            assert(key_set(adj).contains(k));
        }
        if key_set(adj).contains(k) && k != edge_key(a, b) {
            let (x, y) = choose|x: nat, y: nat| is_edge(adj, x, y) && k == edge_key(x, y);
            assert(is_edge(adj2, x, y));
        }
    }
    assert(key_set(adj2) =~= key_set(adj).remove(edge_key(a, b)));
}

/// Adding an edge keeps the neighbor lists well formed and adds its key.
pub proof fn lemma_adj_connect(adj: Seq<Seq<nat>>, a: nat, b: nat)
    requires
        adj_wf(adj),
        a < adj.len(),
        b < adj.len(),
    ensures
        adj_wf(adj_connect(adj, a, b)),
        adj_connect(adj, a, b).len() == adj.len(),
        a != b ==> key_set(adj_connect(adj, a, b)) == key_set(adj).insert(edge_key(a, b)),
        forall|x: nat, y: nat|
            is_edge(adj_connect(adj, a, b), x, y) <==> (is_edge(adj, x, y) || (a != b && ((x == a
                && y == b) || (x == b && y == a)))),
{
    let r = adj_connect(adj, a, b);
    if a != b {
        let la = push_new(adj[a as int], b);
        let lb = push_new(adj[b as int], a);
        assert(r[a as int] == la);
        assert(r[b as int] == lb);
        assert forall|x: nat, y: nat|
            is_edge(r, x, y) <==> (is_edge(adj, x, y) || (x == a && y == b) || (x == b && y
                == a)) by {
            if x < adj.len() {
                if x == a {
                    lemma_push_new(adj[a as int], b);
                } else if x == b {
                    lemma_push_new(adj[b as int], a);
                } else {
                    assert(r[x as int] == adj[x as int]);
                }
            }
        }
        assert forall|x: int, i: int| 0 <= x < r.len() && 0 <= i < r[x].len() implies #[trigger] r[x][i]
            < r.len() && r[x][i] != x by {
            lemma_push_new(adj[a as int], b);
            lemma_push_new(adj[b as int], a);
            if x == a {
                if i < adj[a as int].len() {
                    assert(r[x][i] == adj[x][i]);
                }
            } else if x == b {
                if i < adj[b as int].len() {
                    assert(r[x][i] == adj[x][i]);
                }
            } else {
                assert(r[x] == adj[x]);
            }
        }
        assert forall|x: int, i: int, j: int|
            0 <= x < r.len() && 0 <= i < r[x].len() && 0 <= j < r[x].len() && i != j implies #[trigger] r[x][i]
            != #[trigger] r[x][j] by {
            lemma_push_new(adj[a as int], b);
            lemma_push_new(adj[b as int], a);
            if x != a && x != b {
                assert(r[x] == adj[x]);
            }
        }
        assert forall|k: u64| key_set(r).contains(k) <==> key_set(adj).insert(
            edge_key(a, b),
        ).contains(k) by {
            if key_set(r).contains(k) {
                let (x, y) = choose|x: nat, y: nat| is_edge(r, x, y) && k == edge_key(x, y);
                if is_edge(adj, x, y) {
                    assert(key_set(adj).contains(k));
                }
            }
            if key_set(adj).contains(k) {
                let (x, y) = choose|x: nat, y: nat| is_edge(adj, x, y) && k == edge_key(x, y);
                assert(is_edge(r, x, y));
            }
            if k == edge_key(a, b) {
                assert(is_edge(r, a, b));
            }
        }
        assert(key_set(r) =~= key_set(adj).insert(edge_key(a, b)));
    }
}

/// What `push_new` holds.
pub proof fn lemma_push_new(s: Seq<nat>, x: nat)
    ensures
        forall|y: nat| push_new(s, x).contains(y) <==> (s.contains(y) || y == x),
        push_new(s, x).len() >= s.len(),
        forall|i: int| 0 <= i < s.len() ==> push_new(s, x)[i] == s[i],
        !s.contains(x) ==> push_new(s, x).len() == s.len() + 1 && push_new(s, x)[s.len() as int]
            == x,
        s.contains(x) ==> push_new(s, x) == s,
{
    let r = push_new(s, x);
    assert forall|y: nat| r.contains(y) <==> (s.contains(y) || y == x) by {
        if s.contains(x) {
        } else {
            if r.contains(y) {
                let i = choose|i: int| 0 <= i < r.len() && r[i] == y;
                if i < s.len() {
                    assert(s[i] == y);
                }
            }
            if s.contains(y) {
                let i = choose|i: int| 0 <= i < s.len() && s[i] == y;
                assert(r[i] == y);
            }
            if y == x {
                assert(r[s.len() as int] == x);
            }
        }
    }
}

/// What `swap_out` holds, for a list without repetitions.
pub proof fn lemma_swap_out(s: Seq<nat>, x: nat)
    requires
        forall|i: int, j: int| 0 <= i < s.len() && 0 <= j < s.len() && i != j ==> s[i] != s[j],
    ensures
        forall|y: nat| swap_out(s, x).contains(y) <==> (s.contains(y) && y != x),
        forall|i: int, j: int|
            0 <= i < swap_out(s, x).len() && 0 <= j < swap_out(s, x).len() && i != j ==> swap_out(
                s,
                x,
            )[i] != swap_out(s, x)[j],
        forall|i: int| 0 <= i < swap_out(s, x).len() ==> s.contains(#[trigger] swap_out(s, x)[i]),
{
    let r = swap_out(s, x);
    if s.contains(x) {
        let p = s.index_of(x);
        assert(0 <= p < s.len() && s[p] == x);
        let n = s.len() - 1;
        assert forall|i: int| 0 <= i < r.len() implies s.contains(#[trigger] r[i]) && r[i] != x
            && (r[i] == s[i] || (i == p && r[i] == s[n])) by {
            if i == p {
                assert(r[i] == s[n]);
            } else {
                assert(r[i] == s[i]);
            }
        }
        assert forall|y: nat| r.contains(y) <==> (s.contains(y) && y != x) by {
            if r.contains(y) {
                let i = choose|i: int| 0 <= i < r.len() && r[i] == y;
                assert(s.contains(r[i]));
            }
            if s.contains(y) && y != x {
                let i = choose|i: int| 0 <= i < s.len() && s[i] == y;
                if i == n {
                    assert(r[p] == y);
                } else {
                    assert(r[i] == y);
                }
            }
        }
    }
}

/// Removing an edge keeps the neighbor lists well formed and removes its key.
pub proof fn lemma_adj_disconnect(adj: Seq<Seq<nat>>, a: nat, b: nat)
    requires
        adj_wf(adj),
        a < adj.len(),
        b < adj.len(),
    ensures
        adj_wf(adj_disconnect(adj, a, b)),
        adj_disconnect(adj, a, b).len() == adj.len(),
        a != b ==> key_set(adj_disconnect(adj, a, b)) == key_set(adj).remove(edge_key(a, b)),
        forall|x: nat, y: nat|
            is_edge(adj_disconnect(adj, a, b), x, y) <==> (is_edge(adj, x, y) && !(a != b && ((x
                == a && y == b) || (x == b && y == a)))),
{
    let r = adj_disconnect(adj, a, b);
    if a != b {
        lemma_swap_out(adj[a as int], b);
        lemma_swap_out(adj[b as int], a);
        assert(r[a as int] == swap_out(adj[a as int], b));
        assert(r[b as int] == swap_out(adj[b as int], a));
        assert forall|x: nat, y: nat|
            is_edge(r, x, y) <==> (is_edge(adj, x, y) && !((x == a && y == b) || (x == b && y
                == a))) by {
            if x < adj.len() && x != a && x != b {
                assert(r[x as int] == adj[x as int]);
            }
        }
        assert forall|x: int, i: int| 0 <= x < r.len() && 0 <= i < r[x].len() implies #[trigger] r[x][i]
            < r.len() && r[x][i] != x by {
            if x != a && x != b {
                assert(r[x] == adj[x]);
            } else {
                assert(adj[x].contains(r[x][i]));
                let j = choose|j: int| 0 <= j < adj[x].len() && adj[x][j] == r[x][i];
                assert(adj[x][j] < adj.len());
            }
        }
        assert forall|x: int, i: int, j: int|
            0 <= x < r.len() && 0 <= i < r[x].len() && 0 <= j < r[x].len() && i != j implies #[trigger] r[x][i]
            != #[trigger] r[x][j] by {
            if x != a && x != b {
                assert(r[x] == adj[x]);
            }
        }
        assert forall|k: u64| key_set(r).contains(k) <==> key_set(adj).remove(
            edge_key(a, b),
        ).contains(k) by {
            if key_set(r).contains(k) {
                let (x, y) = choose|x: nat, y: nat| is_edge(r, x, y) && k == edge_key(x, y);
                assert(is_edge(adj, x, y));
                lemma_is_edge_bound(adj, x, y);
                if k == edge_key(a, b) {
                    lemma_edge_key_injective(x, y, a, b);
                }
                assert(key_set(adj).contains(k));
            }
            if key_set(adj).contains(k) && k != edge_key(a, b) {
                let (x, y) = choose|x: nat, y: nat| is_edge(adj, x, y) && k == edge_key(x, y);
                assert(is_edge(r, x, y));
            }
        }
        assert(key_set(r) =~= key_set(adj).remove(edge_key(a, b)));
    }
}

/// Both ends of an edge are nodes, and they differ.
pub proof fn lemma_is_edge_bound(adj: Seq<Seq<nat>>, a: nat, b: nat)
    requires
        adj_wf(adj),
        is_edge(adj, a, b),
    ensures
        a < adj.len(),
        b < adj.len(),
        a != b,
        adj.len() <= 0xffff_ffff,
{
    let i = choose|i: int| 0 <= i < adj[a as int].len() && adj[a as int][i] == b;
    assert(adj[a as int][i] < adj.len());
}

/// Map of nodes and their neighbors.
///
/// index: node_id
///
/// value: neighbors of node
#[derive(Debug, Clone)]
pub struct Nodes<NodeId: U16orU32> {
    pub inner: Vec<Vec<NodeId>>,
}

/// The index of `x` in `list`, if it is there.
pub fn position<NodeId: U16orU32>(list: &Vec<NodeId>, x: NodeId) -> (r: Option<usize>)
    ensures
        match r {
            Some(p) => p < list@.len() && list@[p as int] == x && forall|i: int|
                0 <= i < p ==> list@[i] != x,
            None => forall|i: int| 0 <= i < list@.len() ==> list@[i] != x,
        },
        r.is_some() == ids(list@).contains(x.index()),
{
    let n: usize = list.len();
    let t: usize = x.as_usize();
    let mut i: usize = 0;
    while i < n
        invariant
            i <= n,
            n == list@.len(),
            t == x.index(),
            forall|k: int| 0 <= k < i ==> list@[k] != x,
        decreases n - i,
    {
        if list[i].as_usize() == t {
            proof {
                NodeId::lemma_index(list@[i as int], x);
                assert(ids(list@)[i as int] == x.index());
            }
            return Some(i);
        }
        i += 1;
    }
    proof {
        if ids(list@).contains(x.index()) {
            let k = choose|k: int| 0 <= k < ids(list@).len() && ids(list@)[k] == x.index();
            NodeId::lemma_index(list@[k], x);
        }
    }
    None
}

impl<NodeId: U16orU32> Nodes<NodeId> {
    /// The neighbor lists as numbers.
    pub open spec fn adj(&self) -> Seq<Seq<nat>> {
        Seq::new(self.inner@.len(), |a: int| ids(self.inner@[a]@))
    }

    /// The neighbor lists are those of a simple undirected graph with no
    /// more nodes than there are node ids.
    pub open spec fn wf(&self) -> bool {
        adj_wf(self.adj()) && self.inner@.len() <= NodeId::max_nodes()
    }

    /// `nodes_len` nodes without edges.
    pub fn new(nodes_len: usize) -> (r: Self)
        requires
            nodes_len <= NodeId::max_nodes(),
        ensures
            r.wf(),
            r.adj() == Seq::new(nodes_len as nat, |a: int| Seq::<nat>::empty()),
    {
        let mut inner: Vec<Vec<NodeId>> = Vec::with_capacity(nodes_len);
        let mut i: usize = 0;
        while i < nodes_len
            invariant
                i <= nodes_len,
                inner@.len() == i,
                forall|k: int| 0 <= k < i ==> inner@[k]@.len() == 0,
            decreases nodes_len - i,
        {
            inner.push(Vec::new());
            i += 1;
        }
        let r = Nodes { inner };
        proof {
            NodeId::lemma_limits();
            assert forall|a: int| 0 <= a < nodes_len implies #[trigger] r.adj()[a]
                == Seq::<nat>::empty() by {
                assert(r.adj()[a] =~= Seq::<nat>::empty());
            }
            assert(r.adj() =~= Seq::new(nodes_len as nat, |a: int| Seq::<nat>::empty()));
            assert forall|a: nat, b: nat| !is_edge(r.adj(), a, b) by {
                if a < nodes_len {
                    assert(r.adj()[a as int].len() == 0);
                }
            }
        }
        r
    }

    /// Get the neighboring nodes
    pub fn neighbors(&self, node: NodeId) -> (r: &[NodeId])
        requires
            node.index() < self.inner@.len(),
        ensures
            r@ == self.inner@[node.index() as int]@,
    {
        self.inner[node.as_usize()].as_slice()
    }

    /// Add a edge between node_a and node_b
    pub fn connect(&mut self, a: NodeId, b: NodeId)
        requires
            old(self).wf(),
            a.index() < old(self).inner@.len(),
            b.index() < old(self).inner@.len(),
        ensures
            final(self).wf(),
            final(self).adj() == adj_connect(old(self).adj(), a.index(), b.index()),
    {
        let ai: usize = a.as_usize();
        let bi: usize = b.as_usize();
        proof {
            lemma_adj_connect(self.adj(), a.index(), b.index());
        }
        if ai == bi {
            return ;
        }
        let ghost adj0 = self.adj();
        if position(&self.inner[ai], b).is_none() {
            self.inner[ai].push(b);
        }
        proof {
            assert(self.adj()[ai as int] =~= push_new(adj0[ai as int], b.index()));
            assert(self.adj() =~= adj0.update(ai as int, push_new(adj0[ai as int], b.index())));
        }
        let ghost adj1 = self.adj();
        if position(&self.inner[bi], a).is_none() {
            self.inner[bi].push(a);
        }
        proof {
            assert(self.adj()[bi as int] =~= push_new(adj1[bi as int], a.index()));
            assert(self.adj() =~= adj1.update(bi as int, push_new(adj0[bi as int], a.index())));
        }
    }

    /// Remove a edge between node_a and node_b
    pub fn disconnect(&mut self, a: NodeId, b: NodeId)
        requires
            old(self).wf(),
            a.index() < old(self).inner@.len(),
            b.index() < old(self).inner@.len(),
        ensures
            final(self).wf(),
            final(self).adj() == adj_disconnect(old(self).adj(), a.index(), b.index()),
    {
        let ai: usize = a.as_usize();
        let bi: usize = b.as_usize();
        proof {
            lemma_adj_disconnect(self.adj(), a.index(), b.index());
        }
        if ai == bi {
            return ;
        }
        let ghost adj0 = self.adj();
        if let Some(index) = position(&self.inner[ai], b) {
            proof {
                let s = adj0[ai as int];
                assert(s[index as int] == b.index());
                assert(s.contains(b.index()));
                assert(s.index_of(b.index()) == index);
            }
            self.inner[ai].swap_remove(index);
        }
        proof {
            assert(self.adj()[ai as int] =~= swap_out(adj0[ai as int], b.index()));
            assert(self.adj() =~= adj0.update(ai as int, swap_out(adj0[ai as int], b.index())));
        }
        let ghost adj1 = self.adj();
        if let Some(index) = position(&self.inner[bi], a) {
            proof {
                let s = adj0[bi as int];
                assert(s[index as int] == a.index());
                assert(s.contains(a.index()));
                assert(s.index_of(a.index()) == index);
            }
            self.inner[bi].swap_remove(index);
        }
        proof {
            assert(self.adj()[bi as int] =~= swap_out(adj1[bi as int], a.index()));
            assert(self.adj() =~= adj1.update(bi as int, swap_out(adj0[bi as int], a.index())));
        }
    }

    /// The number of nodes.
    pub fn len(&self) -> (r: usize)
        ensures
            r == self.inner@.len(),
            r == self.adj().len(),
    {
        self.inner.len()
    }
}

} // verus!
