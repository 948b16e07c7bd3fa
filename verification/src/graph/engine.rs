//! The parts of the computation that both engines share.

use crate::bitvec::bitvec::{max_digits, pack_without, seq_bit, seq_bits, spread};
use crate::bitvec::BitVec;
use crate::digit::{bit_mask, lemma_bit_or, lemma_bit_zero};
use crate::edge_id;
use crate::graph::model::{
    computed_row, contrib_bits, contrib_mask, edge_key, is_edge, lemma_upsert_subset, merge_row,
    merge_rows, next_frontier, next_visited, reach, upsert_row, Local, Tables,
    full,
};
use crate::graph::nodes::Nodes;
use crate::graph::nodes::ids;
use crate::graph::U16orU32;
use std::collections::HashMap;
use vstd::prelude::*;

verus! {

/// The rows of a table, each as the set of its one bits.
pub open spec fn rows(m: Map<u64, BitVec>) -> Map<u64, Set<nat>> {
    Map::new(|k: u64| m.contains_key(k), |k: u64| m[k]@)
}

/// Every row of the table is a well-formed bit vector.
pub open spec fn rows_wf(m: Map<u64, BitVec>) -> bool {
    forall|k: u64| m.contains_key(k) ==> (#[trigger] m[k]).wf()
}

/// The sets that a list of bit vectors stands for.
pub open spec fn views(s: Seq<BitVec>) -> Seq<Set<nat>> {
    Seq::new(s.len(), |i: int| s[i]@)
}

/// The sets that a list of borrowed bit vectors stands for.
pub open spec fn views_ref(s: Seq<&BitVec>) -> Seq<Set<nat>> {
    Seq::new(s.len(), |i: int| (*s[i])@)
}

/// Every bit vector of the list is well formed.
pub open spec fn all_wf(s: Seq<BitVec>) -> bool {
    forall|i: int| 0 <= i < s.len() ==> (#[trigger] s[i]).wf()
}

/// Every borrowed bit vector of the list is well formed.
pub open spec fn all_wf_ref(s: Seq<&BitVec>) -> bool {
    forall|i: int| 0 <= i < s.len() ==> (#[trigger] s[i]).wf()
}

/// The key of the edge between the nodes number `a` and `b`.
pub fn edge_key_of(a: usize, b: usize) -> (k: u64)
    requires
        a <= 0xffff_ffff,
        b <= 0xffff_ffff,
    ensures
        k == edge_key(a as nat, b as nat),
{
    let (lo, hi) = edge_id(a, b);
    (lo as u64) * 0x1_0000_0000 + (hi as u64)
}

/// `n` empty bit vectors.
pub fn zeros(n: usize) -> (r: Vec<BitVec>)
    ensures
        r@.len() == n,
        all_wf(r@),
        forall|i: int| 0 <= i < n ==> (#[trigger] r@[i])@ == Set::<nat>::empty(),
{
    let mut r: Vec<BitVec> = Vec::with_capacity(n);
    let mut i: usize = 0;
    while i < n
        invariant
            i <= n,
            r@.len() == i,
            all_wf(r@),
            forall|k: int| 0 <= k < i ==> (#[trigger] r@[k])@ == Set::<nat>::empty(),
        decreases n - i,
    {
        r.push(BitVec::zero());
        i += 1;
    }
    r
}

/// What each neighbor of `a` has to tell: its frontier without `a`.
pub open spec fn told(fronts: Seq<&BitVec>, a: nat) -> Seq<Set<nat>> {
    Seq::new(fronts.len(), |i: int| (*fronts[i])@.remove(a))
}

/// What one visit of node `a` decides, from what the node sees: for the edge
/// to each neighbor, the bits to set in its decision row and in its mask row.
pub fn gossip_kernel<NodeId: U16orU32>(
    a: usize,
    nbrs: &[NodeId],
    vals: &Vec<&BitVec>,
    masks: &Vec<&BitVec>,
    fronts: &Vec<&BitVec>,
    full_mask: &BitVec,
) -> (r: (Vec<BitVec>, Vec<BitVec>))
    requires
        vals@.len() == nbrs@.len(),
        masks@.len() == nbrs@.len(),
        fronts@.len() == nbrs@.len(),
        all_wf_ref(vals@),
        all_wf_ref(masks@),
        all_wf_ref(fronts@),
        full_mask.wf(),
        forall|i: int| 0 <= i < fronts@.len() ==> (#[trigger] fronts@[i])@.subset_of(full_mask@),
    ensures
        ({
            let l = Local {
                a: a as nat,
                nbrs: ids(nbrs@),
                vals: views_ref(vals@),
                masks: views_ref(masks@),
                fronts: told(fronts@, a as nat),
            };
            let d = nbrs@.len();
            &&& r.0@.len() == d
            &&& r.1@.len() == d
            &&& all_wf(r.0@)
            &&& all_wf(r.1@)
            &&& forall|j: int| 0 <= j < d ==> (#[trigger] r.0@[j])@ == upsert_row(l, j, d)
            &&& forall|j: int| 0 <= j < d ==> (#[trigger] r.1@[j])@ == computed_row(l, j, d)
            &&& forall|j: int| 0 <= j < d ==> (#[trigger] r.0@[j])@.subset_of(r.1@[j]@)
        }),
{
    let d: usize = nbrs.len();
    let ghost l = Local {
        a: a as nat,
        nbrs: ids(nbrs@),
        vals: views_ref(vals@),
        masks: views_ref(masks@),
        fronts: told(fronts@, a as nat),
    };
    // the digits of the longest frontier
    let mut digits: usize = 0;
    let mut j: usize = 0;
    while j < d
        invariant
            j <= d,
            d == fronts@.len(),
            all_wf_ref(fronts@),
            digits <= max_digits(),
            forall|k: int| 0 <= k < j ==> (#[trigger] fronts@[k]).0@.len() <= digits,
        decreases d - j,
    {
        if fronts[j].0.len() > digits {
            digits = fronts[j].0.len();
        }
        j += 1;
    }
    // the edges that have decided every destination take nothing more
    let mut closed: Vec<bool> = Vec::with_capacity(d);
    let mut ups: Vec<Vec<u64>> = Vec::with_capacity(d);
    let mut cps: Vec<Vec<u64>> = Vec::with_capacity(d);
    let mut j: usize = 0;
    while j < d
        invariant
            j <= d,
            d == nbrs@.len(),
            masks@.len() == d,
            all_wf_ref(masks@),
            full_mask.wf(),
            closed@.len() == j,
            ups@.len() == j,
            cps@.len() == j,
            forall|k: int| 0 <= k < j ==> closed@[k] == ((*masks@[k])@ == full_mask@),
            forall|k: int|
                0 <= k < j ==> (#[trigger] ups@[k])@.len() == digits && seq_bits(ups@[k]@)
                    == Set::<nat>::empty(),
            forall|k: int|
                0 <= k < j ==> (#[trigger] cps@[k])@.len() == digits && seq_bits(cps@[k]@)
                    == Set::<nat>::empty(),
        decreases d - j,
    {
        closed.push(masks[j].eq(full_mask));
        let mut u: Vec<u64> = Vec::with_capacity(digits);
        u.resize(digits, 0);
        let mut c: Vec<u64> = Vec::with_capacity(digits);
        c.resize(digits, 0);
        proof {
            assert forall|x: nat| !seq_bit(u@, x) && !seq_bit(c@, x) by {
                lemma_bit_zero(x % 64);
            }
            assert(seq_bits(u@) =~= Set::<nat>::empty());
            assert(seq_bits(c@) =~= Set::<nat>::empty());
        }
        ups.push(u);
        cps.push(c);
        j += 1;
    }
    let mut i: usize = 0;
    while i < d
        invariant
            i <= d,
            d == nbrs@.len(),
            vals@.len() == d,
            masks@.len() == d,
            fronts@.len() == d,
            all_wf_ref(vals@),
            all_wf_ref(masks@),
            all_wf_ref(fronts@),
            full_mask.wf(),
            digits <= max_digits(),
            forall|k: int| 0 <= k < d ==> (#[trigger] fronts@[k]).0@.len() <= digits,
            forall|k: int| 0 <= k < fronts@.len() ==> (#[trigger] fronts@[k])@.subset_of(full_mask@),
            l == (Local {
                a: a as nat,
                nbrs: ids(nbrs@),
                vals: views_ref(vals@),
                masks: views_ref(masks@),
                fronts: told(fronts@, a as nat),
            }),
            closed@.len() == d,
            forall|k: int| 0 <= k < d ==> closed@[k] == ((*masks@[k])@ == full_mask@),
            ups@.len() == d,
            cps@.len() == d,
            forall|k: int|
                0 <= k < d ==> (#[trigger] ups@[k])@.len() == digits && seq_bits(ups@[k]@).remove(
                    a as nat,
                ) == upsert_row(l, k, i as nat),
            forall|k: int|
                0 <= k < d ==> (#[trigger] cps@[k])@.len() == digits && seq_bits(cps@[k]@).remove(
                    a as nat,
                ) == computed_row(l, k, i as nat),
        decreases d - i,
    {
        let front: &BitVec = fronts[i];
        // if this neighbor has nothing to gossip at this depth, skip
        if front.is_zero_without(a) {
            proof {
                assert(l.fronts[i as int] == Set::<nat>::empty());
                assert forall|k: int| 0 <= k < d implies upsert_row(l, k, (i + 1) as nat)
                    == upsert_row(l, k, i as nat) && computed_row(l, k, (i + 1) as nat)
                    == computed_row(l, k, i as nat) by {
                    assert(contrib_bits(l, i as int, k) =~= Set::<nat>::empty());
                    assert(contrib_mask(l, i as int, k) =~= Set::<nat>::empty());
                    assert(upsert_row(l, k, i as nat).union(Set::<nat>::empty()) =~= upsert_row(
                        l,
                        k,
                        i as nat,
                    ));
                    assert(computed_row(l, k, i as nat).union(Set::<nat>::empty())
                        =~= computed_row(l, k, i as nat));
                }
            }
        } else {
            let b: usize = nbrs[i].as_usize();
            let val: &BitVec = vals[i];
            let mut j: usize = 0;
            while j < d
                invariant
                    j <= d,
                    i < d,
                    d == nbrs@.len(),
                    vals@.len() == d,
                    masks@.len() == d,
                    fronts@.len() == d,
                    all_wf_ref(vals@),
                    all_wf_ref(masks@),
                    all_wf_ref(fronts@),
                    full_mask.wf(),
                    digits <= max_digits(),
                    front == fronts@[i as int],
                    front@.subset_of(full_mask@),
                    front.0@.len() <= digits,
                    val == vals@[i as int],
                    b == nbrs@[i as int].index(),
                    l == (Local {
                        a: a as nat,
                        nbrs: ids(nbrs@),
                        vals: views_ref(vals@),
                        masks: views_ref(masks@),
                        fronts: told(fronts@, a as nat),
                    }),
                    closed@.len() == d,
                    forall|k: int| 0 <= k < d ==> closed@[k] == ((*masks@[k])@ == full_mask@),
                    ups@.len() == d,
                    cps@.len() == d,
                    forall|k: int|
                        0 <= k < d ==> (#[trigger] ups@[k])@.len() == digits && seq_bits(
                            ups@[k]@,
                        ).remove(a as nat) == upsert_row(
                            l,
                            k,
                            if k < j {
                                (i + 1) as nat
                            } else {
                                i as nat
                            },
                        ),
                    forall|k: int|
                        0 <= k < d ==> (#[trigger] cps@[k])@.len() == digits && seq_bits(
                            cps@[k]@,
                        ).remove(a as nat) == computed_row(
                            l,
                            k,
                            if k < j {
                                (i + 1) as nat
                            } else {
                                i as nat
                            },
                        ),
                decreases d - j,
            {
                let ghost want_up = upsert_row(l, j as int, (i + 1) as nat);
                let ghost want_cp = computed_row(l, j as int, (i + 1) as nat);
                let ghost have_up = seq_bits(ups@[j as int]@).remove(a as nat);
                let ghost have_cp = seq_bits(cps@[j as int]@).remove(a as nat);
                if j != i && !closed[j] {
                    let mask: &BitVec = masks[j];
                    let c: usize = nbrs[j].as_usize();
                    // if both edges are stored in the same direction, flip the bit
                    let flip: bool = (a > b) == (a > c);
                    spread(
                        ups[j].as_mut_slice(),
                        cps[j].as_mut_slice(),
                        front.0.as_slice(),
                        mask.0.as_slice(),
                        val.0.as_slice(),
                        flip,
                    );
                    proof {
                        assert(l.fronts[i as int] == front@.remove(a as nat));
                        assert(seq_bits(cps@[j as int]@).remove(a as nat) =~= want_cp);
                        assert(seq_bits(ups@[j as int]@).remove(a as nat) =~= want_up);
                    }
                } else {
                    proof {
                        assert(contrib_mask(l, i as int, j as int) =~= Set::<nat>::empty());
                        assert(contrib_bits(l, i as int, j as int) =~= Set::<nat>::empty());
                        assert(have_up =~= want_up);
                        assert(have_cp =~= want_cp);
                    }
                }
                j += 1;
            }
        }
        i += 1;
    }
    // what was told about `a` itself does not count
    let mut r_up: Vec<BitVec> = Vec::with_capacity(d);
    let mut r_cp: Vec<BitVec> = Vec::with_capacity(d);
    let mut j: usize = 0;
    while j < d
        invariant
            j <= d,
            full_mask.wf(),
            digits <= max_digits(),
            forall|k: int| 0 <= k < d ==> (#[trigger] fronts@[k]).0@.len() <= digits,
            ups@.len() == d,
            cps@.len() == d,
            r_up@.len() == j,
            r_cp@.len() == j,
            all_wf(r_up@),
            all_wf(r_cp@),
            forall|k: int| 0 <= k < j ==> (#[trigger] r_up@[k])@ == upsert_row(l, k, d as nat),
            forall|k: int| 0 <= k < j ==> (#[trigger] r_cp@[k])@ == computed_row(l, k, d as nat),
            forall|k: int|
                j <= k < d ==> (#[trigger] ups@[k])@.len() == digits && seq_bits(ups@[k]@).remove(
                    a as nat,
                ) == upsert_row(l, k, d as nat),
            forall|k: int|
                j <= k < d ==> (#[trigger] cps@[k])@.len() == digits && seq_bits(cps@[k]@).remove(
                    a as nat,
                ) == computed_row(l, k, d as nat),
        decreases d - j,
    {
        let mut u: Vec<u64> = Vec::new();
        std::mem::swap(&mut u, &mut ups[j]);
        let mut c: Vec<u64> = Vec::new();
        std::mem::swap(&mut c, &mut cps[j]);
        r_up.push(pack_without(u, a));
        r_cp.push(pack_without(c, a));
        j += 1;
    }
    proof {
        assert forall|j: int| 0 <= j < d implies (#[trigger] r_up@[j])@.subset_of(r_cp@[j]@) by {
            lemma_upsert_subset(l, j, d as nat);
        }
    }
    (r_up, r_cp)
}

/// The neighbors among the first `n` of the list `ns`, but for number `j`.
pub open spec fn others(ns: Seq<nat>, j: int, n: int) -> Set<nat> {
    Set::new(|x: nat| exists|i: int| 0 <= i < n && i != j && ns[i] == x)
}

/// What node `a` decides before any round, from its neighbor list alone: for
/// the edge to each neighbor, the bits to set in its decision row and in its
/// mask row. Towards each other neighbor, seen from `a`, the edge does not lead.
pub fn seed_kernel<NodeId: U16orU32>(a: usize, nbrs: &[NodeId]) -> (r: (Vec<BitVec>, Vec<BitVec>))
    requires
        forall|i: int, j: int|
            0 <= i < nbrs@.len() && 0 <= j < nbrs@.len() && i != j ==> nbrs@[i].index()
                != nbrs@[j].index(),
    ensures
        ({
            let ns = ids(nbrs@);
            let d = nbrs@.len();
            let all = Set::new(|x: nat| ns.contains(x));
            &&& r.0@.len() == d
            &&& r.1@.len() == d
            &&& all_wf(r.0@)
            &&& all_wf(r.1@)
            &&& forall|j: int|
                0 <= j < d ==> (#[trigger] r.0@[j])@ == if a > ns[j] {
                    all.remove(ns[j])
                } else {
                    Set::<nat>::empty()
                }
            &&& forall|j: int| 0 <= j < d ==> (#[trigger] r.1@[j])@ == all.remove(ns[j])
        }),
{
    let d: usize = nbrs.len();
    let ghost ns = ids(nbrs@);
    let mut ups: Vec<BitVec> = zeros(d);
    let mut cps: Vec<BitVec> = zeros(d);
    let mut i: usize = 0;
    proof {
        assert forall|j: int| 0 <= j < d implies others(ns, j, 0) =~= Set::<nat>::empty() by {}
    }
    while i < d
        invariant
            i <= d,
            d == nbrs@.len(),
            ns == ids(nbrs@),
            ups@.len() == d,
            cps@.len() == d,
            all_wf(ups@),
            all_wf(cps@),
            forall|j: int|
                0 <= j < d ==> (#[trigger] ups@[j])@ == if a > ns[j] {
                    others(ns, j, i as int)
                } else {
                    Set::<nat>::empty()
                },
            forall|j: int| 0 <= j < d ==> (#[trigger] cps@[j])@ == others(ns, j, i as int),
        decreases d - i,
    {
        let b: usize = nbrs[i].as_usize();
        // seen from `a`, the edge to `b` leads towards `b`
        let val: bool = !(a > b);
        let mut j: usize = 0;
        while j < d
            invariant
                j <= d,
                i < d,
                d == nbrs@.len(),
                ns == ids(nbrs@),
                b == ns[i as int],
                val == !(a > b),
                ups@.len() == d,
                cps@.len() == d,
                all_wf(ups@),
                all_wf(cps@),
                forall|k: int|
                    0 <= k < d ==> (#[trigger] ups@[k])@ == if a > ns[k] {
                        others(
                            ns,
                            k,
                            if k < j {
                                i + 1
                            } else {
                                i as int
                            },
                        )
                    } else {
                        Set::<nat>::empty()
                    },
                forall|k: int|
                    0 <= k < d ==> (#[trigger] cps@[k])@ == others(
                        ns,
                        k,
                        if k < j {
                            i + 1
                        } else {
                            i as int
                        },
                    ),
            decreases d - j,
        {
            proof {
                let before = others(ns, j as int, i as int);
                let after = others(ns, j as int, i + 1);
                if i == j {
                    assert(before =~= after);
                } else {
                    assert forall|x: nat| after.contains(x) <==> before.insert(b as nat).contains(
                        x,
                    ) by {
                        if x == b {
                            assert(ns[i as int] == x);
                        }
                    }
                    assert(after =~= before.insert(b as nat));
                }
            }
            if i != j {
                let c: usize = nbrs[j].as_usize();
                // if both edges are stored in the same direction, flip the bit
                let should_set: bool = if (a > b) == (a > c) {
                    !val
                } else {
                    val
                };
                if should_set {
                    ups[j].set_bit(b, true);
                }
                cps[j].set_bit(b, true);
            }
            j += 1;
        }
        i += 1;
    }
    proof {
        let all = Set::new(|x: nat| ns.contains(x));
        assert forall|j: int| 0 <= j < d implies others(ns, j, d as int) == all.remove(ns[j]) by {
            assert forall|x: nat| others(ns, j, d as int).contains(x) <==> all.remove(
                ns[j],
            ).contains(x) by {
                if all.remove(ns[j]).contains(x) {
                    let i = choose|i: int| 0 <= i < ns.len() && ns[i] == x;
                    assert(i != j);
                }
            }
            assert(others(ns, j, d as int) =~= all.remove(ns[j]));
        }
    }
    (ups, cps)
}

/// Adds the bits of `val` to the row with key `k`. A row that is not there is made.
pub fn merge_into(map: &mut HashMap<u64, BitVec>, k: u64, val: &BitVec)
    requires
        rows_wf(old(map)@),
        val.wf(),
    ensures
        rows_wf(final(map)@),
        final(map)@.dom() == old(map)@.dom().insert(k),
        forall|x: u64| x != k && old(map)@.contains_key(x) ==> final(map)@[x] == old(map)@[x],
        final(map)@[k]@ == if old(map)@.contains_key(k) {
            old(map)@[k]@.union(val@)
        } else {
            val@
        },
{
    match map.remove(&k) {
        Some(mut bits) => {
            bits.bitor_assign(val);
            map.insert(k, bits);
        },
        None => {
            map.insert(k, val.clone());
        },
    }
    assert(map@.dom() =~= old(map)@.dom().insert(k));
}

/// Writes what a node decided to the rows of its edges: for each neighbor,
/// the bits of `ups` to the decision row and those of `cps` to the mask row.
pub fn apply_rows<NodeId: U16orU32>(
    a: usize,
    nbrs: &[NodeId],
    edges: &mut HashMap<u64, BitVec>,
    masks: &mut HashMap<u64, BitVec>,
    ups: &Vec<BitVec>,
    cps: &Vec<BitVec>,
)
    requires
        a <= 0xffff_ffff,
        rows_wf(old(edges)@),
        rows_wf(old(masks)@),
        ups@.len() == nbrs@.len(),
        cps@.len() == nbrs@.len(),
        all_wf(ups@),
        all_wf(cps@),
        forall|j: int| 0 <= j < nbrs@.len() ==> (#[trigger] ups@[j])@.subset_of(cps@[j]@),
        forall|j: int|
            0 <= j < nbrs@.len() ==> {
                let k = #[trigger] edge_key(a as nat, nbrs@[j].index());
                old(edges)@.contains_key(k) && old(masks)@.contains_key(k)
            },
    ensures
        rows_wf(final(edges)@),
        rows_wf(final(masks)@),
        final(edges)@.dom() == old(edges)@.dom(),
        final(masks)@.dom() == old(masks)@.dom(),
        (Tables { edges: rows(final(edges)@), masks: rows(final(masks)@) }) == merge_rows(
            Tables { edges: rows(old(edges)@), masks: rows(old(masks)@) },
            a as nat,
            ids(nbrs@),
            views(ups@),
            views(cps@),
            nbrs@.len(),
        ),
{
    let d: usize = nbrs.len();
    let ghost t0 = Tables { edges: rows(edges@), masks: rows(masks@) };
    let ghost ns = ids(nbrs@);
    let mut j: usize = 0;
    while j < d
        invariant
            j <= d,
            d == nbrs@.len(),
            a <= 0xffff_ffff,
            ns == ids(nbrs@),
            rows_wf(edges@),
            rows_wf(masks@),
            ups@.len() == d,
            cps@.len() == d,
            all_wf(ups@),
            all_wf(cps@),
            forall|j: int| 0 <= j < nbrs@.len() ==> (#[trigger] ups@[j])@.subset_of(cps@[j]@),
            edges@.dom() == old(edges)@.dom(),
            masks@.dom() == old(masks)@.dom(),
            forall|j: int|
                0 <= j < nbrs@.len() ==> {
                    let k = #[trigger] edge_key(a as nat, nbrs@[j].index());
                    edges@.contains_key(k) && masks@.contains_key(k)
                },
            (Tables { edges: rows(edges@), masks: rows(masks@) }) == merge_rows(
                t0,
                a as nat,
                ns,
                views(ups@),
                views(cps@),
                j as nat,
            ),
        decreases d - j,
    {
        proof {
            NodeId::lemma_index(nbrs@[j as int], nbrs@[j as int]);
            NodeId::lemma_limits();
        }
        let k: u64 = edge_key_of(a, nbrs[j].as_usize());
        let ghost before = Tables { edges: rows(edges@), masks: rows(masks@) };
        assert(k == edge_key(a as nat, nbrs@[j as int].index()));
        assert(edges@.contains_key(k) && masks@.contains_key(k));
        if !cps[j].is_zero() {
            if !ups[j].is_zero() {
                merge_into(edges, k, &ups[j]);
            }
            merge_into(masks, k, &cps[j]);
        }
        proof {
            let after = Tables { edges: rows(edges@), masks: rows(masks@) };
            let want = merge_row(before, k, ups@[j as int]@, cps@[j as int]@);
            assert(edges@.dom() =~= old(edges)@.dom());
            assert(masks@.dom() =~= old(masks)@.dom());
            assert(after.edges[k] =~= before.edges[k].union(ups@[j as int]@));
            assert(after.masks[k] =~= before.masks[k].union(cps@[j as int]@));
            assert forall|x: u64| after.edges.contains_key(x) implies #[trigger] after.edges[x]
                == want.edges[x] by {}
            assert forall|x: u64| after.masks.contains_key(x) implies #[trigger] after.masks[x]
                == want.masks[x] by {}
            assert(after.edges =~= want.edges);
            assert(after.masks =~= want.masks);
        }
        j += 1;
    }
}

/// The nodes next to a node of `s` that is below `c`.
pub open spec fn reach_below(adj: Seq<Seq<nat>>, s: Set<nat>, c: nat) -> Set<nat> {
    Set::new(|x: nat| exists|b: nat| s.contains(b) && b < c && is_edge(adj, b, x))
}

/// The frontiers and visited sets of all nodes: in each pair, the first holds
/// the nodes at the current distance, the second those at a smaller distance.
/// The two are disjoint and hold nodes of the graph only.
pub open spec fn depth_wf(s: Seq<(BitVec, BitVec)>, n: nat) -> bool {
    forall|b: int|
        0 <= b < s.len() ==> {
            &&& (#[trigger] s[b]).0.wf()
            &&& s[b].1.wf()
            &&& s[b].0@.subset_of(full(n))
            &&& s[b].1@.subset_of(full(n))
            &&& s[b].0@.disjoint(s[b].1@)
        }
}

/// The frontiers of all nodes, as sets.
pub open spec fn fronts_of(s: Seq<(BitVec, BitVec)>) -> Seq<Set<nat>> {
    Seq::new(s.len(), |b: int| s[b].0@)
}

/// The visited sets of all nodes, as sets.
pub open spec fn visited_of(s: Seq<(BitVec, BitVec)>) -> Seq<Set<nat>> {
    Seq::new(s.len(), |b: int| s[b].1@)
}

/// The frontier and the visited set of a node after its frontier `cur` has
/// moved one step on: what was the frontier is now visited, and the new
/// frontier holds the nodes next to the old one that have not been visited.
pub fn next_pair<NodeId: U16orU32>(nodes: &Nodes<NodeId>, cur: &BitVec, visited: &BitVec) -> (r: (
    BitVec,
    BitVec,
))
    requires
        nodes.wf(),
        cur.wf(),
        visited.wf(),
        cur@.subset_of(full(nodes.inner@.len() as nat)),
        visited@.subset_of(full(nodes.inner@.len() as nat)),
    ensures
        r.0.wf(),
        r.1.wf(),
        r.1@ == visited@.union(cur@),
        r.0@ == reach(nodes.adj(), cur@).difference(visited@.union(cur@)),
        r.0@.subset_of(full(nodes.inner@.len() as nat)),
        r.1@.subset_of(full(nodes.inner@.len() as nat)),
        r.0@.disjoint(r.1@),
{
    let ghost adj = nodes.adj();
    let ghost n = nodes.inner@.len() as nat;
    // add the frontier to the visited nodes
    let mut seen: BitVec = visited.clone();
    seen.bitor_assign(cur);
    let digits: usize = nodes.inner.len() / 64 + 1;
    let mut buf: Vec<u64> = Vec::with_capacity(digits);
    buf.resize(digits, 0);
    let mut it = cur.iter_ones();
    proof {
        assert forall|x: nat| !seq_bit(buf@, x) by {
            lemma_bit_zero(x % 64);
        }
        assert(seq_bits(buf@) =~= Set::<nat>::empty());
        assert(reach_below(adj, cur@, 0) =~= Set::<nat>::empty());
    }
    loop
        invariant_except_break
            it.wf(),
            it.data() == *cur,
            seq_bits(buf@) == reach_below(adj, cur@, it.cursor()),
        invariant
            nodes.wf(),
            adj == nodes.adj(),
            n == nodes.inner@.len(),
            cur@.subset_of(full(n)),
            it.cursor() <= usize::MAX + 1,
            buf@.len() == digits,
            digits == n / 64 + 1,
            seq_bits(buf@).subset_of(full(n)),
        ensures
            seq_bits(buf@) == reach(adj, cur@),
        decreases usize::MAX + 1 - it.cursor(),
    {
        let ghost c0 = it.cursor();
        match it.next() {
            None => {
                proof {
                    assert forall|x: nat| reach(adj, cur@).contains(x) implies reach_below(
                        adj,
                        cur@,
                        c0,
                    ).contains(x) by {
                        let b = choose|b: nat| cur@.contains(b) && is_edge(adj, b, x);
                        assert(b < c0);
                    }
                    assert(seq_bits(buf@) =~= reach(adj, cur@));
                }
                break ;
            },
            Some(b) => {
                assert(cur@.contains(b as nat));
                assert(full(n).contains(b as nat));
                let list: &Vec<NodeId> = &nodes.inner[b];
                let ghost base = seq_bits(buf@);
                let mut i: usize = 0;
                while i < list.len()
                    invariant
                        i <= list@.len(),
                        nodes.wf(),
                        adj == nodes.adj(),
                        n == nodes.inner@.len(),
                        b < n,
                        list == &nodes.inner@[b as int],
                        buf@.len() == digits,
                        digits == n / 64 + 1,
                        seq_bits(buf@).subset_of(full(n)),
                        seq_bits(buf@) == base.union(
                            Set::new(|x: nat| exists|k: int| 0 <= k < i && adj[b as int][k] == x),
                        ),
                    decreases list@.len() - i,
                {
                    let c: usize = list[i].as_usize();
                    proof {
                        assert(adj[b as int][i as int] == c);
                        assert(adj[b as int][i as int] < adj.len());
                    }
                    let ghost before_buf = buf@;
                    let m = bit_mask(c % 64);
                    let d: u64 = buf[c / 64] | m;
                    buf[c / 64] = d;
                    proof {
                        let before = Set::new(
                            |x: nat| exists|k: int| 0 <= k < i && adj[b as int][k] == x,
                        );
                        let after = Set::new(
                            |x: nat| exists|k: int| 0 <= k < i + 1 && adj[b as int][k] == x,
                        );
                        assert(after =~= before.insert(c as nat));
                        assert forall|x: nat| seq_bit(buf@, x) == (seq_bit(before_buf, x) || x
                            == c) by {
                            if x / 64 == c / 64 {
                                lemma_bit_or(before_buf[(c / 64) as int], m, x % 64);
                            }
                        }
                        assert forall|x: nat| seq_bits(buf@).contains(x) == seq_bits(
                            before_buf,
                        ).insert(c as nat).contains(x) by {
                            assert(seq_bits(buf@).contains(x) == seq_bit(buf@, x));
                            assert(seq_bits(before_buf).contains(x) == seq_bit(before_buf, x));
                        }
                        assert(seq_bits(buf@) =~= seq_bits(before_buf).insert(c as nat));
                        assert(base.union(after) =~= base.union(before).insert(c as nat));
                    }
                    i += 1;
                }
                proof {
                    let row = Set::new(
                        |x: nat| exists|k: int| 0 <= k < list@.len() && adj[b as int][k] == x,
                    );
                    assert forall|x: nat| #[trigger]
                        reach_below(adj, cur@, (b + 1) as nat).contains(x) <==> (base.contains(x)
                            || row.contains(x)) by {
                        if reach_below(adj, cur@, (b + 1) as nat).contains(x) {
                            let y = choose|y: nat| cur@.contains(y) && y < b + 1 && is_edge(adj, y, x);
                            if y < c0 {
                                assert(reach_below(adj, cur@, c0).contains(x));
                            } else {
                                assert(y == b);
                                let k = choose|k: int|
                                    0 <= k < adj[b as int].len() && adj[b as int][k] == x;
                                assert(row.contains(x));
                            }
                        }
                        if base.contains(x) {
                            let y = choose|y: nat| cur@.contains(y) && y < c0 && is_edge(adj, y, x);
                            assert(cur@.contains(y) && y < b + 1 && is_edge(adj, y, x));
                        }
                        if row.contains(x) {
                            let k = choose|k: int| 0 <= k < list@.len() && adj[b as int][k] == x;
                            assert(adj[b as int].contains(x));
                            assert(cur@.contains(b as nat) && b < b + 1 && is_edge(
                                adj,
                                b as nat,
                                x,
                            ));
                        }
                    }
                    assert(seq_bits(buf@) =~= reach_below(adj, cur@, (b + 1) as nat));
                }
            },
        }
    }
    let mut new_neighbors: BitVec = BitVec(buf);
    new_neighbors.normalize();
    // new neighbors at this depth without the previous neighbors
    new_neighbors.bitand_not_assign(&seen);
    proof {
        assert(seen@ =~= visited@.union(cur@));
        assert(new_neighbors@ =~= reach(adj, cur@).difference(visited@.union(cur@)));
    }
    (new_neighbors, seen)
}

/// Moves the frontier of node `a` one step on: what was the frontier is now
/// visited, and the new frontier holds the nodes next to the old one that
/// have not been visited. A node with an empty frontier stays as it is.
pub fn advance<NodeId: U16orU32>(nodes: &Nodes<NodeId>, depth: &mut Vec<(BitVec, BitVec)>, a: usize)
    requires
        nodes.wf(),
        a < old(depth)@.len(),
        old(depth)@.len() == nodes.inner@.len(),
        depth_wf(old(depth)@, nodes.inner@.len() as nat),
    ensures
        depth_wf(final(depth)@, nodes.inner@.len() as nat),
        final(depth)@.len() == old(depth)@.len(),
        forall|b: int| 0 <= b < old(depth)@.len() && b != a ==> final(depth)@[b] == old(depth)@[b],
        old(depth)@[a as int].0@ == Set::<nat>::empty() ==> final(depth)@[a as int] == old(
            depth,
        )@[a as int],
        old(depth)@[a as int].0@ != Set::<nat>::empty() ==> {
            &&& final(depth)@[a as int].1@ == old(depth)@[a as int].1@.union(
                old(depth)@[a as int].0@,
            )
            &&& final(depth)@[a as int].0@ == reach(nodes.adj(), old(depth)@[a as int].0@).difference(
                old(depth)@[a as int].1@.union(old(depth)@[a as int].0@),
            )
        },
{
    if depth[a].0.is_zero() {
        return ;
    }
    let pair = next_pair(nodes, &depth[a].0, &depth[a].1);
    depth[a] = pair;
}

/// The frontier and the visited set of node `a` after a pass: one step on
/// if the node is among the `active` ones and its frontier is not empty,
/// else as they are.
pub fn moved<NodeId: U16orU32>(
    nodes: &Nodes<NodeId>,
    depth: &Vec<(BitVec, BitVec)>,
    active: &BitVec,
    a: usize,
) -> (r: (BitVec, BitVec))
    requires
        nodes.wf(),
        a < depth@.len(),
        depth@.len() == nodes.inner@.len(),
        depth_wf(depth@, nodes.inner@.len() as nat),
    ensures
        moved_to(nodes.adj(), depth@, active@, a as nat, r),
{
    if active.get_bit(a) && !depth[a].0.is_zero() {
        next_pair(nodes, &depth[a].0, &depth[a].1)
    } else {
        (depth[a].0.clone(), depth[a].1.clone())
    }
}

/// Whether `r` holds the frontier and the visited set of node `a` after a
/// pass in which the nodes of `active` told something.
pub open spec fn moved_to(
    adj: Seq<Seq<nat>>,
    depth: Seq<(BitVec, BitVec)>,
    active: Set<nat>,
    a: nat,
    r: (BitVec, BitVec),
) -> bool {
    &&& r.0.wf()
    &&& r.1.wf()
    &&& r.0@.subset_of(full(adj.len()))
    &&& r.1@.subset_of(full(adj.len()))
    &&& r.0@.disjoint(r.1@)
    &&& r.0@ == next_frontier(adj, fronts_of(depth), visited_of(depth), active, a)
    &&& r.1@ == next_visited(fronts_of(depth), visited_of(depth), active, a)
}

} // verus!
