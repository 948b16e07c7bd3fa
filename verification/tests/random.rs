use bit_gossip::graph::parallel::ParaGraphBuilder;
use bit_gossip::graph::sequential::{SeqGraph, SeqGraphBuilder};
use bit_gossip::Graph64Builder;
use std::collections::VecDeque;

struct Lcg(u64);

impl Lcg {
    fn next(&mut self, n: usize) -> usize {
        self.0 = self.0.wrapping_mul(6364136223846793005).wrapping_add(1442695040888963407);
        ((self.0 >> 33) as usize) % n
    }
}

fn distances(adj: &Vec<Vec<usize>>, from: usize) -> Vec<Option<usize>> {
    let mut dist = vec![None; adj.len()];
    dist[from] = Some(0);
    let mut queue = VecDeque::new();
    queue.push_back(from);
    while let Some(a) = queue.pop_front() {
        for b in adj[a].iter().copied() {
            if dist[b].is_none() {
                dist[b] = Some(dist[a].unwrap() + 1);
                queue.push_back(b);
            }
        }
    }
    dist
}

fn offered(graph: &SeqGraph<u16>, curr: u16, dest: u16) -> Vec<u16> {
    let mut it = graph.neighbors_to(curr, dest);
    let mut out = Vec::new();
    while let Some(n) = it.next() {
        out.push(n);
    }
    out.sort();
    out
}

/// A connected graph without odd cycles: a random tree, and some edges
/// between nodes of different colors.
fn random_bipartite(n: usize, extra: usize, seed: u64) -> Vec<(usize, usize)> {
    let mut rng = Lcg(seed);
    let mut color = vec![false; n];
    let mut edges = Vec::new();
    for b in 1..n {
        let a = rng.next(b);
        color[b] = !color[a];
        edges.push((a, b));
    }
    for _ in 0..extra {
        let a = rng.next(n);
        let b = rng.next(n);
        if color[a] != color[b] {
            edges.push((a, b));
        }
    }
    edges
}

#[test]
fn balanced_graphs_give_shortest_paths() {
    for seed in 1..6u64 {
        let n = 50;
        let edges = random_bipartite(n, 40, seed);
        let mut builder: SeqGraphBuilder<u16> = SeqGraphBuilder::new(n);
        let mut adj = vec![Vec::new(); n];
        for (a, b) in edges.iter().copied() {
            builder.connect(a as u16, b as u16);
            if !adj[a].contains(&b) {
                adj[a].push(b);
                adj[b].push(a);
            }
        }
        let graph = builder.build();
        for dest in 0..n {
            let dist = distances(&adj, dest);
            for curr in 0..n {
                let mut want: Vec<u16> = adj[curr]
                    .iter()
                    .copied()
                    .filter(|v| dist[*v].unwrap() + 1 == dist[curr].unwrap())
                    .map(|v| v as u16)
                    .collect();
                want.sort();
                assert_eq!(offered(&graph, curr as u16, dest as u16), want);
                // the walk takes as many steps as the destination is away
                let mut walk = graph.path_to(curr as u16, dest as u16);
                let mut hops = 0;
                let mut last = curr as u16;
                while let Some(v) = walk.next() {
                    hops += 1;
                    last = v;
                }
                assert_eq!(hops, dist[curr].unwrap());
                assert_eq!(last, dest as u16);
            }
        }
    }
}

#[test]
fn packed_and_general_graphs_agree() {
    for seed in 1..6u64 {
        let n = 40;
        let mut rng = Lcg(seed * 77);
        let mut general: SeqGraphBuilder<u16> = SeqGraphBuilder::new(n);
        let mut packed = Graph64Builder::new(n);
        // any graph: with odd cycles, and not all in one piece
        for _ in 0..45 {
            let a = rng.next(n);
            let b = rng.next(n);
            general.connect(a as u16, b as u16);
            packed.connect(a as u8, b as u8);
        }
        for _ in 0..5 {
            let a = rng.next(n);
            let b = rng.next(n);
            general.disconnect(a as u16, b as u16);
            packed.disconnect(a as u8, b as u8);
        }
        assert_eq!(general.edges_len(), packed.inner.edges.inner.len());
        let general = general.build();
        let packed = packed.build();
        for curr in 0..n {
            for dest in 0..n {
                let mut it = packed.next_nodes(curr as u8, dest as u8);
                let mut got = Vec::new();
                while let Some(v) = it.next() {
                    got.push(v as u16);
                }
                assert_eq!(got, offered(&general, curr as u16, dest as u16));
            }
        }
    }
}

#[test]
fn engines_agree_on_balanced_graphs() {
    for seed in 1..4u64 {
        let n = 120;
        let edges = random_bipartite(n, 100, seed * 13);
        let mut seq: SeqGraphBuilder<u16> = SeqGraphBuilder::new(n);
        let mut par: ParaGraphBuilder<u16> = ParaGraphBuilder::new(n);
        for (a, b) in edges.iter().copied() {
            seq.connect(a as u16, b as u16);
            par.connect(a as u16, b as u16);
        }
        let seq = seq.build();
        let par = par.build();
        for curr in 0..n as u16 {
            for dest in 0..n as u16 {
                assert_eq!(seq.neighbor_to(curr, dest), par.next_node(curr, dest));
                assert_eq!(seq.path_exists(curr, dest), par.path_exists(curr, dest));
            }
        }
    }
}

#[test]
fn engines_agree_on_any_graph() {
    for seed in 1..5u64 {
        let n = 90;
        let mut rng = Lcg(seed * 31);
        let mut seq: SeqGraphBuilder<u16> = SeqGraphBuilder::new(n);
        let mut par: ParaGraphBuilder<u16> = ParaGraphBuilder::new(n);
        // odd cycles, several components, nodes without an edge
        for _ in 0..110 {
            let a = rng.next(n) as u16;
            let b = rng.next(n) as u16;
            seq.connect(a, b);
            par.connect(a, b);
        }
        let seq = seq.build();
        let par = par.build();
        assert_eq!(seq.edges.len(), par.edges.len());
        for (k, row) in seq.edges.iter() {
            assert_eq!(row.0, par.edges[k].0);
            assert_eq!(seq.masks[k].0, par.masks[k].0);
        }
        for curr in 0..n as u16 {
            for dest in 0..n as u16 {
                assert_eq!(seq.neighbor_to(curr, dest), par.next_node(curr, dest));
            }
        }
    }
}

#[test]
fn no_next_node_without_a_path() {
    for seed in 1..5u64 {
        let n = 40;
        let mut rng = Lcg(seed * 101);
        let mut builder: SeqGraphBuilder<u16> = SeqGraphBuilder::new(n);
        let mut adj = vec![Vec::new(); n];
        for _ in 0..30 {
            let a = rng.next(n);
            let b = rng.next(n);
            builder.connect(a as u16, b as u16);
            if a != b && !adj[a].contains(&b) {
                adj[a].push(b);
                adj[b].push(a);
            }
        }
        let graph = builder.build();
        for dest in 0..n {
            let dist = distances(&adj, dest);
            for curr in 0..n {
                if dist[curr].is_none() {
                    assert_eq!(graph.neighbor_to(curr as u16, dest as u16), None);
                    assert!(!graph.path_exists(curr as u16, dest as u16));
                }
            }
        }
    }
}
