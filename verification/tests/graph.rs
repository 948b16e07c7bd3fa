use bit_gossip::edge_id;
use bit_gossip::graph::parallel::{ParaGraph, ParaGraphBuilder};
use bit_gossip::graph::sequential::{SeqGraph, SeqGraphBuilder};
use bit_gossip::maze::build_maze_from_seed;
use std::collections::HashSet;
use bit_gossip::{Graph, GraphBuilder};

#[test]
fn test_graph() {
    // Initialize a builder with 10000 nodes
    let mut builder = Graph::<u16>::builder(10000);

    // Connect the nodes
    for y in 0..100u16 {
        for x in 0..100 {
            let node = y * 100 + x;

            if x < 99 {
                builder.connect(node, node + 1);
            }
            if y < 99 {
                builder.connect(node, node + 100);
            }
        }
    }

    // Build the graph
    // This may take a few seconds
    let graph = builder.build();

    // Check the shortest path from 0 to 9900
    // This is fast
    let mut curr = 0;
    let dest = 9900;

    let mut hops = 0;

    while curr != dest {
        let prev = curr;
        curr = graph.next_node(curr, dest).unwrap();
        println!("{prev} -> {curr}");

        hops += 1;
        if curr == dest {
            println!("we've reached node '{dest}' in {hops} hops!");
            break;
        }
    }
    // 9900 is the first cell of the last row: 99 steps down
    assert_eq!(hops, 99);
    let first = graph.next_node(0, 9900);
    assert!(first == Some(1) || first == Some(100));
    // the opposite corner is 99 steps down and 99 across
    let mut it = graph.path_to(0, 9999);
    let mut path = Vec::new();
    while let Some(n) = it.next() {
        path.push(n);
    }
    assert_eq!(path.len(), 198);
    assert_eq!(path[197], 9999);
}

fn ladder(mut builder: GraphBuilder<u16>) -> Graph<u16> {
    for i in 0..12u16 {
        if i % 4 != 3 {
            builder.connect(i, i + 1);
        }
        if i < 8 {
            builder.connect(i, i + 4);
        }
    }
    builder.disconnect(1, 5);
    builder.disconnect(5, 9);
    builder.build()
}

fn collect_next(graph: &Graph<u16>, curr: u16, dest: u16) -> Vec<u16> {
    let mut it = graph.next_nodes(curr, dest);
    let mut out = Vec::new();
    while let Some(n) = it.next() {
        out.push(n);
    }
    out
}

fn collect_path(graph: &Graph<u16>, curr: u16, dest: u16) -> Vec<u16> {
    let mut it = graph.path_to(curr, dest);
    let mut out = Vec::new();
    while let Some(n) = it.next() {
        out.push(n);
    }
    out
}

#[test]
fn ladder_next_node() {
    let graph = ladder(Graph::builder(12));
    assert!(matches!(graph, Graph::Sequential(_)));
    assert_eq!(graph.next_node(0, 9), Some(4));
    assert_eq!(graph.next_node(4, 9), Some(8));
    assert_eq!(graph.next_node(8, 9), Some(9));
}

#[test]
fn ladder_next_nodes() {
    let graph = ladder(Graph::builder(12));
    assert_eq!(collect_next(&graph, 0, 11), vec![1, 4]);
    assert_eq!(collect_next(&graph, 3, 3), Vec::<u16>::new());
}

#[test]
fn ladder_path_to() {
    let graph = ladder(Graph::builder(12));
    assert_eq!(collect_path(&graph, 0, 5), vec![4, 5]);
    assert_eq!(collect_path(&graph, 7, 7), Vec::<u16>::new());
}

#[test]
fn ladder_sizes_and_neighbors() {
    let graph = ladder(Graph::builder(12));
    assert_eq!(graph.nodes_len(), 12);
    assert_eq!(graph.edges_len(), 15);
    assert_eq!(graph.neighbors(0), &[1, 4]);
    let mut n5 = graph.neighbors(5).to_vec();
    n5.sort();
    assert_eq!(n5, vec![4, 6]);
    assert!(graph.path_exists(0, 11));
    assert!(graph.path_exists(6, 6));
}

#[test]
fn ladder_next_node_with() {
    let graph = ladder(Graph::builder(12));
    assert_eq!(graph.next_node_with(0, 11, |n| n == 4), Some(4));
    assert_eq!(graph.next_node_with(0, 11, |n| n == 1), Some(1));
    assert_eq!(graph.next_node_with(0, 11, |n| n > 4), None);
}

#[test]
fn ladder_in_parallel() {
    let graph = ladder(Graph::builder(12).multi_threaded(true));
    assert!(matches!(graph, Graph::Parallel(_)));
    assert_eq!(graph.next_node(0, 9), Some(4));
    assert_eq!(graph.next_node(4, 9), Some(8));
    assert_eq!(graph.next_node(8, 9), Some(9));
    assert_eq!(collect_next(&graph, 0, 11), vec![1, 4]);
    assert_eq!(collect_path(&graph, 0, 5), vec![4, 5]);
    assert_eq!(graph.nodes_len(), 12);
    assert_eq!(graph.edges_len(), 15);
}

#[test]
fn disconnected_components() {
    let mut builder = Graph::<u16>::builder(6);
    for (a, b) in [(0, 1), (1, 2), (0, 2), (3, 4), (4, 5), (3, 5)] {
        builder.connect(a, b);
    }
    let graph = builder.build();
    assert_eq!(graph.next_node(0, 3), None);
    assert!(!graph.path_exists(0, 3));
    assert!(graph.path_exists(0, 2));
}

#[test]
fn self_loop_and_duplicate() {
    let mut builder = Graph::<u16>::builder(10);
    builder.connect(7, 7);
    builder.connect(7, 7);
    builder.connect(7, 8);
    assert_eq!(builder.neighbors(7), &[8]);
    assert_eq!(builder.neighbors(8), &[7]);
    assert_eq!(builder.edges_len(), 1);
    // the other way round, and once more: nothing changes
    builder.connect(8, 7);
    builder.connect(7, 8);
    assert_eq!(builder.neighbors(7), &[8]);
    assert_eq!(builder.neighbors(8), &[7]);
    assert_eq!(builder.edges_len(), 1);
    assert_eq!(builder.nodes_len(), 10);
    // removing an edge that is not there changes nothing
    builder.disconnect(1, 2);
    builder.disconnect(3, 3);
    assert_eq!(builder.edges_len(), 1);
    let graph = builder.build();
    assert_eq!(graph.next_node(7, 8), Some(8));
    assert_eq!(graph.next_node(8, 7), Some(7));
}

#[test]
fn empty_builders() {
    let builder = GraphBuilder::<u32>::new(5);
    assert_eq!(builder.nodes_len(), 5);
    assert_eq!(builder.edges_len(), 0);
    assert_eq!(builder.neighbors(3), &[] as &[u32]);
    let graph = builder.build();
    assert_eq!(graph.nodes_len(), 5);
    assert_eq!(graph.next_node(0, 4), None);
    let graph = Graph::<u16>::builder(0).build();
    assert_eq!(graph.nodes_len(), 0);
    let graph = Graph::<u16>::builder(0).multi_threaded(true).build();
    assert_eq!(graph.nodes_len(), 0);
}

#[test]
fn rebuild_parity() {
    let g1 = ladder(Graph::builder(12));
    let before: Vec<Option<u16>> = (0..12u16).map(|d| g1.next_node(0, d)).collect();
    // the round trip alone changes no answer
    let g1 = g1.into_builder().build();
    let again: Vec<Option<u16>> = (0..12u16).map(|d| g1.next_node(0, d)).collect();
    assert_eq!(before, again);
    // 10 - 11 lies on no shortest path from 0 to 9
    let mut builder = g1.into_builder();
    builder.disconnect(10, 11);
    let g2 = builder.build();
    assert_eq!(g2.next_node(0, 9), Some(4));
    assert_eq!(g2.next_node(4, 9), Some(8));
    assert_eq!(g2.next_node(8, 9), Some(9));
    assert_eq!(collect_path(&g2, 0, 5), vec![4, 5]);
    // and a new edge is taken up
    let mut builder = g2.into_builder();
    builder.connect(1, 5);
    let g3 = builder.build();
    assert_eq!(g3.next_node(1, 5), Some(5));
    assert_eq!(collect_path(&g3, 0, 5).len(), 2);
}

#[test]
fn builds_are_deterministic() {
    let g1 = match ladder(Graph::builder(12)) {
        Graph::Sequential(g) => g,
        Graph::Parallel(_) => unreachable!(),
    };
    let g2 = match ladder(Graph::builder(12)) {
        Graph::Sequential(g) => g,
        Graph::Parallel(_) => unreachable!(),
    };
    assert_eq!(g1.edges.len(), g2.edges.len());
    for (k, row) in g1.edges.iter() {
        assert_eq!(row.0, g2.edges[k].0);
    }
}

fn grid_seq(w: u16, h: u16) -> SeqGraph<u16> {
    let mut builder: SeqGraphBuilder<u16> = SeqGraph::builder((w * h) as usize);
    for y in 0..h {
        for x in 0..w {
            let node = y * w + x;
            if x + 1 < w {
                builder.connect(node, node + 1);
            }
            if y + 1 < h {
                builder.connect(node, node + w);
            }
        }
    }
    builder.build()
}

fn grid_par(w: u16, h: u16) -> ParaGraph<u16> {
    let mut builder: ParaGraphBuilder<u16> = ParaGraph::builder((w * h) as usize);
    for y in 0..h {
        for x in 0..w {
            let node = y * w + x;
            if x + 1 < w {
                builder.connect(node, node + 1);
            }
            if y + 1 < h {
                builder.connect(node, node + w);
            }
        }
    }
    builder.build()
}

#[test]
fn engines_agree_on_a_grid() {
    let seq = grid_seq(20, 15);
    let par = grid_par(20, 15);
    assert_eq!(seq.nodes_len(), par.nodes_len());
    assert_eq!(seq.edges_len(), par.edges_len());
    for s in 0..300u16 {
        for t in (0..300u16).step_by(7) {
            assert_eq!(seq.neighbor_to(s, t), par.next_node(s, t), "{} -> {}", s, t);
        }
    }
}

#[test]
fn grid_paths_are_shortest() {
    let g = grid_seq(9, 7);
    for s in 0..63u16 {
        for t in 0..63u16 {
            let want = (s % 9).abs_diff(t % 9) + (s / 9).abs_diff(t / 9);
            let mut it = g.path_to(s, t);
            let mut hops = 0;
            let mut last = s;
            while let Some(n) = it.next() {
                hops += 1;
                last = n;
            }
            assert_eq!(hops, want);
            assert_eq!(last, t);
            // every neighbor that is offered is one step closer, and all of those are offered
            let mut it = g.neighbors_to(s, t);
            let mut offered = Vec::new();
            while let Some(n) = it.next() {
                offered.push(n);
            }
            let mut closer: Vec<u16> = g
                .neighbors(s)
                .iter()
                .copied()
                .filter(|n| (n % 9).abs_diff(t % 9) + (n / 9).abs_diff(t / 9) + 1 == want)
                .collect();
            offered.sort();
            closer.sort();
            assert_eq!(offered, closer);
            assert_eq!(g.path_exists(s, t), true);
        }
    }
}

#[test]
fn seq_graph_with_filter_and_u32_ids() {
    let mut builder: SeqGraphBuilder<u32> = SeqGraphBuilder::new(70000);
    builder.connect(0, 69999);
    builder.connect(69999, 3);
    assert_eq!(builder.nodes_len(), 70000);
    assert_eq!(builder.edges_len(), 2);
    assert_eq!(builder.neighbors(69999), &[0, 3]);
    builder.disconnect(0, 69999);
    builder.connect(0, 69999);
    let g = builder.build();
    assert_eq!(g.neighbor_to(0, 3), Some(69999));
    assert_eq!(g.neighbor_to(3, 0), Some(69999));
    assert_eq!(g.neighbor_to_with(0, 3, |n| n == 69999), Some(69999));
    assert_eq!(g.neighbor_to_with(0, 3, |n| n == 1), None);
    assert_eq!(g.neighbor_to(0, 5), None);
}

#[test]
fn edge_id_orders_its_ends() {
    assert_eq!(edge_id(5u16, 3u16), (3, 5));
    assert_eq!(edge_id(3u16, 5u16), (3, 5));
    assert_eq!(edge_id(4usize, 4usize), (4, 4));
}

#[test]
fn maze_from_seed() {
    let maze: Vec<(u16, u16)> = build_maze_from_seed(10u16, 8u16, [7u8; 32]);
    let again: Vec<(u16, u16)> = build_maze_from_seed(10u16, 8u16, [7u8; 32]);
    assert_eq!(maze, again);
    assert!(!maze.is_empty());
    assert!(maze.len() < 80);
    let mut entered = HashSet::new();
    for (a, b) in maze.iter().copied() {
        assert!(a < 80 && b < 80);
        let across = a.abs_diff(b) == 1 && a / 10 == b / 10;
        let down = a.abs_diff(b) == 10;
        assert!(across || down, "{} - {}", a, b);
        // no cell is entered twice
        assert!(entered.insert(b));
    }
    // a graph of the maze: the sequential and the parallel engine agree
    let mut seq = Graph::<u16>::builder(80);
    let mut par = Graph::<u16>::builder(80).multi_threaded(true);
    for (a, b) in maze.iter().copied() {
        seq.connect(a, b);
        par.connect(a, b);
    }
    let seq = seq.build();
    let par = par.build();
    for s in 0..80u16 {
        for t in 0..80u16 {
            assert_eq!(seq.next_node(s, t), par.next_node(s, t));
        }
    }
}

#[test]
fn nodes_connect_and_disconnect() {
    let mut builder: SeqGraphBuilder<u16> = SeqGraphBuilder::new(6);
    builder.connect(0, 1);
    builder.connect(0, 2);
    builder.connect(0, 3);
    builder.connect(2, 0);
    assert_eq!(builder.nodes.neighbors(0), &[1, 2, 3]);
    assert_eq!(builder.nodes.len(), 6);
    // the last neighbor takes the place of the one that leaves
    builder.disconnect(0, 1);
    assert_eq!(builder.nodes.neighbors(0), &[3, 2]);
    assert_eq!(builder.nodes.neighbors(1), &[] as &[u16]);
    assert_eq!(builder.edges_len(), 2);
    // the row of an edge says that it leads towards its larger end, and
    // that both ends are decided
    let row = builder.edges.get((2u16, 0u16)).unwrap();
    assert_eq!(row.0, vec![1 << 2]);
    let mask = builder.edge_masks.get((0u16, 2u16)).unwrap();
    assert_eq!(mask.0, vec![0b101]);
    assert!(builder.edges.get((0u16, 1u16)).is_none());
    // rows are merged
    let mut more = bit_gossip::bitvec::BitVec::one(5);
    more.set_bit(70, true);
    builder.edges.insert((0u16, 2u16), more);
    assert_eq!(builder.edges.get((0u16, 2u16)).unwrap().0, vec![0b100100, 1 << 6]);
}

#[test]
fn parallel_rows() {
    use_parallel_rows();
}

fn use_parallel_rows() {
    let mut rows = bit_gossip::graph::parallel::Edges::new();
    let mut bits = bit_gossip::bitvec::BitVec::one(3);
    rows.insert((4u16, 1u16), bits.clone(), 100);
    assert_eq!(rows.inner.len(), 1);
    let row = rows.get((1u16, 4u16)).unwrap();
    assert_eq!(row.0.len(), 2);
    assert!(row.get_bit(3));
    bits.set_bit(70, true);
    rows.update((1u16, 4u16), bits);
    assert!(rows.get((4u16, 1u16)).unwrap().get_bit(70));
    // an edge without a row takes nothing
    rows.update((1u16, 5u16), bit_gossip::bitvec::BitVec::one(9));
    assert!(rows.get((1u16, 5u16)).is_none());
    rows.insert((4u16, 1u16), bit_gossip::bitvec::BitVec::one(99), 100);
    assert!(rows.get((4u16, 1u16)).unwrap().get_bit(99));
    assert_eq!(rows.inner.len(), 1);
}

#[test]
fn node_ids() {
    use_node_ids();
}

fn use_node_ids() {
    assert_eq!(<u16 as bit_gossip::graph::U16orU32>::MAX_NODES, 65536);
    assert_eq!(<u32 as bit_gossip::graph::U16orU32>::MAX_NODES, 0xffff_ffff);
    assert_eq!(bit_gossip::graph::U16orU32::as_usize(7u16), 7);
    assert_eq!(<u16 as bit_gossip::graph::U16orU32>::from_usize(65536 + 5), 5);
    assert_eq!(<u32 as bit_gossip::graph::U16orU32>::from_usize(70000), 70000);
}

#[test]
fn unreachable_from_either_end() {
    // two triangles: no node of one reaches a node of the other
    for parallel in [false, true] {
        let mut builder = Graph::<u16>::builder(6).multi_threaded(parallel);
        for (a, b) in [(0, 1), (1, 2), (0, 2), (3, 4), (4, 5), (3, 5)] {
            builder.connect(a, b);
        }
        let graph = builder.build();
        for curr in 0..3u16 {
            for dest in 3..6u16 {
                assert_eq!(graph.next_node(curr, dest), None);
                assert_eq!(graph.next_node(dest, curr), None);
                assert_eq!(collect_next(&graph, curr, dest), Vec::<u16>::new());
                assert_eq!(collect_next(&graph, dest, curr), Vec::<u16>::new());
                assert_eq!(collect_path(&graph, dest, curr), Vec::<u16>::new());
                assert!(!graph.path_exists(curr, dest));
                assert!(!graph.path_exists(dest, curr));
            }
        }
        assert_eq!(graph.next_node(5, 3), Some(3));
    }
}

#[test]
fn isolated_node_is_reached_from_no_end() {
    let mut builder = Graph::<u16>::builder(3);
    builder.connect(0, 1);
    let graph = builder.build();
    assert_eq!(graph.next_node(0, 2), None);
    assert_eq!(graph.next_node(1, 2), None);
    assert_eq!(graph.next_node(2, 0), None);
    assert!(!graph.path_exists(0, 2));
    assert!(!graph.path_exists(1, 2));
    assert!(graph.path_exists(2, 2));
    assert_eq!(graph.next_node(1, 0), Some(0));
    assert_eq!(graph.next_node(0, 1), Some(1));
}

#[test]
fn round_trip_keeps_the_edges() {
    let mut builder = Graph::<u16>::builder(5);
    builder.connect(0, 1);
    builder.connect(1, 2);
    builder.connect(3, 4);
    let graph = builder.build();
    assert_eq!(graph.edges_len(), 3);
    let builder = graph.into_builder();
    assert_eq!(builder.edges_len(), 3);
    assert_eq!(builder.neighbors(1), &[0, 2]);
    let again = builder.build();
    assert_eq!(again.edges_len(), 3);
    assert_eq!(again.next_node(0, 2), Some(1));
    assert_eq!(again.next_node(0, 4), None);
}

#[test]
fn small_mazes() {
    let seed = [7u8; 32];
    let none: Vec<(u16, u16)> = build_maze_from_seed(1, 1, seed);
    assert!(none.is_empty());
    let one: Vec<(u16, u16)> = build_maze_from_seed(2, 1, seed);
    assert_eq!(one.len(), 1);
    assert!(one[0] == (0, 1) || one[0] == (1, 0));
    let more: Vec<(u16, u16)> = build_maze_from_seed(3, 3, seed);
    assert!(!more.is_empty() && more.len() < 9);
}
