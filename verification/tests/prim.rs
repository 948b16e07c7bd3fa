use bit_gossip::{
    Graph128, Graph128Builder, Graph16, Graph16Builder, Graph32Builder, Graph64Builder,
};

#[test]
fn test_graph_16() {
    pub const NODES_X_LEN: usize = 4;
    pub const NODES_Y_LEN: usize = 4;
    pub const NODES_LEN: usize = NODES_X_LEN * NODES_Y_LEN;

    let mut builder = Graph16Builder::new(NODES_LEN);

    // place a edge between every adjacent node
    for y in 0..NODES_Y_LEN {
        for x in 0..NODES_X_LEN {
            let node_id = y * NODES_X_LEN + x;

            if x > 0 {
                let a = (node_id - 1) as u8;
                let b = node_id as u8;
                builder.connect(a, b);
            }

            if y > 0 {
                let a = node_id as u8;
                let b = (node_id - NODES_X_LEN) as u8;
                builder.connect(a, b);
            }
        }
    }

    let now = std::time::Instant::now();
    let _graph = builder.build();
    println!("Time: {:?}", now.elapsed());
}

#[test]
fn test_graph_32() {
    pub const NODES_X_LEN: usize = 4;
    pub const NODES_Y_LEN: usize = 8;
    pub const NODES_LEN: usize = NODES_X_LEN * NODES_Y_LEN;

    let mut builder = Graph32Builder::new(NODES_LEN);

    // place a edge between every adjacent node
    for y in 0..NODES_Y_LEN {
        for x in 0..NODES_X_LEN {
            let node_id = y * NODES_X_LEN + x;

            if x > 0 {
                let a = (node_id - 1) as u8;
                let b = node_id as u8;
                builder.connect(a, b);
            }

            if y > 0 {
                let a = node_id as u8;
                let b = (node_id - NODES_X_LEN) as u8;
                builder.connect(a, b);
            }
        }
    }

    let now = std::time::Instant::now();
    let _graph = builder.build();
    println!("Time: {:?}", now.elapsed());
}

#[test]
fn test_graph_64() {
    pub const NODES_X_LEN: usize = 8;
    pub const NODES_Y_LEN: usize = 8;
    pub const NODES_LEN: usize = NODES_X_LEN * NODES_Y_LEN;

    let mut builder = Graph64Builder::new(NODES_LEN);

    // place a edge between every adjacent node
    for y in 0..NODES_Y_LEN {
        for x in 0..NODES_X_LEN {
            let node_id = y * NODES_X_LEN + x;

            if x > 0 {
                let a = (node_id - 1) as u8;
                let b = node_id as u8;
                builder.connect(a, b);
            }

            if y > 0 {
                let a = node_id as u8;
                let b = (node_id - NODES_X_LEN) as u8;
                builder.connect(a, b);
            }
        }
    }

    let now = std::time::Instant::now();
    let _graph = builder.build();
    println!("Time: {:?}", now.elapsed());
}

#[test]
fn test_graph_128() {
    pub const NODES_X_LEN: usize = 8;
    pub const NODES_Y_LEN: usize = 16;
    pub const NODES_LEN: usize = NODES_X_LEN * NODES_Y_LEN;

    let mut builder = Graph128Builder::new(NODES_LEN);

    // place a edge between every adjacent node
    for y in 0..NODES_Y_LEN {
        for x in 0..NODES_X_LEN {
            let node_id = y * NODES_X_LEN + x;

            if x > 0 {
                let a = (node_id - 1) as u8;
                let b = node_id as u8;
                builder.connect(a, b);
            }

            if y > 0 {
                let a = node_id as u8;
                let b = (node_id - NODES_X_LEN) as u8;
                builder.connect(a, b);
            }
        }
    }

    let now = std::time::Instant::now();
    let _graph = builder.build();
    println!("Time: {:?}", now.elapsed());
}

fn ladder16() -> Graph16 {
    let mut builder = Graph16::builder(12);
    for i in 0..12u8 {
        if i % 4 != 3 {
            builder.connect(i, i + 1);
        }
        if i < 8 {
            builder.connect(i, i + 4);
        }
    }
    builder.disconnect(1, 5);
    builder.disconnect(5, 9);
    builder.build()
}

#[test]
fn graph16_ladder() {
    let graph = ladder16();
    assert_eq!(graph.next_node(0, 9), Some(4));
    assert_eq!(graph.next_node(4, 9), Some(8));
    assert_eq!(graph.next_node(8, 9), Some(9));

    let mut it = graph.next_nodes(0, 11);
    let mut got = Vec::new();
    while let Some(n) = it.next() {
        got.push(n);
    }
    assert_eq!(got, vec![1, 4]);

    let mut it = graph.path_to(0, 5);
    let mut path = Vec::new();
    while let Some(n) = it.next() {
        path.push(n);
    }
    assert_eq!(path, vec![4, 5]);

    assert_eq!(graph.nodes_len(), 12);
    assert_eq!(graph.edges_len(), 15);
    let mut it = graph.neighbors(5);
    let mut nbrs = Vec::new();
    while let Some(n) = it.next() {
        nbrs.push(n);
    }
    assert_eq!(nbrs, vec![4, 6]);
}

#[test]
fn graph128_grid_paths() {
    let mut builder = Graph128Builder::new(128);
    for y in 0..16u8 {
        for x in 0..8u8 {
            let node = y * 8 + x;
            if x < 7 {
                builder.connect(node, node + 1);
            }
            if y < 15 {
                builder.connect(node, node + 8);
            }
        }
    }
    let graph: Graph128 = builder.build();
    // from one corner to the opposite one: 7 steps across and 15 down
    let mut it = graph.path_to(0, 127);
    let mut hops = 0;
    let mut last = 0;
    while let Some(n) = it.next() {
        hops += 1;
        last = n;
    }
    assert_eq!(hops, 22);
    assert_eq!(last, 127);
    assert_eq!(graph.next_node(5, 5), None);
    assert_eq!(graph.next_node_with(0, 127, |n| n == 8), Some(8));
    assert_eq!(graph.next_node_with(0, 127, |n| n == 9), None);
}

#[test]
fn graph16_rebuild() {
    let graph = ladder16();
    let mut builder = graph.into_builder();
    builder.connect(1, 5);
    let graph = builder.build();
    assert_eq!(graph.next_node(1, 5), Some(5));
    let mut builder = graph.into_builder();
    builder.process();
    let graph = builder.build();
    assert_eq!(graph.next_node(0, 9), Some(4));
}

#[test]
fn packed_neighbors_without() {
    let mut builder = Graph16::builder(8);
    builder.connect(3, 1);
    builder.connect(3, 7);
    builder.connect(3, 5);
    builder.connect(3, 3);
    let graph = builder.build();
    let mut it = graph.neighbors(3).without(5);
    let mut got = Vec::new();
    while let Some(n) = it.next() {
        got.push(n);
    }
    assert_eq!(got, vec![1, 7]);
    assert_eq!(graph.inner.nodes.inner[3], 0b1010_0010);
    assert_eq!(graph.edges_len(), 3);
    assert_eq!(graph.next_node(1, 7), Some(3));
    assert_eq!(graph.next_node(1, 0), None);
}

#[test]
fn graph16_unreachable_from_either_end() {
    let mut builder = Graph16Builder::new(6);
    for (a, b) in [(0, 1), (1, 2), (0, 2), (3, 4), (4, 5), (3, 5)] {
        builder.connect(a, b);
    }
    let graph = builder.build();
    for curr in 0..3u8 {
        for dest in 3..6u8 {
            assert_eq!(graph.next_node(curr, dest), None);
            assert_eq!(graph.next_node(dest, curr), None);
        }
    }
    assert_eq!(graph.next_node(5, 3), Some(3));
}
