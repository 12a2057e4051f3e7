use consolidated_map::{Children, ConsolidatedMap, ConsolidatedMapBuilder, InsertError};

fn gather(mut walk: Children) -> Vec<usize> {
    let mut out = Vec::new();
    while let Some(id) = walk.next() {
        out.push(id);
    }
    out
}

/// A small generator of reproducible numbers.
fn step(state: &mut u64) -> usize {
    *state = state
        .wrapping_mul(6364136223846793005)
        .wrapping_add(1442695040888963407);
    (*state >> 33) as usize
}

/// A forest of `nodes` nodes, as the parent of each node, and its edges in a shuffled order.
fn forest(nodes: usize, seed: u64) -> (Vec<Option<usize>>, Vec<(usize, usize)>) {
    let mut state = seed;
    // the nodes get their parents among the nodes placed before them
    let mut placed: Vec<usize> = (0..nodes).collect();
    for i in (1..nodes).rev() {
        placed.swap(i, step(&mut state) % (i + 1));
    }
    let mut parents = vec![None; nodes];
    let mut edges = Vec::new();
    for at in 1..nodes {
        if step(&mut state) % 5 != 0 {
            let parent = placed[step(&mut state) % at];
            parents[placed[at]] = Some(parent);
            edges.push((parent, placed[at]));
        }
    }
    for i in (1..edges.len()).rev() {
        edges.swap(i, step(&mut state) % (i + 1));
    }
    (parents, edges)
}

fn is_below(parents: &[Option<usize>], above: usize, node: usize) -> bool {
    let mut at = parents[node];
    while let Some(parent) = at {
        if parent == above {
            return true;
        }
        at = parents[parent];
    }
    false
}

fn built(edges: &[(usize, usize)]) -> ConsolidatedMap {
    let mut builder = ConsolidatedMapBuilder::new();
    for &(parent, child) in edges {
        assert_eq!(builder.insert(parent, child), Ok(()));
    }
    builder.build()
}

#[test]
fn descendants_of_generated_forests_are_strictly_ascending() {
    for seed in 0..40u64 {
        let nodes = 2 + (seed as usize * 7) % 60;
        let (_, edges) = forest(nodes, seed);
        let map = built(&edges);
        for node in 0..nodes + 3 {
            let below = gather(map.children(node));
            assert!(below.windows(2).all(|pair| pair[0] < pair[1]), "seed {}", seed);
            let with_self = gather(map.consolidated(node));
            assert_eq!(with_self[0], node);
            assert_eq!(&with_self[1..], &below[..]);
        }
    }
}

#[test]
fn descendants_of_generated_forests_are_all_that_is_below() {
    for seed in 100..130u64 {
        let nodes = 2 + (seed as usize * 11) % 50;
        let (parents, edges) = forest(nodes, seed);
        let map = built(&edges);
        for above in 0..nodes {
            let expected: Vec<usize> =
                (0..nodes).filter(|&node| is_below(&parents, above, node)).collect();
            assert_eq!(gather(map.children(above)), expected, "seed {}", seed);
            for node in 0..nodes {
                assert_eq!(
                    map.contains_child(above, node),
                    is_below(&parents, above, node),
                    "seed {}",
                    seed
                );
            }
        }
    }
}

#[test]
fn the_order_of_the_edges_of_generated_forests_does_not_matter() {
    for seed in 200..220u64 {
        let nodes = 2 + (seed as usize * 13) % 40;
        let (_, edges) = forest(nodes, seed);
        let mut reversed = edges.clone();
        reversed.reverse();
        let one = built(&edges);
        let other = built(&reversed);
        for node in 0..nodes + 2 {
            assert_eq!(gather(one.children(node)), gather(other.children(node)));
        }
    }
}

#[test]
fn repeating_every_edge_of_generated_forests_changes_nothing() {
    for seed in 300..315u64 {
        let nodes = 2 + (seed as usize * 5) % 40;
        let (_, edges) = forest(nodes, seed);
        let mut doubled = edges.clone();
        doubled.extend(edges.iter().copied());
        let one = built(&edges);
        let other = built(&doubled);
        for node in 0..nodes + 2 {
            assert_eq!(gather(one.children(node)), gather(other.children(node)));
        }
    }
}

#[test]
fn an_edge_up_a_generated_forest_is_refused_as_a_cycle() {
    for seed in 400..420u64 {
        let nodes = 2 + (seed as usize * 3) % 40;
        let (parents, edges) = forest(nodes, seed);
        let mut builder = ConsolidatedMapBuilder::new();
        for &(parent, child) in &edges {
            assert_eq!(builder.insert(parent, child), Ok(()));
        }
        for above in 0..nodes {
            for node in 0..nodes {
                if is_below(&parents, above, node) {
                    assert_eq!(
                        builder.insert(node, above),
                        Err(InsertError::CircularReference)
                    );
                } else if above != node && parents[node].is_some() && parents[node] != Some(above)
                    && !is_below(&parents, node, above)
                {
                    assert_eq!(builder.insert(above, node), Err(InsertError::AlreadyHasParent));
                }
            }
        }
        let map = builder.build();
        let untouched = built(&edges);
        for node in 0..nodes {
            assert_eq!(gather(map.children(node)), gather(untouched.children(node)));
        }
    }
}

#[test]
fn a_long_chain_holds_everything_below_each_node() {
    let mut builder = ConsolidatedMapBuilder::new();
    // the chain is put together from the bottom up and from the middle out
    for node in (25..50usize).rev() {
        assert_eq!(builder.insert(node, node + 1), Ok(()));
    }
    for node in 0..25usize {
        assert_eq!(builder.insert(node, node + 1), Ok(()));
    }
    let map = builder.build();
    for node in 0..=50usize {
        let expected: Vec<usize> = (node + 1..=50).collect();
        assert_eq!(gather(map.children(node)), expected);
        assert_eq!(map.children(node).size_hint(), (50 - node, Some(50 - node)));
    }
    assert!(map.contains_child(0, 50));
    assert!(!map.contains_child(50, 0));
}

#[test]
fn neighbouring_edges_of_generated_forests_can_change_places() {
    for seed in 500..512u64 {
        let nodes = 3 + (seed as usize * 7) % 30;
        let (_, edges) = forest(nodes, seed);
        let one = built(&edges);
        for at in 0..edges.len().saturating_sub(1) {
            let mut exchanged = edges.clone();
            exchanged.swap(at, at + 1);
            let other = ConsolidatedMap::from_edges(&exchanged).unwrap();
            for node in 0..nodes + 1 {
                assert_eq!(gather(one.children(node)), gather(other.children(node)));
            }
        }
    }
}
