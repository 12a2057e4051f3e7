use consolidated_map::{Children, ConsolidatedBy, ConsolidatedMap, ConsolidatedMapBuilder};

fn collect(mut walk: Children) -> Vec<usize> {
    let mut out = Vec::new();
    while let Some(id) = walk.next() {
        out.push(id);
    }
    out
}

fn chain_map() -> ConsolidatedMap {
    let mut builder = ConsolidatedMapBuilder::new();
    builder.insert(1, 2).unwrap();
    builder.insert(2, 3).unwrap();
    builder.build()
}

fn key_and_below<C: ConsolidatedBy>(source: C, key: usize) -> Vec<usize> {
    collect(source.consolidated_by(key))
}

#[test]
fn children_of_a_chain_are_all_that_is_below() {
    let map = chain_map();
    assert_eq!(collect(map.children(1)), vec![2, 3]);
    assert_eq!(collect(map.children(2)), vec![3]);
    assert_eq!(collect(map.children(3)), Vec::<usize>::new());
    assert_eq!(collect(map.children(0)), Vec::<usize>::new());
}

#[test]
fn consolidated_leads_with_the_node_itself() {
    let map = chain_map();
    assert_eq!(collect(map.consolidated(1)), vec![1, 2, 3]);
    assert_eq!(collect(map.consolidated(2)), vec![2, 3]);
    assert_eq!(collect(map.consolidated(3)), vec![3]);
    assert_eq!(collect(map.consolidated(99)), vec![99]);
}

#[test]
fn membership_follows_the_chain_downwards_only() {
    let map = chain_map();
    assert!(map.contains_child(1, 3));
    assert!(map.contains_child(1, 2));
    assert!(map.contains_child(2, 3));
    assert!(!map.contains_child(3, 1));
    assert!(!map.contains_child(2, 1));
    assert!(!map.contains_child(1, 1));
    assert!(!map.contains_child(99, 1));
    assert!(!map.contains_child(1, 99));
}

#[test]
fn membership_of_an_identifier_beyond_32_bits_is_denied() {
    let map = chain_map();
    let wide = (u32::MAX as u64 + 1 + 2) as usize;
    assert!(!map.contains_child(1, wide));
    assert!(!map.contains_child(wide, 2));
    assert_eq!(collect(map.consolidated(wide)), vec![wide]);
}

#[test]
fn the_tens_of_the_introduction() {
    let mut builder = ConsolidatedMapBuilder::new();
    builder.insert(10, 20).unwrap();
    builder.insert(20, 30).unwrap();
    let map = builder.build();
    assert_eq!(collect(map.children(10)), vec![20, 30]);
    assert_eq!(collect(map.children(20)), vec![30]);
    assert!(collect(map.children(30)).is_empty());
    assert_eq!(collect(map.consolidated(10)), vec![10, 20, 30]);
    assert_eq!(collect(map.consolidated(5)), vec![5]);
}

#[test]
fn a_single_edge_from_bulk_construction() {
    let map = ConsolidatedMap::from_edges(&[(1, 2)]).unwrap();
    assert_eq!(collect(map.children(1)), vec![2]);
    assert_eq!(collect(map.children(3)), Vec::<usize>::new());
    assert_eq!(collect(map.consolidated(1)), vec![1, 2]);
    assert_eq!(collect(map.consolidated(3)), vec![3]);
    assert!(map.contains_child(1, 2));
}

#[test]
fn an_index_without_insertions_is_empty_everywhere() {
    let map = ConsolidatedMapBuilder::new().build();
    for node in [0usize, 1, 2, 99, 100_000] {
        assert_eq!(collect(map.children(node)), Vec::<usize>::new());
        assert_eq!(collect(map.consolidated(node)), vec![node]);
        assert!(!map.contains_child(node, 0));
        assert!(!map.contains_child(node, node));
    }
}

#[test]
fn the_default_index_is_empty_everywhere() {
    let map = ConsolidatedMap::default();
    for node in [0usize, 1, 7] {
        assert_eq!(collect(map.children(node)), Vec::<usize>::new());
        assert_eq!(collect(map.consolidated(node)), vec![node]);
        assert!(!map.contains_child(node, 1));
    }
}

#[test]
fn a_copy_answers_like_the_original_and_outlives_it() {
    let copy = {
        let map = chain_map();
        map.clone()
    };
    assert_eq!(collect(copy.children(1)), vec![2, 3]);
    assert_eq!(collect(copy.consolidated(2)), vec![2, 3]);
    assert!(copy.contains_child(1, 3));
    assert!(!copy.contains_child(3, 1));
}

#[test]
fn a_walk_hands_out_one_identifier_at_a_time() {
    let map = chain_map();
    let mut walk = map.consolidated(1);
    assert_eq!(walk.next(), Some(1));
    assert_eq!(walk.next(), Some(2));
    assert_eq!(walk.next(), Some(3));
    assert_eq!(walk.next(), None);
    assert_eq!(walk.next(), None);
}

#[test]
fn a_walk_can_be_taken_again() {
    let map = chain_map();
    assert_eq!(collect(map.children(1)), vec![2, 3]);
    assert_eq!(collect(map.children(1)), vec![2, 3]);
}

#[test]
fn the_size_hint_counts_what_is_left() {
    let map = chain_map();
    let mut walk = map.consolidated(1);
    assert_eq!(walk.size_hint(), (3, Some(3)));
    walk.next();
    assert_eq!(walk.size_hint(), (2, Some(2)));
    walk.next();
    assert_eq!(walk.size_hint(), (1, Some(1)));
    walk.next();
    assert_eq!(walk.size_hint(), (0, Some(0)));
    walk.next();
    assert_eq!(walk.size_hint(), (0, Some(0)));
    assert_eq!(map.children(1).size_hint(), (2, Some(2)));
    assert_eq!(map.children(99).size_hint(), (0, Some(0)));
    assert_eq!(map.consolidated(99).size_hint(), (1, Some(1)));
}

#[test]
fn consolidated_by_passes_through_to_the_index() {
    let map = chain_map();
    assert_eq!(collect(map.consolidated_by(1)), vec![1, 2, 3]);
    assert_eq!(collect(map.consolidated_by(99)), vec![99]);
    assert_eq!(key_and_below(&map, 2), vec![2, 3]);
    assert_eq!(key_and_below(&&map, 1), vec![1, 2, 3]);
}

#[test]
fn membership_in_a_wide_block_finds_every_member() {
    let mut builder = ConsolidatedMapBuilder::new();
    let mut child = 199usize;
    while child >= 1 {
        if child % 3 != 0 {
            builder.insert(0, child).unwrap();
        }
        child -= 1;
    }
    let map = builder.build();
    for node in 0..260usize {
        let expected = node >= 1 && node < 200 && node % 3 != 0;
        assert_eq!(map.contains_child(0, node), expected, "node {}", node);
    }
    let below: Vec<usize> = (1..200usize).filter(|n| n % 3 != 0).collect();
    assert_eq!(collect(map.children(0)), below);
}

#[test]
fn the_tens_are_refused_as_a_cycle_and_walked_with_the_key() {
    let mut builder = ConsolidatedMapBuilder::new();
    assert_eq!(builder.insert(10, 20), Ok(()));
    assert_eq!(builder.insert(20, 30), Ok(()));
    assert_eq!(
        builder.insert(30, 10),
        Err(consolidated_map::InsertError::CircularReference)
    );
    let map = builder.build();
    assert!(map.contains_child(10, 30));
    let mut walk = map.consolidated(10);
    assert_eq!(walk.next(), Some(10));
    assert_eq!(walk.next(), Some(20));
    assert_eq!(walk.next(), Some(30));
    assert_eq!(walk.next(), None);
}

#[test]
fn a_copied_walk_goes_its_own_way() {
    let map = chain_map();
    let mut walk = map.consolidated(1);
    assert_eq!(walk.next(), Some(1));
    let mut copy = walk.clone();
    assert_eq!(walk.next(), Some(2));
    assert_eq!(walk.next(), Some(3));
    assert_eq!(walk.next(), None);
    assert_eq!(copy.size_hint(), (2, Some(2)));
    assert_eq!(collect(copy.clone()), vec![2, 3]);
    assert_eq!(copy.next(), Some(2));
}
