use heroine_graph::tree::{build_tree, count_descendants, layout_tree, parse_tree_edges, select_root};

#[test]
fn odd_edge_array_is_rejected() {
    assert!(parse_tree_edges(3, &[0, 1, 2]).is_none());
    assert!(layout_tree(3, &[0, 1, 2], None).is_none());
}

#[test]
fn out_of_bounds_and_self_loops_are_dropped() {
    let lists = parse_tree_edges(3, &[0, 1, 0, 999, 2, 2, 1, 2]).unwrap();
    assert_eq!(lists.children[0], vec![1]);
    assert_eq!(lists.children[1], vec![2]);
    assert!(lists.children[2].is_empty());
    assert!(!lists.has_parent[0]);
    assert!(lists.has_parent[1]);
    assert!(lists.has_parent[2]);
}

#[test]
fn only_dropped_pairs_give_no_tree() {
    assert!(layout_tree(2, &[0, 0, 1, 5], None).is_none());
    assert!(layout_tree(2, &[], Some(0)).is_none());
}

#[test]
fn cycle_lays_out_each_node_once() {
    let t = layout_tree(3, &[0, 1, 1, 2, 2, 0], None).unwrap();
    // Every node has a parent: the lowest id is the root.
    assert_eq!(t.root, 0);
    assert_eq!(t.tree.nodes.len(), 3);
    let mut slots: Vec<u32> = t.tree.nodes.iter().map(|n| n.slot).collect();
    slots.sort();
    assert_eq!(slots, vec![0, 1, 2]);
    assert_eq!(t.tree.nodes[0].depth, 0);
    assert_eq!(t.tree.nodes[1].depth, 1);
    assert_eq!(t.tree.nodes[2].depth, 2);
}

#[test]
fn root_with_most_descendants_wins() {
    // 0 -> 1, and 2 -> 3 -> 4: two parentless nodes, 2 reaches more.
    let lists = parse_tree_edges(5, &[0, 1, 2, 3, 3, 4]).unwrap();
    assert_eq!(count_descendants(&lists, 0), 1);
    assert_eq!(count_descendants(&lists, 2), 2);
    assert_eq!(select_root(&lists, None), Some(2));
    assert_eq!(select_root(&lists, Some(0)), Some(0));
}

#[test]
fn tie_goes_to_the_lowest_id() {
    let lists = parse_tree_edges(4, &[3, 2, 1, 0]).unwrap();
    assert_eq!(select_root(&lists, None), Some(1));
}

#[test]
fn depth_first_order_and_children() {
    // 0 -> 1, 0 -> 2, 1 -> 3, 1 -> 4, 2 -> 5
    let t = layout_tree(6, &[0, 1, 0, 2, 1, 3, 1, 4, 2, 5], None).unwrap();
    let slots: Vec<u32> = t.tree.nodes.iter().map(|n| n.slot).collect();
    assert_eq!(slots, vec![0, 1, 3, 4, 2, 5]);
    let depths: Vec<u32> = t.tree.nodes.iter().map(|n| n.depth).collect();
    assert_eq!(depths, vec![0, 1, 2, 2, 1, 2]);
    assert_eq!(t.tree.nodes[0].children, vec![1, 4]);
    assert_eq!(t.tree.nodes[1].children, vec![2, 3]);
    assert_eq!(t.tree.nodes[4].children, vec![5]);
    assert_eq!(t.tree.nodes[3].number, 1);
    assert_eq!(t.tree.nodes[4].parent, Some(0));
}

#[test]
fn disconnected_nodes_stay_out_of_the_tree() {
    let t = layout_tree(5, &[0, 1, 0, 2], Some(0)).unwrap();
    assert_eq!(t.tree.nodes.len(), 3);
    assert_eq!(t.tree.index_of[3], None);
    assert_eq!(t.tree.index_of[4], None);
    assert_eq!(t.tree.index_of[2], Some(2));
}

#[test]
fn explicit_root_out_of_range_gives_an_empty_tree() {
    let lists = parse_tree_edges(2, &[0, 1]).unwrap();
    let tree = build_tree(&lists, 9);
    assert!(tree.nodes.is_empty());
    assert_eq!(tree.index_of, vec![None, None]);
}

#[test]
fn revisited_child_is_skipped_but_numbered() {
    // 0 -> 1, 0 -> 2, 1 -> 2: node 2 is reached through 1 first.
    let t = layout_tree(3, &[0, 1, 0, 2, 1, 2], None).unwrap();
    let slots: Vec<u32> = t.tree.nodes.iter().map(|n| n.slot).collect();
    assert_eq!(slots, vec![0, 1, 2]);
    assert_eq!(t.tree.nodes[0].children, vec![1]);
    assert_eq!(t.tree.nodes[2].parent, Some(1));
}

#[test]
fn child_reached_through_a_sibling_is_one_level_deeper() {
    // 0 -> 1, 1 -> 2, 0 -> 2: the walk reaches 2 through 1 before 0's own edge.
    let t = layout_tree(3, &[0, 1, 1, 2, 0, 2], None).unwrap();
    let depths: Vec<u32> = t.tree.nodes.iter().map(|n| n.depth).collect();
    assert_eq!(depths, vec![0, 1, 2]);
    assert_eq!(t.tree.nodes[2].parent, Some(1));
    assert_eq!(t.tree.nodes[0].children, vec![1]);
}
