use heroine_graph::community::{
    coarsen_graph, compact_communities, graph_from_csr, levels_fit, map_levels_to_original,
};

#[test]
fn compaction_numbers_in_order_of_first_appearance() {
    let (ids, count) = compact_communities(&[7, 3, 7, 9, 3]);
    assert_eq!(ids, vec![0, 1, 0, 2, 1]);
    assert_eq!(count, 3);
    let (ids, count) = compact_communities(&[]);
    assert!(ids.is_empty());
    assert_eq!(count, 0);
}

#[test]
fn levels_map_back_to_nodes() {
    let levels = vec![vec![1, 1, 0, 2], vec![1, 0, 0]];
    assert!(levels_fit(&levels, 4));
    // node 0 -> 1 -> 0, node 2 -> 0 -> 1, node 3 -> 2 -> 0
    assert_eq!(map_levels_to_original(&levels, 4), vec![0, 0, 1, 0]);
}

#[test]
fn levels_out_of_range_are_detected() {
    let levels = vec![vec![0, 5], vec![0]];
    assert!(!levels_fit(&levels, 2));
    assert!(levels_fit(&levels, 1));
}

#[test]
fn no_levels_keeps_every_node_apart() {
    let levels: Vec<Vec<usize>> = Vec::new();
    assert_eq!(map_levels_to_original(&levels, 3), vec![0, 1, 2]);
}

#[test]
fn weighted_graph_counts_each_edge_both_ways() {
    // Three nodes, edges 0 -> 1, 0 -> 2, 2 -> 1, and one to an unknown node.
    let csr = [0, 2, 2, 4, 1, 2, 1, 9];
    let g = graph_from_csr(&csr, 3);
    assert_eq!(g.total_weight, 3);
    assert_eq!(g.degree, vec![2, 2, 2]);
    assert_eq!(g.neighbors[0], vec![(1, 1), (2, 1)]);
    assert_eq!(g.neighbors[1], vec![(0, 1), (2, 1)]);
    assert_eq!(g.neighbors[2], vec![(0, 1), (1, 1)]);
}

#[test]
fn weighted_graph_without_edges() {
    let g = graph_from_csr(&[0, 0, 0], 2);
    assert_eq!(g.total_weight, 0);
    assert_eq!(g.degree, vec![0, 0]);
}

#[test]
fn coarsening_merges_members_and_keeps_self_loops() {
    // Path 0 - 1 - 2 - 3; communities {0, 1} and {2, 3}.
    let csr = [0, 1, 2, 3, 3, 1, 2, 3];
    let g = graph_from_csr(&csr, 4);
    let coarse = coarsen_graph(&g, &[0, 0, 1, 1], 2);
    assert_eq!(coarse.neighbors[0], vec![(0, 2), (1, 1)]);
    assert_eq!(coarse.neighbors[1], vec![(0, 1), (1, 2)]);
    assert_eq!(coarse.degree, vec![3, 3]);
    assert_eq!(coarse.total_weight, 3);
}

#[test]
fn coarsening_into_one_community() {
    let csr = [0, 2, 2, 4, 1, 2, 1, 9];
    let g = graph_from_csr(&csr, 3);
    let coarse = coarsen_graph(&g, &[0, 0, 0], 1);
    assert_eq!(coarse.neighbors[0], vec![(0, 6)]);
    assert_eq!(coarse.degree, vec![6]);
    assert_eq!(coarse.total_weight, 3);
}
