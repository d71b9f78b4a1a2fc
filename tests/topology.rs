use heroine_graph::csr::csr_edge_pairs;
use heroine_graph::edge::EdgeId;
use heroine_graph::node::NodeId;
use heroine_graph::topology::GraphTopology;

#[test]
fn test_add_edge() {
    let mut engine = GraphTopology::new();
    let a = engine.add_node();
    let b = engine.add_node();

    let edge = engine.add_edge(a, b);
    assert!(edge.is_some());
    assert_eq!(engine.edge_count(), 1);
}

#[test]
fn test_get_neighbors() {
    let mut engine = GraphTopology::new();
    let a = engine.add_node();
    let b = engine.add_node();
    let c = engine.add_node();

    engine.add_edge(a, b);
    engine.add_edge(a, c);

    let neighbors = engine.get_neighbors(a);
    assert_eq!(neighbors.len(), 2);
    assert!(neighbors.contains(&b.0));
    assert!(neighbors.contains(&c.0));
}

#[test]
fn test_pin_unpin() {
    let mut engine = GraphTopology::new();
    let id = engine.add_node();

    assert!(!engine.is_node_pinned(id));

    engine.pin_node(id);
    assert!(engine.is_node_pinned(id));

    engine.unpin_node(id);
    assert!(!engine.is_node_pinned(id));
}

#[test]
fn engine_test_clear() {
    let mut engine = GraphTopology::new();
    engine.add_node();
    engine.add_node();

    engine.clear();
    assert_eq!(engine.node_count(), 0);
    assert_eq!(engine.edge_count(), 0);
}

#[test]
fn test_remove_node_csr_no_panic() {
    let mut engine = GraphTopology::new();
    let a = engine.add_node();
    let b = engine.add_node();
    let c = engine.add_node();

    engine.add_edge(a, b);
    engine.add_edge(b, c);

    engine.remove_node(b);

    let csr = engine.get_edges_csr();
    assert!(!csr.is_empty());

    let inverse_csr = engine.get_inverse_edges_csr();
    assert!(!inverse_csr.is_empty());

    let degrees = engine.get_node_degrees();
    assert!(!degrees.is_empty());
}

#[test]
fn test_node_bound() {
    let mut engine = GraphTopology::new();
    let a = engine.add_node();
    let _b = engine.add_node();
    let _c = engine.add_node();

    assert_eq!(engine.node_bound(), 3);

    engine.remove_node(a);
    assert_eq!(engine.node_count(), 2);
    assert_eq!(engine.node_bound(), 3);
}

#[test]
fn ids_start_at_zero_and_count_up() {
    let mut engine = GraphTopology::new();
    assert_eq!(engine.add_node(), NodeId(0));
    assert_eq!(engine.add_node(), NodeId(1));
    assert_eq!(engine.add_edge(NodeId(0), NodeId(1)), Some(EdgeId(0)));
    assert_eq!(engine.add_edge(NodeId(1), NodeId(0)), Some(EdgeId(1)));
}

#[test]
fn edge_to_unknown_node_is_refused() {
    let mut engine = GraphTopology::new();
    let a = engine.add_node();
    assert_eq!(engine.add_edge(a, NodeId(5)), None);
    assert_eq!(engine.add_edge(NodeId(9), a), None);
    assert_eq!(engine.edge_count(), 0);
}

#[test]
fn clear_restarts_ids_and_edges_succeed_again() {
    let mut engine = GraphTopology::new();
    for _ in 0..5 {
        engine.add_node();
    }
    engine.add_edge(NodeId(0), NodeId(4));
    engine.clear();
    assert_eq!(engine.node_bound(), 0);
    assert_eq!(engine.add_node(), NodeId(0));
    assert_eq!(engine.add_node(), NodeId(1));
    assert_eq!(engine.add_edge(NodeId(0), NodeId(1)), Some(EdgeId(0)));
    assert_eq!(engine.add_edge(NodeId(0), NodeId(4)), None);
}

#[test]
fn remove_node_drops_touching_edges() {
    let mut engine = GraphTopology::new();
    let a = engine.add_node();
    let b = engine.add_node();
    let c = engine.add_node();
    engine.add_edge(a, b);
    engine.add_edge(b, c);
    engine.add_edge(c, a);
    assert!(engine.remove_node(b));
    assert_eq!(engine.node_count(), 2);
    assert_eq!(engine.node_bound(), 3);
    assert_eq!(engine.edge_count(), 1);
    // offsets [0, 1, 1, 1] then targets [.., ..]: only c -> a is left.
    assert_eq!(engine.get_edges_csr(), vec![0, 0, 0, 1, 0]);
    assert_eq!(engine.get_inverse_edges_csr(), vec![0, 1, 1, 1, 2]);
    assert_eq!(engine.get_node_degrees(), vec![0, 1, 0, 0, 1, 0]);
    assert!(!engine.remove_node(b));
    assert!(!engine.remove_node(NodeId(17)));
}

#[test]
fn remove_edge_by_id() {
    let mut engine = GraphTopology::new();
    let a = engine.add_node();
    let b = engine.add_node();
    let e = engine.add_edge(a, b).unwrap();
    assert!(engine.remove_edge(e));
    assert!(!engine.remove_edge(e));
    assert!(!engine.remove_edge(EdgeId(3)));
    assert_eq!(engine.edge_count(), 0);
    assert_eq!(engine.edge_bound(), 1);
}

#[test]
fn csr_groups_targets_by_source() {
    let mut engine = GraphTopology::new();
    for _ in 0..4 {
        engine.add_node();
    }
    engine.add_edge(NodeId(2), NodeId(0));
    engine.add_edge(NodeId(0), NodeId(1));
    engine.add_edge(NodeId(2), NodeId(3));
    engine.add_edge(NodeId(0), NodeId(3));
    assert_eq!(engine.get_edges_csr(), vec![0, 2, 2, 4, 4, 1, 3, 0, 3]);
    assert_eq!(engine.get_inverse_edges_csr(), vec![0, 1, 2, 2, 4, 2, 0, 2, 0]);
    assert_eq!(engine.get_node_degrees(), vec![2, 1, 0, 1, 2, 0, 0, 2]);
}

#[test]
fn csr_round_trip_rebuilds_the_same_edges() {
    let mut engine = GraphTopology::new();
    for _ in 0..5 {
        engine.add_node();
    }
    engine.add_edges_from_pairs(&[3, 1, 0, 4, 3, 0, 1, 2, 0, 4]);
    engine.remove_node(NodeId(2));
    let csr = engine.get_edges_csr();
    let pairs = csr_edge_pairs(&csr, engine.node_bound() as usize);

    let mut fresh = GraphTopology::new();
    for _ in 0..engine.node_bound() {
        fresh.add_node();
    }
    let added = fresh.add_edges_from_pairs(&pairs);
    assert_eq!(added, engine.edge_count());
    assert_eq!(fresh.get_edges_csr(), csr);
    assert_eq!(fresh.get_node_degrees(), engine.get_node_degrees());
}

#[test]
fn add_edges_from_pairs_skips_unknown_and_odd_tail() {
    let mut engine = GraphTopology::new();
    engine.add_node();
    engine.add_node();
    let added = engine.add_edges_from_pairs(&[0, 1, 1, 7, 1, 0, 5]);
    assert_eq!(added, 2);
    assert_eq!(engine.edge_count(), 2);
    assert_eq!(engine.get_neighbors(NodeId(1)), vec![0]);
}

#[test]
fn csr_edge_pairs_cuts_rows_at_the_end() {
    assert_eq!(csr_edge_pairs(&[0, 1, 2], 2), Vec::<u32>::new());
    assert_eq!(csr_edge_pairs(&[0, 1, 2, 1, 0], 2), vec![0, 1, 1, 0]);
    assert_eq!(csr_edge_pairs(&[0, 1, 5, 1], 2), vec![0, 1]);
}

#[test]
fn unknown_node_queries_are_empty() {
    let engine = GraphTopology::new();
    assert!(engine.get_neighbors(NodeId(3)).is_empty());
    assert!(!engine.is_node_pinned(NodeId(3)));
    assert!(!engine.contains_node(NodeId(0)));
    assert_eq!(engine.get_edges_csr(), vec![0]);
    assert!(engine.get_node_degrees().is_empty());
}
