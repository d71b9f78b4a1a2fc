use heroine_graph::edge::{EdgeId, EdgeState};
use heroine_graph::layout::NodeCategory;
use heroine_graph::node::{NodeId, NodeState};

#[test]
fn test_edge_id() {
    let id = EdgeId::new(42);
    assert_eq!(id.raw(), 42);
    assert_eq!(id.to_string(), "Edge(42)");
}

#[test]
fn test_edge_state() {
    let mut state = EdgeState::new();
    assert!(!state.is_hidden());
    assert!(!state.is_selected());

    state.set_selected(true);
    assert!(state.is_selected());
    assert!(!state.is_hidden());
}

#[test]
fn test_node_id() {
    let id = NodeId::new(42);
    assert_eq!(id.raw(), 42);
    assert_eq!(id.0, 42);
    assert_eq!(id.to_string(), "Node(42)");
}

#[test]
fn test_node_id_conversion() {
    let id: NodeId = 123.into();
    let raw: u32 = id.into();
    assert_eq!(raw, 123);
}

#[test]
fn test_node_state_default() {
    let state = NodeState::new();
    assert!(!state.is_pinned());
    assert!(!state.is_hidden());
    assert!(!state.is_selected());
    assert!(!state.is_hovered());
}

#[test]
fn test_node_state_pinned() {
    let mut state = NodeState::new();
    state.set_pinned(true);
    assert!(state.is_pinned());
    assert!(!state.is_hidden());

    state.set_pinned(false);
    assert!(!state.is_pinned());
}

#[test]
fn test_node_state_all_flags() {
    let mut state = NodeState::new();
    state.set_pinned(true);
    state.set_hidden(true);
    state.set_selected(true);
    state.set_hovered(true);

    assert!(state.is_pinned());
    assert!(state.is_hidden());
    assert!(state.is_selected());
    assert!(state.is_hovered());

    state.set_selected(false);
    assert!(state.is_pinned());
    assert!(state.is_hidden());
    assert!(!state.is_selected());
    assert!(state.is_hovered());
}

#[test]
fn labels_of_zero_and_large_ids() {
    assert_eq!(NodeId::new(0).to_string(), "Node(0)");
    assert_eq!(EdgeId::new(4294967295).to_string(), "Edge(4294967295)");
}

#[test]
fn edge_state_flags_are_independent() {
    let mut state = EdgeState::new();
    state.set_hidden(true);
    state.set_hovered(true);
    assert!(state.is_hidden());
    assert!(!state.is_selected());
    assert!(state.is_hovered());
    state.set_hidden(false);
    assert!(!state.is_hidden());
    assert!(state.is_hovered());
}

#[test]
fn edge_id_conversion_round_trip() {
    let id: EdgeId = 7.into();
    let raw: u32 = id.into();
    assert_eq!(raw, 7);
}

#[test]
fn category_codes() {
    assert_eq!(NodeCategory::from(0u8), NodeCategory::Repository);
    assert_eq!(NodeCategory::from(1u8), NodeCategory::Directory);
    assert_eq!(NodeCategory::from(2u8), NodeCategory::File);
    assert_eq!(NodeCategory::from(3u8), NodeCategory::Symbol);
    assert_eq!(NodeCategory::from(4u8), NodeCategory::Other);
    assert_eq!(NodeCategory::from(200u8), NodeCategory::Other);
}

#[test]
fn default_states_have_no_flags() {
    let n = NodeState::default();
    assert!(!n.is_pinned() && !n.is_hidden() && !n.is_selected() && !n.is_hovered());
    let e = EdgeState::default();
    assert!(!e.is_hidden() && !e.is_selected() && !e.is_hovered());
}
