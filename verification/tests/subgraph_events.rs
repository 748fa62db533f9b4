use diagram_tool::document::{Node, NodeId, NodeKind};
use diagram_tool::ordered_float::OrderedFloat;
use diagram_tool::projection::{CyclePolicy, DiagramProjection};
use diagram_tool::schema::check_parent_cycle;
use diagram_tool::subgraph_events::{
    apply_bounds_to_subgraph, attach_all_to_subgraph, attach_to_subgraph, detach_from_subgraph, detect_cycle,
    remove_all_nodes_from_subgraph, update_z_index_ordering, DiagramState, Error, Rect,
};
use im::HashMap;

fn of(v: f64) -> OrderedFloat {
    OrderedFloat(v.to_bits())
}

fn create_test_state() -> DiagramState {
    DiagramProjection {
        version: 1,
        revision: 0,
        nodes: HashMap::new(),
        edges: HashMap::new(),
        author_priority: HashMap::new(),
        cycle_policy: CyclePolicy::Allow,
    }
}

fn create_test_node(id: &str, kind: NodeKind, x: f64, y: f64, w: f64, h: f64, parent: Option<&str>) -> (NodeId, Node) {
    let node_id = NodeId::new(id.to_string());
    let node = Node {
        kind,
        icon: String::new(),
        label: String::new(),
        x: of(x),
        y: of(y),
        width: of(w),
        height: of(h),
        lock_state: diagram_tool::document::LockState::Unlocked,
        parent: parent.map(|s| NodeId::new(s.to_string())),
        tags: im::Vector::new(),
        metadata: HashMap::new(),
        z_index: if kind == NodeKind::Subgraph { 0 } else { 10 },
        font_size: None,
        font_weight: None,
        dag_rank: None,
        style: None,
        collapsed: None,
    };
    (node_id, node)
}

fn nid(s: &str) -> NodeId {
    NodeId::new(s.to_string())
}

#[test]
fn test_subgraph_z_index_orders_children_above_container() {
    let mut state = create_test_state();
    let (s1_id, s1) = create_test_node("S1", NodeKind::Subgraph, 0.0, 0.0, 10.0, 10.0, None);
    let (n1_id, mut n1) = create_test_node("N1", NodeKind::Node, 0.0, 0.0, 10.0, 10.0, Some("S1"));
    n1.z_index = -5; // Below container initially

    state.nodes.insert(s1_id.clone(), s1);
    state.nodes.insert(n1_id.clone(), n1);

    update_z_index_ordering(&s1_id, &mut state).unwrap();

    let n1_updated = state.nodes.get(&n1_id).unwrap();
    let s1_updated = state.nodes.get(&s1_id).unwrap();
    assert!(n1_updated.z_index > s1_updated.z_index);
}

#[test]
fn test_remove_all_nodes_leaves_empty_container() {
    let mut state = create_test_state();
    let (s1_id, s1) = create_test_node("S1", NodeKind::Subgraph, 0.0, 0.0, 10.0, 10.0, None);
    let (n1_id, n1) = create_test_node("N1", NodeKind::Node, 0.0, 0.0, 10.0, 10.0, Some("S1"));
    let (n2_id, n2) = create_test_node("N2", NodeKind::Node, 20.0, 20.0, 10.0, 10.0, Some("S1"));

    state.nodes.insert(s1_id.clone(), s1);
    state.nodes.insert(n1_id.clone(), n1);
    state.nodes.insert(n2_id.clone(), n2);

    remove_all_nodes_from_subgraph(&s1_id, &mut state).unwrap();

    let n1_updated = state.nodes.get(&n1_id).unwrap();
    let n2_updated = state.nodes.get(&n2_id).unwrap();
    assert_eq!(n1_updated.parent, None);
    assert_eq!(n2_updated.parent, None);

    let s1_updated = state.nodes.get(&s1_id).unwrap();
    assert_eq!(f64::from_bits(s1_updated.width.0), 0.0);
    assert_eq!(f64::from_bits(s1_updated.height.0), 0.0);
}

#[test]
fn z_index_ordering_leaves_other_nodes_alone_and_refuses_non_containers() {
    let mut state = create_test_state();
    let (s1_id, mut s1) = create_test_node("S1", NodeKind::Subgraph, 0.0, 0.0, 10.0, 10.0, None);
    s1.z_index = 7;
    let (n1_id, n1) = create_test_node("N1", NodeKind::Node, 0.0, 0.0, 10.0, 10.0, Some("S1"));
    let (n2_id, n2) = create_test_node("N2", NodeKind::Node, 0.0, 0.0, 10.0, 10.0, None);
    state.nodes.insert(s1_id.clone(), s1);
    state.nodes.insert(n1_id.clone(), n1);
    state.nodes.insert(n2_id.clone(), n2);

    update_z_index_ordering(&s1_id, &mut state).unwrap();
    assert_eq!(state.nodes.get(&n1_id).unwrap().z_index, 8);
    assert_eq!(state.nodes.get(&n2_id).unwrap().z_index, 10);
    assert_eq!(state.nodes.get(&s1_id).unwrap().z_index, 7);

    assert_eq!(update_z_index_ordering(&n2_id, &mut state), Err(Error::NodeNotFound(n2_id.clone())));
    assert_eq!(update_z_index_ordering(&nid("zz"), &mut state), Err(Error::NodeNotFound(nid("zz"))));
}

#[test]
fn remove_all_refuses_a_missing_or_plain_container() {
    let mut state = create_test_state();
    let (n1_id, n1) = create_test_node("N1", NodeKind::Node, 0.0, 0.0, 10.0, 10.0, None);
    let (n2_id, n2) = create_test_node("N2", NodeKind::Node, 0.0, 0.0, 10.0, 10.0, Some("N1"));
    state.nodes.insert(n1_id.clone(), n1);
    state.nodes.insert(n2_id.clone(), n2);
    let before = state.clone();

    assert_eq!(remove_all_nodes_from_subgraph(&n1_id, &mut state), Err(Error::NodeNotFound(n1_id.clone())));
    assert_eq!(remove_all_nodes_from_subgraph(&nid("S9"), &mut state), Err(Error::NodeNotFound(nid("S9"))));
    assert_eq!(state, before);
}

#[test]
fn remove_all_keeps_grandchildren_under_their_own_parent() {
    let mut state = create_test_state();
    let (s1_id, s1) = create_test_node("S1", NodeKind::Subgraph, 5.0, 5.0, 10.0, 10.0, None);
    let (s2_id, s2) = create_test_node("S2", NodeKind::Subgraph, 0.0, 0.0, 10.0, 10.0, Some("S1"));
    let (n1_id, n1) = create_test_node("N1", NodeKind::Node, 0.0, 0.0, 10.0, 10.0, Some("S2"));
    state.nodes.insert(s1_id.clone(), s1);
    state.nodes.insert(s2_id.clone(), s2);
    state.nodes.insert(n1_id.clone(), n1);

    remove_all_nodes_from_subgraph(&s1_id, &mut state).unwrap();
    assert_eq!(state.nodes.get(&s2_id).unwrap().parent, None);
    assert_eq!(state.nodes.get(&n1_id).unwrap().parent, Some(s2_id.clone()));
    let s1 = state.nodes.get(&s1_id).unwrap();
    assert_eq!((s1.x, s1.y, s1.width, s1.height), (of(0.0), of(0.0), of(0.0), of(0.0)));
    assert_eq!(state.nodes.len(), 3);
}

#[test]
fn attach_puts_a_node_under_a_container_and_reports_each_error() {
    let mut state = create_test_state();
    let (s1_id, s1) = create_test_node("S1", NodeKind::Subgraph, 0.0, 0.0, 10.0, 10.0, Some("S2"));
    let (s2_id, s2) = create_test_node("S2", NodeKind::Subgraph, 0.0, 0.0, 10.0, 10.0, None);
    let (n1_id, n1) = create_test_node("N1", NodeKind::Node, 0.0, 0.0, 10.0, 10.0, None);
    state.nodes.insert(s1_id.clone(), s1);
    state.nodes.insert(s2_id.clone(), s2);
    state.nodes.insert(n1_id.clone(), n1);

    assert_eq!(attach_to_subgraph(&n1_id, &nid("S9"), &mut state), Err(Error::NodeNotFound(nid("S9"))));
    assert_eq!(attach_to_subgraph(&nid("N9"), &s1_id, &mut state), Err(Error::NodeNotFound(nid("N9"))));
    assert_eq!(attach_to_subgraph(&s2_id, &s1_id, &mut state), Err(Error::CycleDetected(s2_id.clone(), s1_id.clone())));
    assert_eq!(attach_to_subgraph(&s1_id, &s1_id, &mut state), Err(Error::CycleDetected(s1_id.clone(), s1_id.clone())));
    assert_eq!(attach_to_subgraph(&n1_id, &n1_id, &mut state), Err(Error::NodeNotFound(n1_id.clone())));

    attach_to_subgraph(&n1_id, &s1_id, &mut state).unwrap();
    assert_eq!(state.nodes.get(&n1_id).unwrap().parent, Some(s1_id.clone()));

    let former = detach_from_subgraph(&n1_id, &mut state).unwrap();
    assert_eq!(former, Some(s1_id.clone()));
    assert_eq!(state.nodes.get(&n1_id).unwrap().parent, None);
    assert_eq!(detach_from_subgraph(&n1_id, &mut state), Ok(None));
    assert_eq!(detach_from_subgraph(&nid("N9"), &mut state), Err(Error::NodeNotFound(nid("N9"))));
}

#[test]
fn detect_cycle_follows_the_container_chain() {
    let mut state = create_test_state();
    let (a_id, a) = create_test_node("A", NodeKind::Subgraph, 0.0, 0.0, 1.0, 1.0, Some("B"));
    let (b_id, b) = create_test_node("B", NodeKind::Subgraph, 0.0, 0.0, 1.0, 1.0, Some("C"));
    let (c_id, c) = create_test_node("C", NodeKind::Subgraph, 0.0, 0.0, 1.0, 1.0, None);
    let (l_id, l) = create_test_node("L", NodeKind::Subgraph, 0.0, 0.0, 1.0, 1.0, Some("M"));
    let (m_id, m) = create_test_node("M", NodeKind::Subgraph, 0.0, 0.0, 1.0, 1.0, Some("L"));
    for (id, n) in [(a_id.clone(), a), (b_id.clone(), b), (c_id.clone(), c), (l_id.clone(), l), (m_id, m)] {
        state.nodes.insert(id, n);
    }
    assert_eq!(detect_cycle(&c_id, &a_id, &state), Err(Error::CycleDetected(c_id.clone(), a_id.clone())));
    assert_eq!(detect_cycle(&a_id, &c_id, &state), Ok(()));
    // A container whose own chain loops refuses every new child.
    assert_eq!(detect_cycle(&a_id, &l_id, &state), Err(Error::CycleDetected(a_id.clone(), l_id.clone())));
}

#[test]
fn attach_all_checks_every_node_before_moving_any() {
    let mut state = create_test_state();
    let (s1_id, s1) = create_test_node("S1", NodeKind::Subgraph, 0.0, 0.0, 10.0, 10.0, None);
    let (n1_id, n1) = create_test_node("N1", NodeKind::Node, 0.0, 0.0, 10.0, 10.0, None);
    let (n2_id, n2) = create_test_node("N2", NodeKind::Node, 20.0, 20.0, 10.0, 10.0, None);
    state.nodes.insert(s1_id.clone(), s1);
    state.nodes.insert(n1_id.clone(), n1);
    state.nodes.insert(n2_id.clone(), n2);
    let before = state.clone();

    let r = attach_all_to_subgraph(&[n1_id.clone(), nid("N9"), s1_id.clone()], &s1_id, &mut state);
    assert_eq!(r, Err(Error::NodeNotFound(nid("N9"))));
    assert_eq!(state, before);
    let r = attach_all_to_subgraph(&[n1_id.clone(), s1_id.clone(), nid("N9")], &s1_id, &mut state);
    assert_eq!(r, Err(Error::CycleDetected(s1_id.clone(), s1_id.clone())));
    assert_eq!(state, before);
    assert_eq!(attach_all_to_subgraph(&[n1_id.clone()], &n2_id, &mut state), Err(Error::NodeNotFound(n2_id.clone())));

    attach_all_to_subgraph(&[n1_id.clone(), n2_id.clone(), n1_id.clone()], &s1_id, &mut state).unwrap();
    assert_eq!(state.nodes.get(&n1_id).unwrap().parent, Some(s1_id.clone()));
    assert_eq!(state.nodes.get(&n2_id).unwrap().parent, Some(s1_id.clone()));
    assert_eq!(state.nodes.get(&s1_id).unwrap().parent, None);
}

#[test]
fn bounds_are_stored_on_the_container_only() {
    let mut state = create_test_state();
    let (s1_id, s1) = create_test_node("S1", NodeKind::Subgraph, 0.0, 0.0, 10.0, 10.0, None);
    let (n1_id, n1) = create_test_node("N1", NodeKind::Node, 1.0, 2.0, 3.0, 4.0, Some("S1"));
    state.nodes.insert(s1_id.clone(), s1);
    state.nodes.insert(n1_id.clone(), n1.clone());

    let b = Rect::new(of(-20.0), of(-20.0), of(50.0), of(70.0)).unwrap();
    apply_bounds_to_subgraph(&s1_id, b, &mut state).unwrap();
    let s1 = state.nodes.get(&s1_id).unwrap();
    assert_eq!((s1.x, s1.y, s1.width, s1.height), (of(-20.0), of(-20.0), of(50.0), of(70.0)));
    assert_eq!(s1.kind, NodeKind::Subgraph);
    assert_eq!(state.nodes.get(&n1_id).unwrap(), &n1);
    assert_eq!(apply_bounds_to_subgraph(&nid("S9"), b, &mut state), Err(Error::NodeNotFound(nid("S9"))));
}

#[test]
fn rect_refuses_negative_extent() {
    let bad = Rect { x: of(0.0), y: of(0.0), width: of(-1.0), height: of(5.0) };
    assert_eq!(Rect::new(of(0.0), of(0.0), of(-1.0), of(5.0)), Err(Error::InvalidBounds(bad)));
    assert!(Rect::new(of(0.0), of(0.0), of(0.0), of(-0.0)).is_ok());
    assert!(Rect::new(of(0.0), of(0.0), of(f64::NAN), of(1.0)).is_ok());
}

#[test]
fn emptying_a_container_leaves_no_parent_cycle() {
    let mut state = create_test_state();
    let (s1_id, s1) = create_test_node("S1", NodeKind::Subgraph, 0.0, 0.0, 10.0, 10.0, None);
    let (s2_id, s2) = create_test_node("S2", NodeKind::Subgraph, 0.0, 0.0, 10.0, 10.0, Some("S1"));
    let (n1_id, n1) = create_test_node("N1", NodeKind::Node, 0.0, 0.0, 10.0, 10.0, Some("S2"));
    state.nodes.insert(s1_id.clone(), s1);
    state.nodes.insert(s2_id.clone(), s2);
    state.nodes.insert(n1_id.clone(), n1);
    remove_all_nodes_from_subgraph(&s2_id, &mut state).unwrap();
    for k in state.nodes.keys() {
        assert!(!check_parent_cycle(&state.nodes, k));
    }
    assert_eq!(state.nodes.get(&n1_id).unwrap().parent, None);
    assert_eq!(state.nodes.get(&s2_id).unwrap().parent, Some(s1_id));
}
