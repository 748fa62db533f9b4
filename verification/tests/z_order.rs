use diagram_tool::document::{Node, NodeId, NodeKind};
use diagram_tool::ordered_float::OrderedFloat;
use diagram_tool::projection::{DiagramProjection, ReplayError};
use diagram_tool::z_order::{apply_bring_forward, apply_bring_to_front, apply_send_backward, apply_send_to_back, join_strings};
use im::HashMap;

fn of(v: f64) -> OrderedFloat {
    OrderedFloat(v.to_bits())
}

fn layered(z: &[(&str, i64)]) -> DiagramProjection {
    let mut p = DiagramProjection::empty();
    for (id, z_index) in z {
        let n = Node {
            kind: NodeKind::Node,
            icon: String::new(),
            label: id.to_string(),
            x: of(0.0),
            y: of(0.0),
            width: of(10.0),
            height: of(10.0),
            lock_state: diagram_tool::document::LockState::Unlocked,
            parent: None,
            tags: im::Vector::new(),
            metadata: HashMap::new(),
            z_index: *z_index,
            font_size: None,
            font_weight: None,
            dag_rank: None,
            style: None,
            collapsed: None,
        };
        p.nodes.insert(NodeId::new(id.to_string()), n);
    }
    p
}

fn abcd() -> DiagramProjection {
    layered(&[("a", 0), ("b", 1), ("c", 2), ("d", 3)])
}

fn ids(v: &[&str]) -> Vec<String> {
    v.iter().map(|s| s.to_string()).collect()
}

fn z_of(p: &DiagramProjection) -> Vec<(String, i64)> {
    let mut v: Vec<(String, i64)> = p.nodes.iter().map(|(k, n)| (k.id.clone(), n.z_index)).collect();
    v.sort();
    v
}

fn expect(v: &[(&str, i64)]) -> Vec<(String, i64)> {
    v.iter().map(|(k, z)| (k.to_string(), *z)).collect()
}

#[test]
fn bring_to_front_puts_the_selection_on_top() {
    let p = apply_bring_to_front(abcd(), &ids(&["a"])).unwrap();
    assert_eq!(z_of(&p), expect(&[("a", 3), ("b", 0), ("c", 1), ("d", 2)]));
    let p = apply_bring_to_front(abcd(), &ids(&["b", "zz", "a"])).unwrap();
    assert_eq!(z_of(&p), expect(&[("a", 2), ("b", 3), ("c", 0), ("d", 1)]));
}

#[test]
fn send_to_back_puts_the_selection_at_the_bottom() {
    let p = apply_send_to_back(abcd(), &ids(&["d"])).unwrap();
    assert_eq!(z_of(&p), expect(&[("a", 1), ("b", 2), ("c", 3), ("d", 0)]));
    let p = apply_send_to_back(abcd(), &ids(&["c", "d"])).unwrap();
    assert_eq!(z_of(&p), expect(&[("a", 2), ("b", 3), ("c", 0), ("d", 1)]));
}

#[test]
fn bring_forward_moves_each_selected_node_up_one_place() {
    let p = apply_bring_forward(abcd(), &ids(&["a"])).unwrap();
    assert_eq!(z_of(&p), expect(&[("a", 1), ("b", 0), ("c", 2), ("d", 3)]));
    let p = apply_bring_forward(abcd(), &ids(&["a", "b"])).unwrap();
    assert_eq!(z_of(&p), expect(&[("a", 1), ("b", 2), ("c", 0), ("d", 3)]));
    // The topmost node stays where it is.
    let p = apply_bring_forward(abcd(), &ids(&["d"])).unwrap();
    assert_eq!(z_of(&p), expect(&[("a", 0), ("b", 1), ("c", 2), ("d", 3)]));
}

#[test]
fn send_backward_moves_each_selected_node_down_one_place() {
    let p = apply_send_backward(abcd(), &ids(&["d"])).unwrap();
    assert_eq!(z_of(&p), expect(&[("a", 0), ("b", 1), ("c", 3), ("d", 2)]));
    let p = apply_send_backward(abcd(), &ids(&["c", "d"])).unwrap();
    assert_eq!(z_of(&p), expect(&[("a", 0), ("b", 3), ("c", 1), ("d", 2)]));
    let p = apply_send_backward(abcd(), &ids(&["a"])).unwrap();
    assert_eq!(z_of(&p), expect(&[("a", 0), ("b", 1), ("c", 2), ("d", 3)]));
}

#[test]
fn renumbering_starts_at_the_lowest_level() {
    let p = apply_bring_to_front(layered(&[("a", 5), ("b", 7), ("c", 9)]), &ids(&["a"])).unwrap();
    assert_eq!(z_of(&p), expect(&[("a", 7), ("b", 5), ("c", 6)]));
    let p = apply_send_to_back(layered(&[("a", -4), ("b", 10)]), &ids(&["b"])).unwrap();
    assert_eq!(z_of(&p), expect(&[("a", -3), ("b", -4)]));
}

#[test]
fn renumbering_saturates_at_the_top_level() {
    let p = apply_bring_to_front(layered(&[("a", i64::MAX - 1), ("b", i64::MAX)]), &ids(&["a"])).unwrap();
    assert_eq!(z_of(&p), expect(&[("a", i64::MAX), ("b", i64::MAX - 1)]));
    let p = apply_send_to_back(layered(&[("a", i64::MAX), ("b", i64::MAX)]), &ids(&["a"])).unwrap();
    assert_eq!(z_of(&p), expect(&[("a", i64::MAX), ("b", i64::MAX)]));
}

#[test]
fn z_order_refuses_empty_and_unknown_selections() {
    assert_eq!(apply_bring_to_front(abcd(), &[]), Err(ReplayError::NoNodesSpecified));
    assert_eq!(apply_send_backward(abcd(), &[]), Err(ReplayError::NoNodesSpecified));
    assert_eq!(apply_send_to_back(abcd(), &ids(&["x", "y"])), Err(ReplayError::AllNodesInvalid("x, y".to_string())));
    assert_eq!(apply_bring_forward(abcd(), &ids(&["x"])), Err(ReplayError::AllNodesInvalid("x".to_string())));
}

#[test]
fn z_order_changes_nothing_but_levels() {
    let before = abcd();
    let after = apply_bring_to_front(before.clone(), &ids(&["b"])).unwrap();
    assert_eq!(after.revision, before.revision);
    assert_eq!(after.version, before.version);
    assert_eq!(after.edges, before.edges);
    for (k, n) in before.nodes.iter() {
        let m = after.nodes.get(k).unwrap();
        assert_eq!((m.label.clone(), m.x, m.width, m.parent.clone()), (n.label.clone(), n.x, n.width, n.parent.clone()));
    }
    assert_eq!(after.nodes.len(), before.nodes.len());
}

#[test]
fn join_strings_separates_with_the_separator() {
    assert_eq!(join_strings(&ids(&[]), ", "), "");
    assert_eq!(join_strings(&ids(&["a"]), ", "), "a");
    assert_eq!(join_strings(&ids(&["a", "b", "c"]), "-"), "a-b-c");
}
