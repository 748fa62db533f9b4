use diagram_tool::document::{DiagramDocument, Node, NodeId, NodeKind};
use diagram_tool::ordered_float::OrderedFloat;
use diagram_tool::selection::{handle_double_click, handle_long_press, SelectionError};
use im::HashMap;

fn of(v: f64) -> OrderedFloat {
    OrderedFloat(v.to_bits())
}

fn shape(label: &str, x: f64, y: f64, size: f64) -> Node {
    Node {
        kind: NodeKind::Node,
        icon: "".to_string(),
        label: label.to_string(),
        x: of(x),
        y: of(y),
        width: of(size),
        height: of(size),
        lock_state: diagram_tool::document::LockState::Unlocked,
        parent: None,
        tags: im::Vector::new(),
        metadata: HashMap::new(),
        z_index: 0,
        font_size: None,
        font_weight: None,
        dag_rank: None,
        style: None,
        collapsed: None,
    }
}

fn setup_doc() -> DiagramDocument {
    let mut doc = DiagramDocument::default();
    doc.document.nodes.insert(NodeId::new("n1".to_string()), shape("n1", 0.0, 0.0, 100.0));
    doc.document.nodes.insert(NodeId::new("n2".to_string()), shape("n2", 200.0, 200.0, 50.0));
    doc
}

fn lock_n1(doc: &mut DiagramDocument) {
    let id = NodeId::new("n1".to_string());
    let mut n = doc.document.nodes.get(&id).unwrap().clone();
    n.lock_state = diagram_tool::document::LockState::Locked;
    doc.document.nodes.insert(id, n);
}

#[test]
fn selection_test_sel_022_long_press_adds_node_to_selection_without_drag() {
    let mut doc = setup_doc();
    let res = handle_long_press(&mut doc, NodeId::new("n1".to_string()), of(2.0));
    assert!(res.is_ok());
    assert!(doc.editor_state.selected_items.contains("n1"));
}

#[test]
fn selection_test_sel_023_double_click_enters_edit_mode_on_shape() {
    let mut doc = setup_doc();
    let res = handle_double_click(&mut doc, NodeId::new("n1".to_string()));
    assert!(res.is_ok());
    assert_eq!(doc.editor_state.edit_mode_target.as_deref(), Some("n1"));
}

#[test]
fn selection_test_long_press_fails_when_movement_exceeds_threshold() {
    let mut doc = setup_doc();
    let res = handle_long_press(&mut doc, NodeId::new("n1".to_string()), of(15.0));
    assert_eq!(res.unwrap_err(), SelectionError::MovementExceededDragThreshold);
}

#[test]
fn selection_test_double_click_fails_on_uneditable_nodes() {
    let mut doc = setup_doc();
    lock_n1(&mut doc);

    let res = handle_double_click(&mut doc, NodeId::new("n1".to_string()));
    assert_eq!(res.unwrap_err(), SelectionError::NodeNotEditable);
}

#[test]
fn selection_test_p2_violation_returns_movement_exceeded_drag_threshold() {
    let mut doc = setup_doc();
    let res = handle_long_press(&mut doc, NodeId::new("n1".to_string()), of(6.0));
    assert_eq!(res, Err(SelectionError::MovementExceededDragThreshold));
}

#[test]
fn selection_test_p3_violation_returns_node_not_editable() {
    let mut doc = setup_doc();
    lock_n1(&mut doc);
    let res = handle_double_click(&mut doc, NodeId::new("n1".to_string()));
    assert_eq!(res, Err(SelectionError::NodeNotEditable));
}

#[test]
fn tests_test_sel_022_long_press_adds_node_to_selection_without_drag() {
    let mut doc = setup_doc();
    let res = handle_long_press(&mut doc, NodeId::new("n1".to_string()), of(2.0));
    assert!(res.is_ok());
    assert!(doc.editor_state.selected_items.contains("n1"));
}

#[test]
fn tests_test_sel_023_double_click_enters_edit_mode_on_shape() {
    let mut doc = setup_doc();
    let res = handle_double_click(&mut doc, NodeId::new("n1".to_string()));
    assert!(res.is_ok());
    assert_eq!(doc.editor_state.edit_mode_target.as_deref(), Some("n1"));
}

#[test]
fn tests_test_long_press_fails_when_movement_exceeds_threshold() {
    let mut doc = setup_doc();
    let res = handle_long_press(&mut doc, NodeId::new("n1".to_string()), of(15.0));
    assert_eq!(res.unwrap_err(), SelectionError::MovementExceededDragThreshold);
}

#[test]
fn tests_test_double_click_fails_on_uneditable_nodes() {
    let mut doc = setup_doc();
    lock_n1(&mut doc);

    let res = handle_double_click(&mut doc, NodeId::new("n1".to_string()));
    assert_eq!(res.unwrap_err(), SelectionError::NodeNotEditable);
}

#[test]
fn tests_test_p2_violation_returns_movement_exceeded_drag_threshold() {
    let mut doc = setup_doc();
    let res = handle_long_press(&mut doc, NodeId::new("n1".to_string()), of(6.0));
    assert_eq!(res, Err(SelectionError::MovementExceededDragThreshold));
}

#[test]
fn tests_test_p3_violation_returns_node_not_editable() {
    let mut doc = setup_doc();
    lock_n1(&mut doc);
    let res = handle_double_click(&mut doc, NodeId::new("n1".to_string()));
    assert_eq!(res, Err(SelectionError::NodeNotEditable));
}

#[test]
fn selection_tests_test_sel_022_long_press_adds_node_to_selection_without_drag() {
    let mut doc = setup_doc();
    let res = handle_long_press(&mut doc, NodeId::new("n1".to_string()), of(2.0));
    assert!(res.is_ok());
    assert!(doc.editor_state.selected_items.contains("n1"));
}

#[test]
fn selection_tests_test_sel_023_double_click_enters_edit_mode_on_shape() {
    let mut doc = setup_doc();
    let res = handle_double_click(&mut doc, NodeId::new("n1".to_string()));
    assert!(res.is_ok());
    assert_eq!(doc.editor_state.edit_mode_target.as_deref(), Some("n1"));
}

#[test]
fn selection_tests_test_long_press_fails_when_movement_exceeds_threshold() {
    let mut doc = setup_doc();
    let res = handle_long_press(&mut doc, NodeId::new("n1".to_string()), of(15.0));
    assert_eq!(res.unwrap_err(), SelectionError::MovementExceededDragThreshold);
}

#[test]
fn selection_tests_test_double_click_fails_on_uneditable_nodes() {
    let mut doc = setup_doc();
    lock_n1(&mut doc);

    let res = handle_double_click(&mut doc, NodeId::new("n1".to_string()));
    assert_eq!(res.unwrap_err(), SelectionError::NodeNotEditable);
}

#[test]
fn selection_tests_test_p2_violation_returns_movement_exceeded_drag_threshold() {
    let mut doc = setup_doc();
    let res = handle_long_press(&mut doc, NodeId::new("n1".to_string()), of(6.0));
    assert_eq!(res, Err(SelectionError::MovementExceededDragThreshold));
}

#[test]
fn selection_tests_test_p3_violation_returns_node_not_editable() {
    let mut doc = setup_doc();
    lock_n1(&mut doc);
    let res = handle_double_click(&mut doc, NodeId::new("n1".to_string()));
    assert_eq!(res, Err(SelectionError::NodeNotEditable));
}

#[test]
fn selection_error_texts() {
    assert_eq!(SelectionError::NodeNotFound.to_string(), "Node not found in document");
    assert_eq!(SelectionError::MovementExceededDragThreshold.to_string(), "Movement exceeded drag threshold");
    assert_eq!(SelectionError::NodeNotEditable.to_string(), "Node is not editable");
    assert_eq!(SelectionError::InvalidMarqueeBounds.to_string(), "Invalid marquee bounds: negative width or height");
}
