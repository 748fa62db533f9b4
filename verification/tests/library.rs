//! Concrete cases of the library's contracts and laws.

use diagram_tool::dag::{validate_dag, CycleError};
use diagram_tool::document::{ArrowType, DiagramDocument, Edge, EdgeId, EdgeStyle, Node, NodeId, NodeKind, Point};
use diagram_tool::edge_verify::verify_edge_tolerance;
use diagram_tool::envelope::{is_human_author, Author, DomainOp};
use diagram_tool::mutation_error::MutationError;
use diagram_tool::ordered_float::OrderedFloat;
use diagram_tool::pipeline::{run_mutation, run_mutation_unchecked, run_mutation_with_policy, validate_stage, RevisionPolicy, ValidationPolicy};
use diagram_tool::policy::{apply_policy_op, check_finite_geometry, enforce_cycle_policy};
use diagram_tool::projection::{CyclePolicy, DiagramProjection, EventRecord, ReplayError};
use diagram_tool::projection_ops::apply_update_edge_label;
use diagram_tool::replay::{apply_event, replay_events, replay_events_from};
use diagram_tool::schema_defs::{all_schema_statements, SCHEMA_EVENTS_TABLE, SCHEMA_VERSION_TABLE};
use diagram_tool::selection::{handle_double_click, handle_long_press, SelectionError};
use diagram_tool::snapshot::{
    check_snapshot_current, number_from_zero, replay_after_snapshot, replay_without_snapshot, shift_tail_revisions,
    snapshot_meta_from_row, SnapshotError, SnapshotMeta,
};
use diagram_tool::subgraph::{
    check_cycle, create_empty_subgraph, set_node_parent_ext, ungroup_nodes, unparent_node_ext, validate_children_unlocked,
    validate_non_empty_selection, Error, PositiveScale,
};
use diagram_tool::transform::{self, NonEmptySelection};
use diagram_tool::validation::{validate_document, ValidationSeverity};
use im::HashMap;

fn of(v: f64) -> OrderedFloat {
    OrderedFloat(v.to_bits())
}

fn node(label: &str, x: f64, y: f64, kind: NodeKind) -> Node {
    Node {
        kind,
        icon: String::new(),
        label: label.to_string(),
        x: of(x),
        y: of(y),
        width: of(20.0),
        height: of(20.0),
        lock_state: diagram_tool::document::LockState::Unlocked,
        parent: None,
        tags: im::Vector::new(),
        metadata: HashMap::new(),
        z_index: 0,
        font_size: None,
        font_weight: None,
        dag_rank: None,
        style: None,
        collapsed: None,
    }
}

fn edge(src: &str, tgt: &str) -> Edge {
    Edge {
        source: NodeId::new(src.to_string()),
        target: NodeId::new(tgt.to_string()),
        label: String::new(),
        style: EdgeStyle::Solid,
        arrow_type: ArrowType::Default,
        label_offset_t: of(0.5),
        color: None,
        thickness: of(1.5),
        directed: true,
        bend_points: im::Vector::new(),
        tags: im::Vector::new(),
        metadata: HashMap::new(),
        font_size: None,
        source_port: None,
        target_port: None,
    }
}

fn nid(s: &str) -> NodeId {
    NodeId::new(s.to_string())
}

fn human() -> Author {
    Author { id: "human-1".to_string(), name: "Alice".to_string(), email: None }
}

fn event(op_id: &str, revision: u64, operation: DomainOp) -> EventRecord {
    EventRecord { op_id: op_id.to_string(), revision, operation, author: human(), timestamp: 0 }
}

fn add(id: &str) -> DomainOp {
    DomainOp::NodeAdd { id: id.to_string(), x: of(0.0), y: of(0.0), width: of(10.0), height: of(10.0), label: id.to_string() }
}

fn connect(id: &str, s: &str, t: &str) -> DomainOp {
    DomainOp::EdgeConnect { id: id.to_string(), source: s.to_string(), target: t.to_string() }
}

// ------------------------------------------------------------------ dag

#[test]
fn dag_accepts_chain_and_isolated_nodes() {
    let mut doc = DiagramDocument::default();
    doc.document.nodes = doc.document.nodes.update(nid("a"), node("a", 0.0, 0.0, NodeKind::Node)).update(nid("z"), node("z", 0.0, 0.0, NodeKind::Node));
    doc.document.edges = doc.document.edges.update(EdgeId::new("e1".to_string()), edge("a", "b")).update(EdgeId::new("e2".to_string()), edge("b", "c"));
    assert_eq!(validate_dag(&doc.document.nodes, &doc.document.edges), Ok(()));
}

#[test]
fn dag_rejects_self_loop_and_counts_stuck_edges() {
    let mut doc = DiagramDocument::default();
    doc.document.edges = doc.document.edges.update(EdgeId::new("e1".to_string()), edge("a", "a")).update(EdgeId::new("e2".to_string()), edge("x", "y"));
    let r = validate_dag(&doc.document.nodes, &doc.document.edges);
    assert_eq!(r, Err(CycleError::CycleDetected(1)));
    assert_eq!(r.unwrap_err().to_string(), "Cycle detected: 1 edges cannot be ordered");
}

#[test]
fn dag_counts_edges_behind_a_cycle() {
    let mut doc = DiagramDocument::default();
    doc.document.edges = doc
        .document
        .edges
        .update(EdgeId::new("e1".to_string()), edge("a", "b"))
        .update(EdgeId::new("e2".to_string()), edge("b", "a"))
        .update(EdgeId::new("e3".to_string()), edge("b", "c"))
        .update(EdgeId::new("e4".to_string()), edge("s", "a"));
    assert_eq!(validate_dag(&doc.document.nodes, &doc.document.edges), Err(CycleError::CycleDetected(3)));
}

// ------------------------------------------------------------------ validation

#[test]
fn validation_reports_only_errors_with_messages() {
    let mut doc = DiagramDocument::default();
    let mut child = node("c", 0.0, 0.0, NodeKind::Node);
    child.parent = Some(nid("missing"));
    doc.document.nodes = doc.document.nodes.update(nid("c"), child);
    doc.document.edges = doc.document.edges.update(EdgeId::new("e1".to_string()), edge("c", "nowhere"));
    let issues = validate_document(&doc);
    assert_eq!(issues.len(), 2);
    assert!(issues.iter().all(|i| i.severity == ValidationSeverity::Error));
    assert_eq!(issues[0].code, "edge-dangling");
    assert_eq!(issues[0].message, "Edge e1 target 'nowhere' does not exist");
    assert_eq!(issues[0].subject, Some("e1".to_string()));
    assert_eq!(issues[1].code, "invalid-parent");
    assert_eq!(issues[1].message, "Node c references non-existent parent missing");
    assert!(ValidationSeverity::Error > ValidationSeverity::Warning);
}

#[test]
fn validation_reports_a_cycle_last() {
    let mut doc = DiagramDocument::default();
    doc.document.nodes = doc.document.nodes.update(nid("a"), node("a", 0.0, 0.0, NodeKind::Node)).update(nid("b"), node("b", 0.0, 0.0, NodeKind::Node));
    doc.document.edges = doc.document.edges.update(EdgeId::new("e1".to_string()), edge("a", "b")).update(EdgeId::new("e2".to_string()), edge("b", "a"));
    let issues = validate_document(&doc);
    assert_eq!(issues.len(), 1);
    assert_eq!(issues[0].code, "dag-cycle");
    assert_eq!(issues[0].subject, None);
}

// ------------------------------------------------------------------ pipeline

#[test]
fn mutation_that_breaks_validation_is_refused_with_first_issue() {
    let current = DiagramDocument::default();
    let r = run_mutation(&current, |doc| {
        let mut next = doc.clone();
        next.document.edges = next.document.edges.update(EdgeId::new("e1".to_string()), edge("a", "a"));
        Ok(next)
    });
    match r {
        Err(MutationError::Semantic(m)) => assert!(m.starts_with("edge-dangling: Edge e1")),
        other => panic!("unexpected {:?}", other),
    }
}

#[test]
fn unchecked_mutation_commits_and_moves_revision() {
    let current = DiagramDocument::default();
    let r = run_mutation_unchecked(&current, |doc| {
        let mut next = doc.clone();
        next.document.edges = next.document.edges.update(EdgeId::new("e1".to_string()), edge("a", "a"));
        Ok(next)
    })
    .unwrap();
    assert_eq!(r.revision.value(), 1);
    assert_eq!(r.document.edges.len(), 1);
}

#[test]
fn preserved_revision_and_stage_results() {
    let current = DiagramDocument::default();
    let r = run_mutation_with_policy(&current, RevisionPolicy::Preserve, ValidationPolicy::Skip, |doc| Ok(doc.clone())).unwrap();
    assert_eq!(r.revision.value(), 0);
    assert!(validate_stage(&current, ValidationPolicy::Validate).is_ok());
    assert_eq!(MutationError::Schema("x".to_string()).to_string(), "schema error: x");
}

// ------------------------------------------------------------------ replay laws

#[test]
fn replay_moves_revision_by_event_count_and_keeps_edges_attached() {
    let events = [event("o1", 0, add("a")), event("o2", 1, add("b")), event("o3", 2, connect("e", "a", "b")), event("o4", 3, DomainOp::NodeDelete { id: "b".to_string() })];
    let p = replay_events(&events).unwrap();
    assert_eq!(p.revision, 4);
    assert!(p.edges.is_empty());
    assert!(verify_edge_tolerance(&p).is_ok());
    assert_eq!(p.author_priority.len(), 4);
}

#[test]
fn replaying_the_same_log_twice_gives_the_same_projection() {
    let events = [event("o1", 0, add("a")), event("o2", 1, add("b")), event("o3", 2, connect("e", "a", "b"))];
    assert_eq!(replay_events(&events).unwrap(), replay_events(&events).unwrap());
}

#[test]
fn an_applied_op_id_is_refused_again() {
    let p = apply_event(DiagramProjection::empty(), &event("o1", 0, add("a"))).unwrap();
    let r = apply_event(p, &event("o1", 1, add("b")));
    assert_eq!(r, Err(ReplayError::InvariantViolation("duplicate op_id: o1".to_string())));
}

#[test]
fn replay_from_a_later_revision_and_gap_message() {
    let base = DiagramProjection::with_revision(5);
    let p = replay_events_from(base.clone(), &[event("o1", 5, add("a"))]).unwrap();
    assert_eq!(p.revision, 6);
    let r = replay_events_from(base, &[event("o1", 5, add("a")), event("o2", 7, add("b"))]);
    assert_eq!(r, Err(ReplayError::InvariantViolation("revision gap: expected 6, found 7".to_string())));
}

#[test]
fn human_author_detection_goes_through_lowercase() {
    assert!(is_human_author(&Author { id: "x".to_string(), name: "HUMAN Operator".to_string(), email: None }));
    assert!(!is_human_author(&Author { id: "x".to_string(), name: "HUMA N".to_string(), email: None }));
}

// ------------------------------------------------------------------ policy and edges

#[test]
fn deny_policy_refuses_cycles_and_allows_acyclic_ops() {
    let p = DiagramProjection::with_cycle_policy(CyclePolicy::Deny);
    let p = apply_policy_op(p, &add("a")).unwrap();
    let p = apply_policy_op(p, &add("b")).unwrap();
    let p = apply_policy_op(p, &connect("e1", "a", "b")).unwrap();
    assert!(p.author_priority.contains_key("policy-op-2"));
    assert!(enforce_cycle_policy(&p).is_ok());
    match apply_policy_op(p, &connect("e2", "b", "a")) {
        Err(ReplayError::CycleViolation(m)) => assert_eq!(m, "Cycle detected: 2 edges cannot be ordered"),
        other => panic!("unexpected {:?}", other),
    }
}

#[test]
fn edge_checks_report_dangling_ends_and_bad_geometry() {
    let mut p = DiagramProjection::empty();
    p.nodes = p.nodes.update(nid("a"), node("a", 0.0, 0.0, NodeKind::Node));
    p.edges = p.edges.update(EdgeId::new("e1".to_string()), edge("a", "q"));
    assert_eq!(
        verify_edge_tolerance(&p),
        Err(ReplayError::PolicyViolation("edge e1 references non-existent target node: q".to_string()))
    );
    let mut bad = edge("a", "a");
    bad.thickness = of(f64::NAN);
    p.edges = HashMap::new().update(EdgeId::new("e2".to_string()), bad);
    assert_eq!(verify_edge_tolerance(&p), Err(ReplayError::InvariantViolation("edge e2 has invalid thickness".to_string())));
    assert_eq!(check_finite_geometry(&p), Err(ReplayError::InvariantViolation("edge e2 has non-finite thickness".to_string())));
}

#[test]
fn relabelling_an_edge() {
    let mut p = DiagramProjection::empty();
    p.edges = p.edges.update(EdgeId::new("e1".to_string()), edge("a", "b"));
    let p = apply_update_edge_label(p, "e1", &"hello".to_string()).unwrap();
    assert_eq!(p.edges.get(&EdgeId::new("e1".to_string())).unwrap().label, "hello");
    let r = apply_update_edge_label(p, "zz", &"x".to_string());
    assert_eq!(r, Err(ReplayError::InvariantViolation("edge not found: zz".to_string())));
}

// ------------------------------------------------------------------ subgraphs

#[test]
fn test_sub006_delete_container_reparents_children_to_grandparent() {
    let mut canvas = DiagramDocument::default().document;
    let group_id = nid("group_a");
    let child_1 = nid("node_1");
    let child_2 = nid("node_2");
    canvas.nodes = canvas
        .nodes
        .update(group_id.clone(), create_empty_subgraph(group_id.clone(), Point { x: of(0.0), y: of(0.0) }).unwrap())
        .update(child_1.clone(), node("node_1", 10.0, 10.0, NodeKind::Node))
        .update(child_2.clone(), node("node_2", 40.0, 10.0, NodeKind::Node));

    set_node_parent_ext(child_1.clone(), group_id.clone(), &mut canvas, None).unwrap();
    set_node_parent_ext(child_2.clone(), group_id.clone(), &mut canvas, None).unwrap();

    let reparented = ungroup_nodes(&mut canvas, group_id.clone()).unwrap();

    assert!(!canvas.nodes.contains_key(&group_id));
    assert!(canvas.nodes.contains_key(&child_1));
    assert!(canvas.nodes.contains_key(&child_2));
    assert_eq!(canvas.nodes.get(&child_1).unwrap().parent, None);
    assert_eq!(canvas.nodes.get(&child_2).unwrap().parent, None);
    assert_eq!(reparented.len(), 2);
}

#[test]
fn test_returns_error_when_ungrouping_non_container_node() {
    let mut canvas = DiagramDocument::default().document;
    let text_node_id = nid("text_node");
    canvas.nodes = canvas.nodes.update(text_node_id.clone(), node("text_node", 0.0, 0.0, NodeKind::Node));
    let result = ungroup_nodes(&mut canvas, text_node_id);
    assert_eq!(result.unwrap_err(), Error::InvalidNodeType);
}

#[test]
fn test_p5_violation_returns_invalid_node_type() {
    let mut canvas = DiagramDocument::default().document;
    let text_node = nid("text_node");
    canvas.nodes = canvas.nodes.update(text_node.clone(), node("text_node", 0.0, 0.0, NodeKind::Node));

    let result = ungroup_nodes(&mut canvas, text_node);
    assert_eq!(result.unwrap_err(), Error::InvalidNodeType);
}

#[test]
fn ungroup_hands_children_to_grandparent() {
    let mut canvas = DiagramDocument::default().document;
    let mut inner = create_empty_subgraph(nid("inner"), Point { x: of(0.0), y: of(0.0) }).unwrap();
    inner.parent = Some(nid("outer"));
    let mut c = node("c", 0.0, 0.0, NodeKind::Node);
    c.parent = Some(nid("inner"));
    canvas.nodes = canvas
        .nodes
        .update(nid("outer"), create_empty_subgraph(nid("outer"), Point { x: of(0.0), y: of(0.0) }).unwrap())
        .update(nid("inner"), inner)
        .update(nid("c"), c);
    let children = ungroup_nodes(&mut canvas, nid("inner")).unwrap();
    assert_eq!(children, vec![nid("c")]);
    assert_eq!(canvas.nodes.get(&nid("c")).unwrap().parent, Some(nid("outer")));
}

#[test]
fn reparenting_checks_in_order_and_refuses_cycles() {
    let mut canvas = DiagramDocument::default().document;
    canvas.nodes = canvas
        .nodes
        .update(nid("g"), create_empty_subgraph(nid("g"), Point { x: of(0.0), y: of(0.0) }).unwrap())
        .update(nid("h"), create_empty_subgraph(nid("h"), Point { x: of(0.0), y: of(0.0) }).unwrap())
        .update(nid("n"), node("n", 0.0, 0.0, NodeKind::Node));
    assert_eq!(set_node_parent_ext(nid("x"), nid("g"), &mut canvas, None), Err(Error::NodeNotFound(nid("x"))));
    assert_eq!(set_node_parent_ext(nid("n"), nid("x"), &mut canvas, None), Err(Error::NodeNotFound(nid("x"))));
    assert_eq!(set_node_parent_ext(nid("g"), nid("n"), &mut canvas, None), Err(Error::InvalidNodeType));
    set_node_parent_ext(nid("h"), nid("g"), &mut canvas, Some(Point { x: of(3.0), y: of(4.0) })).unwrap();
    assert_eq!(canvas.nodes.get(&nid("h")).unwrap().x, of(3.0));
    assert!(check_cycle(&canvas, &nid("g"), &nid("h")));
    assert_eq!(set_node_parent_ext(nid("g"), nid("h"), &mut canvas, None), Err(Error::CircularDependency));
    unparent_node_ext(nid("h"), &mut canvas, None).unwrap();
    assert_eq!(canvas.nodes.get(&nid("h")).unwrap().parent, None);
    assert!(!check_cycle(&canvas, &nid("g"), &nid("h")));
}

#[test]
fn grouping_checks() {
    let mut canvas = DiagramDocument::default().document;
    let mut locked = node("l", 0.0, 0.0, NodeKind::Node);
    locked.lock_state = diagram_tool::document::LockState::Locked;
    canvas.nodes = canvas.nodes.update(nid("l"), locked);
    assert_eq!(validate_non_empty_selection(&[]), Err(Error::EmptySelection));
    assert_eq!(validate_children_unlocked(&canvas, &[nid("m")]), Err(Error::NodeNotFound(nid("m"))));
    assert_eq!(validate_children_unlocked(&canvas, &[nid("l")]), Err(Error::NodeLocked(nid("l"))));
    assert!(PositiveScale::try_new(of(2.0)).is_ok());
    assert_eq!(PositiveScale::try_new(of(0.0)), Err(Error::InvalidTransform));
    assert_eq!(PositiveScale::try_new(of(-1.0)), Err(Error::InvalidTransform));
    assert_eq!(PositiveScale::try_new(of(f64::NAN)), Err(Error::InvalidTransform));
}

#[test]
fn empty_subgraph_has_minimum_size() {
    let n = create_empty_subgraph(nid("s"), Point { x: of(5.0), y: of(6.0) }).unwrap();
    assert_eq!(n.kind, NodeKind::Subgraph);
    assert_eq!(f64::from_bits(n.width.0), 100.0);
    assert_eq!(f64::from_bits(n.height.0), 60.0);
    assert_eq!(n.x, of(5.0));
}

// ------------------------------------------------------------------ selection gestures

fn doc_with_nodes() -> DiagramDocument {
    let mut doc = DiagramDocument::default();
    doc.document.nodes = doc.document.nodes.update(nid("n1"), node("n1", 0.0, 0.0, NodeKind::Node));
    let mut locked = node("n2", 0.0, 0.0, NodeKind::Node);
    locked.lock_state = diagram_tool::document::LockState::Locked;
    doc.document.nodes = doc.document.nodes.update(nid("n2"), locked);
    doc
}

#[test]
fn long_press_refuses_drags_and_unknown_nodes() {
    let mut doc = doc_with_nodes();
    assert_eq!(handle_long_press(&mut doc, nid("n1"), of(15.0)), Err(SelectionError::MovementExceededDragThreshold));
    assert_eq!(handle_long_press(&mut doc, nid("n1"), of(5.0)), Err(SelectionError::MovementExceededDragThreshold));
    assert_eq!(handle_long_press(&mut doc, nid("zz"), of(4.9)), Err(SelectionError::NodeNotFound));
    assert!(doc.editor_state.selected_items.is_empty());
}

#[test]
fn double_click_refuses_locked_and_unknown_nodes() {
    let mut doc = doc_with_nodes();
    assert_eq!(handle_double_click(&mut doc, nid("n2")), Err(SelectionError::NodeNotEditable));
    assert_eq!(handle_double_click(&mut doc, nid("n9")), Err(SelectionError::NodeNotFound));
    assert_eq!(doc.editor_state.edit_mode_target, None);
}

// ------------------------------------------------------------------ transforms, schema, snapshots

#[test]
fn non_empty_selection() {
    assert_eq!(NonEmptySelection::try_new(Vec::new()).unwrap_err(), transform::Error::EmptySelection);
    let s = NonEmptySelection::try_new(vec![nid("a"), nid("b")]).unwrap();
    assert_eq!(s.items(), &[nid("a"), nid("b")]);
    assert_eq!(s.clone().items().len(), 2);
}

#[test]
fn schema_statements_come_in_setup_order() {
    let s = all_schema_statements();
    assert_eq!(s.len(), 6);
    assert_eq!(s[0], SCHEMA_VERSION_TABLE);
    assert_eq!(s[1], SCHEMA_EVENTS_TABLE);
    assert!(s[4].contains("CREATE TABLE IF NOT EXISTS snapshots"));
}

#[test]
fn snapshot_decisions() {
    assert_eq!(check_snapshot_current(3, 3), Ok(()));
    assert_eq!(check_snapshot_current(2, 3), Err(SnapshotError::SnapshotStale { expected: 3, found: 2 }));
    assert_eq!(
        SnapshotError::SnapshotStale { expected: 3, found: 2 }.to_string(),
        "snapshot revision is stale: expected at least 3, found 2"
    );
    assert_eq!(snapshot_meta_from_row(7, 4, 99), SnapshotMeta { id: 7, revision: 4, created_at: 99 });
    let shifted = shift_tail_revisions(vec![event("a", 0, add("x")), event("b", 3, add("y"))]);
    assert_eq!(shifted[0].revision, 0);
    assert_eq!(shifted[1].revision, 2);
    let numbered = number_from_zero(vec![event("a", 9, add("x")), event("b", 9, add("y"))]);
    assert_eq!((numbered[0].revision, numbered[1].revision), (0, 1));
}

#[test]
fn snapshot_tail_replay() {
    let base = replay_events(&[event("o1", 0, add("a"))]).unwrap();
    let same = replay_after_snapshot(base.clone(), Vec::new()).unwrap();
    assert_eq!(same, base);
    let next = replay_after_snapshot(base.clone(), vec![event("o2", 2, add("b"))]).unwrap();
    assert_eq!(next.revision, 2);
    let bad = replay_after_snapshot(base, vec![event("o2", 5, add("b"))]);
    assert_eq!(bad, Err(SnapshotError::Replay("invariant violation: revision gap: expected 1, found 4".to_string())));
    let full = replay_without_snapshot(vec![event("o1", 40, add("a")), event("o2", 41, add("b"))]).unwrap();
    assert_eq!(full.revision, 2);
}

#[test]
fn resuming_after_a_prefix_matches_a_full_replay() {
    let log = vec![
        event("o1", 0, add("a")),
        event("o2", 1, add("b")),
        event("o3", 2, connect("e", "a", "b")),
        event("o4", 3, add("c")),
    ];
    let full = replay_events(&log).unwrap();
    for cut in 0..=log.len() {
        let prefix = replay_events(&log[..cut]).unwrap();
        assert_eq!(prefix.revision, cut as u64);
        let resumed = replay_events_from(prefix, &log[cut..]).unwrap();
        assert_eq!(resumed, full);
    }
    // A gap in the rest is reported with its place in the whole log.
    let mut gapped = log.clone();
    gapped[3].revision = 9;
    let prefix = replay_events(&gapped[..2]).unwrap();
    let whole = replay_events(&gapped);
    assert_eq!(replay_events_from(prefix, &gapped[2..]), whole);
    assert_eq!(whole, Err(ReplayError::InvariantViolation("revision gap: expected 3, found 9".to_string())));
}

#[test]
fn committed_mutation_is_valid_and_moves_revision() {
    let current = DiagramDocument::default();
    let d = run_mutation(&current, |doc| {
        let mut next = doc.clone();
        next.document.nodes = next.document.nodes.update(nid("a"), node("a", 0.0, 0.0, NodeKind::Node));
        Ok(next)
    })
    .unwrap();
    assert!(validate_document(&d).is_empty());
    assert_eq!(d.revision.value(), current.revision.value() + 1);
    assert_eq!(d.document.nodes.len(), 1);
}
