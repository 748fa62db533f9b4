//! Applying a tail of events written elsewhere, and the UI notification that follows.

use diagram_tool::envelope::{Author, DomainOp};
use diagram_tool::ordered_float::OrderedFloat;
use diagram_tool::projection::{DiagramProjection, EventRecord};
use diagram_tool::sync::{apply_tail_batch, extract_affected_entities_from_events, schedule_ui_update, ApplySummary, SyncError};

fn of(v: f64) -> OrderedFloat {
    OrderedFloat(v.to_bits())
}

fn event(op_id: &str, revision: u64, operation: DomainOp) -> EventRecord {
    EventRecord {
        op_id: op_id.to_string(),
        revision,
        operation,
        author: Author { id: "human-test".to_string(), name: "Test".to_string(), email: None },
        timestamp: 1700000000,
    }
}

fn add(id: &str, x: f64) -> DomainOp {
    DomainOp::NodeAdd { id: id.to_string(), x: of(x), y: of(0.0), width: of(100.0), height: of(50.0), label: id.to_string() }
}

#[test]
fn test_apply_tail_batch_with_empty_events_returns_empty_summary() {
    let mut projection = DiagramProjection::with_revision(0);
    let events = Vec::new();

    let summary = apply_tail_batch(&mut projection, events).unwrap();

    assert_eq!(summary.events_applied, 0);
    assert_eq!(summary.from_revision, 0);
    assert_eq!(summary.to_revision, 0);
    assert!(summary.affected_entities.is_empty());
}

#[test]
fn test_schedule_ui_update_with_empty_summary_succeeds() {
    let summary = ApplySummary {
        events_applied: 0,
        from_revision: 0,
        to_revision: 0,
        affected_entities: Vec::new(),
    };

    let result = schedule_ui_update(summary);
    assert!(result.is_ok());
}

#[test]
fn test_schedule_ui_update_with_events_succeeds() {
    let summary = ApplySummary {
        events_applied: 5,
        from_revision: 1,
        to_revision: 6,
        affected_entities: vec!["node:node-1".to_string()],
    };

    let result = schedule_ui_update(summary);
    assert!(result.is_ok());
}

#[test]
fn test_apply_tail_batch_applies_events_and_updates_revision() {
    let mut projection = DiagramProjection::with_revision(1);
    let events = vec![event("op-1", 1, add("n1", 0.0)), event("op-2", 2, add("n2", 10.0)), event("op-3", 3, add("n3", 20.0))];
    let summary = apply_tail_batch(&mut projection, events).unwrap();

    assert_eq!(summary.events_applied, 3);
    assert_eq!(summary.from_revision, 1);
    assert_eq!(summary.to_revision, 4);
    assert_eq!(projection.revision, 4);
    assert_eq!(projection.nodes.len(), 3);
}

#[test]
fn test_apply_tail_batch_extracts_affected_entities() {
    let mut projection = DiagramProjection::with_revision(1);
    let events = vec![
        event("op-1", 1, add("node-1", 0.0)),
        event("op-2", 2, add("node-2", 200.0)),
        event("op-3", 3, DomainOp::EdgeConnect { id: "edge-1".to_string(), source: "node-1".to_string(), target: "node-2".to_string() }),
    ];
    let summary = apply_tail_batch(&mut projection, events).unwrap();

    assert!(summary.affected_entities.contains(&"node:node-1".to_string()));
    assert!(summary.affected_entities.contains(&"node:node-2".to_string()));
    assert!(summary.affected_entities.contains(&"edge:edge-1".to_string()));
    assert_eq!(summary.affected_entities.len(), 3);
}

#[test]
fn test_apply_tail_batch_error_leaves_projection_unchanged() {
    let mut projection = DiagramProjection::with_revision(2);
    let events = vec![event("op-1", 5, add("n1", 0.0))];
    let result = apply_tail_batch(&mut projection, events);

    assert_eq!(
        result,
        Err(SyncError::Decode("invariant violation: revision gap: expected 2, found 5".to_string()))
    );
    assert_eq!(projection.revision, 2);
    assert!(projection.nodes.is_empty());
}

#[test]
fn test_affected_entities_are_listed_once() {
    let events = vec![
        event("op-1", 0, add("a", 0.0)),
        event("op-2", 1, DomainOp::NodeMove { id: "a".to_string(), x: of(1.0), y: of(2.0) }),
        event("op-3", 2, DomainOp::BringToFront { ids: vec!["a".to_string(), "b".to_string()] }),
        event("op-4", 3, DomainOp::Ungroup { id: diagram_tool::document::NodeId::new("g".to_string()) }),
    ];
    let mut entities = extract_affected_entities_from_events(&events);
    entities.sort();
    assert_eq!(entities, vec!["group:g".to_string(), "node:a".to_string(), "node:b".to_string()]);
}

#[test]
fn test_sync_error_texts() {
    assert_eq!(SyncError::Decode("x".to_string()).to_string(), "failed to decode event: x");
    assert_eq!(SyncError::ChannelClosed.to_string(), "channel closed");
}
