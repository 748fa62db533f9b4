//! Replaying the event log into a projection, author priorities, and cycle policy.

use diagram_tool::document::{DiagramDocument, Edge, EdgeId, Node, NodeId, NodeKind, ArrowType, EdgeStyle};
use diagram_tool::envelope::{is_human_author, Author, DomainOp};
use diagram_tool::ordered_float::OrderedFloat;
use diagram_tool::policy::{apply_policy_op, enforce_cycle_policy};
use diagram_tool::projection::{document_to_projection, projection_to_document, CyclePolicy, DiagramProjection, EventRecord, ReplayError};
use diagram_tool::projection_ops::{apply_edge_op, apply_node_op};
use diagram_tool::edge_verify::verify_edge_tolerance;
use diagram_tool::replay::{apply_event, apply_operation, replay_events, replay_events_from, replay_stream};
use im::HashMap;

fn of(v: f64) -> OrderedFloat {
    OrderedFloat(v.to_bits())
}


fn make_author(is_human: bool) -> Author {
    if is_human {
        Author {
            id: "human-1".to_string(),
            name: "Alice".to_string(),
            email: None,
        }
    } else {
        Author {
            id: "ai-1".to_string(),
            name: "AI Assistant".to_string(),
            email: None,
        }
    }
}

fn make_event(op_id: &str, revision: u64, operation: DomainOp, is_human: bool) -> EventRecord {
    EventRecord {
        op_id: op_id.to_string(),
        revision,
        operation,
        author: make_author(is_human),
        timestamp: 1700000000,
    }
}

#[test]
fn given_empty_events_when_replaying_then_returns_empty_projection() {
    let events: &[EventRecord] = &[];
    let result = replay_events(events);

    assert!(result.is_ok());
    let projection = result.unwrap();
    assert_eq!(projection.revision, 0);
    assert!(projection.nodes.is_empty());
    assert!(projection.edges.is_empty());
}

#[test]
fn given_single_node_add_when_replaying_then_includes_node() {
    let events = [make_event(
        "op-1",
        0,
        DomainOp::NodeAdd {
            id: "node-1".to_string(),
            x: of(100.0),
            y: of(200.0),
            width: of(80.0),
            height: of(40.0),
            label: "Test Node".to_string(),
        },
        true,
    )];

    let result = replay_events(&events);

    assert!(result.is_ok(), "Error: {:?}", result.err());
    let projection = result.unwrap();
    assert_eq!(projection.revision, 1);
    assert_eq!(projection.nodes.len(), 1);
    assert!(projection
        .nodes
        .contains_key(&NodeId::new("node-1".to_string())));
}

#[test]
fn given_multiple_events_when_replaying_then_increments_revision() {
    let events = [
        make_event(
            "op-1",
            0,
            DomainOp::NodeAdd {
                id: "node-1".to_string(),
                x: of(0.0),
                y: of(0.0),
                width: of(80.0),
                height: of(40.0),
                label: "Node 1".to_string(),
            },
            true,
        ),
        make_event(
            "op-2",
            1,
            DomainOp::NodeAdd {
                id: "node-2".to_string(),
                x: of(100.0),
                y: of(0.0),
                width: of(80.0),
                height: of(40.0),
                label: "Node 2".to_string(),
            },
            true,
        ),
        make_event(
            "op-3",
            2,
            DomainOp::EdgeConnect {
                id: "edge-1".to_string(),
                source: "node-1".to_string(),
                target: "node-2".to_string(),
            },
            true,
        ),
    ];

    let result = replay_events(&events);

    assert!(result.is_ok());
    let projection = result.unwrap();
    assert_eq!(projection.revision, 3);
    assert_eq!(projection.nodes.len(), 2);
    assert_eq!(projection.edges.len(), 1);
}

#[test]
fn given_revision_gap_when_replaying_then_returns_error() {
    let events = [
        make_event(
            "op-1",
            0,
            DomainOp::NodeAdd {
                id: "node-1".to_string(),
                x: of(0.0),
                y: of(0.0),
                width: of(80.0),
                height: of(40.0),
                label: "Node 1".to_string(),
            },
            true,
        ),
        make_event(
            "op-2",
            2,
            DomainOp::NodeAdd {
                id: "node-2".to_string(),
                x: of(100.0),
                y: of(0.0),
                width: of(80.0),
                height: of(40.0),
                label: "Node 2".to_string(),
            },
            true,
        ),
    ];

    let result = replay_events(&events);

    assert!(result.is_err());
    let err = result.unwrap_err();
    assert!(matches!(err, ReplayError::InvariantViolation(_)));
}

#[test]
fn given_duplicate_node_id_when_replaying_then_returns_error() {
    let events = [
        make_event(
            "op-1",
            0,
            DomainOp::NodeAdd {
                id: "node-1".to_string(),
                x: of(0.0),
                y: of(0.0),
                width: of(80.0),
                height: of(40.0),
                label: "Node 1".to_string(),
            },
            true,
        ),
        make_event(
            "op-2",
            1,
            DomainOp::NodeAdd {
                id: "node-1".to_string(), // Duplicate!
                x: of(100.0),
                y: of(0.0),
                width: of(80.0),
                height: of(40.0),
                label: "Node 1 Duplicate".to_string(),
            },
            true,
        ),
    ];

    let result = replay_events(&events);

    assert!(result.is_err());
    let err = result.unwrap_err();
    assert!(matches!(err, ReplayError::InvariantViolation(_)));
}

#[test]
fn given_node_move_for_nonexistent_node_then_returns_error() {
    let events = [make_event(
        "op-1",
        0,
        DomainOp::NodeMove {
            id: "nonexistent".to_string(),
            x: of(100.0),
            y: of(200.0),
        },
        true,
    )];

    let result = replay_events(&events);

    assert!(result.is_err());
    let err = result.unwrap_err();
    assert!(matches!(err, ReplayError::InvariantViolation(_)));
}

#[test]
fn given_edge_connect_to_nonexistent_source_then_returns_error() {
    let events = [make_event(
        "op-1",
        0,
        DomainOp::EdgeConnect {
            id: "edge-1".to_string(),
            source: "nonexistent".to_string(),
            target: "node-1".to_string(),
        },
        true,
    )];

    let result = replay_events(&events);

    assert!(result.is_err());
    let err = result.unwrap_err();
    assert!(matches!(err, ReplayError::InvariantViolation(_)));
}

#[test]
fn given_apply_event_on_valid_state_then_returns_updated_state() {
    let initial = DiagramProjection::empty();
    let event = make_event(
        "op-1",
        0,
        DomainOp::NodeAdd {
            id: "node-1".to_string(),
            x: of(50.0),
            y: of(75.0),
            width: of(100.0),
            height: of(50.0),
            label: "Test".to_string(),
        },
        true,
    );

    let result = apply_event(initial, &event);

    assert!(result.is_ok(), "Error: {:?}", result.err());
    let projection = result.unwrap();
    assert_eq!(projection.revision, 1);
    assert!(projection
        .nodes
        .contains_key(&NodeId::new("node-1".to_string())));
}

#[test]
fn given_apply_event_with_wrong_revision_then_returns_error() {
    let initial = DiagramProjection::with_revision(5); // State at revision 5
    let event = make_event(
        "op-1",
        0, // Event at revision 0 - mismatch!
        DomainOp::NodeAdd {
            id: "node-1".to_string(),
            x: of(0.0),
            y: of(0.0),
            width: of(80.0),
            height: of(40.0),
            label: "Test".to_string(),
        },
        true,
    );

    let result = apply_event(initial, &event);

    assert!(result.is_err());
    let err = result.unwrap_err();
    assert!(matches!(err, ReplayError::InvariantViolation(_)));
}

#[test]
fn given_duplicate_op_id_when_applying_then_returns_error() {
    let mut initial = DiagramProjection::empty();
    initial.author_priority.insert("op-1".to_string(), true);

    let event = make_event(
        "op-1", // Duplicate!
        0,
        DomainOp::NodeAdd {
            id: "node-1".to_string(),
            x: of(0.0),
            y: of(0.0),
            width: of(80.0),
            height: of(40.0),
            label: "Test".to_string(),
        },
        true,
    );

    let result = apply_event(initial, &event);

    assert!(result.is_err());
    let err = result.unwrap_err();
    assert!(matches!(err, ReplayError::InvariantViolation(_)));
}

#[test]
fn given_human_author_then_priority_map_has_true() {
    let initial = DiagramProjection::empty();
    let event = make_event(
        "op-1",
        0,
        DomainOp::NodeAdd {
            id: "node-1".to_string(),
            x: of(0.0),
            y: of(0.0),
            width: of(80.0),
            height: of(40.0),
            label: "Human Node".to_string(),
        },
        true, // Human author
    );

    let result = apply_event(initial, &event);

    assert!(result.is_ok());
    let projection = result.unwrap();
    assert_eq!(projection.author_priority.get("op-1"), Some(&true));
}

#[test]
fn given_ai_author_then_priority_map_has_false() {
    let initial = DiagramProjection::empty();
    let event = make_event(
        "op-1",
        0,
        DomainOp::NodeAdd {
            id: "node-1".to_string(),
            x: of(0.0),
            y: of(0.0),
            width: of(80.0),
            height: of(40.0),
            label: "AI Node".to_string(),
        },
        false, // AI author
    );

    let result = apply_event(initial, &event);

    assert!(result.is_ok());
    let projection = result.unwrap();
    assert_eq!(projection.author_priority.get("op-1"), Some(&false));
}

#[test]
fn given_deterministic_replay_then_multiple_replays_produce_same_result() {
    let events = [
        make_event(
            "op-1",
            0,
            DomainOp::NodeAdd {
                id: "node-1".to_string(),
                x: of(10.0),
                y: of(20.0),
                width: of(80.0),
                height: of(40.0),
                label: "Node 1".to_string(),
            },
            true,
        ),
        make_event(
            "op-2",
            1,
            DomainOp::NodeAdd {
                id: "node-2".to_string(),
                x: of(100.0),
                y: of(200.0),
                width: of(80.0),
                height: of(40.0),
                label: "Node 2".to_string(),
            },
            true,
        ),
        make_event(
            "op-3",
            2,
            DomainOp::EdgeConnect {
                id: "edge-1".to_string(),
                source: "node-1".to_string(),
                target: "node-2".to_string(),
            },
            true,
        ),
    ];

    let result1 = replay_events(&events).unwrap();
    let result2 = replay_events(&events).unwrap();
    let result3 = replay_events(&events).unwrap();

    assert_eq!(result1, result2);
    assert_eq!(result2, result3);
    assert_eq!(result1.revision, 3);
}

#[test]
fn given_projection_to_document_then_preserves_data() {
    let mut projection = DiagramProjection::empty();
    let event = make_event(
        "op-1",
        0,
        DomainOp::NodeAdd {
            id: "node-1".to_string(),
            x: of(100.0),
            y: of(200.0),
            width: of(80.0),
            height: of(40.0),
            label: "Test".to_string(),
        },
        true,
    );
    projection = apply_event(projection, &event).unwrap();

    let document = projection_to_document(&projection);

    assert_eq!(document.revision.value(), 1);
    assert!(document
        .document
        .nodes
        .contains_key(&NodeId::new("node-1".to_string())));
}

#[test]
fn given_document_to_projection_then_preserves_data() {
    let mut doc = DiagramDocument::default();
    let node = Node {
        kind: NodeKind::Node,
        icon: String::new(),
        label: "Test".to_string(),
        x: of(100.0),
        y: of(200.0),
        width: of(80.0),
        height: of(40.0),
        lock_state: diagram_tool::document::LockState::Unlocked,
        parent: None,
        tags: im::Vector::new(),
        metadata: HashMap::new(),
        z_index: 0,
        font_size: None,
        font_weight: None,
        dag_rank: None,
        style: None,
        collapsed: None,
    };
    doc.document.nodes = doc
        .document
        .nodes
        .update(NodeId::new("node-1".to_string()), node);
    doc = DiagramDocument {
        revision: doc.revision.increment(),
        ..doc
    };

    let projection = document_to_projection(&doc);

    assert_eq!(projection.revision, 1);
    assert!(projection
        .nodes
        .contains_key(&NodeId::new("node-1".to_string())));
}

#[test]
fn given_node_delete_then_also_removes_connected_edges() {
    let events = [
        make_event(
            "op-1",
            0,
            DomainOp::NodeAdd {
                id: "node-1".to_string(),
                x: of(0.0),
                y: of(0.0),
                width: of(80.0),
                height: of(40.0),
                label: "Node 1".to_string(),
            },
            true,
        ),
        make_event(
            "op-2",
            1,
            DomainOp::NodeAdd {
                id: "node-2".to_string(),
                x: of(100.0),
                y: of(0.0),
                width: of(80.0),
                height: of(40.0),
                label: "Node 2".to_string(),
            },
            true,
        ),
        make_event(
            "op-3",
            2,
            DomainOp::EdgeConnect {
                id: "edge-1".to_string(),
                source: "node-1".to_string(),
                target: "node-2".to_string(),
            },
            true,
        ),
        make_event(
            "op-4",
            3,
            DomainOp::NodeDelete {
                id: "node-1".to_string(),
            },
            true,
        ),
    ];

    let result = replay_events(&events);

    assert!(result.is_ok());
    let projection = result.unwrap();
    assert!(!projection
        .nodes
        .contains_key(&NodeId::new("node-1".to_string())));
    assert!(!projection
        .edges
        .contains_key(&EdgeId::new("edge-1".to_string())));
    assert!(projection
        .nodes
        .contains_key(&NodeId::new("node-2".to_string())));
}

#[test]
fn given_edge_disconnect_then_removes_edge() {
    let events = [
        make_event(
            "op-1",
            0,
            DomainOp::NodeAdd {
                id: "node-1".to_string(),
                x: of(0.0),
                y: of(0.0),
                width: of(80.0),
                height: of(40.0),
                label: "Node 1".to_string(),
            },
            true,
        ),
        make_event(
            "op-2",
            1,
            DomainOp::NodeAdd {
                id: "node-2".to_string(),
                x: of(100.0),
                y: of(0.0),
                width: of(80.0),
                height: of(40.0),
                label: "Node 2".to_string(),
            },
            true,
        ),
        make_event(
            "op-3",
            2,
            DomainOp::EdgeConnect {
                id: "edge-1".to_string(),
                source: "node-1".to_string(),
                target: "node-2".to_string(),
            },
            true,
        ),
        make_event(
            "op-4",
            3,
            DomainOp::EdgeDisconnect {
                id: "edge-1".to_string(),
            },
            true,
        ),
    ];

    let result = replay_events(&events);

    assert!(result.is_ok());
    let projection = result.unwrap();
    assert!(projection.edges.is_empty());
    assert_eq!(projection.nodes.len(), 2);
}

/// Test: Human-priority conflict scenario where human and AI both move the same node.
/// The human operation should be tracked with higher priority.
#[test]
fn given_concurrent_human_and_ai_node_move_then_human_priority_is_tracked() {
    let events = [
        make_event(
            "ai-create-1",
            0,
            DomainOp::NodeAdd {
                id: "node-conflict".to_string(),
                x: of(0.0),
                y: of(0.0),
                width: of(80.0),
                height: of(40.0),
                label: "Contested Node".to_string(),
            },
            false, // AI author
        ),
        make_event(
            "human-move-1",
            1,
            DomainOp::NodeMove {
                id: "node-conflict".to_string(),
                x: of(100.0),
                y: of(100.0),
            },
            true, // Human author
        ),
        make_event(
            "ai-move-1",
            2,
            DomainOp::NodeMove {
                id: "node-conflict".to_string(),
                x: of(500.0),
                y: of(500.0),
            },
            false, // AI author
        ),
    ];

    let result = replay_events(&events);
    assert!(result.is_ok(), "Replay should succeed: {:?}", result.err());

    let projection = result.unwrap();

    assert_eq!(
        projection.author_priority.get("ai-create-1"),
        Some(&false),
        "AI creation should be marked as non-human"
    );
    assert_eq!(
        projection.author_priority.get("human-move-1"),
        Some(&true),
        "Human move should be marked as human priority"
    );
    assert_eq!(
        projection.author_priority.get("ai-move-1"),
        Some(&false),
        "AI move should be marked as non-human"
    );

    let node = projection
        .get_node(&NodeId::new("node-conflict".to_string()))
        .expect("Node should exist");
    assert_eq!(
        node.x,
        of(500.0),
        "Final position should be from AI move"
    );
    assert_eq!(
        node.y,
        of(500.0),
        "Final position should be from AI move"
    );
}

/// Test: Human drag operation followed by AI move - verify both are tracked.
#[test]
fn given_human_drag_then_ai_move_on_same_entity_then_both_priorities_tracked() {
    let events = [
        make_event(
            "human-drag-1",
            0,
            DomainOp::NodeAdd {
                id: "drag-node".to_string(),
                x: of(0.0),
                y: of(0.0),
                width: of(100.0),
                height: of(50.0),
                label: "Drag Test".to_string(),
            },
            true, // Human creates
        ),
        make_event(
            "human-drag-2",
            1,
            DomainOp::NodeMove {
                id: "drag-node".to_string(),
                x: of(200.0),
                y: of(150.0),
            },
            true, // Human drag
        ),
        make_event(
            "ai-attempt-1",
            2,
            DomainOp::NodeMove {
                id: "drag-node".to_string(),
                x: of(999.0),
                y: of(999.0),
            },
            false, // AI attempt
        ),
    ];

    let result = replay_events(&events);
    assert!(result.is_ok());

    let projection = result.unwrap();

    assert_eq!(projection.author_priority.get("human-drag-1"), Some(&true));
    assert_eq!(projection.author_priority.get("human-drag-2"), Some(&true));
    assert_eq!(projection.author_priority.get("ai-attempt-1"), Some(&false));

    let human_count = projection
        .author_priority
        .values()
        .filter(|&&is_human| is_human)
        .count();
    assert_eq!(human_count, 2, "Should have 2 human operations");
}

/// Test: Multiple conflicting operations on the same edge from different authors.
#[test]
fn given_human_and_ai_edge_operations_then_priorities_distinguished() {
    let events = [
        make_event(
            "setup-1",
            0,
            DomainOp::NodeAdd {
                id: "n1".to_string(),
                x: of(0.0),
                y: of(0.0),
                width: of(80.0),
                height: of(40.0),
                label: "Source".to_string(),
            },
            true,
        ),
        make_event(
            "setup-2",
            1,
            DomainOp::NodeAdd {
                id: "n2".to_string(),
                x: of(100.0),
                y: of(0.0),
                width: of(80.0),
                height: of(40.0),
                label: "Target".to_string(),
            },
            true,
        ),
        make_event(
            "human-edge-1",
            2,
            DomainOp::EdgeConnect {
                id: "edge-conflict".to_string(),
                source: "n1".to_string(),
                target: "n2".to_string(),
            },
            true, // Human
        ),
        make_event(
            "ai-disconnect-1",
            3,
            DomainOp::EdgeDisconnect {
                id: "edge-conflict".to_string(),
            },
            false, // AI
        ),
    ];

    let result = replay_events(&events);
    assert!(result.is_ok());

    let projection = result.unwrap();

    assert!(!projection.has_edge(&EdgeId::new("edge-conflict".to_string())));

    assert_eq!(projection.author_priority.get("human-edge-1"), Some(&true));
    assert_eq!(
        projection.author_priority.get("ai-disconnect-1"),
        Some(&false)
    );
}

/// Test: Verify is_human_author function behavior for various author patterns.
#[test]
fn given_various_author_patterns_then_is_human_author_correctly_identifies() {
    let human_patterns = [
        Author {
            id: "human-alice".to_string(),
            name: "Alice".to_string(),
            email: None,
        },
        Author {
            id: "human-bob-123".to_string(),
            name: "Bob".to_string(),
            email: Some("bob@example.com".to_string()),
        },
        Author {
            id: "user-42".to_string(),
            name: "Human User".to_string(), // Contains "human"
            email: None,
        },
        Author {
            id: "any-id".to_string(),
            name: "SuperHuman".to_string(), // Contains "human" (case insensitive)
            email: None,
        },
    ];

    for author in &human_patterns {
        assert!(
            is_human_author(author),
            "Expected human author for: {:?}",
            author
        );
    }

    let ai_patterns = [
        Author {
            id: "ai-assistant".to_string(),
            name: "AI Assistant".to_string(),
            email: None,
        },
        Author {
            id: "bot-123".to_string(),
            name: "Automation Bot".to_string(),
            email: None,
        },
        Author {
            id: "system".to_string(),
            name: "System".to_string(),
            email: None,
        },
        Author {
            id: "gpt-4".to_string(),
            name: "GPT-4".to_string(),
            email: None,
        },
    ];

    for author in &ai_patterns {
        assert!(
            !is_human_author(author),
            "Expected AI author for: {:?}",
            author
        );
    }
}

/// Test: Complex scenario with interleaved human and AI operations.
#[test]
fn given_interleaved_human_ai_operations_then_priority_map_maintains_order() {
    let events = [
        make_event(
            "ai-node-1",
            0,
            DomainOp::NodeAdd {
                id: "n1".to_string(),
                x: of(0.0),
                y: of(0.0),
                width: of(80.0),
                height: of(40.0),
                label: "AI Node 1".to_string(),
            },
            false,
        ),
        make_event(
            "human-node-1",
            1,
            DomainOp::NodeAdd {
                id: "n2".to_string(),
                x: of(100.0),
                y: of(0.0),
                width: of(80.0),
                height: of(40.0),
                label: "Human Node".to_string(),
            },
            true,
        ),
        make_event(
            "ai-edge-1",
            2,
            DomainOp::EdgeConnect {
                id: "e1".to_string(),
                source: "n1".to_string(),
                target: "n2".to_string(),
            },
            false,
        ),
        make_event(
            "human-move-1",
            3,
            DomainOp::NodeMove {
                id: "n1".to_string(),
                x: of(50.0),
                y: of(50.0),
            },
            true,
        ),
        make_event(
            "ai-move-2",
            4,
            DomainOp::NodeMove {
                id: "n2".to_string(),
                x: of(200.0),
                y: of(200.0),
            },
            false,
        ),
    ];

    let result = replay_events(&events);
    assert!(result.is_ok());

    let projection = result.unwrap();

    assert_eq!(projection.author_priority.get("ai-node-1"), Some(&false));
    assert_eq!(projection.author_priority.get("human-node-1"), Some(&true));
    assert_eq!(projection.author_priority.get("ai-edge-1"), Some(&false));
    assert_eq!(projection.author_priority.get("human-move-1"), Some(&true));
    assert_eq!(projection.author_priority.get("ai-move-2"), Some(&false));

    let human_ops: Vec<_> = projection
        .author_priority
        .iter()
        .filter(|(_, &is_human)| is_human)
        .collect();
    let ai_ops: Vec<_> = projection
        .author_priority
        .iter()
        .filter(|(_, &is_human)| !is_human)
        .collect();

    assert_eq!(human_ops.len(), 2, "Should have 2 human operations");
    assert_eq!(ai_ops.len(), 3, "Should have 3 AI operations");
}

/// Test: Verify that author_priority map preserves insertion order for conflict resolution.
#[test]
fn given_conflicting_operations_then_priority_map_enables_resolution() {
    let events = [
        make_event(
            "op-1",
            0,
            DomainOp::NodeAdd {
                id: "conflict-node".to_string(),
                x: of(0.0),
                y: of(0.0),
                width: of(80.0),
                height: of(40.0),
                label: "Conflict".to_string(),
            },
            false, // AI creates
        ),
        make_event(
            "op-2",
            1,
            DomainOp::NodeMove {
                id: "conflict-node".to_string(),
                x: of(100.0),
                y: of(100.0),
            },
            true, // Human moves
        ),
        make_event(
            "op-3",
            2,
            DomainOp::NodeMove {
                id: "conflict-node".to_string(),
                x: of(200.0),
                y: of(200.0),
            },
            false, // AI moves
        ),
        make_event(
            "op-4",
            3,
            DomainOp::NodeMove {
                id: "conflict-node".to_string(),
                x: of(150.0),
                y: of(150.0),
            },
            true, // Human moves again
        ),
    ];

    let result = replay_events(&events);
    assert!(result.is_ok());

    let projection = result.unwrap();

    let human_op_ids: Vec<_> = projection
        .author_priority
        .iter()
        .filter(|(_, &is_human)| is_human)
        .map(|(op_id, _)| op_id.as_str())
        .collect();

    assert!(
        human_op_ids.contains(&"op-2"),
        "op-2 should be marked as human"
    );
    assert!(
        human_op_ids.contains(&"op-4"),
        "op-4 should be marked as human"
    );

    let node = projection
        .get_node(&NodeId::new("conflict-node".to_string()))
        .expect("Node should exist");
    assert_eq!(node.x, of(150.0));
    assert_eq!(node.y, of(150.0));
}

/// Test: Verify deterministic replay produces consistent author_priority maps.
#[test]
fn given_same_events_replayed_multiple_times_then_priority_map_is_deterministic() {
    let events = [
        make_event(
            "h1",
            0,
            DomainOp::NodeAdd {
                id: "n1".to_string(),
                x: of(0.0),
                y: of(0.0),
                width: of(80.0),
                height: of(40.0),
                label: "N1".to_string(),
            },
            true,
        ),
        make_event(
            "a1",
            1,
            DomainOp::NodeMove {
                id: "n1".to_string(),
                x: of(100.0),
                y: of(100.0),
            },
            false,
        ),
        make_event(
            "h2",
            2,
            DomainOp::NodeMove {
                id: "n1".to_string(),
                x: of(200.0),
                y: of(200.0),
            },
            true,
        ),
    ];

    let result1 = replay_events(&events).expect("First replay should succeed");
    let result2 = replay_events(&events).expect("Second replay should succeed");
    let result3 = replay_events(&events).expect("Third replay should succeed");

    assert_eq!(result1.author_priority, result2.author_priority);
    assert_eq!(result2.author_priority, result3.author_priority);

    assert_eq!(result1.author_priority.get("h1"), Some(&true));
    assert_eq!(result1.author_priority.get("a1"), Some(&false));
    assert_eq!(result1.author_priority.get("h2"), Some(&true));
}

/// Test: replay_stream is an alias for replay_events and produces same results.
#[test]
fn given_events_when_using_replay_stream_then_produces_same_result_as_replay_events() {
    let events = [
        make_event(
            "op-1",
            0,
            DomainOp::NodeAdd {
                id: "node-1".to_string(),
                x: of(100.0),
                y: of(200.0),
                width: of(80.0),
                height: of(40.0),
                label: "Test".to_string(),
            },
            true,
        ),
        make_event(
            "op-2",
            1,
            DomainOp::NodeMove {
                id: "node-1".to_string(),
                x: of(150.0),
                y: of(250.0),
            },
            true,
        ),
    ];

    let result_events = replay_events(&events).expect("replay_events should succeed");
    let result_stream = replay_stream(&events).expect("replay_stream should succeed");

    assert_eq!(result_events, result_stream);
}

/// Test: projection_hash produces consistent hash for empty projection.
/// Test: projection_hash produces different hashes for different projections.
/// Test: projection_hash is deterministic across multiple calls.
/// Test: projection_hash includes revision in hash.
/// Test: projection_hash includes author_priority in hash.
/// Test: Deterministic replay produces same hash.
/// Test: Hash is stable for complex projections with edges.
/// Test: New path handles valid input and produces expected output.
#[test]
fn given_valid_input_when_replaying_then_produces_expected_output() {
    let events = [
        make_event(
            "add-1",
            0,
            DomainOp::NodeAdd {
                id: "test-node".to_string(),
                x: of(50.0),
                y: of(75.0),
                width: of(100.0),
                height: of(50.0),
                label: "Test Node".to_string(),
            },
            true,
        ),
    ];

    let result = replay_stream(&events);

    assert!(result.is_ok(), "Should succeed with valid input");
    let projection = result.unwrap();
    assert_eq!(projection.revision, 1);
    assert!(projection.has_node(&NodeId::new("test-node".to_string())));

    let node = projection
        .get_node(&NodeId::new("test-node".to_string()))
        .expect("Node should exist");
    assert_eq!(node.x, of(50.0));
    assert_eq!(node.y, of(75.0));
    assert_eq!(node.width, of(100.0));
    assert_eq!(node.height, of(50.0));
    assert_eq!(node.label, "Test Node");
}

/// Test: Invalid input returns typed error without partial durable mutation.
#[test]
fn given_invalid_input_when_replaying_then_returns_typed_error_without_mutation() {
    let events = [make_event(
        "move-1",
        0,
        DomainOp::NodeMove {
            id: "nonexistent".to_string(),
            x: of(100.0),
            y: of(100.0),
        },
        true,
    )];

    let result = replay_stream(&events);

    assert!(result.is_err(), "Should fail with invalid input");
    match result {
        Err(ReplayError::InvariantViolation(msg)) => {
            assert!(msg.contains("not found"));
        }
        _ => panic!("Expected InvariantViolation error"),
    }

    let empty = DiagramProjection::empty();
    let result2 = replay_stream(&[]);
    assert!(result2.is_ok());
    assert_eq!(result2.unwrap(), empty);
}

/// Test: Command flow uses replacement implementation without legacy calls.
#[test]
fn given_replay_operation_then_uses_new_dispatcher_path() {

    let events = [
        make_event(
            "op-1",
            0,
            DomainOp::NodeAdd {
                id: "n1".to_string(),
                x: of(0.0),
                y: of(0.0),
                width: of(80.0),
                height: of(40.0),
                label: "Node".to_string(),
            },
            true,
        ),
        make_event(
            "op-2",
            1,
            DomainOp::NodeMove {
                id: "n1".to_string(),
                x: of(10.0),
                y: of(10.0),
            },
            true,
        ),
        make_event(
            "op-3",
            2,
            DomainOp::NodeAdd {
                id: "n2".to_string(),
                x: of(100.0),
                y: of(100.0),
                width: of(80.0),
                height: of(40.0),
                label: "Node 2".to_string(),
            },
            true,
        ),
        make_event(
            "op-4",
            3,
            DomainOp::EdgeConnect {
                id: "e1".to_string(),
                source: "n1".to_string(),
                target: "n2".to_string(),
            },
            true,
        ),
        make_event(
            "op-5",
            4,
            DomainOp::EdgeDisconnect {
                id: "e1".to_string(),
            },
            true,
        ),
    ];

    let result = replay_stream(&events);

    assert!(result.is_ok(), "Should succeed using new dispatcher path");
    let projection = result.unwrap();

    assert_eq!(projection.revision, 5);
    assert_eq!(projection.nodes.len(), 2);
    assert_eq!(projection.edges.len(), 0); // Edge was disconnected
}

/// Test: CyclePolicy default is Allow
#[test]
fn given_no_cycle_policy_specified_then_default_is_allow() {
    let projection = DiagramProjection::empty();
    assert_eq!(projection.cycle_policy, CyclePolicy::Allow);
}

/// Test: CyclePolicy::Allow permits cycles
#[test]
fn given_cycle_policy_allow_when_cycle_exists_then_enforce_succeeds() {
    let mut projection = DiagramProjection::with_cycle_policy(CyclePolicy::Allow);

    let events = [
        make_event(
            "op-1",
            0,
            DomainOp::NodeAdd {
                id: "a".to_string(),
                x: of(0.0),
                y: of(0.0),
                width: of(80.0),
                height: of(40.0),
                label: "A".to_string(),
            },
            true,
        ),
        make_event(
            "op-2",
            1,
            DomainOp::NodeAdd {
                id: "b".to_string(),
                x: of(100.0),
                y: of(0.0),
                width: of(80.0),
                height: of(40.0),
                label: "B".to_string(),
            },
            true,
        ),
        make_event(
            "op-3",
            2,
            DomainOp::EdgeConnect {
                id: "e1".to_string(),
                source: "a".to_string(),
                target: "b".to_string(),
            },
            true,
        ),
        make_event(
            "op-4",
            3,
            DomainOp::EdgeConnect {
                id: "e2".to_string(),
                source: "b".to_string(),
                target: "a".to_string(),
            },
            true,
        ),
    ];

    projection = replay_events_from(projection, &events).unwrap();

    let result = enforce_cycle_policy(&projection);
    assert!(result.is_ok(), "Allow policy should permit cycles");
}

/// Test: CyclePolicy::Deny rejects cycles
#[test]
fn given_cycle_policy_deny_when_cycle_exists_then_enforce_fails() {
    let mut projection = DiagramProjection::with_cycle_policy(CyclePolicy::Deny);

    let events = [
        make_event(
            "op-1",
            0,
            DomainOp::NodeAdd {
                id: "a".to_string(),
                x: of(0.0),
                y: of(0.0),
                width: of(80.0),
                height: of(40.0),
                label: "A".to_string(),
            },
            true,
        ),
        make_event(
            "op-2",
            1,
            DomainOp::NodeAdd {
                id: "b".to_string(),
                x: of(100.0),
                y: of(0.0),
                width: of(80.0),
                height: of(40.0),
                label: "B".to_string(),
            },
            true,
        ),
        make_event(
            "op-3",
            2,
            DomainOp::EdgeConnect {
                id: "e1".to_string(),
                source: "a".to_string(),
                target: "b".to_string(),
            },
            true,
        ),
        make_event(
            "op-4",
            3,
            DomainOp::EdgeConnect {
                id: "e2".to_string(),
                source: "b".to_string(),
                target: "a".to_string(),
            },
            true,
        ),
    ];

    projection = replay_events_from(projection, &events).unwrap();

    let result = enforce_cycle_policy(&projection);
    assert!(result.is_err(), "Deny policy should reject cycles");
    match result {
        Err(ReplayError::CycleViolation(msg)) => {
            assert!(msg.contains("Cycle detected"));
        }
        _ => panic!("Expected CycleViolation error"),
    }
}

/// Test: CyclePolicy::Deny allows acyclic graphs
#[test]
fn given_cycle_policy_deny_when_no_cycle_exists_then_enforce_succeeds() {
    let mut projection = DiagramProjection::with_cycle_policy(CyclePolicy::Deny);

    let events = [
        make_event(
            "op-1",
            0,
            DomainOp::NodeAdd {
                id: "a".to_string(),
                x: of(0.0),
                y: of(0.0),
                width: of(80.0),
                height: of(40.0),
                label: "A".to_string(),
            },
            true,
        ),
        make_event(
            "op-2",
            1,
            DomainOp::NodeAdd {
                id: "b".to_string(),
                x: of(100.0),
                y: of(0.0),
                width: of(80.0),
                height: of(40.0),
                label: "B".to_string(),
            },
            true,
        ),
        make_event(
            "op-3",
            2,
            DomainOp::EdgeConnect {
                id: "e1".to_string(),
                source: "a".to_string(),
                target: "b".to_string(),
            },
            true,
        ),
    ];

    projection = replay_events_from(projection, &events).unwrap();

    let result = enforce_cycle_policy(&projection);
    assert!(result.is_ok(), "Deny policy should allow acyclic graphs");
}

/// Test: apply_policy_op allows acyclic operations under Deny policy
#[test]
fn given_cycle_policy_deny_when_applying_acyclic_op_then_succeeds() {
    let mut projection = DiagramProjection::with_cycle_policy(CyclePolicy::Deny);

    let events = [make_event(
        "op-1",
        0,
        DomainOp::NodeAdd {
            id: "a".to_string(),
            x: of(0.0),
            y: of(0.0),
            width: of(80.0),
            height: of(40.0),
            label: "A".to_string(),
        },
        true,
    )];
    projection = replay_events_from(projection, &events).unwrap();

    let op = DomainOp::NodeAdd {
        id: "b".to_string(),
        x: of(100.0),
        y: of(0.0),
        width: of(80.0),
        height: of(40.0),
        label: "B".to_string(),
    };

    let result = apply_policy_op(projection, &op);
    assert!(result.is_ok(), "Adding a node should not create a cycle");
}

/// Test: apply_policy_op rejects cycle-creating operations under Deny policy
#[test]
fn given_cycle_policy_deny_when_applying_cyclic_op_then_fails() {
    let mut projection = DiagramProjection::with_cycle_policy(CyclePolicy::Deny);

    let events = [
        make_event(
            "op-1",
            0,
            DomainOp::NodeAdd {
                id: "a".to_string(),
                x: of(0.0),
                y: of(0.0),
                width: of(80.0),
                height: of(40.0),
                label: "A".to_string(),
            },
            true,
        ),
        make_event(
            "op-2",
            1,
            DomainOp::NodeAdd {
                id: "b".to_string(),
                x: of(100.0),
                y: of(0.0),
                width: of(80.0),
                height: of(40.0),
                label: "B".to_string(),
            },
            true,
        ),
        make_event(
            "op-3",
            2,
            DomainOp::EdgeConnect {
                id: "e1".to_string(),
                source: "a".to_string(),
                target: "b".to_string(),
            },
            true,
        ),
    ];
    projection = replay_events_from(projection, &events).unwrap();

    let cyclic_op = DomainOp::EdgeConnect {
        id: "e2".to_string(),
        source: "b".to_string(),
        target: "a".to_string(),
    };

    let result = apply_policy_op(projection, &cyclic_op);
    assert!(result.is_err(), "Creating a cycle should fail under Deny policy");
    match result {
        Err(ReplayError::CycleViolation(msg)) => {
            assert!(msg.contains("Cycle detected"));
        }
        _ => panic!("Expected CycleViolation error"),
    }
}

/// Test: apply_policy_op allows cycle-creating operations under Allow policy
#[test]
fn given_cycle_policy_allow_when_applying_cyclic_op_then_succeeds() {
    let mut projection = DiagramProjection::with_cycle_policy(CyclePolicy::Allow);

    let events = [
        make_event(
            "op-1",
            0,
            DomainOp::NodeAdd {
                id: "a".to_string(),
                x: of(0.0),
                y: of(0.0),
                width: of(80.0),
                height: of(40.0),
                label: "A".to_string(),
            },
            true,
        ),
        make_event(
            "op-2",
            1,
            DomainOp::NodeAdd {
                id: "b".to_string(),
                x: of(100.0),
                y: of(0.0),
                width: of(80.0),
                height: of(40.0),
                label: "B".to_string(),
            },
            true,
        ),
        make_event(
            "op-3",
            2,
            DomainOp::EdgeConnect {
                id: "e1".to_string(),
                source: "a".to_string(),
                target: "b".to_string(),
            },
            true,
        ),
    ];
    projection = replay_events_from(projection, &events).unwrap();

    let cyclic_op = DomainOp::EdgeConnect {
        id: "e2".to_string(),
        source: "b".to_string(),
        target: "a".to_string(),
    };

    let result = apply_policy_op(projection, &cyclic_op);
    assert!(result.is_ok(), "Creating a cycle should succeed under Allow policy");
}

/// Test: Empty projection always passes cycle enforcement
#[test]
fn given_empty_projection_when_enforcing_cycle_policy_then_succeeds() {
    let projection_allow = DiagramProjection::with_cycle_policy(CyclePolicy::Allow);
    let projection_deny = DiagramProjection::with_cycle_policy(CyclePolicy::Deny);

    assert!(enforce_cycle_policy(&projection_allow).is_ok());
    assert!(enforce_cycle_policy(&projection_deny).is_ok());
}

/// Test: CyclePolicy serialization roundtrips correctly
/// Test: DiagramProjection with cycle_policy serializes correctly
/// Test: Complex cycle detection in larger graph
#[test]
fn given_large_graph_with_cycle_when_policy_deny_then_cycle_detected() {
    let mut projection = DiagramProjection::with_cycle_policy(CyclePolicy::Deny);

    let events = [
        make_event(
            "op-1",
            0,
            DomainOp::NodeAdd {
                id: "a".to_string(),
                x: of(0.0),
                y: of(0.0),
                width: of(80.0),
                height: of(40.0),
                label: "A".to_string(),
            },
            true,
        ),
        make_event(
            "op-2",
            1,
            DomainOp::NodeAdd {
                id: "b".to_string(),
                x: of(100.0),
                y: of(0.0),
                width: of(80.0),
                height: of(40.0),
                label: "B".to_string(),
            },
            true,
        ),
        make_event(
            "op-3",
            2,
            DomainOp::NodeAdd {
                id: "c".to_string(),
                x: of(200.0),
                y: of(0.0),
                width: of(80.0),
                height: of(40.0),
                label: "C".to_string(),
            },
            true,
        ),
        make_event(
            "op-4",
            3,
            DomainOp::NodeAdd {
                id: "d".to_string(),
                x: of(300.0),
                y: of(0.0),
                width: of(80.0),
                height: of(40.0),
                label: "D".to_string(),
            },
            true,
        ),
        make_event(
            "op-5",
            4,
            DomainOp::EdgeConnect {
                id: "e1".to_string(),
                source: "a".to_string(),
                target: "b".to_string(),
            },
            true,
        ),
        make_event(
            "op-6",
            5,
            DomainOp::EdgeConnect {
                id: "e2".to_string(),
                source: "b".to_string(),
                target: "c".to_string(),
            },
            true,
        ),
        make_event(
            "op-7",
            6,
            DomainOp::EdgeConnect {
                id: "e3".to_string(),
                source: "c".to_string(),
                target: "d".to_string(),
            },
            true,
        ),
        make_event(
            "op-8",
            7,
            DomainOp::EdgeConnect {
                id: "e4".to_string(),
                source: "d".to_string(),
                target: "b".to_string(),
            },
            true,
        ),
    ];

    projection = replay_events_from(projection, &events).unwrap();

    let result = enforce_cycle_policy(&projection);
    assert!(result.is_err(), "Should detect cycle in larger graph");
}

/// Test: Removing an edge that breaks a cycle makes enforcement pass
#[test]
fn given_graph_with_cycle_when_edge_removed_then_enforcement_passes() {
    let mut projection = DiagramProjection::with_cycle_policy(CyclePolicy::Deny);

    let events = [
        make_event(
            "op-1",
            0,
            DomainOp::NodeAdd {
                id: "a".to_string(),
                x: of(0.0),
                y: of(0.0),
                width: of(80.0),
                height: of(40.0),
                label: "A".to_string(),
            },
            true,
        ),
        make_event(
            "op-2",
            1,
            DomainOp::NodeAdd {
                id: "b".to_string(),
                x: of(100.0),
                y: of(0.0),
                width: of(80.0),
                height: of(40.0),
                label: "B".to_string(),
            },
            true,
        ),
        make_event(
            "op-3",
            2,
            DomainOp::EdgeConnect {
                id: "e1".to_string(),
                source: "a".to_string(),
                target: "b".to_string(),
            },
            true,
        ),
        make_event(
            "op-4",
            3,
            DomainOp::EdgeConnect {
                id: "e2".to_string(),
                source: "b".to_string(),
                target: "a".to_string(),
            },
            true,
        ),
    ];

    projection = replay_events_from(projection, &events).unwrap();

    assert!(enforce_cycle_policy(&projection).is_err());

    let disconnect_op = DomainOp::EdgeDisconnect {
        id: "e2".to_string(),
    };
    let new_projection = apply_policy_op(projection, &disconnect_op).unwrap();

    assert!(
        enforce_cycle_policy(&new_projection).is_ok(),
        "After removing cycle edge, enforcement should pass"
    );
}

/// Test: apply_edge_op handles EdgeConnect correctly
#[test]
fn given_edge_connect_op_when_apply_edge_op_then_edge_is_added() {
    let mut state = DiagramProjection::empty();

    state.nodes = state.nodes.update(
        NodeId::new("n1".to_string()),
        Node {
            kind: NodeKind::Node,
            icon: String::new(),
            label: "Node 1".to_string(),
            x: of(0.0),
            y: of(0.0),
            width: of(80.0),
            height: of(40.0),
            lock_state: diagram_tool::document::LockState::Unlocked,
            parent: None,
            tags: im::Vector::new(),
            metadata: HashMap::new(),
            z_index: 0,
            font_size: None,
            font_weight: None,
            dag_rank: None,
            style: None,
            collapsed: None,
        },
    );
    state.nodes = state.nodes.update(
        NodeId::new("n2".to_string()),
        Node {
            kind: NodeKind::Node,
            icon: String::new(),
            label: "Node 2".to_string(),
            x: of(100.0),
            y: of(0.0),
            width: of(80.0),
            height: of(40.0),
            lock_state: diagram_tool::document::LockState::Unlocked,
            parent: None,
            tags: im::Vector::new(),
            metadata: HashMap::new(),
            z_index: 0,
            font_size: None,
            font_weight: None,
            dag_rank: None,
            style: None,
            collapsed: None,
        },
    );

    let op = DomainOp::EdgeConnect {
        id: "edge-1".to_string(),
        source: "n1".to_string(),
        target: "n2".to_string(),
    };

    let result = apply_edge_op(state, &op);

    assert!(result.is_ok(), "Should succeed: {:?}", result.err());
    let new_state = result.unwrap();
    assert!(new_state.has_edge(&EdgeId::new("edge-1".to_string())));
}

/// Test: apply_edge_op returns DuplicateEdge for duplicate edge ID
#[test]
fn given_duplicate_edge_when_apply_edge_op_then_returns_duplicate_edge_error() {
    let mut state = DiagramProjection::empty();

    state.nodes = state.nodes.update(
        NodeId::new("n1".to_string()),
        Node {
            kind: NodeKind::Node,
            icon: String::new(),
            label: "Node 1".to_string(),
            x: of(0.0),
            y: of(0.0),
            width: of(80.0),
            height: of(40.0),
            lock_state: diagram_tool::document::LockState::Unlocked,
            parent: None,
            tags: im::Vector::new(),
            metadata: HashMap::new(),
            z_index: 0,
            font_size: None,
            font_weight: None,
            dag_rank: None,
            style: None,
            collapsed: None,
        },
    );
    state.nodes = state.nodes.update(
        NodeId::new("n2".to_string()),
        Node {
            kind: NodeKind::Node,
            icon: String::new(),
            label: "Node 2".to_string(),
            x: of(100.0),
            y: of(0.0),
            width: of(80.0),
            height: of(40.0),
            lock_state: diagram_tool::document::LockState::Unlocked,
            parent: None,
            tags: im::Vector::new(),
            metadata: HashMap::new(),
            z_index: 0,
            font_size: None,
            font_weight: None,
            dag_rank: None,
            style: None,
            collapsed: None,
        },
    );

    state.edges = state.edges.update(
        EdgeId::new("edge-1".to_string()),
        Edge {
            source: NodeId::new("n1".to_string()),
            target: NodeId::new("n2".to_string()),
            label: String::new(),
            style: EdgeStyle::Solid,
            arrow_type: ArrowType::Default,
            label_offset_t: of(0.5),
            color: None,
            thickness: of(1.5),
            directed: true,
            bend_points: im::Vector::new(),
            tags: im::Vector::new(),
            metadata: HashMap::new(),
            font_size: None,
            source_port: None,
            target_port: None,
        },
    );

    let op = DomainOp::EdgeConnect {
        id: "edge-1".to_string(), // Duplicate ID
        source: "n1".to_string(),
        target: "n2".to_string(),
    };

    let result = apply_edge_op(state, &op);

    assert!(result.is_err());
    match result {
        Err(ReplayError::DuplicateEdge(id)) => assert_eq!(id, "edge-1"),
        _ => panic!("Expected DuplicateEdge error"),
    }
}

/// Test: apply_edge_op returns PolicyViolation for missing source node
#[test]
fn given_missing_source_node_when_apply_edge_op_then_returns_policy_violation() {
    let mut state = DiagramProjection::empty();

    state.nodes = state.nodes.update(
        NodeId::new("n2".to_string()),
        Node {
            kind: NodeKind::Node,
            icon: String::new(),
            label: "Node 2".to_string(),
            x: of(100.0),
            y: of(0.0),
            width: of(80.0),
            height: of(40.0),
            lock_state: diagram_tool::document::LockState::Unlocked,
            parent: None,
            tags: im::Vector::new(),
            metadata: HashMap::new(),
            z_index: 0,
            font_size: None,
            font_weight: None,
            dag_rank: None,
            style: None,
            collapsed: None,
        },
    );

    let op = DomainOp::EdgeConnect {
        id: "edge-1".to_string(),
        source: "nonexistent".to_string(),
        target: "n2".to_string(),
    };

    let result = apply_edge_op(state, &op);

    assert!(result.is_err());
    match result {
        Err(ReplayError::PolicyViolation(msg)) => {
            assert!(msg.contains("source node not found"));
        }
        _ => panic!("Expected PolicyViolation error"),
    }
}

/// Test: apply_edge_op handles EdgeDisconnect correctly
#[test]
fn given_edge_disconnect_op_when_apply_edge_op_then_edge_is_removed() {
    let mut state = DiagramProjection::empty();

    state.nodes = state.nodes.update(
        NodeId::new("n1".to_string()),
        Node {
            kind: NodeKind::Node,
            icon: String::new(),
            label: "Node 1".to_string(),
            x: of(0.0),
            y: of(0.0),
            width: of(80.0),
            height: of(40.0),
            lock_state: diagram_tool::document::LockState::Unlocked,
            parent: None,
            tags: im::Vector::new(),
            metadata: HashMap::new(),
            z_index: 0,
            font_size: None,
            font_weight: None,
            dag_rank: None,
            style: None,
            collapsed: None,
        },
    );
    state.nodes = state.nodes.update(
        NodeId::new("n2".to_string()),
        Node {
            kind: NodeKind::Node,
            icon: String::new(),
            label: "Node 2".to_string(),
            x: of(100.0),
            y: of(0.0),
            width: of(80.0),
            height: of(40.0),
            lock_state: diagram_tool::document::LockState::Unlocked,
            parent: None,
            tags: im::Vector::new(),
            metadata: HashMap::new(),
            z_index: 0,
            font_size: None,
            font_weight: None,
            dag_rank: None,
            style: None,
            collapsed: None,
        },
    );

    state.edges = state.edges.update(
        EdgeId::new("edge-1".to_string()),
        Edge {
            source: NodeId::new("n1".to_string()),
            target: NodeId::new("n2".to_string()),
            label: String::new(),
            style: EdgeStyle::Solid,
            arrow_type: ArrowType::Default,
            label_offset_t: of(0.5),
            color: None,
            thickness: of(1.5),
            directed: true,
            bend_points: im::Vector::new(),
            tags: im::Vector::new(),
            metadata: HashMap::new(),
            font_size: None,
            source_port: None,
            target_port: None,
        },
    );

    let op = DomainOp::EdgeDisconnect {
        id: "edge-1".to_string(),
    };

    let result = apply_edge_op(state, &op);

    assert!(result.is_ok(), "Should succeed: {:?}", result.err());
    let new_state = result.unwrap();
    assert!(!new_state.has_edge(&EdgeId::new("edge-1".to_string())));
}

/// Test: apply_edge_op returns EdgeNotFound for missing edge on disconnect
#[test]
fn given_missing_edge_when_disconnect_then_returns_edge_not_found() {
    let state = DiagramProjection::empty();

    let op = DomainOp::EdgeDisconnect {
        id: "nonexistent".to_string(),
    };

    let result = apply_edge_op(state, &op);

    assert!(result.is_err());
    match result {
        Err(ReplayError::EdgeNotFound(id)) => assert_eq!(id, "nonexistent"),
        _ => panic!("Expected EdgeNotFound error"),
    }
}

/// Test: apply_edge_op returns InvalidEvent for non-edge operations
#[test]
fn given_non_edge_op_when_apply_edge_op_then_returns_invalid_event() {
    let state = DiagramProjection::empty();

    let op = DomainOp::NodeAdd {
        id: "node-1".to_string(),
        x: of(0.0),
        y: of(0.0),
        width: of(80.0),
        height: of(40.0),
        label: "Test".to_string(),
    };

    let result = apply_edge_op(state, &op);

    assert!(result.is_err());
    match result {
        Err(ReplayError::InvalidEvent(msg)) => {
            assert!(msg.contains("not an edge operation"));
        }
        _ => panic!("Expected InvalidEvent error"),
    }
}

/// Test: verify_edge_tolerance passes for valid projection
#[test]
fn given_valid_projection_when_verify_edge_tolerance_then_returns_ok() {
    let mut state = DiagramProjection::empty();

    state.nodes = state.nodes.update(
        NodeId::new("n1".to_string()),
        Node {
            kind: NodeKind::Node,
            icon: String::new(),
            label: "Node 1".to_string(),
            x: of(0.0),
            y: of(0.0),
            width: of(80.0),
            height: of(40.0),
            lock_state: diagram_tool::document::LockState::Unlocked,
            parent: None,
            tags: im::Vector::new(),
            metadata: HashMap::new(),
            z_index: 0,
            font_size: None,
            font_weight: None,
            dag_rank: None,
            style: None,
            collapsed: None,
        },
    );
    state.nodes = state.nodes.update(
        NodeId::new("n2".to_string()),
        Node {
            kind: NodeKind::Node,
            icon: String::new(),
            label: "Node 2".to_string(),
            x: of(100.0),
            y: of(0.0),
            width: of(80.0),
            height: of(40.0),
            lock_state: diagram_tool::document::LockState::Unlocked,
            parent: None,
            tags: im::Vector::new(),
            metadata: HashMap::new(),
            z_index: 0,
            font_size: None,
            font_weight: None,
            dag_rank: None,
            style: None,
            collapsed: None,
        },
    );

    state.edges = state.edges.update(
        EdgeId::new("edge-1".to_string()),
        Edge {
            source: NodeId::new("n1".to_string()),
            target: NodeId::new("n2".to_string()),
            label: String::new(),
            style: EdgeStyle::Solid,
            arrow_type: ArrowType::Default,
            label_offset_t: of(0.5),
            color: None,
            thickness: of(1.5),
            directed: true,
            bend_points: im::Vector::new(),
            tags: im::Vector::new(),
            metadata: HashMap::new(),
            font_size: None,
            source_port: None,
            target_port: None,
        },
    );

    let result = verify_edge_tolerance(&state);

    assert!(result.is_ok(), "Should pass: {:?}", result.err());
}

/// Test: verify_edge_tolerance fails for edge with missing source node
#[test]
fn given_edge_with_missing_source_when_verify_edge_tolerance_then_returns_policy_violation() {
    let mut state = DiagramProjection::empty();

    state.nodes = state.nodes.update(
        NodeId::new("n2".to_string()),
        Node {
            kind: NodeKind::Node,
            icon: String::new(),
            label: "Node 2".to_string(),
            x: of(100.0),
            y: of(0.0),
            width: of(80.0),
            height: of(40.0),
            lock_state: diagram_tool::document::LockState::Unlocked,
            parent: None,
            tags: im::Vector::new(),
            metadata: HashMap::new(),
            z_index: 0,
            font_size: None,
            font_weight: None,
            dag_rank: None,
            style: None,
            collapsed: None,
        },
    );

    state.edges = state.edges.update(
        EdgeId::new("edge-1".to_string()),
        Edge {
            source: NodeId::new("nonexistent".to_string()),
            target: NodeId::new("n2".to_string()),
            label: String::new(),
            style: EdgeStyle::Solid,
            arrow_type: ArrowType::Default,
            label_offset_t: of(0.5),
            color: None,
            thickness: of(1.5),
            directed: true,
            bend_points: im::Vector::new(),
            tags: im::Vector::new(),
            metadata: HashMap::new(),
            font_size: None,
            source_port: None,
            target_port: None,
        },
    );

    let result = verify_edge_tolerance(&state);

    assert!(result.is_err());
    match result {
        Err(ReplayError::PolicyViolation(msg)) => {
            assert!(msg.contains("non-existent source node"));
        }
        _ => panic!("Expected PolicyViolation error"),
    }
}

/// Test: verify_edge_tolerance passes for empty projection
#[test]
fn given_empty_projection_when_verify_edge_tolerance_then_returns_ok() {
    let state = DiagramProjection::empty();

    let result = verify_edge_tolerance(&state);

    assert!(result.is_ok());
}
