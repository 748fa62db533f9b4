//! Applying events to a projection and replaying the event log.

use vstd::prelude::*;

use crate::collections::{priority_map_contents, priority_map_insert};
use crate::envelope::{is_human_author, is_human_author_spec, Author, DomainOp};
use crate::projection::{
    empty_view, outcome_view, CyclePolicy, DiagramProjection, EventRecord, ProjectionView,
    ReplayError, ReplayErrorView,
};
use crate::projection_ops::{
    apply_edge_connect, apply_edge_disconnect, apply_node_add, apply_node_delete, apply_node_move,
    apply_node_restore, edge_connect_spec, edge_disconnect_spec, node_add_spec, node_delete_spec,
    node_move_spec, node_restore_spec,
};
use crate::text::{decimal, u64_to_decimal};
use crate::z_order::{
    apply_bring_forward, apply_bring_to_front, apply_send_backward, apply_send_to_back,
    strings_text, z_order_outcome, ZMove,
};

verus! {

/// The outcomes the domain operation of an event may have.
///
/// Grouping and ungrouping are accepted and leave the projection unchanged.
pub open spec fn operation_outcome(s: ProjectionView, op: DomainOp, r: Result<ProjectionView, ReplayErrorView>) -> bool {
    match op {
        DomainOp::NodeAdd { id, x, y, width, height, label } => r == node_add_spec(s, id@, x.0, y.0, width.0, height.0, label@),
        DomainOp::NodeMove { id, x, y } => r == node_move_spec(s, id@, x.0, y.0),
        DomainOp::NodeDelete { id } => r == node_delete_spec(s, id@),
        DomainOp::NodeRestore { id } => r == node_restore_spec(s, id@),
        DomainOp::EdgeConnect { id, source, target } => r == edge_connect_spec(s, id@, source@, target@),
        DomainOp::EdgeDisconnect { id } => r == edge_disconnect_spec(s, id@),
        DomainOp::BringForward { ids } => z_order_outcome(s, ZMove::BringForward, strings_text(ids@), r),
        DomainOp::SendBackward { ids } => z_order_outcome(s, ZMove::SendBackward, strings_text(ids@), r),
        DomainOp::BringToFront { ids } => z_order_outcome(s, ZMove::BringToFront, strings_text(ids@), r),
        DomainOp::SendToBack { ids } => z_order_outcome(s, ZMove::SendToBack, strings_text(ids@), r),
        DomainOp::Group { .. } => r == Ok::<ProjectionView, ReplayErrorView>(s),
        DomainOp::Ungroup { .. } => r == Ok::<ProjectionView, ReplayErrorView>(s),
        DomainOp::UpdateNodeStyle { .. } => r == Ok::<ProjectionView, ReplayErrorView>(s),
        DomainOp::NodeResize { .. } => r == Ok::<ProjectionView, ReplayErrorView>(s),
        DomainOp::UpdateEdgeStyle { .. } => r == Ok::<ProjectionView, ReplayErrorView>(s),
        DomainOp::UpdateLabel { .. } => r == Ok::<ProjectionView, ReplayErrorView>(s),
    }
}

/// The message of a revision mismatch between a projection and an event.
pub open spec fn mismatch_message(state_revision: u64, event_revision: u64) -> Seq<char> {
    "revision mismatch: state has "@ + decimal(state_revision as nat) + ", event has "@ + decimal(event_revision as nat)
}

/// What follows a successful operation: the operation identifier must be new; it is
/// recorded with the author's kind, and the revision moves on by one.
pub open spec fn record_event(s1: ProjectionView, e: EventRecord) -> Result<ProjectionView, ReplayErrorView> {
    if s1.priority.contains_key(e.op_id@) {
        Err(ReplayErrorView::InvariantViolation("duplicate op_id: "@ + e.op_id@))
    } else {
        Ok(ProjectionView {
            revision: (s1.revision + 1) as u64,
            priority: s1.priority.insert(e.op_id@, is_human_author_spec(e.author)),
            ..s1
        })
    }
}

/// The outcomes applying an event may have.
pub open spec fn event_outcome(s: ProjectionView, e: EventRecord, r: Result<ProjectionView, ReplayErrorView>) -> bool {
    if e.revision != s.revision {
        r == Err::<ProjectionView, ReplayErrorView>(ReplayErrorView::InvariantViolation(mismatch_message(s.revision, e.revision)))
    } else {
        exists|mid: Result<ProjectionView, ReplayErrorView>| #[trigger] operation_outcome(s, e.operation, mid) && match mid {
            Ok(s1) => r == record_event(s1, e),
            Err(x) => r == Err::<ProjectionView, ReplayErrorView>(x),
        }
    }
}

/// The outcomes applying the events one after another may have: the first error
/// stops the replay.
pub open spec fn replay_outcome(s: ProjectionView, events: Seq<EventRecord>, r: Result<ProjectionView, ReplayErrorView>) -> bool
    decreases events.len(),
{
    if events.len() == 0 {
        r == Ok::<ProjectionView, ReplayErrorView>(s)
    } else {
        exists|mid: Result<ProjectionView, ReplayErrorView>| #[trigger] event_outcome(s, events[0], mid) && match mid {
            Ok(s2) => replay_outcome(s2, events.drop_first(), r),
            Err(x) => r == Err::<ProjectionView, ReplayErrorView>(x),
        }
    }
}

/// Event `i` is the first whose revision is not `start + i`.
pub open spec fn first_gap_at(start: u64, events: Seq<EventRecord>, i: int) -> bool {
    &&& 0 <= i < events.len()
    &&& events[i].revision != start + i
    &&& forall|j: int| 0 <= j < i ==> #[trigger] events[j].revision == start + j
}

/// The message of a revision gap.
pub open spec fn gap_message(expected: int, found: u64) -> Seq<char> {
    "revision gap: expected "@ + decimal(expected as nat) + ", found "@ + decimal(found as nat)
}

/// The outcomes of replaying `events` on `s`: a gap in the revisions is reported
/// before any event is applied; otherwise the events are applied in order.
pub open spec fn replay_from_outcome(s: ProjectionView, events: Seq<EventRecord>, r: Result<ProjectionView, ReplayErrorView>) -> bool {
    if exists|i: int| first_gap_at(s.revision, events, i) {
        let i = choose|i: int| first_gap_at(s.revision, events, i);
        r == Err::<ProjectionView, ReplayErrorView>(ReplayErrorView::InvariantViolation(gap_message(s.revision + i, events[i].revision)))
    } else {
        replay_outcome(s, events, r)
    }
}

/// Apply a domain operation to the projection.
pub fn apply_operation(state: DiagramProjection, op: &DomainOp) -> (r: Result<DiagramProjection, ReplayError>)
    ensures
        operation_outcome(state@, *op, outcome_view(r)),
{
    match op {
        DomainOp::NodeAdd { id, x, y, width, height, label } => apply_node_add(state, id.as_str(), *x, *y, *width, *height, label.as_str()),
        DomainOp::NodeMove { id, x, y } => apply_node_move(state, id.as_str(), *x, *y),
        DomainOp::NodeDelete { id } => apply_node_delete(state, id.as_str()),
        DomainOp::NodeRestore { id } => apply_node_restore(state, id.as_str()),
        DomainOp::EdgeConnect { id, source, target } => apply_edge_connect(state, id.as_str(), source.as_str(), target.as_str()),
        DomainOp::EdgeDisconnect { id } => apply_edge_disconnect(state, id.as_str()),
        DomainOp::BringForward { ids } => apply_bring_forward(state, ids.as_slice()),
        DomainOp::SendBackward { ids } => apply_send_backward(state, ids.as_slice()),
        DomainOp::BringToFront { ids } => apply_bring_to_front(state, ids.as_slice()),
        DomainOp::SendToBack { ids } => apply_send_to_back(state, ids.as_slice()),
        DomainOp::Group { .. } => Ok(state),
        DomainOp::Ungroup { .. } => Ok(state),
        DomainOp::UpdateNodeStyle { .. } => Ok(state),
        DomainOp::NodeResize { .. } => Ok(state),
        DomainOp::UpdateEdgeStyle { .. } => Ok(state),
        DomainOp::UpdateLabel { .. } => Ok(state),
    }
}

/// Every operation leaves the revision where it was.
pub proof fn lemma_operation_keeps_revision(s: ProjectionView, op: DomainOp, r: Result<ProjectionView, ReplayErrorView>)
    requires
        operation_outcome(s, op, r),
    ensures
        r matches Ok(s1) ==> s1.revision == s.revision && s1.priority == s.priority,
{
}

/// A successful event moves the revision on by exactly one.
pub proof fn lemma_event_advances_revision(s: ProjectionView, e: EventRecord, r: Result<ProjectionView, ReplayErrorView>)
    requires
        event_outcome(s, e, r),
        s.revision < u64::MAX,
    ensures
        r matches Ok(s2) ==> s2.revision == s.revision + 1,
{
    if e.revision == s.revision {
        let mid = choose|mid: Result<ProjectionView, ReplayErrorView>| #[trigger] operation_outcome(s, e.operation, mid) && match mid {
            Ok(s1) => r == record_event(s1, e),
            Err(x) => r == Err::<ProjectionView, ReplayErrorView>(x),
        };
        lemma_operation_keeps_revision(s, e.operation, mid);
    }
}

/// One step of a replay: the outcome of the first event, followed by a replay of the
/// rest from there (or its error), is an outcome of the whole replay.
proof fn lemma_replay_step(s: ProjectionView, events: Seq<EventRecord>, mid: Result<ProjectionView, ReplayErrorView>, r: Result<ProjectionView, ReplayErrorView>)
    requires
        events.len() > 0,
        event_outcome(s, events[0], mid),
        match mid {
            Ok(s2) => replay_outcome(s2, events.drop_first(), r),
            Err(x) => r == Err::<ProjectionView, ReplayErrorView>(x),
        },
    ensures
        replay_outcome(s, events, r),
{
}

fn text_with_two_numbers(a: &str, x: u64, b: &str, y: u64) -> (m: String)
    ensures
        m@ == a@ + decimal(x as nat) + b@ + decimal(y as nat),
{
    let mut m = String::from_str(a);
    let xs = u64_to_decimal(x);
    m.append(xs.as_str());
    m.append(b);
    let ys = u64_to_decimal(y);
    m.append(ys.as_str());
    m
}

/// Apply a single event: the event must carry the projection's revision; its
/// operation is applied, its operation identifier (which must be new) is recorded
/// with whether the author is human, and the revision moves on by exactly one.
pub fn apply_event(state: DiagramProjection, event: &EventRecord) -> (r: Result<DiagramProjection, ReplayError>)
    requires
        state.revision < u64::MAX,
    ensures
        event_outcome(state@, *event, outcome_view(r)),
{
    let r = apply_event_parts(state, &event.op_id, event.revision, &event.operation, &event.author);
    assert(event_outcome(state@, EventRecord { op_id: event.op_id, revision: event.revision, operation: event.operation,
        author: event.author, timestamp: event.timestamp }, outcome_view(r)));
    r
}

/// Apply the event made of these parts (see `apply_event`).
pub fn apply_event_parts(
    state: DiagramProjection,
    op_id: &String,
    revision: u64,
    operation: &DomainOp,
    author: &Author,
) -> (r: Result<DiagramProjection, ReplayError>)
    requires
        state.revision < u64::MAX,
    ensures
        forall|t: i64| event_outcome(state@, EventRecord { op_id: *op_id, revision, operation: *operation, author: *author, timestamp: t }, outcome_view(r)),
{
    let ghost e = EventRecord { op_id: *op_id, revision, operation: *operation, author: *author, timestamp: 0 };
    if revision != state.revision {
        return Err(ReplayError::InvariantViolation(text_with_two_numbers(
            "revision mismatch: state has ", state.revision, ", event has ", revision)));
    }
    let ghost s = state@;
    let res = apply_operation(state, operation);
    let ghost mid = outcome_view(res);
    proof {
        lemma_operation_keeps_revision(s, *operation, mid);
    }
    match res {
        Err(e) => {
            assert(operation_outcome(s, *operation, mid));
            Err(e)
        },
        Ok(new_state) => {
            let is_human = is_human_author(author);
            let mut new_state = new_state;
            let old_value = priority_map_insert(&mut new_state.author_priority, op_id.clone(), is_human);
            if old_value.is_some() {
                let mut msg = String::from_str("duplicate op_id: ");
                msg.append(op_id.as_str());
                assert(operation_outcome(s, *operation, mid));
                return Err(ReplayError::InvariantViolation(msg));
            }
            new_state.revision = new_state.revision + 1;
            assert(operation_outcome(s, *operation, mid));
            Ok(new_state)
        },
    }
}

/// Replay events starting from a given projection: the event revisions must run
/// consecutively from the projection's revision (checked before anything is applied),
/// then the events are applied in order.
pub fn replay_events_from(initial_state: DiagramProjection, events: &[EventRecord]) -> (r: Result<DiagramProjection, ReplayError>)
    requires
        initial_state.revision + events@.len() <= u64::MAX,
    ensures
        replay_from_outcome(initial_state@, events@, outcome_view(r)),
{
    let ghost s0 = initial_state@;
    let start = initial_state.revision;
    let mut expected_revision = initial_state.revision;
    let mut i: usize = 0;
    while i < events.len()
        invariant
            i <= events.len(),
            start == s0.revision,
            s0 == initial_state@,
            start + events@.len() <= u64::MAX,
            expected_revision == start + i,
            forall|j: int| 0 <= j < i ==> #[trigger] events@[j].revision == start + j,
        decreases events.len() - i,
    {
        if events[i].revision != expected_revision {
            let msg = text_with_two_numbers("revision gap: expected ", expected_revision, ", found ", events[i].revision);
            proof {
                assert(first_gap_at(start, events@, i as int));
                let c = choose|c: int| first_gap_at(start, events@, c);
                if c < i {
                    assert(events@[c].revision == start + c);
                } else if c > i {
                    assert(events@[i as int].revision == start + i);
                }
                assert(c == i);
                assert(msg@ == gap_message(s0.revision + c, events@[c].revision));
            }
            let err = ReplayError::InvariantViolation(msg);
            proof {
                assert(err@ == ReplayErrorView::InvariantViolation(gap_message(s0.revision + i, events@[i as int].revision)));
                assert(replay_from_outcome(s0, events@, outcome_view(Err::<DiagramProjection, ReplayError>(err))));
            }
            return Err(err);
        }
        expected_revision = expected_revision + 1;
        i = i + 1;
    }
    assert(!exists|c: int| first_gap_at(start, events@, c));
    let mut state = initial_state;
    let mut i: usize = 0;
    assert(events@.skip(0) =~= events@);
    while i < events.len()
        invariant
            i <= events.len(),
            start == s0.revision,
            s0 == initial_state@,
            start + events@.len() <= u64::MAX,
            state@.revision == start + i,
            forall|j: int| 0 <= j < events@.len() ==> #[trigger] events@[j].revision == start + j,
            !exists|c: int| first_gap_at(start, events@, c),
            forall|r: Result<ProjectionView, ReplayErrorView>| #[trigger] replay_outcome(state@, events@.skip(i as int), r) ==> replay_outcome(s0, events@, r),
        decreases events.len() - i,
    {
        let ghost cur = state@;
        let ghost rest = events@.skip(i as int);
        proof {
            assert(rest[0] == events@[i as int]);
            assert(rest.drop_first() =~= events@.skip(i + 1));
        }
        let res = apply_event(state, &events[i]);
        let ghost mid = outcome_view(res);
        match res {
            Ok(next) => {
                proof {
                    lemma_event_advances_revision(cur, rest[0], mid);
                    assert forall|r: Result<ProjectionView, ReplayErrorView>| #[trigger] replay_outcome(next@, events@.skip(i + 1), r)
                        implies replay_outcome(s0, events@, r) by {
                        lemma_replay_step(cur, rest, mid, r);
                    }
                }
                state = next;
            },
            Err(e) => {
                proof {
                    lemma_replay_step(cur, rest, mid, mid);
                    assert(mid == outcome_view(Err::<DiagramProjection, ReplayError>(e)));
                }
                return Err(e);
            },
        }
        i = i + 1;
    }
    proof {
        assert(events@.skip(events@.len() as int) =~= Seq::<EventRecord>::empty());
        assert(replay_outcome(state@, events@.skip(i as int), Ok(state@)));
    }
    Ok(state)
}

/// Replay events from the empty projection.
pub fn replay_events(events: &[EventRecord]) -> (r: Result<DiagramProjection, ReplayError>)
    requires
        events@.len() <= u64::MAX,
    ensures
        replay_from_outcome(empty_view(0, CyclePolicy::Allow), events@, outcome_view(r)),
{
    replay_events_from(DiagramProjection::empty(), events)
}

/// Replay a stream of events from the empty projection (the same as `replay_events`).
pub fn replay_stream(events: &[EventRecord]) -> (r: Result<DiagramProjection, ReplayError>)
    requires
        events@.len() <= u64::MAX,
    ensures
        replay_from_outcome(empty_view(0, CyclePolicy::Allow), events@, outcome_view(r)),
{
    replay_events(events)
}

/// Every edge of the projection runs between two of its nodes.
pub open spec fn edges_attached(s: ProjectionView) -> bool {
    forall|k: Seq<char>| #[trigger] s.edges.contains_key(k) ==> s.nodes.contains_key(s.edges[k].source) && s.nodes.contains_key(s.edges[k].target)
}

/// The operation is one of the four z-order moves.
pub open spec fn is_z_order_op(op: DomainOp) -> bool {
    op is BringForward || op is SendBackward || op is BringToFront || op is SendToBack
}

/// No operation leaves an edge dangling: deleting a node takes its edges with it,
/// connecting checks both ends, and the other operations keep the nodes or the edges.
pub proof fn lemma_operation_keeps_edges_attached(s: ProjectionView, op: DomainOp, r: Result<ProjectionView, ReplayErrorView>)
    requires
        edges_attached(s),
        operation_outcome(s, op, r),
    ensures
        r matches Ok(s1) ==> edges_attached(s1),
{
    match op {
        DomainOp::NodeDelete { id } => {
            if let Ok(s1) = r {
                assert forall|k: Seq<char>| #[trigger] s1.edges.contains_key(k) implies s1.nodes.contains_key(s1.edges[k].source)
                    && s1.nodes.contains_key(s1.edges[k].target) by {
                    assert(s.edges.contains_key(k));
                }
            }
        },
        DomainOp::EdgeConnect { .. } => {
            if let Ok(s1) = r {
                assert forall|k: Seq<char>| #[trigger] s1.edges.contains_key(k) implies s1.nodes.contains_key(s1.edges[k].source)
                    && s1.nodes.contains_key(s1.edges[k].target) by {
                    if s.edges.contains_key(k) {
                    }
                }
            }
        },
        DomainOp::NodeAdd { .. } => {
            if let Ok(s1) = r {
                assert forall|k: Seq<char>| #[trigger] s1.edges.contains_key(k) implies s1.nodes.contains_key(s1.edges[k].source)
                    && s1.nodes.contains_key(s1.edges[k].target) by {
                    assert(s.edges.contains_key(k));
                }
            }
        },
        DomainOp::NodeMove { .. } => {
            if let Ok(s1) = r {
                assert forall|k: Seq<char>| #[trigger] s1.edges.contains_key(k) implies s1.nodes.contains_key(s1.edges[k].source)
                    && s1.nodes.contains_key(s1.edges[k].target) by {
                    assert(s.edges.contains_key(k));
                }
            }
        },
        _ => {
            if is_z_order_op(op) {
                if let Ok(s1) = r {
                    assert(s1.nodes.dom() =~= s.nodes.dom());
                    assert forall|k: Seq<char>| #[trigger] s1.edges.contains_key(k) implies s1.nodes.contains_key(s1.edges[k].source)
                        && s1.nodes.contains_key(s1.edges[k].target) by {
                        assert(s.edges.contains_key(k));
                        assert(s1.nodes.dom().contains(s1.edges[k].source));
                        assert(s1.nodes.dom().contains(s1.edges[k].target));
                    }
                }
            }
        },
    }
}

/// Applying an event never leaves an edge dangling.
pub proof fn lemma_event_keeps_edges_attached(s: ProjectionView, e: EventRecord, r: Result<ProjectionView, ReplayErrorView>)
    requires
        edges_attached(s),
        event_outcome(s, e, r),
    ensures
        r matches Ok(s2) ==> edges_attached(s2),
{
    if e.revision == s.revision {
        let mid = choose|mid: Result<ProjectionView, ReplayErrorView>| #[trigger] operation_outcome(s, e.operation, mid) && match mid {
            Ok(s1) => r == record_event(s1, e),
            Err(x) => r == Err::<ProjectionView, ReplayErrorView>(x),
        };
        lemma_operation_keeps_edges_attached(s, e.operation, mid);
    }
}

/// Replaying events never leaves an edge dangling.
pub proof fn lemma_replay_keeps_edges_attached(s: ProjectionView, events: Seq<EventRecord>, r: Result<ProjectionView, ReplayErrorView>)
    requires
        edges_attached(s),
        replay_outcome(s, events, r),
    ensures
        r matches Ok(s2) ==> edges_attached(s2),
    decreases events.len(),
{
    if events.len() > 0 {
        let mid = choose|mid: Result<ProjectionView, ReplayErrorView>| #[trigger] event_outcome(s, events[0], mid) && match mid {
            Ok(s2) => replay_outcome(s2, events.drop_first(), r),
            Err(x) => r == Err::<ProjectionView, ReplayErrorView>(x),
        };
        lemma_event_keeps_edges_attached(s, events[0], mid);
        if let Ok(s2) = mid {
            lemma_replay_keeps_edges_attached(s2, events.drop_first(), r);
        }
    }
}

/// A projection replayed from the empty one has no dangling edge, whatever the log.
pub proof fn lemma_replayed_projection_has_attached_edges(events: Seq<EventRecord>, r: Result<ProjectionView, ReplayErrorView>)
    requires
        replay_from_outcome(empty_view(0, CyclePolicy::Allow), events, r),
    ensures
        r matches Ok(s) ==> edges_attached(s),
{
    let s0 = empty_view(0, CyclePolicy::Allow);
    if !(exists|i: int| first_gap_at(s0.revision, events, i)) {
        lemma_replay_keeps_edges_attached(s0, events, r);
    }
}

/// A successful replay moves the revision on by exactly the number of events.
pub proof fn lemma_replay_advances_revision(s: ProjectionView, events: Seq<EventRecord>, r: Result<ProjectionView, ReplayErrorView>)
    requires
        replay_outcome(s, events, r),
        s.revision + events.len() <= u64::MAX,
    ensures
        r matches Ok(s2) ==> s2.revision == s.revision + events.len(),
    decreases events.len(),
{
    if events.len() > 0 {
        let mid = choose|mid: Result<ProjectionView, ReplayErrorView>| #[trigger] event_outcome(s, events[0], mid) && match mid {
            Ok(s2) => replay_outcome(s2, events.drop_first(), r),
            Err(x) => r == Err::<ProjectionView, ReplayErrorView>(x),
        };
        lemma_event_advances_revision(s, events[0], mid);
        if let Ok(s2) = mid {
            lemma_replay_advances_revision(s2, events.drop_first(), r);
        }
    }
}

/// Replaying a log in two parts, the second from the outcome of the first, gives an
/// outcome of replaying the whole log; and every outcome of the whole log arises so.
pub proof fn lemma_replay_in_two_parts(
    s: ProjectionView,
    first: Seq<EventRecord>,
    rest: Seq<EventRecord>,
    r: Result<ProjectionView, ReplayErrorView>,
)
    ensures
        replay_outcome(s, first + rest, r) <==> exists|mid: Result<ProjectionView, ReplayErrorView>|
            #[trigger] replay_outcome(s, first, mid) && match mid {
                Ok(s1) => replay_outcome(s1, rest, r),
                Err(x) => r == Err::<ProjectionView, ReplayErrorView>(x),
            },
    decreases first.len(),
{
    if first.len() == 0 {
        assert(first + rest =~= rest);
        if replay_outcome(s, first + rest, r) {
            assert(replay_outcome(s, first, Ok::<ProjectionView, ReplayErrorView>(s)));
        }
    } else {
        let whole = first + rest;
        assert(whole[0] == first[0]);
        assert(whole.drop_first() =~= first.drop_first() + rest);
        if replay_outcome(s, whole, r) {
            let m0 = choose|m0: Result<ProjectionView, ReplayErrorView>| #[trigger] event_outcome(s, whole[0], m0) && match m0 {
                Ok(s2) => replay_outcome(s2, whole.drop_first(), r),
                Err(x) => r == Err::<ProjectionView, ReplayErrorView>(x),
            };
            match m0 {
                Ok(s2) => {
                    lemma_replay_in_two_parts(s2, first.drop_first(), rest, r);
                    let mid = choose|mid: Result<ProjectionView, ReplayErrorView>|
                        #[trigger] replay_outcome(s2, first.drop_first(), mid) && match mid {
                            Ok(s1) => replay_outcome(s1, rest, r),
                            Err(x) => r == Err::<ProjectionView, ReplayErrorView>(x),
                        };
                    lemma_replay_step(s, first, m0, mid);
                },
                Err(x) => {
                    lemma_replay_step(s, first, m0, m0);
                    assert(replay_outcome(s, first, m0));
                },
            }
        }
        if exists|mid: Result<ProjectionView, ReplayErrorView>| #[trigger] replay_outcome(s, first, mid) && match mid {
            Ok(s1) => replay_outcome(s1, rest, r),
            Err(x) => r == Err::<ProjectionView, ReplayErrorView>(x),
        } {
            let mid = choose|mid: Result<ProjectionView, ReplayErrorView>| #[trigger] replay_outcome(s, first, mid) && match mid {
                Ok(s1) => replay_outcome(s1, rest, r),
                Err(x) => r == Err::<ProjectionView, ReplayErrorView>(x),
            };
            let m0 = choose|m0: Result<ProjectionView, ReplayErrorView>| #[trigger] event_outcome(s, first[0], m0) && match m0 {
                Ok(s2) => replay_outcome(s2, first.drop_first(), mid),
                Err(x) => mid == Err::<ProjectionView, ReplayErrorView>(x),
            };
            match m0 {
                Ok(s2) => {
                    lemma_replay_in_two_parts(s2, first.drop_first(), rest, r);
                    lemma_replay_step(s, whole, m0, r);
                },
                Err(x) => {
                    lemma_replay_step(s, whole, m0, r);
                },
            }
        }
    }
}

/// Every event carries the revision of its position, counted from `start`.
pub open spec fn in_sequence(start: u64, events: Seq<EventRecord>) -> bool {
    forall|j: int| 0 <= j < events.len() ==> #[trigger] events[j].revision == start + j
}

/// A log has a first revision gap exactly when it is not in sequence.
proof fn lemma_gap_iff_out_of_sequence(start: u64, events: Seq<EventRecord>)
    ensures
        (exists|i: int| first_gap_at(start, events, i)) <==> !in_sequence(start, events),
    decreases events.len(),
{
    if events.len() > 0 {
        let t = events.drop_last();
        lemma_gap_iff_out_of_sequence(start, t);
        if in_sequence(start, t) {
            if !in_sequence(start, events) {
                assert(first_gap_at(start, events, events.len() - 1)) by {
                    assert forall|j: int| 0 <= j < events.len() - 1 implies #[trigger] events[j].revision == start + j by {
                        assert(t[j] == events[j]);
                    }
                }
            }
        } else {
            let i = choose|i: int| first_gap_at(start, t, i);
            assert(first_gap_at(start, events, i)) by {
                assert(events[i] == t[i]);
                assert forall|j: int| 0 <= j < i implies #[trigger] events[j].revision == start + j by {
                    assert(t[j] == events[j]);
                }
            }
        }
    }
    if exists|i: int| first_gap_at(start, events, i) {
        let i = choose|i: int| first_gap_at(start, events, i);
        assert(events[i].revision != start + i);
    }
}

/// A log has at most one first revision gap.
proof fn lemma_first_gap_unique(start: u64, events: Seq<EventRecord>, i: int, k: int)
    requires
        first_gap_at(start, events, i),
        first_gap_at(start, events, k),
    ensures
        i == k,
{
    if i < k {
        assert(events[i].revision == start + i);
    }
    if k < i {
        assert(events[k].revision == start + k);
    }
}

/// Where a log in sequence is followed by more events, the whole log's first gap is the
/// first gap of the rest, counted from where the first part ends.
proof fn lemma_gap_after_prefix(start: u64, first: Seq<EventRecord>, rest: Seq<EventRecord>, i: int)
    requires
        in_sequence(start, first),
        first_gap_at((start + first.len()) as u64, rest, i),
        start + first.len() <= u64::MAX,
    ensures
        first_gap_at(start, first + rest, first.len() + i),
{
    let whole = first + rest;
    let n = first.len() as int;
    assert(whole[n + i] == rest[i]);
    assert forall|j: int| 0 <= j < n + i implies #[trigger] whole[j].revision == start + j by {
        if j < n {
            assert(whole[j] == first[j]);
        } else {
            assert(whole[j] == rest[j - n]);
        }
    }
}

/// Two logs in sequence, the second starting where the first ends, make a log in sequence.
proof fn lemma_sequence_concat(start: u64, first: Seq<EventRecord>, rest: Seq<EventRecord>)
    requires
        in_sequence(start, first),
        in_sequence((start + first.len()) as u64, rest),
        start + first.len() <= u64::MAX,
    ensures
        in_sequence(start, first + rest),
{
    let whole = first + rest;
    let n = first.len() as int;
    assert forall|j: int| 0 <= j < whole.len() implies #[trigger] whole[j].revision == start + j by {
        if j < n {
            assert(whole[j] == first[j]);
        } else {
            assert(whole[j] == rest[j - n]);
        }
    }
}

/// Resuming from a projection replayed from a prefix of the log gives what replaying
/// the whole log gives: a replay of the rest from the prefix's result, with its own gap
/// check, yields an outcome of the whole replay, with the whole log's gap check.
pub proof fn lemma_resume_after_prefix(
    s: ProjectionView,
    first: Seq<EventRecord>,
    rest: Seq<EventRecord>,
    s1: ProjectionView,
    r: Result<ProjectionView, ReplayErrorView>,
)
    requires
        replay_from_outcome(s, first, Ok(s1)),
        replay_from_outcome(s1, rest, r),
        s.revision + first.len() <= u64::MAX,
    ensures
        replay_from_outcome(s, first + rest, r),
{
    let whole = first + rest;
    lemma_gap_iff_out_of_sequence(s.revision, first);
    lemma_gap_iff_out_of_sequence(s1.revision, rest);
    lemma_gap_iff_out_of_sequence(s.revision, whole);
    assert(replay_outcome(s, first, Ok::<ProjectionView, ReplayErrorView>(s1)));
    lemma_replay_advances_revision(s, first, Ok::<ProjectionView, ReplayErrorView>(s1));
    if exists|i: int| first_gap_at(s1.revision, rest, i) {
        let i = choose|i: int| first_gap_at(s1.revision, rest, i);
        lemma_gap_after_prefix(s.revision, first, rest, i);
        let g = choose|g: int| first_gap_at(s.revision, whole, g);
        lemma_first_gap_unique(s.revision, whole, g, first.len() + i);
        assert(whole[g] == rest[i]);
    } else {
        lemma_sequence_concat(s.revision, first, rest);
        lemma_replay_in_two_parts(s, first, rest, r);
    }
}

/// An event never applies twice: once its operation identifier is recorded, an event
/// carrying it again is refused, whatever its operation.
pub proof fn lemma_recorded_op_id_is_refused(s: ProjectionView, e: EventRecord, r: Result<ProjectionView, ReplayErrorView>)
    requires
        s.priority.contains_key(e.op_id@),
        event_outcome(s, e, r),
    ensures
        r is Err,
{
    if e.revision == s.revision {
        let mid = choose|mid: Result<ProjectionView, ReplayErrorView>| #[trigger] operation_outcome(s, e.operation, mid) && match mid {
            Ok(s1) => r == record_event(s1, e),
            Err(x) => r == Err::<ProjectionView, ReplayErrorView>(x),
        };
        lemma_operation_keeps_revision(s, e.operation, mid);
    }
}

/// An operation other than a z-order move has one outcome.
proof fn lemma_operation_functional(s: ProjectionView, op: DomainOp, r1: Result<ProjectionView, ReplayErrorView>, r2: Result<ProjectionView, ReplayErrorView>)
    requires
        !is_z_order_op(op),
        operation_outcome(s, op, r1),
        operation_outcome(s, op, r2),
    ensures
        r1 == r2,
{
}

/// Replay is deterministic for logs without z-order moves: the same events on the
/// same projection give the same result. (A z-order move ranks nodes of equal
/// `z_index` in the order the node map is walked, which is left open.)
pub proof fn lemma_replay_deterministic(s: ProjectionView, events: Seq<EventRecord>, r1: Result<ProjectionView, ReplayErrorView>, r2: Result<ProjectionView, ReplayErrorView>)
    requires
        forall|i: int| 0 <= i < events.len() ==> !is_z_order_op(#[trigger] events[i].operation),
        replay_outcome(s, events, r1),
        replay_outcome(s, events, r2),
    ensures
        r1 == r2,
    decreases events.len(),
{
    if events.len() > 0 {
        let e = events[0];
        let m1 = choose|mid: Result<ProjectionView, ReplayErrorView>| #[trigger] event_outcome(s, e, mid) && match mid {
            Ok(s2) => replay_outcome(s2, events.drop_first(), r1),
            Err(x) => r1 == Err::<ProjectionView, ReplayErrorView>(x),
        };
        let m2 = choose|mid: Result<ProjectionView, ReplayErrorView>| #[trigger] event_outcome(s, e, mid) && match mid {
            Ok(s2) => replay_outcome(s2, events.drop_first(), r2),
            Err(x) => r2 == Err::<ProjectionView, ReplayErrorView>(x),
        };
        if e.revision == s.revision {
            let o1 = choose|mid: Result<ProjectionView, ReplayErrorView>| #[trigger] operation_outcome(s, e.operation, mid) && match mid {
                Ok(s1) => m1 == record_event(s1, e),
                Err(x) => m1 == Err::<ProjectionView, ReplayErrorView>(x),
            };
            let o2 = choose|mid: Result<ProjectionView, ReplayErrorView>| #[trigger] operation_outcome(s, e.operation, mid) && match mid {
                Ok(s1) => m2 == record_event(s1, e),
                Err(x) => m2 == Err::<ProjectionView, ReplayErrorView>(x),
            };
            assert(!is_z_order_op(events[0].operation));
            lemma_operation_functional(s, e.operation, o1, o2);
        }
        assert(m1 == m2);
        if let Ok(s2) = m1 {
            assert forall|i: int| 0 <= i < events.drop_first().len() implies !is_z_order_op(#[trigger] events.drop_first()[i].operation) by {
                assert(events.drop_first()[i] == events[i + 1]);
            }
            lemma_replay_deterministic(s2, events.drop_first(), r1, r2);
        }
    }
}

} // verus!
