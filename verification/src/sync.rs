//! Applying a tail of new events, written by another process, to a projection.
//!
//! Watching the store and reading the new events is I/O and happens outside this
//! library; the batch itself is applied here and summarised for the UI.

use vstd::prelude::*;

use crate::document::NodeId;
use crate::envelope::{DomainOp, LabelTargetId, LabelTargetType};
use crate::stored_rows::{decode_problem, decode_row, i64_text_ok, row_event, StoredRow};
use crate::projection::{replay_error_text, DiagramProjection, EventRecord, ProjectionView, ReplayErrorView};
use crate::replay::{replay_events_from, replay_from_outcome};
use crate::text::{concat_str, ends_with, i64_to_decimal, seq_ends_with, signed_decimal, str_eq};

verus! {

/// Errors of the sync machinery.
#[derive(Debug, Clone, PartialEq, Eq)]
pub enum SyncError {
    /// The file watcher could not be set up.
    WatchInit,
    /// The file watcher failed while running.
    WatchRuntime,
    /// I/O error on the store's files.
    Io(String),
    /// Error of the SQLite store.
    Sqlite(String),
    /// An event could not be decoded or replayed.
    Decode(String),
    /// The notification channel was closed.
    ChannelClosed,
}

impl SyncError {
    /// The error's text.
    pub fn to_string(&self) -> (s: String)
        ensures
            self matches SyncError::Decode(m) ==> s@ == "failed to decode event: "@ + m@,
            self matches SyncError::Io(m) ==> s@ == "I/O error: "@ + m@,
            self matches SyncError::Sqlite(m) ==> s@ == "SQLite error: "@ + m@,
            self matches SyncError::WatchInit ==> s@ == "failed to initialize file watcher"@,
            self matches SyncError::WatchRuntime ==> s@ == "watcher runtime error"@,
            self matches SyncError::ChannelClosed ==> s@ == "channel closed"@,
    {
        match self {
            SyncError::WatchInit => String::from_str("failed to initialize file watcher"),
            SyncError::WatchRuntime => String::from_str("watcher runtime error"),
            SyncError::Io(m) => concat_str("I/O error: ", m.as_str()),
            SyncError::Sqlite(m) => concat_str("SQLite error: ", m.as_str()),
            SyncError::Decode(m) => concat_str("failed to decode event: ", m.as_str()),
            SyncError::ChannelClosed => String::from_str("channel closed"),
        }
    }
}

/// Notifications of the store watcher.
#[derive(Debug, Clone)]
pub enum SyncMessage {
    /// New events are available, with their revisions.
    EventsUpdated(Vec<u64>),
    /// The watcher failed.
    Error(String),
}

/// What applying a batch of events did.
#[derive(Debug, Clone, PartialEq, Eq)]
pub struct ApplySummary {
    /// Number of events applied.
    pub events_applied: usize,
    /// Revision before the batch.
    pub from_revision: u64,
    /// Revision after the batch.
    pub to_revision: u64,
    /// Identifiers (`node:`, `edge:` or `group:` and the identifier) of the entities
    /// the batch touched, each once.
    pub affected_entities: Vec<String>,
}

/// The text of each string, prefixed.
pub open spec fn prefixed(prefix: Seq<char>, ids: Seq<String>) -> Seq<Seq<char>> {
    ids.map_values(|s: String| prefix + s@)
}

/// The text of each node identifier, prefixed.
pub open spec fn prefixed_ids(prefix: Seq<char>, ids: Seq<NodeId>) -> Seq<Seq<char>> {
    ids.map_values(|s: NodeId| prefix + s@)
}

/// The entities an operation touches.
pub open spec fn op_entities(op: DomainOp) -> Seq<Seq<char>> {
    match op {
        DomainOp::NodeAdd { id, .. } => seq!["node:"@ + id@],
        DomainOp::NodeMove { id, .. } => seq!["node:"@ + id@],
        DomainOp::NodeDelete { id } => seq!["node:"@ + id@],
        DomainOp::NodeRestore { id } => seq!["node:"@ + id@],
        DomainOp::EdgeConnect { id, source, target } => seq!["edge:"@ + id@, "node:"@ + source@, "node:"@ + target@],
        DomainOp::EdgeDisconnect { id } => seq!["edge:"@ + id@],
        DomainOp::BringForward { ids } => prefixed("node:"@, ids@),
        DomainOp::SendBackward { ids } => prefixed("node:"@, ids@),
        DomainOp::BringToFront { ids } => prefixed("node:"@, ids@),
        DomainOp::SendToBack { ids } => prefixed("node:"@, ids@),
        DomainOp::Group { id, ids } => seq!["node:"@ + id@] + prefixed_ids("node:"@, ids@),
        DomainOp::Ungroup { id } => seq!["group:"@ + id@],
        DomainOp::UpdateNodeStyle { id, .. } => seq!["node:"@ + id@],
        DomainOp::NodeResize { id, .. } => seq!["node:"@ + id@],
        DomainOp::UpdateEdgeStyle { id, .. } => seq!["edge:"@ + id@],
        DomainOp::UpdateLabel { target_id, target_type, .. } => match (target_type, target_id) {
            (LabelTargetType::Node, LabelTargetId::Node(id)) => seq!["node:"@ + id@],
            (LabelTargetType::Edge, LabelTargetId::Edge(id)) => seq!["edge:"@ + id@],
            _ => Seq::empty(),
        },
    }
}

/// The entities a list of events touches.
pub open spec fn entities_of(events: Seq<EventRecord>) -> Set<Seq<char>>
    decreases events.len(),
{
    if events.len() == 0 {
        Set::empty()
    } else {
        entities_of(events.drop_last()) + op_entities(events.last().operation).to_set()
    }
}

/// The texts of a list of strings, as a set.
pub open spec fn text_set(v: Seq<String>) -> Set<Seq<char>> {
    Set::new(|t: Seq<char>| exists|i: int| 0 <= i < v.len() && #[trigger] v[i]@ == t)
}

/// No text occurs twice in the list.
pub open spec fn distinct_texts(v: Seq<String>) -> bool {
    forall|i: int, j: int| 0 <= i < j < v.len() ==> v[i]@ != v[j]@
}

/// A one-element sequence holds just its element.
proof fn lemma_singleton_to_set(x: Seq<char>)
    ensures
        seq![x].to_set() == set![x],
{
    assert forall|t: Seq<char>| seq![x].to_set().contains(t) <==> set![x].contains(t) by {
        if t == x {
            assert(seq![x][0] == t);
        }
    }
    assert(seq![x].to_set() =~= set![x]);
}

/// A three-element sequence holds just its elements.
proof fn lemma_triple_to_set(x: Seq<char>, y: Seq<char>, z: Seq<char>)
    ensures
        seq![x, y, z].to_set() == set![x, y, z],
{
    let s = seq![x, y, z];
    assert forall|t: Seq<char>| s.to_set().contains(t) <==> set![x, y, z].contains(t) by {
        if t == x {
            assert(s[0] == t);
        }
        if t == y {
            assert(s[1] == t);
        }
        if t == z {
            assert(s[2] == t);
        }
    }
    assert(s.to_set() =~= set![x, y, z]);
}

/// Add a text to a list of distinct texts unless it is there already.
fn insert_unique(out: &mut Vec<String>, s: String)
    requires
        distinct_texts(old(out)@),
    ensures
        distinct_texts(final(out)@),
        text_set(final(out)@) == text_set(old(out)@).insert(s@),
{
    let mut i: usize = 0;
    while i < out.len()
        invariant
            i <= out@.len(),
            distinct_texts(out@),
            forall|j: int| 0 <= j < i ==> out@[j]@ != s@,
        decreases out.len() - i,
    {
        if str_eq(out[i].as_str(), s.as_str()) {
            proof {
                assert(text_set(out@) =~= text_set(out@).insert(s@));
            }
            return;
        }
        i = i + 1;
    }
    let ghost before = out@;
    out.push(s);
    proof {
        assert forall|t: Seq<char>| #[trigger] text_set(out@).contains(t) == text_set(before).insert(s@).contains(t) by {
            if text_set(before).contains(t) {
                let j = choose|j: int| 0 <= j < before.len() && #[trigger] before[j]@ == t;
                assert(out@[j] == before[j]);
            }
            if t == s@ {
                assert(out@[before.len() as int]@ == t);
            }
            if text_set(out@).contains(t) && t != s@ {
                let j = choose|j: int| 0 <= j < out@.len() && #[trigger] out@[j]@ == t;
                assert(before[j] == out@[j]);
            }
        }
        assert(text_set(out@) =~= text_set(before).insert(s@));
    }
}

/// Add a prefixed text for each string of a list.
fn insert_all_prefixed(out: &mut Vec<String>, prefix: &str, ids: &Vec<String>)
    requires
        distinct_texts(old(out)@),
    ensures
        distinct_texts(final(out)@),
        text_set(final(out)@) == text_set(old(out)@) + prefixed(prefix@, ids@).to_set(),
{
    let ghost start = text_set(out@);
    let mut i: usize = 0;
    while i < ids.len()
        invariant
            i <= ids@.len(),
            distinct_texts(out@),
            text_set(out@) == start + prefixed(prefix@, ids@.subrange(0, i as int)).to_set(),
        decreases ids.len() - i,
    {
        insert_unique(out, concat_str(prefix, ids[i].as_str()));
        proof {
            assert(prefixed(prefix@, ids@.subrange(0, i + 1)) =~= prefixed(prefix@, ids@.subrange(0, i as int)).push(prefix@ + ids@[i as int]@));
            prefixed(prefix@, ids@.subrange(0, i as int)).lemma_push_to_set_commute(prefix@ + ids@[i as int]@);
            assert(text_set(out@) =~= start + prefixed(prefix@, ids@.subrange(0, i + 1)).to_set());
        }
        i = i + 1;
    }
    assert(ids@.subrange(0, ids@.len() as int) =~= ids@);
}

/// Add a prefixed text for each node identifier of a list.
fn insert_all_prefixed_ids(out: &mut Vec<String>, prefix: &str, ids: &Vec<NodeId>)
    requires
        distinct_texts(old(out)@),
    ensures
        distinct_texts(final(out)@),
        text_set(final(out)@) == text_set(old(out)@) + prefixed_ids(prefix@, ids@).to_set(),
{
    let ghost start = text_set(out@);
    let mut i: usize = 0;
    while i < ids.len()
        invariant
            i <= ids@.len(),
            distinct_texts(out@),
            text_set(out@) == start + prefixed_ids(prefix@, ids@.subrange(0, i as int)).to_set(),
        decreases ids.len() - i,
    {
        insert_unique(out, concat_str(prefix, ids[i].as_str()));
        proof {
            assert(prefixed_ids(prefix@, ids@.subrange(0, i + 1)) =~= prefixed_ids(prefix@, ids@.subrange(0, i as int)).push(prefix@ + ids@[i as int]@));
            prefixed_ids(prefix@, ids@.subrange(0, i as int)).lemma_push_to_set_commute(prefix@ + ids@[i as int]@);
            assert(text_set(out@) =~= start + prefixed_ids(prefix@, ids@.subrange(0, i + 1)).to_set());
        }
        i = i + 1;
    }
    assert(ids@.subrange(0, ids@.len() as int) =~= ids@);
}

/// Add the entities one operation touches.
fn insert_op_entities(out: &mut Vec<String>, op: &DomainOp)
    requires
        distinct_texts(old(out)@),
    ensures
        distinct_texts(final(out)@),
        text_set(final(out)@) == text_set(old(out)@) + op_entities(*op).to_set(),
{
    let ghost start = text_set(out@);
    match op {
        DomainOp::NodeAdd { id, .. } | DomainOp::NodeMove { id, .. } | DomainOp::NodeDelete { id } | DomainOp::NodeRestore { id }
        | DomainOp::UpdateNodeStyle { id, .. } => {
            insert_unique(out, concat_str("node:", id.as_str()));
            proof { lemma_singleton_to_set("node:"@ + id@); }
        },
        DomainOp::EdgeConnect { id, source, target } => {
            insert_unique(out, concat_str("edge:", id.as_str()));
            insert_unique(out, concat_str("node:", source.as_str()));
            insert_unique(out, concat_str("node:", target.as_str()));
            proof { lemma_triple_to_set("edge:"@ + id@, "node:"@ + source@, "node:"@ + target@); }
            assert(text_set(out@) =~= start + op_entities(*op).to_set());
        },
        DomainOp::EdgeDisconnect { id } | DomainOp::UpdateEdgeStyle { id, .. } => {
            insert_unique(out, concat_str("edge:", id.as_str()));
            proof { lemma_singleton_to_set("edge:"@ + id@); }
        },
        DomainOp::BringForward { ids } | DomainOp::SendBackward { ids } | DomainOp::BringToFront { ids } | DomainOp::SendToBack { ids } => {
            insert_all_prefixed(out, "node:", ids);
        },
        DomainOp::Group { id, ids } => {
            insert_unique(out, concat_str("node:", id.as_str()));
            insert_all_prefixed_ids(out, "node:", ids);
            assert((seq!["node:"@ + id@] + prefixed_ids("node:"@, ids@)).to_set()
                =~= set!["node:"@ + id@] + prefixed_ids("node:"@, ids@).to_set()) by {
                assert forall|t: Seq<char>| (seq!["node:"@ + id@] + prefixed_ids("node:"@, ids@)).contains(t)
                    <==> (set!["node:"@ + id@] + prefixed_ids("node:"@, ids@).to_set()).contains(t) by {
                    let s1 = seq!["node:"@ + id@];
                    let s2 = prefixed_ids("node:"@, ids@);
                    if (s1 + s2).contains(t) {
                        let k = choose|k: int| 0 <= k < (s1 + s2).len() && (s1 + s2)[k] == t;
                        if k >= 1 {
                            assert(s2[k - 1] == t);
                        }
                    }
                    if s2.contains(t) {
                        let k = choose|k: int| 0 <= k < s2.len() && s2[k] == t;
                        assert((s1 + s2)[k + 1] == t);
                    }
                    if t == "node:"@ + id@ {
                        assert((s1 + s2)[0] == t);
                    }
                }
            }
            assert(text_set(out@) =~= start + op_entities(*op).to_set());
        },
        DomainOp::Ungroup { id } => {
            insert_unique(out, concat_str("group:", id.as_str()));
            proof { lemma_singleton_to_set("group:"@ + id@); }
        },
        DomainOp::NodeResize { id, .. } => {
            insert_unique(out, concat_str("node:", id.as_str()));
            proof { lemma_singleton_to_set("node:"@ + id@); }
        },
        DomainOp::UpdateLabel { target_id, target_type, .. } => {
            match (target_type, target_id) {
                (LabelTargetType::Node, LabelTargetId::Node(id)) => {
                    insert_unique(out, concat_str("node:", id.as_str()));
                    proof { lemma_singleton_to_set("node:"@ + id@); }
                },
                (LabelTargetType::Edge, LabelTargetId::Edge(id)) => {
                    insert_unique(out, concat_str("edge:", id.as_str()));
                    proof { lemma_singleton_to_set("edge:"@ + id@); }
                },
                _ => {
                    assert(op_entities(*op).to_set() =~= Set::empty());
                    assert(text_set(out@) =~= start + op_entities(*op).to_set());
                },
            }
        },
    }
}

/// Everything one event touches is among the entities of a list that holds it.
proof fn lemma_event_entities_included(events: Seq<EventRecord>, i: int, t: Seq<char>)
    requires
        0 <= i < events.len(),
        op_entities(events[i].operation).contains(t),
    ensures
        entities_of(events).contains(t),
    decreases events.len(),
{
    if i < events.len() - 1 {
        lemma_event_entities_included(events.drop_last(), i, t);
    } else {
        assert(op_entities(events.last().operation).to_set().contains(t));
    }
}

/// Each event contributes the nodes, edges and groups its operation names: a node's
/// id for a node operation, an edge's id and both of its ends for a connection, the
/// edge's id for a disconnection or an edge style change, every listed node for a
/// z-order move, the group and every member for a grouping, the group for an
/// ungrouping, and the labelled node or edge for a label change whose target kind
/// matches its type.
pub proof fn lemma_named_entities_are_affected(events: Seq<EventRecord>, i: int)
    requires
        0 <= i < events.len(),
    ensures
        match events[i].operation {
            DomainOp::NodeAdd { id, .. } => entities_of(events).contains("node:"@ + id@),
            DomainOp::NodeMove { id, .. } => entities_of(events).contains("node:"@ + id@),
            DomainOp::NodeDelete { id } => entities_of(events).contains("node:"@ + id@),
            DomainOp::NodeRestore { id } => entities_of(events).contains("node:"@ + id@),
            DomainOp::EdgeConnect { id, source, target } => entities_of(events).contains("edge:"@ + id@)
                && entities_of(events).contains("node:"@ + source@) && entities_of(events).contains("node:"@ + target@),
            DomainOp::EdgeDisconnect { id } => entities_of(events).contains("edge:"@ + id@),
            DomainOp::BringForward { ids } => forall|j: int| 0 <= j < ids@.len() ==> entities_of(events).contains("node:"@ + (#[trigger] ids@[j])@),
            DomainOp::SendBackward { ids } => forall|j: int| 0 <= j < ids@.len() ==> entities_of(events).contains("node:"@ + (#[trigger] ids@[j])@),
            DomainOp::BringToFront { ids } => forall|j: int| 0 <= j < ids@.len() ==> entities_of(events).contains("node:"@ + (#[trigger] ids@[j])@),
            DomainOp::SendToBack { ids } => forall|j: int| 0 <= j < ids@.len() ==> entities_of(events).contains("node:"@ + (#[trigger] ids@[j])@),
            DomainOp::Group { id, ids } => entities_of(events).contains("node:"@ + id@)
                && forall|j: int| 0 <= j < ids@.len() ==> entities_of(events).contains("node:"@ + (#[trigger] ids@[j])@),
            DomainOp::Ungroup { id } => entities_of(events).contains("group:"@ + id@),
            DomainOp::UpdateNodeStyle { id, .. } => entities_of(events).contains("node:"@ + id@),
            DomainOp::NodeResize { id, .. } => entities_of(events).contains("node:"@ + id@),
            DomainOp::UpdateEdgeStyle { id, .. } => entities_of(events).contains("edge:"@ + id@),
            DomainOp::UpdateLabel { target_id, target_type, .. } => match (target_type, target_id) {
                (LabelTargetType::Node, LabelTargetId::Node(id)) => entities_of(events).contains("node:"@ + id@),
                (LabelTargetType::Edge, LabelTargetId::Edge(id)) => entities_of(events).contains("edge:"@ + id@),
                _ => true,
            },
        },
{
    let op = events[i].operation;
    let es = op_entities(op);
    assert forall|x: int| 0 <= x < es.len() implies entities_of(events).contains(#[trigger] es[x]) by {
        lemma_event_entities_included(events, i, es[x]);
    }
    match op {
        DomainOp::EdgeConnect { id, source, target } => {
            assert(es[0] == "edge:"@ + id@ && es[1] == "node:"@ + source@ && es[2] == "node:"@ + target@);
        },
        DomainOp::BringForward { ids } => {
            assert forall|j: int| 0 <= j < ids@.len() implies entities_of(events).contains("node:"@ + (#[trigger] ids@[j])@) by {
                assert(es[j] == "node:"@ + ids@[j]@);
            }
        },
        DomainOp::SendBackward { ids } => {
            assert forall|j: int| 0 <= j < ids@.len() implies entities_of(events).contains("node:"@ + (#[trigger] ids@[j])@) by {
                assert(es[j] == "node:"@ + ids@[j]@);
            }
        },
        DomainOp::BringToFront { ids } => {
            assert forall|j: int| 0 <= j < ids@.len() implies entities_of(events).contains("node:"@ + (#[trigger] ids@[j])@) by {
                assert(es[j] == "node:"@ + ids@[j]@);
            }
        },
        DomainOp::SendToBack { ids } => {
            assert forall|j: int| 0 <= j < ids@.len() implies entities_of(events).contains("node:"@ + (#[trigger] ids@[j])@) by {
                assert(es[j] == "node:"@ + ids@[j]@);
            }
        },
        DomainOp::Group { id, ids } => {
            assert(es[0] == "node:"@ + id@);
            assert forall|j: int| 0 <= j < ids@.len() implies entities_of(events).contains("node:"@ + (#[trigger] ids@[j])@) by {
                assert(es[j + 1] == "node:"@ + ids@[j]@);
            }
        },
        DomainOp::UpdateLabel { target_id, target_type, .. } => {
            match (target_type, target_id) {
                (LabelTargetType::Node, LabelTargetId::Node(id)) => { assert(es[0] == "node:"@ + id@); },
                (LabelTargetType::Edge, LabelTargetId::Edge(id)) => { assert(es[0] == "edge:"@ + id@); },
                _ => {},
            }
        },
        _ => {
            assert(es.len() >= 1);
            assert(es[0] == es[0]);
        },
    }
}

/// The operation names the entity `t`: `t` is the prefixed id of a node, edge or group
/// that the operation's fields name.
pub open spec fn op_names_entity(op: DomainOp, t: Seq<char>) -> bool {
    match op {
        DomainOp::NodeAdd { id, .. } => t == "node:"@ + id@,
        DomainOp::NodeMove { id, .. } => t == "node:"@ + id@,
        DomainOp::NodeDelete { id } => t == "node:"@ + id@,
        DomainOp::NodeRestore { id } => t == "node:"@ + id@,
        DomainOp::EdgeConnect { id, source, target } => t == "edge:"@ + id@ || t == "node:"@ + source@ || t == "node:"@ + target@,
        DomainOp::EdgeDisconnect { id } => t == "edge:"@ + id@,
        DomainOp::BringForward { ids } => exists|j: int| 0 <= j < ids@.len() && t == "node:"@ + (#[trigger] ids@[j])@,
        DomainOp::SendBackward { ids } => exists|j: int| 0 <= j < ids@.len() && t == "node:"@ + (#[trigger] ids@[j])@,
        DomainOp::BringToFront { ids } => exists|j: int| 0 <= j < ids@.len() && t == "node:"@ + (#[trigger] ids@[j])@,
        DomainOp::SendToBack { ids } => exists|j: int| 0 <= j < ids@.len() && t == "node:"@ + (#[trigger] ids@[j])@,
        DomainOp::Group { id, ids } => t == "node:"@ + id@ || exists|j: int| 0 <= j < ids@.len() && t == "node:"@ + (#[trigger] ids@[j])@,
        DomainOp::Ungroup { id } => t == "group:"@ + id@,
        DomainOp::UpdateNodeStyle { id, .. } => t == "node:"@ + id@,
        DomainOp::NodeResize { id, .. } => t == "node:"@ + id@,
        DomainOp::UpdateEdgeStyle { id, .. } => t == "edge:"@ + id@,
        DomainOp::UpdateLabel { target_id, target_type, .. } => match (target_type, target_id) {
            (LabelTargetType::Node, LabelTargetId::Node(id)) => t == "node:"@ + id@,
            (LabelTargetType::Edge, LabelTargetId::Edge(id)) => t == "edge:"@ + id@,
            _ => false,
        },
    }
}

proof fn lemma_entity_from_some_event(events: Seq<EventRecord>, t: Seq<char>) -> (i: int)
    requires
        entities_of(events).contains(t),
    ensures
        0 <= i < events.len(),
        op_entities(events[i].operation).contains(t),
    decreases events.len(),
{
    if entities_of(events.drop_last()).contains(t) {
        lemma_entity_from_some_event(events.drop_last(), t)
    } else {
        assert(op_entities(events.last().operation).to_set().contains(t));
        events.len() - 1
    }
}

/// Nothing else is affected: every entity of a batch is named by the operation of one
/// of its events.
pub proof fn lemma_affected_entities_are_named(events: Seq<EventRecord>, t: Seq<char>)
    requires
        entities_of(events).contains(t),
    ensures
        exists|i: int| 0 <= i < events.len() && op_names_entity(#[trigger] events[i].operation, t),
{
    let i = lemma_entity_from_some_event(events, t);
    let op = events[i].operation;
    let es = op_entities(op);
    let x = choose|x: int| 0 <= x < es.len() && es[x] == t;
    match op {
        DomainOp::BringForward { ids } => { assert(t == "node:"@ + ids@[x]@); },
        DomainOp::SendBackward { ids } => { assert(t == "node:"@ + ids@[x]@); },
        DomainOp::BringToFront { ids } => { assert(t == "node:"@ + ids@[x]@); },
        DomainOp::SendToBack { ids } => { assert(t == "node:"@ + ids@[x]@); },
        DomainOp::Group { id, ids } => {
            if x > 0 {
                assert(t == "node:"@ + ids@[x - 1]@);
            }
        },
        _ => {},
    }
    assert(op_names_entity(events[i].operation, t));
}

/// The entities a batch of events touches, each once (in no particular order).
pub fn extract_affected_entities_from_events(events: &[EventRecord]) -> (r: Vec<String>)
    ensures
        distinct_texts(r@),
        text_set(r@) == entities_of(events@),
{
    let mut out: Vec<String> = Vec::new();
    let mut i: usize = 0;
    assert(text_set(out@) =~= Set::<Seq<char>>::empty());
    while i < events.len()
        invariant
            i <= events@.len(),
            distinct_texts(out@),
            text_set(out@) == entities_of(events@.subrange(0, i as int)),
        decreases events.len() - i,
    {
        insert_op_entities(&mut out, &events[i].operation);
        proof {
            assert(events@.subrange(0, i + 1).drop_last() =~= events@.subrange(0, i as int));
        }
        i = i + 1;
    }
    assert(events@.subrange(0, events@.len() as int) =~= events@);
    out
}

/// The view of a summary's entity list, as a set.
pub open spec fn summary_matches(s: ApplySummary, applied: nat, from: u64, to: u64, entities: Set<Seq<char>>) -> bool {
    &&& s.events_applied == applied
    &&& s.from_revision == from
    &&& s.to_revision == to
    &&& distinct_texts(s.affected_entities@)
    &&& text_set(s.affected_entities@) == entities
}

/// Apply a batch of tail events to the projection.
///
/// An empty batch changes nothing. Otherwise the events are replayed from the
/// projection; on success the projection becomes the result and the summary gives the
/// number of events, the revisions before and after and the touched entities; on a
/// replay error the projection is left as it was and the error is reported as a
/// decode error carrying the replay error's text.
pub fn apply_tail_batch(projection: &mut DiagramProjection, events: Vec<EventRecord>) -> (r: Result<ApplySummary, SyncError>)
    requires
        old(projection).revision + events@.len() <= u64::MAX,
    ensures
        events@.len() == 0 ==> *final(projection) == *old(projection)
            && (r matches Ok(s) && summary_matches(s, 0, old(projection).revision, old(projection).revision, Set::empty())),
        events@.len() > 0 ==> exists|res: Result<ProjectionView, ReplayErrorView>| #[trigger] replay_from_outcome(old(projection)@, events@, res)
            && match res {
                Ok(s2) => final(projection)@ == s2
                    && (r matches Ok(s) && summary_matches(s, events@.len(), old(projection).revision, s2.revision, entities_of(events@))),
                Err(x) => *final(projection) == *old(projection)
                    && (r matches Err(SyncError::Decode(m)) && m@ == replay_error_text(x)),
            },
{
    if events.len() == 0 {
        let s = ApplySummary {
            events_applied: 0,
            from_revision: projection.revision,
            to_revision: projection.revision,
            affected_entities: Vec::new(),
        };
        assert(text_set(s.affected_entities@) =~= Set::<Seq<char>>::empty());
        return Ok(s);
    }
    let from_revision = projection.revision;
    let affected_entities = extract_affected_entities_from_events(events.as_slice());
    let replayed = replay_events_from(projection.duplicate(), events.as_slice());
    let ghost res = crate::projection::outcome_view(replayed);
    match replayed {
        Err(e) => {
            let m = e.to_string();
            assert(replay_from_outcome(projection@, events@, res));
            Err(SyncError::Decode(m))
        },
        Ok(updated) => {
            let to_revision = updated.revision;
            *projection = updated;
            assert(replay_from_outcome(old(projection)@, events@, res));
            Ok(ApplySummary { events_applied: events.len(), from_revision, to_revision, affected_entities })
        },
    }
}

/// Signal the UI that a batch was applied; an empty batch needs no update. Nothing
/// can fail here.
pub fn schedule_ui_update(summary: ApplySummary) -> (r: Result<(), SyncError>)
    ensures
        r is Ok,
{
    if summary.events_applied == 0 {
        return Ok(());
    }
    Ok(())
}

/// Why a fetched row that should carry revision `expected` is refused: its revision
/// does not follow on, or it does not decode (checked in that order).
pub open spec fn fetched_row_problem(expected: int, row: StoredRow) -> Option<Seq<char>> {
    if row.revision != expected {
        Some("revision gap detected: expected "@ + signed_decimal(expected) + ", found "@ + signed_decimal(row.revision as int))
    } else {
        decode_problem(row)
    }
}

/// A batch of fetched rows is accepted exactly when the revisions run on from
/// `after_revision` without a gap, every envelope decoded and every timestamp is an
/// optionally signed decimal integer that fits in `i64`.
pub proof fn lemma_rows_accepted_when_contiguous(after_revision: int, rows: Seq<StoredRow>)
    ensures
        (forall|i: int| 0 <= i < rows.len() ==> fetched_row_problem(after_revision + 1 + i, #[trigger] rows[i]) is None)
            <==> (forall|i: int| 0 <= i < rows.len() ==> {
                &&& (#[trigger] rows[i]).revision == after_revision + 1 + i
                &&& rows[i].envelope is Ok
                &&& i64_text_ok(rows[i].timestamp@)
            }),
{
}

/// Check that a fetched row carries the expected revision and decode it.
fn check_fetched_row(expected: i64, row: StoredRow) -> (r: Result<EventRecord, String>)
    ensures
        match fetched_row_problem(expected as int, row) {
            Some(m) => r matches Err(x) && x@ == m,
            None => r == Ok::<EventRecord, String>(row_event(row)),
        },
{
    if row.revision != expected {
        let e = i64_to_decimal(expected);
        let f = i64_to_decimal(row.revision);
        let mut m = String::from_str("revision gap detected: expected ");
        m.append(e.as_str());
        m.append(", found ");
        m.append(f.as_str());
        return Err(m);
    }
    decode_row(row)
}

/// The events of the rows fetched after `after_revision`, in order: the rows must carry
/// the revisions that follow it one by one and must decode; the first row that does not
/// is reported.
#[verifier::loop_isolation(false)]
pub fn events_from_rows(after_revision: i64, rows: Vec<StoredRow>) -> (r: Result<Vec<EventRecord>, SyncError>)
    requires
        after_revision + rows@.len() < i64::MAX,
    ensures
        r is Ok <==> forall|i: int| 0 <= i < rows@.len() ==> fetched_row_problem(after_revision + 1 + i, #[trigger] rows@[i]) is None,
        r matches Ok(v) ==> v@.len() == rows@.len() && forall|i: int| 0 <= i < rows@.len() ==> v@[i] == row_event(#[trigger] rows@[i]),
        r matches Err(e) ==> exists|i: int| 0 <= i < rows@.len()
            && (forall|j: int| 0 <= j < i ==> fetched_row_problem(after_revision + 1 + j, #[trigger] rows@[j]) is None)
            && (fetched_row_problem(after_revision + 1 + i, #[trigger] rows@[i]) matches Some(m)
                && e matches SyncError::Decode(t) && t@ == m),
{
    let ghost orig = rows@;
    let n: usize = rows.len();
    let mut rest = rows;
    let mut out: Vec<EventRecord> = Vec::new();
    let mut i: usize = 0;
    let mut expected: i64 = after_revision + 1;
    while rest.len() > 0
        invariant
            i <= orig.len(),
            orig.len() == n,
            rest@ == orig.subrange(i as int, orig.len() as int),
            out@.len() == i,
            expected == after_revision + 1 + i,
            after_revision + orig.len() < i64::MAX,
            forall|j: int| 0 <= j < i ==> fetched_row_problem(after_revision + 1 + j, #[trigger] orig[j]) is None,
            forall|j: int| 0 <= j < i ==> out@[j] == row_event(#[trigger] orig[j]),
        decreases rest.len(),
    {
        assert(rest@.len() == orig.len() - i);
        let row = rest.remove(0);
        assert(row == orig[i as int]);
        match check_fetched_row(expected, row) {
            Err(m) => {
                proof {
                    let k = i as int;
                    assert(fetched_row_problem(after_revision + 1 + k, orig[k]) is Some);
                    assert(forall|j: int| 0 <= j < k ==> fetched_row_problem(after_revision + 1 + j, #[trigger] orig[j]) is None);
                }
                return Err(SyncError::Decode(m));
            },
            Ok(ev) => {
                out.push(ev);
            },
        }
        expected = expected + 1;
        i = i + 1;
        assert(rest@ =~= orig.subrange(i as int, orig.len() as int));
    }
    assert(i == orig.len());
    Ok(out)
}

/// A path names the event store's database or its write-ahead log.
pub open spec fn is_store_path(path: Seq<char>) -> bool {
    seq_ends_with(path, ".db"@) || seq_ends_with(path, "-wal"@) || seq_ends_with(path, ".db-wal"@)
}

/// Whether a changed file is the event store's database or its write-ahead log.
pub fn is_store_file(path: &str) -> (b: bool)
    ensures
        b == is_store_path(path@),
{
    ends_with(path, ".db") || ends_with(path, "-wal") || ends_with(path, ".db-wal")
}

/// Whether a file-system event touched the event store: some changed path is its
/// database or its write-ahead log.
pub fn touches_store(paths: &[String]) -> (b: bool)
    ensures
        b == exists|i: int| 0 <= i < paths@.len() && is_store_path(#[trigger] paths@[i]@),
{
    let mut i: usize = 0;
    while i < paths.len()
        invariant
            i <= paths@.len(),
            forall|j: int| 0 <= j < i ==> !is_store_path(#[trigger] paths@[j]@),
        decreases paths.len() - i,
    {
        if is_store_file(paths[i].as_str()) {
            return true;
        }
        i = i + 1;
    }
    false
}

} // verus!
