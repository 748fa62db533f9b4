//! Deterministic replay of the event log into a diagram projection.
//!
//! A projection is the state obtained by applying events in revision order. Each
//! event must carry the projection's current revision; applying it performs the
//! event's domain operation, records whether the author was human under the event's
//! operation identifier (which must be new), and moves the revision on by exactly one.

use vstd::prelude::*;

use crate::collections::{
    edge_map_contains, edge_map_new, node_map_contains, node_map_get, node_map_new,
    priority_map_contents, priority_map_insert, priority_map_new, EdgeMap, NodeMap, PriorityMap,
};
use crate::document::{
    edges_view, nodes_view, DiagramDocument, DocumentData, Edge, EdgeId, EdgeView, EditorState,
    Node, NodeId, NodeView, Revision,
};
use crate::envelope::{is_human_author, is_human_author_spec, Author, DomainOp};
use crate::text::{concat_str, decimal, u64_to_decimal};

verus! {

/// Current supported schema version of projections.
pub const SUPPORTED_VERSION: u32 = 2;

/// Whether a diagram allows or denies cycles in its edge graph.
#[derive(Clone, Copy, Debug, PartialEq, Eq, Structural)]
pub enum CyclePolicy {
    /// Cycles are allowed (the default).
    Allow,
    /// Operations that would create a cycle are rejected.
    Deny,
}

impl Default for CyclePolicy {
    fn default() -> (p: CyclePolicy)
        ensures
            p == CyclePolicy::Allow,
    {
        CyclePolicy::Allow
    }
}

/// Errors of replay and of the projection operations.
#[derive(Clone, Debug, PartialEq, Eq)]
pub enum ReplayError {
    InvalidEvent(String),
    InvariantViolation(String),
    UnsupportedVersion(u32),
    CycleViolation(String),
    PolicyMissing(String),
    EdgeNotFound(String),
    DuplicateEdge(String),
    PolicyViolation(String),
    NoNodesSpecified,
    AllNodesInvalid(String),
    ZIndexOverflow,
}

/// A replay error with its message taken as a character sequence.
pub enum ReplayErrorView {
    InvalidEvent(Seq<char>),
    InvariantViolation(Seq<char>),
    UnsupportedVersion(u32),
    CycleViolation(Seq<char>),
    PolicyMissing(Seq<char>),
    EdgeNotFound(Seq<char>),
    DuplicateEdge(Seq<char>),
    PolicyViolation(Seq<char>),
    NoNodesSpecified,
    AllNodesInvalid(Seq<char>),
    ZIndexOverflow,
}

impl View for ReplayError {
    type V = ReplayErrorView;

    open spec fn view(&self) -> ReplayErrorView {
        match self {
            ReplayError::InvalidEvent(m) => ReplayErrorView::InvalidEvent(m@),
            ReplayError::InvariantViolation(m) => ReplayErrorView::InvariantViolation(m@),
            ReplayError::UnsupportedVersion(v) => ReplayErrorView::UnsupportedVersion(*v),
            ReplayError::CycleViolation(m) => ReplayErrorView::CycleViolation(m@),
            ReplayError::PolicyMissing(m) => ReplayErrorView::PolicyMissing(m@),
            ReplayError::EdgeNotFound(m) => ReplayErrorView::EdgeNotFound(m@),
            ReplayError::DuplicateEdge(m) => ReplayErrorView::DuplicateEdge(m@),
            ReplayError::PolicyViolation(m) => ReplayErrorView::PolicyViolation(m@),
            ReplayError::NoNodesSpecified => ReplayErrorView::NoNodesSpecified,
            ReplayError::AllNodesInvalid(m) => ReplayErrorView::AllNodesInvalid(m@),
            ReplayError::ZIndexOverflow => ReplayErrorView::ZIndexOverflow,
        }
    }
}

/// The text of a replay error.
pub open spec fn replay_error_text(e: ReplayErrorView) -> Seq<char> {
    match e {
        ReplayErrorView::InvalidEvent(m) => "invalid event: "@ + m,
        ReplayErrorView::InvariantViolation(m) => "invariant violation: "@ + m,
        ReplayErrorView::UnsupportedVersion(v) => "unsupported schema version: "@ + decimal(v as nat),
        ReplayErrorView::CycleViolation(m) => "cycle violation: "@ + m,
        ReplayErrorView::PolicyMissing(m) => "policy missing: "@ + m,
        ReplayErrorView::EdgeNotFound(m) => "edge not found: "@ + m,
        ReplayErrorView::DuplicateEdge(m) => "duplicate edge: "@ + m,
        ReplayErrorView::PolicyViolation(m) => "policy violation: "@ + m,
        ReplayErrorView::NoNodesSpecified => "no nodes specified for z-order operation"@,
        ReplayErrorView::AllNodesInvalid(m) => "all nodes invalid or not found: "@ + m,
        ReplayErrorView::ZIndexOverflow => "z-index overflow"@,
    }
}

impl ReplayError {
    /// The error's text.
    pub fn to_string(&self) -> (s: String)
        ensures
            s@ == replay_error_text(self@),
    {
        match self {
            ReplayError::InvalidEvent(m) => concat_str("invalid event: ", m.as_str()),
            ReplayError::InvariantViolation(m) => concat_str("invariant violation: ", m.as_str()),
            ReplayError::UnsupportedVersion(v) => {
                let d = u64_to_decimal(*v as u64);
                concat_str("unsupported schema version: ", d.as_str())
            },
            ReplayError::CycleViolation(m) => concat_str("cycle violation: ", m.as_str()),
            ReplayError::PolicyMissing(m) => concat_str("policy missing: ", m.as_str()),
            ReplayError::EdgeNotFound(m) => concat_str("edge not found: ", m.as_str()),
            ReplayError::DuplicateEdge(m) => concat_str("duplicate edge: ", m.as_str()),
            ReplayError::PolicyViolation(m) => concat_str("policy violation: ", m.as_str()),
            ReplayError::NoNodesSpecified => String::from_str("no nodes specified for z-order operation"),
            ReplayError::AllNodesInvalid(m) => concat_str("all nodes invalid or not found: ", m.as_str()),
            ReplayError::ZIndexOverflow => String::from_str("z-index overflow"),
        }
    }
}

/// An event of the log, with everything needed to replay it.
#[derive(Clone, Debug, PartialEq)]
pub struct EventRecord {
    /// Unique operation identifier.
    pub op_id: String,
    /// Revision the event applies to.
    pub revision: u64,
    /// The domain operation.
    pub operation: DomainOp,
    /// Who wrote the event.
    pub author: Author,
    /// Unix timestamp.
    pub timestamp: i64,
}

/// The state obtained by replaying events.
#[derive(Clone, Debug, PartialEq)]
pub struct DiagramProjection {
    pub version: u32,
    pub revision: u64,
    pub nodes: NodeMap,
    pub edges: EdgeMap,
    /// Operation identifier to "the author was human".
    pub author_priority: PriorityMap,
    pub cycle_policy: CyclePolicy,
}

/// The mathematical contents of a projection.
pub struct ProjectionView {
    pub version: u32,
    pub revision: u64,
    pub nodes: Map<Seq<char>, NodeView>,
    pub edges: Map<Seq<char>, EdgeView>,
    pub priority: Map<Seq<char>, bool>,
    pub cycle_policy: CyclePolicy,
}

impl View for DiagramProjection {
    type V = ProjectionView;

    open spec fn view(&self) -> ProjectionView {
        ProjectionView {
            version: self.version,
            revision: self.revision,
            nodes: nodes_view(self.nodes),
            edges: edges_view(self.edges),
            priority: priority_map_contents(self.author_priority),
            cycle_policy: self.cycle_policy,
        }
    }
}

/// The view of an outcome.
pub open spec fn outcome_view(r: Result<DiagramProjection, ReplayError>) -> Result<ProjectionView, ReplayErrorView> {
    match r {
        Ok(p) => Ok(p@),
        Err(e) => Err(e@),
    }
}

impl ProjectionView {
    /// The same projection with other nodes.
    pub open spec fn with_nodes(self, nodes: Map<Seq<char>, NodeView>) -> ProjectionView {
        ProjectionView { nodes, ..self }
    }

    /// The same projection with other edges.
    pub open spec fn with_edges(self, edges: Map<Seq<char>, EdgeView>) -> ProjectionView {
        ProjectionView { edges, ..self }
    }
}

/// An empty projection at revision `revision` under `policy`.
pub open spec fn empty_view(revision: u64, policy: CyclePolicy) -> ProjectionView {
    ProjectionView {
        version: SUPPORTED_VERSION,
        revision,
        nodes: Map::empty(),
        edges: Map::empty(),
        priority: Map::empty(),
        cycle_policy: policy,
    }
}

impl Default for DiagramProjection {
    fn default() -> (p: DiagramProjection)
        ensures
            p@ == empty_view(0, CyclePolicy::Allow),
    {
        DiagramProjection::empty()
    }
}

impl DiagramProjection {
    /// A copy of the projection, sharing the persistent maps.
    pub fn duplicate(&self) -> (r: DiagramProjection)
        ensures
            r == *self,
    {
        DiagramProjection {
            version: self.version,
            revision: self.revision,
            nodes: self.nodes.clone(),
            edges: self.edges.clone(),
            author_priority: self.author_priority.clone(),
            cycle_policy: self.cycle_policy,
        }
    }

    fn empty_at(revision: u64, cycle_policy: CyclePolicy) -> (p: DiagramProjection)
        ensures
            p@ == empty_view(revision, cycle_policy),
    {
        let p = DiagramProjection {
            version: SUPPORTED_VERSION,
            revision,
            nodes: node_map_new(),
            edges: edge_map_new(),
            author_priority: priority_map_new(),
            cycle_policy,
        };
        assert(p@.nodes =~= Map::empty());
        assert(p@.edges =~= Map::empty());
        assert(p@.priority =~= Map::empty());
        p
    }

    /// Create an empty projection.
    pub fn empty() -> (p: DiagramProjection)
        ensures
            p@ == empty_view(0, CyclePolicy::Allow),
    {
        DiagramProjection::empty_at(0, CyclePolicy::Allow)
    }

    /// Create an empty projection at a given revision.
    pub fn with_revision(revision: u64) -> (p: DiagramProjection)
        ensures
            p@ == empty_view(revision, CyclePolicy::Allow),
    {
        DiagramProjection::empty_at(revision, CyclePolicy::Allow)
    }

    /// Create an empty projection with a given cycle policy.
    pub fn with_cycle_policy(cycle_policy: CyclePolicy) -> (p: DiagramProjection)
        ensures
            p@ == empty_view(0, cycle_policy),
    {
        DiagramProjection::empty_at(0, cycle_policy)
    }

    /// The current revision.
    pub fn revision(&self) -> (r: u64)
        ensures
            r == self.revision,
    {
        self.revision
    }

    /// Whether a node exists.
    pub fn has_node(&self, id: &NodeId) -> (b: bool)
        ensures
            b == self@.nodes.contains_key(id@),
    {
        node_map_contains(&self.nodes, id)
    }

    /// Whether an edge exists.
    pub fn has_edge(&self, id: &EdgeId) -> (b: bool)
        ensures
            b == self@.edges.contains_key(id@),
    {
        edge_map_contains(&self.edges, id)
    }

    /// The node with a given identifier.
    pub fn get_node(&self, id: &NodeId) -> (r: Option<&Node>)
        ensures
            r is Some <==> self@.nodes.contains_key(id@),
            r matches Some(n) ==> n@ == self@.nodes[id@],
    {
        node_map_get(&self.nodes, id)
    }

    /// The edge with a given identifier.
    pub fn get_edge(&self, id: &EdgeId) -> (r: Option<&Edge>)
        ensures
            r is Some <==> self@.edges.contains_key(id@),
            r matches Some(e) ==> e@ == self@.edges[id@],
    {
        crate::collections::edge_map_get(&self.edges, id)
    }
}

/// Convert a projection to a document (at the projection's version and revision,
/// with an empty editor state).
pub fn projection_to_document(projection: &DiagramProjection) -> (d: DiagramDocument)
    ensures
        d.version == projection.version,
        d.revision.0 == projection.revision,
        nodes_view(d.document.nodes) == projection@.nodes,
        edges_view(d.document.edges) == projection@.edges,
        crate::collections::id_set_contents(d.editor_state.selected_items).is_empty(),
        d.editor_state.edit_mode_target is None,
{
    DiagramDocument {
        version: projection.version,
        revision: Revision::new(projection.revision),
        document: DocumentData {
            nodes: projection.nodes.clone(),
            edges: projection.edges.clone(),
        },
        editor_state: EditorState::empty(),
    }
}

/// Convert a document to a projection (no author priorities, cycles allowed).
pub fn document_to_projection(document: &DiagramDocument) -> (p: DiagramProjection)
    ensures
        p@ == (ProjectionView {
            version: document.version,
            revision: document.revision.0,
            nodes: nodes_view(document.document.nodes),
            edges: edges_view(document.document.edges),
            priority: Map::empty(),
            cycle_policy: CyclePolicy::Allow,
        }),
{
    let p = DiagramProjection {
        version: document.version,
        revision: document.revision.value(),
        nodes: document.document.nodes.clone(),
        edges: document.document.edges.clone(),
        author_priority: priority_map_new(),
        cycle_policy: CyclePolicy::Allow,
    };
    assert(p@.priority =~= Map::empty());
    p
}

} // verus!
