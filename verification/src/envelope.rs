//! Event envelope contents: who wrote an event and which domain operation it carries.

use vstd::prelude::*;

use crate::document::{EdgeId, EdgeStyle, NodeId, NodeStyle};
use crate::ordered_float::OrderedFloat;
use crate::text::{contains, starts_with, seq_contains, seq_starts_with};

verus! {

/// The author of an event.
#[derive(Clone, Debug, PartialEq, Eq)]
pub struct Author {
    pub id: String,
    pub name: String,
    pub email: Option<String>,
}

/// The element a label update names.
#[derive(Clone, Debug, PartialEq, Eq)]
pub enum LabelTargetId {
    Node(NodeId),
    Edge(EdgeId),
}

/// The kind of element a label update is addressed to.
#[derive(Clone, Copy, Debug, PartialEq, Eq, Structural)]
pub enum LabelTargetType {
    Node,
    Edge,
}

/// A change to the diagram, as recorded in the event log.
#[derive(Clone, Debug, PartialEq)]
pub enum DomainOp {
    NodeAdd {
        id: String,
        x: OrderedFloat,
        y: OrderedFloat,
        width: OrderedFloat,
        height: OrderedFloat,
        label: String,
    },
    NodeMove { id: String, x: OrderedFloat, y: OrderedFloat },
    NodeDelete { id: String },
    NodeRestore { id: String },
    EdgeConnect { id: String, source: String, target: String },
    EdgeDisconnect { id: String },
    BringForward { ids: Vec<String> },
    SendBackward { ids: Vec<String> },
    BringToFront { ids: Vec<String> },
    SendToBack { ids: Vec<String> },
    Group { id: NodeId, ids: Vec<NodeId> },
    Ungroup { id: NodeId },
    UpdateNodeStyle { id: String, style: NodeStyle },
    NodeResize { id: NodeId, x: OrderedFloat, y: OrderedFloat, width: OrderedFloat, height: OrderedFloat },
    UpdateEdgeStyle { id: String, style: EdgeStyle },
    UpdateLabel { target_id: LabelTargetId, target_type: LabelTargetType, label: String },
}

/// The name of the operation's variant.
pub open spec fn op_kind_name(op: DomainOp) -> Seq<char> {
    match op {
        DomainOp::NodeAdd { .. } => "NodeAdd"@,
        DomainOp::NodeMove { .. } => "NodeMove"@,
        DomainOp::NodeDelete { .. } => "NodeDelete"@,
        DomainOp::NodeRestore { .. } => "NodeRestore"@,
        DomainOp::EdgeConnect { .. } => "EdgeConnect"@,
        DomainOp::EdgeDisconnect { .. } => "EdgeDisconnect"@,
        DomainOp::BringForward { .. } => "BringForward"@,
        DomainOp::SendBackward { .. } => "SendBackward"@,
        DomainOp::BringToFront { .. } => "BringToFront"@,
        DomainOp::SendToBack { .. } => "SendToBack"@,
        DomainOp::Group { .. } => "Group"@,
        DomainOp::Ungroup { .. } => "Ungroup"@,
        DomainOp::UpdateNodeStyle { .. } => "UpdateNodeStyle"@,
        DomainOp::NodeResize { .. } => "NodeResize"@,
        DomainOp::UpdateEdgeStyle { .. } => "UpdateEdgeStyle"@,
        DomainOp::UpdateLabel { .. } => "UpdateLabel"@,
    }
}

impl DomainOp {
    /// The name of the operation's variant.
    pub fn kind_name(&self) -> (s: &'static str)
        ensures
            s@ == op_kind_name(*self),
    {
        match self {
            DomainOp::NodeAdd { .. } => "NodeAdd",
            DomainOp::NodeMove { .. } => "NodeMove",
            DomainOp::NodeDelete { .. } => "NodeDelete",
            DomainOp::NodeRestore { .. } => "NodeRestore",
            DomainOp::EdgeConnect { .. } => "EdgeConnect",
            DomainOp::EdgeDisconnect { .. } => "EdgeDisconnect",
            DomainOp::BringForward { .. } => "BringForward",
            DomainOp::SendBackward { .. } => "SendBackward",
            DomainOp::BringToFront { .. } => "BringToFront",
            DomainOp::SendToBack { .. } => "SendToBack",
            DomainOp::Group { .. } => "Group",
            DomainOp::Ungroup { .. } => "Ungroup",
            DomainOp::UpdateNodeStyle { .. } => "UpdateNodeStyle",
            DomainOp::NodeResize { .. } => "NodeResize",
            DomainOp::UpdateEdgeStyle { .. } => "UpdateEdgeStyle",
            DomainOp::UpdateLabel { .. } => "UpdateLabel",
        }
    }
}

/// Unicode lower-casing of a character sequence, as `str::to_lowercase` performs it.
pub uninterp spec fn lowercase(s: Seq<char>) -> Seq<char>;

/// `str::to_lowercase`: its result is a function of the text alone (Unicode's
/// case-mapping tables), named `lowercase`; no more is claimed of it.
#[verifier::external_body]
fn to_lowercase(s: &str) -> (r: String)
    ensures
        r@ == lowercase(s@),
{
    s.to_lowercase()
}

/// Whether an author counts as human: an identifier starting with `human-`, or a
/// name containing `human` in any letter case.
pub open spec fn is_human_author_spec(author: Author) -> bool {
    seq_starts_with(author.id@, "human-"@) || seq_contains(lowercase(author.name@), "human"@)
}

/// Check if an author is human (not AI-generated).
pub fn is_human_author(author: &Author) -> (b: bool)
    ensures
        b == is_human_author_spec(*author),
{
    if starts_with(author.id.as_str(), "human-") {
        return true;
    }
    let lowered = to_lowercase(author.name.as_str());
    contains(lowered.as_str(), "human")
}

} // verus!
