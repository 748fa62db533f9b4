//! The diagram document model: identifiers, nodes, edges and the document itself.
//!
//! Positions and sizes are [`OrderedFloat`] bit patterns; the keyed collections are
//! persistent `im` maps, reached through the trusted items in `collections`.

use vstd::prelude::*;

use crate::collections::{
    edge_map_contents, edge_map_new, id_set_contents, id_set_new, meta_map_contents, node_map_contents,
    node_map_new, point_list_contents, tag_list_clone, tag_list_contents,
    EdgeMap, IdSet, MetaMap, NodeMap, PointList, TagList,
};
use crate::ordered_float::OrderedFloat;

verus! {

/// Identifier of a node.
#[derive(Clone, Debug, PartialEq, Eq, Hash, PartialOrd, Ord)]
pub struct NodeId {
    pub id: String,
}

/// Identifier of an edge.
#[derive(Clone, Debug, PartialEq, Eq, Hash, PartialOrd, Ord)]
pub struct EdgeId {
    pub id: String,
}

impl View for NodeId {
    type V = Seq<char>;

    open spec fn view(&self) -> Seq<char> {
        self.id@
    }
}

impl View for EdgeId {
    type V = Seq<char>;

    open spec fn view(&self) -> Seq<char> {
        self.id@
    }
}

impl NodeId {
    pub fn new(id: String) -> (r: NodeId)
        ensures
            r@ == id@,
    {
        NodeId { id }
    }

    pub fn as_str(&self) -> (s: &str)
        ensures
            s@ == self@,
    {
        self.id.as_str()
    }

    /// A copy of the identifier.
    pub fn duplicate(&self) -> (r: NodeId)
        ensures
            r == *self,
            r@ == self@,
    {
        NodeId { id: self.id.clone() }
    }

    /// Whether two identifiers are the same text.
    pub fn same(&self, other: &NodeId) -> (b: bool)
        ensures
            b == (self@ == other@),
    {
        self.id == other.id
    }
}

impl EdgeId {
    pub fn new(id: String) -> (r: EdgeId)
        ensures
            r@ == id@,
    {
        EdgeId { id }
    }

    pub fn as_str(&self) -> (s: &str)
        ensures
            s@ == self@,
    {
        self.id.as_str()
    }

    /// A copy of the identifier.
    pub fn duplicate(&self) -> (r: EdgeId)
        ensures
            r == *self,
            r@ == self@,
    {
        EdgeId { id: self.id.clone() }
    }
}

/// Kind of a node: a plain shape, a subgraph container or a text block.
#[derive(Clone, Copy, Debug, PartialEq, Eq, Hash, Structural)]
pub enum NodeKind {
    Node,
    Subgraph,
    Text,
}

/// Line style of an edge.
#[derive(Clone, Copy, Debug, PartialEq, Eq, Hash, Structural)]
pub enum EdgeStyle {
    Solid,
    Dashed,
    Dotted,
}

/// Routing / terminal style of an edge.
#[derive(Clone, Copy, Debug, PartialEq, Eq, Hash, Structural)]
pub enum ArrowType {
    Default,
    Sharp,
    Curved,
    Step,
    Straight,
}

impl Default for EdgeStyle {
    fn default() -> (s: EdgeStyle)
        ensures
            s == EdgeStyle::Solid,
    {
        EdgeStyle::Solid
    }
}

impl Default for ArrowType {
    fn default() -> (a: ArrowType)
        ensures
            a == ArrowType::Default,
    {
        ArrowType::Default
    }
}

/// Whether a node may be edited, moved or regrouped.
#[derive(Clone, Copy, Debug, PartialEq, Eq, Hash, Structural)]
pub enum LockState {
    Unlocked,
    Locked,
}

impl Default for LockState {
    fn default() -> (s: LockState)
        ensures
            s == LockState::Unlocked,
    {
        LockState::Unlocked
    }
}

/// Drawing style of a node's shape.
#[derive(Clone, Copy, Debug, PartialEq, Eq, Hash, Structural)]
pub enum NodeStyle {
    Box,
}

impl Default for NodeStyle {
    fn default() -> (s: NodeStyle)
        ensures
            s == NodeStyle::Box,
    {
        NodeStyle::Box
    }
}

/// A point on the canvas.
#[derive(Clone, Copy, Debug, PartialEq, Eq, Hash, Structural)]
pub struct Point {
    pub x: OrderedFloat,
    pub y: OrderedFloat,
}

/// A node of the diagram.
#[derive(Clone, Debug, PartialEq)]
pub struct Node {
    pub kind: NodeKind,
    pub icon: String,
    pub label: String,
    pub x: OrderedFloat,
    pub y: OrderedFloat,
    pub width: OrderedFloat,
    pub height: OrderedFloat,
    pub font_size: Option<OrderedFloat>,
    pub font_weight: Option<u16>,
    pub lock_state: LockState,
    pub parent: Option<NodeId>,
    pub dag_rank: Option<u32>,
    pub tags: TagList,
    pub metadata: MetaMap,
    pub z_index: i64,
    pub style: Option<NodeStyle>,
    pub collapsed: Option<bool>,
}

/// An edge of the diagram.
#[derive(Clone, Debug, PartialEq)]
pub struct Edge {
    pub source: NodeId,
    pub target: NodeId,
    pub label: String,
    pub style: EdgeStyle,
    pub arrow_type: ArrowType,
    pub label_offset_t: OrderedFloat,
    pub color: Option<String>,
    pub thickness: OrderedFloat,
    pub directed: bool,
    pub bend_points: PointList,
    pub tags: TagList,
    pub metadata: MetaMap,
    pub font_size: Option<OrderedFloat>,
    pub source_port: Option<String>,
    pub target_port: Option<String>,
}

impl Node {
    /// Whether the node is locked.
    pub fn is_locked(&self) -> (b: bool)
        ensures
            b == (self.lock_state == LockState::Locked),
    {
        match self.lock_state {
            LockState::Locked => true,
            LockState::Unlocked => false,
        }
    }

    /// A copy of the node.
    pub fn duplicate(&self) -> (r: Node)
        ensures
            r@ == self@,
    {
        Node {
            kind: self.kind,
            icon: self.icon.clone(),
            label: self.label.clone(),
            x: self.x,
            y: self.y,
            width: self.width,
            height: self.height,
            font_size: self.font_size,
            font_weight: self.font_weight,
            lock_state: self.lock_state,
            parent: copy_parent(&self.parent),
            dag_rank: self.dag_rank,
            tags: tag_list_clone(&self.tags),
            metadata: self.metadata.clone(),
            z_index: self.z_index,
            style: self.style,
            collapsed: self.collapsed,
        }
    }
}

/// The view of an optional parent: the parent identifier's text.
pub open spec fn parent_view(p: Option<NodeId>) -> Option<Seq<char>> {
    match p {
        Some(id) => Some(id@),
        None => None,
    }
}

/// A copy of an optional parent reference.
pub fn copy_parent(p: &Option<NodeId>) -> (r: Option<NodeId>)
    ensures
        r == *p,
{
    match p {
        Some(id) => Some(id.duplicate()),
        None => None,
    }
}

/// A node with its text fields taken as character sequences and its metadata as a
/// map from the key's text to the value.
pub struct NodeView {
    pub kind: NodeKind,
    pub icon: Seq<char>,
    pub label: Seq<char>,
    pub x: u64,
    pub y: u64,
    pub width: u64,
    pub height: u64,
    pub font_size: Option<OrderedFloat>,
    pub font_weight: Option<u16>,
    pub lock_state: LockState,
    pub parent: Option<Seq<char>>,
    pub dag_rank: Option<u32>,
    pub tags: Seq<Seq<char>>,
    pub metadata: Map<Seq<char>, serde_json::Value>,
    pub z_index: i64,
    pub style: Option<NodeStyle>,
    pub collapsed: Option<bool>,
}

/// An edge with its text fields taken as character sequences and its metadata as a
/// map from the key's text to the value.
pub struct EdgeView {
    pub source: Seq<char>,
    pub target: Seq<char>,
    pub label: Seq<char>,
    pub style: EdgeStyle,
    pub arrow_type: ArrowType,
    pub label_offset_t: u64,
    pub color: Option<Seq<char>>,
    pub thickness: u64,
    pub directed: bool,
    pub bend_points: Seq<Point>,
    pub tags: Seq<Seq<char>>,
    pub metadata: Map<Seq<char>, serde_json::Value>,
    pub font_size: Option<OrderedFloat>,
    pub source_port: Option<Seq<char>>,
    pub target_port: Option<Seq<char>>,
}

/// An optional string taken as an optional character sequence.
pub open spec fn opt_string_view(s: Option<String>) -> Option<Seq<char>> {
    match s {
        Some(t) => Some(t@),
        None => None,
    }
}

impl View for Node {
    type V = NodeView;

    open spec fn view(&self) -> NodeView {
        NodeView {
            kind: self.kind,
            icon: self.icon@,
            label: self.label@,
            x: self.x.0,
            y: self.y.0,
            width: self.width.0,
            height: self.height.0,
            font_size: self.font_size,
            font_weight: self.font_weight,
            lock_state: self.lock_state,
            parent: parent_view(self.parent),
            dag_rank: self.dag_rank,
            tags: tag_list_contents(self.tags),
            metadata: meta_map_contents(self.metadata),
            z_index: self.z_index,
            style: self.style,
            collapsed: self.collapsed,
        }
    }
}

impl View for Edge {
    type V = EdgeView;

    open spec fn view(&self) -> EdgeView {
        EdgeView {
            source: self.source@,
            target: self.target@,
            label: self.label@,
            style: self.style,
            arrow_type: self.arrow_type,
            label_offset_t: self.label_offset_t.0,
            color: opt_string_view(self.color),
            thickness: self.thickness.0,
            directed: self.directed,
            bend_points: point_list_contents(self.bend_points),
            tags: tag_list_contents(self.tags),
            metadata: meta_map_contents(self.metadata),
            font_size: self.font_size,
            source_port: opt_string_view(self.source_port),
            target_port: opt_string_view(self.target_port),
        }
    }
}

/// The nodes of a node map, by identifier text, as views.
pub open spec fn nodes_view(m: NodeMap) -> Map<Seq<char>, NodeView> {
    node_map_contents(m).map_values(|n: Node| n@)
}

/// The edges of an edge map, by identifier text, as views.
pub open spec fn edges_view(m: EdgeMap) -> Map<Seq<char>, EdgeView> {
    edge_map_contents(m).map_values(|e: Edge| e@)
}

/// Storing a node changes the view at that identifier only.
pub proof fn lemma_nodes_view_insert(before: NodeMap, after: NodeMap, k: Seq<char>, n: Node)
    requires
        node_map_contents(after) == node_map_contents(before).insert(k, n),
    ensures
        nodes_view(after) == nodes_view(before).insert(k, n@),
{
    assert(nodes_view(after) =~= nodes_view(before).insert(k, n@));
}

/// Taking a node out removes it from the view.
pub proof fn lemma_nodes_view_remove(before: NodeMap, after: NodeMap, k: Seq<char>)
    requires
        node_map_contents(after) == node_map_contents(before).remove(k),
    ensures
        nodes_view(after) == nodes_view(before).remove(k),
{
    assert(nodes_view(after) =~= nodes_view(before).remove(k));
}

/// Storing an edge changes the view at that identifier only.
pub proof fn lemma_edges_view_insert(before: EdgeMap, after: EdgeMap, k: Seq<char>, e: Edge)
    requires
        edge_map_contents(after) == edge_map_contents(before).insert(k, e),
    ensures
        edges_view(after) == edges_view(before).insert(k, e@),
{
    assert(edges_view(after) =~= edges_view(before).insert(k, e@));
}

/// Taking an edge out removes it from the view.
pub proof fn lemma_edges_view_remove(before: EdgeMap, after: EdgeMap, k: Seq<char>)
    requires
        edge_map_contents(after) == edge_map_contents(before).remove(k),
    ensures
        edges_view(after) == edges_view(before).remove(k),
{
    assert(edges_view(after) =~= edges_view(before).remove(k));
}


/// Revision counter of a document.
#[derive(Clone, Copy, Debug, PartialEq, Eq, Hash, Structural)]
pub struct Revision(pub u64);

impl Revision {
    pub fn new(value: u64) -> (r: Revision)
        ensures
            r.0 == value,
    {
        Revision(value)
    }

    pub fn value(&self) -> (v: u64)
        ensures
            v == self.0,
    {
        self.0
    }

    /// The next revision; the counter stops at its maximum.
    pub fn increment(&self) -> (r: Revision)
        ensures
            r.0 == next_revision_value(self.0),
    {
        Revision(self.0.saturating_add(1))
    }
}

/// The revision after `v`, stopping at the maximum.
pub open spec fn next_revision_value(v: u64) -> u64 {
    if v == u64::MAX { v } else { (v + 1) as u64 }
}

/// The structural graph of a document.
#[derive(Clone, Debug, PartialEq)]
pub struct DocumentData {
    pub nodes: NodeMap,
    pub edges: EdgeMap,
}

/// Editor state kept with a document: the selection and the node being edited.
#[derive(Clone, Debug, PartialEq)]
pub struct EditorState {
    pub selected_items: IdSet,
    pub edit_mode_target: Option<String>,
}

/// A diagram document.
#[derive(Clone, Debug, PartialEq)]
pub struct DiagramDocument {
    pub version: u32,
    pub revision: Revision,
    pub document: DocumentData,
    pub editor_state: EditorState,
}

/// Schema version of documents this library writes.
pub const DOCUMENT_VERSION: u32 = 2;

impl DocumentData {
    pub fn empty() -> (d: DocumentData)
        ensures
            nodes_view(d.nodes).dom().is_empty(),
            edges_view(d.edges).dom().is_empty(),
    {
        DocumentData { nodes: node_map_new(), edges: edge_map_new() }
    }
}

impl EditorState {
    pub fn empty() -> (e: EditorState)
        ensures
            id_set_contents(e.selected_items).is_empty(),
            e.edit_mode_target is None,
    {
        EditorState { selected_items: id_set_new(), edit_mode_target: None }
    }
}

impl DiagramDocument {
    /// An empty document of the current schema version at the initial revision.
    pub fn empty() -> (d: DiagramDocument)
        ensures
            d.version == DOCUMENT_VERSION,
            d.revision.0 == 0,
            nodes_view(d.document.nodes).dom().is_empty(),
            edges_view(d.document.edges).dom().is_empty(),
            id_set_contents(d.editor_state.selected_items).is_empty(),
            d.editor_state.edit_mode_target is None,
    {
        DiagramDocument {
            version: DOCUMENT_VERSION,
            revision: Revision(0),
            document: DocumentData::empty(),
            editor_state: EditorState::empty(),
        }
    }
}

impl Default for DiagramDocument {
    fn default() -> (d: DiagramDocument)
        ensures
            d.version == DOCUMENT_VERSION,
            d.revision.0 == 0,
            nodes_view(d.document.nodes).dom().is_empty(),
            edges_view(d.document.edges).dom().is_empty(),
    {
        DiagramDocument::empty()
    }
}

} // verus!
