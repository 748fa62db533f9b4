//! Node and edge operations on a projection.

use vstd::prelude::*;

use crate::collections::{
    edge_map_contents, edge_map_get, edge_map_insert, edge_map_keys, edge_map_remove,
    lists_edge_keys, meta_map_new, node_map_get, node_map_insert, node_map_remove, point_list_new, tag_list_new,
};
use crate::document::{LockState, 
    lemma_edges_view_insert, lemma_edges_view_remove, lemma_nodes_view_insert,
    lemma_nodes_view_remove, ArrowType, Edge, EdgeId, EdgeStyle, EdgeView, Node,
    NodeId, NodeKind, NodeView,
};
use crate::envelope::{op_kind_name, DomainOp};
use crate::ordered_float::OrderedFloat;
use crate::projection::{DiagramProjection, ProjectionView, ReplayError, ReplayErrorView};
use crate::text::concat_str;

verus! {

/// Bit pattern of `0.5`, the default label position along an edge.
pub const DEFAULT_LABEL_OFFSET_BITS: u64 = 0x3fe0_0000_0000_0000;

/// Bit pattern of `1.5`, the default edge thickness.
pub const DEFAULT_THICKNESS_BITS: u64 = 0x3ff8_0000_0000_0000;

/// The node that `NodeAdd` creates.
pub open spec fn default_node_view(x: u64, y: u64, width: u64, height: u64, label: Seq<char>) -> NodeView {
    NodeView {
        kind: NodeKind::Node,
        icon: Seq::empty(),
        label,
        x,
        y,
        width,
        height,
        font_size: None,
        font_weight: None,
        lock_state: LockState::Unlocked,
        parent: None,
        dag_rank: None,
        tags: Seq::empty(),
        metadata: Map::empty(),
        z_index: 0,
        style: None,
        collapsed: None,
    }
}

/// The edge that `EdgeConnect` creates.
pub open spec fn default_edge_view(source: Seq<char>, target: Seq<char>) -> EdgeView {
    EdgeView {
        source,
        target,
        label: Seq::empty(),
        style: EdgeStyle::Solid,
        arrow_type: ArrowType::Default,
        label_offset_t: DEFAULT_LABEL_OFFSET_BITS,
        color: None,
        thickness: DEFAULT_THICKNESS_BITS,
        directed: true,
        bend_points: Seq::empty(),
        tags: Seq::empty(),
        metadata: Map::empty(),
        font_size: None,
        source_port: None,
        target_port: None,
    }
}

/// Whether an edge has the node as an endpoint.
pub open spec fn touches(e: EdgeView, node: Seq<char>) -> bool {
    e.source == node || e.target == node
}

/// The edges that do not touch `node`.
pub open spec fn edges_not_touching(edges: Map<Seq<char>, EdgeView>, node: Seq<char>) -> Map<Seq<char>, EdgeView> {
    Map::new(|k: Seq<char>| edges.contains_key(k) && !touches(edges[k], node), |k: Seq<char>| edges[k])
}

/// `NodeAdd`: a new node with default styling; an identifier already in use is refused.
pub open spec fn node_add_spec(s: ProjectionView, id: Seq<char>, x: u64, y: u64, w: u64, h: u64, label: Seq<char>) -> Result<ProjectionView, ReplayErrorView> {
    if s.nodes.contains_key(id) {
        Err(ReplayErrorView::InvariantViolation("duplicate node ID: "@ + id))
    } else {
        Ok(s.with_nodes(s.nodes.insert(id, default_node_view(x, y, w, h, label))))
    }
}

/// `NodeMove`: the node takes the new position; a missing node is refused.
pub open spec fn node_move_spec(s: ProjectionView, id: Seq<char>, x: u64, y: u64) -> Result<ProjectionView, ReplayErrorView> {
    if !s.nodes.contains_key(id) {
        Err(ReplayErrorView::InvariantViolation("node not found: "@ + id))
    } else {
        Ok(s.with_nodes(s.nodes.insert(id, NodeView { x, y, ..s.nodes[id] })))
    }
}

/// `NodeDelete`: the node goes, and with it every edge that touches it.
pub open spec fn node_delete_spec(s: ProjectionView, id: Seq<char>) -> Result<ProjectionView, ReplayErrorView> {
    if !s.nodes.contains_key(id) {
        Err(ReplayErrorView::InvariantViolation("node not found: "@ + id))
    } else {
        Ok(s.with_nodes(s.nodes.remove(id)).with_edges(edges_not_touching(s.edges, id)))
    }
}

/// `NodeRestore`: the projection stays as it is when the node is present.
pub open spec fn node_restore_spec(s: ProjectionView, id: Seq<char>) -> Result<ProjectionView, ReplayErrorView> {
    if !s.nodes.contains_key(id) {
        Err(ReplayErrorView::InvariantViolation("node not found for restore: "@ + id))
    } else {
        Ok(s)
    }
}

/// `EdgeConnect`: a default edge between two existing nodes under an unused identifier.
pub open spec fn edge_connect_spec(s: ProjectionView, id: Seq<char>, source: Seq<char>, target: Seq<char>) -> Result<ProjectionView, ReplayErrorView> {
    if s.edges.contains_key(id) {
        Err(ReplayErrorView::InvariantViolation("duplicate edge ID: "@ + id))
    } else if !s.nodes.contains_key(source) {
        Err(ReplayErrorView::InvariantViolation("source node not found: "@ + source))
    } else if !s.nodes.contains_key(target) {
        Err(ReplayErrorView::InvariantViolation("target node not found: "@ + target))
    } else {
        Ok(s.with_edges(s.edges.insert(id, default_edge_view(source, target))))
    }
}

/// `EdgeDisconnect`: the edge goes; a missing edge is refused.
pub open spec fn edge_disconnect_spec(s: ProjectionView, id: Seq<char>) -> Result<ProjectionView, ReplayErrorView> {
    if !s.edges.contains_key(id) {
        Err(ReplayErrorView::InvariantViolation("edge not found: "@ + id))
    } else {
        Ok(s.with_edges(s.edges.remove(id)))
    }
}

/// `EdgeConnect` with the dedicated errors for a duplicate edge and a missing end.
pub open spec fn edge_connect_checked_spec(s: ProjectionView, id: Seq<char>, source: Seq<char>, target: Seq<char>) -> Result<ProjectionView, ReplayErrorView> {
    if s.edges.contains_key(id) {
        Err(ReplayErrorView::DuplicateEdge(id))
    } else if !s.nodes.contains_key(source) {
        Err(ReplayErrorView::PolicyViolation("source node not found: "@ + source))
    } else if !s.nodes.contains_key(target) {
        Err(ReplayErrorView::PolicyViolation("target node not found: "@ + target))
    } else {
        Ok(s.with_edges(s.edges.insert(id, default_edge_view(source, target))))
    }
}

/// `EdgeDisconnect` with the dedicated error for a missing edge.
pub open spec fn edge_disconnect_checked_spec(s: ProjectionView, id: Seq<char>) -> Result<ProjectionView, ReplayErrorView> {
    if !s.edges.contains_key(id) {
        Err(ReplayErrorView::EdgeNotFound(id))
    } else {
        Ok(s.with_edges(s.edges.remove(id)))
    }
}

/// What `apply_node_op` does with an operation.
pub open spec fn node_op_spec(s: ProjectionView, op: DomainOp) -> Result<ProjectionView, ReplayErrorView> {
    match op {
        DomainOp::NodeAdd { id, x, y, width, height, label } => node_add_spec(s, id@, x.0, y.0, width.0, height.0, label@),
        DomainOp::NodeMove { id, x, y } => node_move_spec(s, id@, x.0, y.0),
        DomainOp::NodeDelete { id } => node_delete_spec(s, id@),
        DomainOp::NodeRestore { id } => node_restore_spec(s, id@),
        _ => Err(ReplayErrorView::InvalidEvent("not a node operation: "@ + op_kind_name(op))),
    }
}

/// What `apply_edge_op` does with an operation.
pub open spec fn edge_op_spec(s: ProjectionView, op: DomainOp) -> Result<ProjectionView, ReplayErrorView> {
    match op {
        DomainOp::EdgeConnect { id, source, target } => edge_connect_checked_spec(s, id@, source@, target@),
        DomainOp::EdgeDisconnect { id } => edge_disconnect_checked_spec(s, id@),
        _ => Err(ReplayErrorView::InvalidEvent("not an edge operation: "@ + op_kind_name(op))),
    }
}

fn message(prefix: &str, subject: &str) -> (m: String)
    ensures
        m@ == prefix@ + subject@,
{
    concat_str(prefix, subject)
}

/// Create the node that `NodeAdd` adds.
pub fn create_default_node(x: OrderedFloat, y: OrderedFloat, width: OrderedFloat, height: OrderedFloat, label: &str) -> (n: Node)
    ensures
        n@ == default_node_view(x.0, y.0, width.0, height.0, label@),
{
    let n = Node {
        kind: NodeKind::Node,
        icon: String::new(),
        label: String::from_str(label),
        x,
        y,
        width,
        height,
        lock_state: LockState::Unlocked,
        parent: None,
        tags: tag_list_new(),
        metadata: meta_map_new(),
        z_index: 0,
        font_size: None,
        font_weight: None,
        dag_rank: None,
        style: None,
        collapsed: None,
    };
    assert(crate::collections::meta_map_contents(n.metadata) =~= Map::empty());
    n
}

/// Create the edge that `EdgeConnect` adds.
pub fn create_default_edge(source_id: NodeId, target_id: NodeId) -> (e: Edge)
    ensures
        e@ == default_edge_view(source_id@, target_id@),
{
    let e = Edge {
        source: source_id,
        target: target_id,
        label: String::new(),
        style: EdgeStyle::Solid,
        arrow_type: ArrowType::Default,
        label_offset_t: OrderedFloat(DEFAULT_LABEL_OFFSET_BITS),
        color: None,
        thickness: OrderedFloat(DEFAULT_THICKNESS_BITS),
        directed: true,
        bend_points: point_list_new(),
        tags: tag_list_new(),
        metadata: meta_map_new(),
        font_size: None,
        source_port: None,
        target_port: None,
    };
    assert(crate::collections::meta_map_contents(e.metadata) =~= Map::empty());
    e
}

/// Apply `NodeAdd`: a new node with the given geometry and label.
pub fn apply_node_add(state: DiagramProjection, id: &str, x: OrderedFloat, y: OrderedFloat, width: OrderedFloat, height: OrderedFloat, label: &str) -> (r: Result<DiagramProjection, ReplayError>)
    ensures
        crate::projection::outcome_view(r) == node_add_spec(state@, id@, x.0, y.0, width.0, height.0, label@),
{
    let node_id = NodeId::new(String::from_str(id));
    if state.has_node(&node_id) {
        return Err(ReplayError::InvariantViolation(message("duplicate node ID: ", id)));
    }
    let mut state = state;
    let ghost before = state.nodes;
    let node = create_default_node(x, y, width, height, label);
    let _ = node_map_insert(&mut state.nodes, node_id, node);
    proof {
        lemma_nodes_view_insert(before, state.nodes, id@, node);
    }
    Ok(state)
}

/// Apply `NodeMove`: the node takes the given position.
pub fn apply_node_move(state: DiagramProjection, id: &str, x: OrderedFloat, y: OrderedFloat) -> (r: Result<DiagramProjection, ReplayError>)
    ensures
        crate::projection::outcome_view(r) == node_move_spec(state@, id@, x.0, y.0),
{
    let node_id = NodeId::new(String::from_str(id));
    let mut state = state;
    let ghost before = state.nodes;
    match node_map_remove(&mut state.nodes, &node_id) {
        None => Err(ReplayError::InvariantViolation(message("node not found: ", id))),
        Some(node) => {
            let ghost removed = state.nodes;
            let mut node = node;
            node.x = x;
            node.y = y;
            let _ = node_map_insert(&mut state.nodes, node_id, node);
            proof {
                lemma_nodes_view_remove(before, removed, id@);
                lemma_nodes_view_insert(removed, state.nodes, id@, node);
                assert(crate::document::nodes_view(state.nodes) =~= crate::document::nodes_view(before).insert(id@, node@));
            }
            Ok(state)
        },
    }
}

/// The identifiers of the edges that touch a node, each once.
fn edges_touching(edges: &crate::collections::EdgeMap, node: &NodeId) -> (r: Vec<EdgeId>)
    ensures
        forall|i: int| 0 <= i < r@.len() ==> crate::document::edges_view(*edges).contains_key(#[trigger] r@[i]@),
        forall|i: int| 0 <= i < r@.len() ==> touches(crate::document::edges_view(*edges)[#[trigger] r@[i]@], node@),
        forall|i: int, j: int| 0 <= i < j < r@.len() ==> r@[i]@ != r@[j]@,
        forall|k: Seq<char>| crate::document::edges_view(*edges).contains_key(k) && touches(crate::document::edges_view(*edges)[k], node@)
            ==> exists|i: int| 0 <= i < r@.len() && #[trigger] r@[i]@ == k,
{
    let keys = edge_map_keys(edges);
    let ghost ev = crate::document::edges_view(*edges);
    let mut r: Vec<EdgeId> = Vec::new();
    let mut i: usize = 0;
    while i < keys.len()
        invariant
            i <= keys.len(),
            ev == crate::document::edges_view(*edges),
            lists_edge_keys(keys@, edge_map_contents(*edges)),
            forall|a: int| 0 <= a < r@.len() ==> ev.contains_key(#[trigger] r@[a]@),
            forall|a: int| 0 <= a < r@.len() ==> touches(ev[#[trigger] r@[a]@], node@),
            forall|a: int| #![trigger r@[a]] 0 <= a < r@.len() ==> exists|b: int| 0 <= b < i && #[trigger] keys@[b]@ == r@[a]@,
            forall|a: int, b: int| 0 <= a < b < r@.len() ==> r@[a]@ != r@[b]@,
            forall|b: int| 0 <= b < i && touches(ev[#[trigger] keys@[b]@], node@) ==> exists|a: int| 0 <= a < r@.len() && #[trigger] r@[a]@ == keys@[b]@,
        decreases keys.len() - i,
    {
        let k = &keys[i];
        match edge_map_get(edges, k) {
            Some(e) => {
                if e.source.same(node) || e.target.same(node) {
                    let ghost old_r = r@;
                    r.push(k.duplicate());
                    proof {
                        assert(r@[r@.len() - 1]@ == keys@[i as int]@);
                        assert forall|a: int, b: int| 0 <= a < b < r@.len() implies r@[a]@ != r@[b]@ by {
                            if b == r@.len() - 1 {
                                let bb = choose|bb: int| 0 <= bb < i && #[trigger] keys@[bb]@ == r@[a]@;
                                assert(keys@[bb]@ != keys@[i as int]@);
                            }
                        }
                        assert forall|a: int| #![trigger r@[a]] 0 <= a < r@.len() implies exists|b: int| 0 <= b < i + 1 && #[trigger] keys@[b]@ == r@[a]@ by {
                            if a == r@.len() - 1 {
                                assert(keys@[i as int]@ == r@[a]@);
                            } else {
                                assert(old_r[a] == r@[a]);
                            }
                        }
                        assert forall|b: int| 0 <= b < i + 1 && touches(ev[#[trigger] keys@[b]@], node@) implies exists|a: int| 0 <= a < r@.len() && #[trigger] r@[a]@ == keys@[b]@ by {
                            if b == i {
                                assert(r@[r@.len() - 1]@ == keys@[b]@);
                            } else {
                                let a = choose|a: int| 0 <= a < old_r.len() && #[trigger] old_r[a]@ == keys@[b]@;
                                assert(r@[a] == old_r[a]);
                            }
                        }
                    }
                }
            },
            None => {},
        }
        i = i + 1;
    }
    proof {
        assert forall|k: Seq<char>| ev.contains_key(k) && touches(ev[k], node@)
            implies exists|i: int| 0 <= i < r@.len() && #[trigger] r@[i]@ == k by {
            let b = choose|b: int| 0 <= b < keys@.len() && #[trigger] keys@[b]@ == k;
        }
    }
    r
}

/// Whether `k` is one of the first `n` listed identifiers.
pub open spec fn listed_before(ids: Seq<EdgeId>, n: int, k: Seq<char>) -> bool {
    exists|a: int| 0 <= a < n && #[trigger] ids[a]@ == k
}

/// Apply `NodeDelete`: the node goes, and so do the edges that touch it.
pub fn apply_node_delete(state: DiagramProjection, id: &str) -> (r: Result<DiagramProjection, ReplayError>)
    ensures
        crate::projection::outcome_view(r) == node_delete_spec(state@, id@),
{
    let node_id = NodeId::new(String::from_str(id));
    if !state.has_node(&node_id) {
        return Err(ReplayError::InvariantViolation(message("node not found: ", id)));
    }
    let to_remove = edges_touching(&state.edges, &node_id);
    let mut state = state;
    let ghost orig = state@;
    let mut i: usize = 0;
    while i < to_remove.len()
        invariant
            i <= to_remove.len(),
            state@.nodes == orig.nodes,
            state@.version == orig.version,
            state@.revision == orig.revision,
            state@.priority == orig.priority,
            state@.cycle_policy == orig.cycle_policy,
            forall|a: int| 0 <= a < to_remove@.len() ==> orig.edges.contains_key(#[trigger] to_remove@[a]@),
            forall|a: int| 0 <= a < to_remove@.len() ==> touches(orig.edges[#[trigger] to_remove@[a]@], id@),
            forall|k: Seq<char>| orig.edges.contains_key(k) && touches(orig.edges[k], id@)
                ==> exists|a: int| 0 <= a < to_remove@.len() && #[trigger] to_remove@[a]@ == k,
            forall|k: Seq<char>| #[trigger] state@.edges.contains_key(k) <==> (orig.edges.contains_key(k)
                && !listed_before(to_remove@, i as int, k)),
            forall|k: Seq<char>| #[trigger] state@.edges.contains_key(k) ==> state@.edges[k] == orig.edges[k],
        decreases to_remove.len() - i,
    {
        let ghost before = state.edges;
        let ghost prev = state@.edges;
        let _ = edge_map_remove(&mut state.edges, &to_remove[i]);
        proof {
            let key = to_remove@[i as int]@;
            lemma_edges_view_remove(before, state.edges, key);
            let cur = state@.edges;
            assert(cur == prev.remove(key));
            assert forall|k: Seq<char>| #[trigger] cur.contains_key(k) implies cur[k] == orig.edges[k] by {
                assert(prev.contains_key(k));
            }
            assert forall|k: Seq<char>| #[trigger] cur.contains_key(k) <==> (orig.edges.contains_key(k)
                && !listed_before(to_remove@, i + 1, k)) by {
                assert(prev.contains_key(k) <==> (orig.edges.contains_key(k) && !listed_before(to_remove@, i as int, k)));
                if listed_before(to_remove@, i + 1, k) && !listed_before(to_remove@, i as int, k) {
                    let a = choose|a: int| 0 <= a < i + 1 && #[trigger] to_remove@[a]@ == k;
                    assert(a == i);
                }
                if k == key {
                    assert(to_remove@[i as int]@ == k);
                }
            }
        }
        i = i + 1;
    }
    let ghost cur = state@.edges;
    assert(forall|k: Seq<char>| #[trigger] cur.contains_key(k) <==> (orig.edges.contains_key(k)
        && !listed_before(to_remove@, i as int, k)));
    assert(forall|k: Seq<char>| #[trigger] cur.contains_key(k) ==> cur[k] == orig.edges[k]);
    let ghost before_nodes = state.nodes;
    let _ = node_map_remove(&mut state.nodes, &node_id);
    proof {
        lemma_nodes_view_remove(before_nodes, state.nodes, id@);
        let expected = edges_not_touching(orig.edges, id@);
        assert(cur == state@.edges);
        assert forall|k: Seq<char>| #[trigger] cur.contains_key(k) <==> expected.contains_key(k) by {
            assert(cur.contains_key(k) <==> (orig.edges.contains_key(k) && !listed_before(to_remove@, i as int, k)));
            assert(expected.contains_key(k) <==> (orig.edges.contains_key(k) && !touches(orig.edges[k], id@)));
            if orig.edges.contains_key(k) && touches(orig.edges[k], id@) {
                let a = choose|a: int| 0 <= a < to_remove@.len() && #[trigger] to_remove@[a]@ == k;
                assert(listed_before(to_remove@, i as int, k));
            }
            if listed_before(to_remove@, i as int, k) {
                let a = choose|a: int| 0 <= a < i && #[trigger] to_remove@[a]@ == k;
                assert(touches(orig.edges[to_remove@[a]@], id@));
            }
        }
        assert forall|k: Seq<char>| #[trigger] cur.contains_key(k) implies cur[k] == expected[k] by {
            assert(expected.contains_key(k));
        }
        assert(cur =~= expected);
    }
    Ok(state)
}

/// Apply `NodeRestore`: nodes are never kept once deleted, so this only checks
/// that the node exists and leaves the projection as it is.
pub fn apply_node_restore(state: DiagramProjection, id: &str) -> (r: Result<DiagramProjection, ReplayError>)
    ensures
        crate::projection::outcome_view(r) == node_restore_spec(state@, id@),
{
    let node_id = NodeId::new(String::from_str(id));
    if !state.has_node(&node_id) {
        return Err(ReplayError::InvariantViolation(message("node not found for restore: ", id)));
    }
    Ok(state)
}

fn add_default_edge(state: DiagramProjection, id: &str, source: &str, target: &str) -> (r: DiagramProjection)
    ensures
        r@ == state@.with_edges(state@.edges.insert(id@, default_edge_view(source@, target@))),
{
    let mut state = state;
    let ghost before = state.edges;
    let edge = create_default_edge(NodeId::new(String::from_str(source)), NodeId::new(String::from_str(target)));
    let _ = edge_map_insert(&mut state.edges, EdgeId::new(String::from_str(id)), edge);
    proof {
        lemma_edges_view_insert(before, state.edges, id@, edge);
    }
    state
}

fn remove_edge(state: DiagramProjection, id: &str) -> (r: DiagramProjection)
    ensures
        r@ == state@.with_edges(state@.edges.remove(id@)),
{
    let mut state = state;
    let ghost before = state.edges;
    let _ = edge_map_remove(&mut state.edges, &EdgeId::new(String::from_str(id)));
    proof {
        lemma_edges_view_remove(before, state.edges, id@);
    }
    state
}

/// Apply `EdgeConnect`: a new default edge between two existing nodes.
pub fn apply_edge_connect(state: DiagramProjection, id: &str, source: &str, target: &str) -> (r: Result<DiagramProjection, ReplayError>)
    ensures
        crate::projection::outcome_view(r) == edge_connect_spec(state@, id@, source@, target@),
{
    if state.has_edge(&EdgeId::new(String::from_str(id))) {
        return Err(ReplayError::InvariantViolation(message("duplicate edge ID: ", id)));
    }
    if !state.has_node(&NodeId::new(String::from_str(source))) {
        return Err(ReplayError::InvariantViolation(message("source node not found: ", source)));
    }
    if !state.has_node(&NodeId::new(String::from_str(target))) {
        return Err(ReplayError::InvariantViolation(message("target node not found: ", target)));
    }
    Ok(add_default_edge(state, id, source, target))
}

/// Apply `EdgeDisconnect`: the edge goes.
pub fn apply_edge_disconnect(state: DiagramProjection, id: &str) -> (r: Result<DiagramProjection, ReplayError>)
    ensures
        crate::projection::outcome_view(r) == edge_disconnect_spec(state@, id@),
{
    if !state.has_edge(&EdgeId::new(String::from_str(id))) {
        return Err(ReplayError::InvariantViolation(message("edge not found: ", id)));
    }
    Ok(remove_edge(state, id))
}

/// Apply `EdgeConnect`, reporting a duplicate as `DuplicateEdge` and a missing endpoint as `PolicyViolation`.
pub fn apply_edge_connect_checked(state: DiagramProjection, id: &str, source: &str, target: &str) -> (r: Result<DiagramProjection, ReplayError>)
    ensures
        crate::projection::outcome_view(r) == edge_connect_checked_spec(state@, id@, source@, target@),
{
    if state.has_edge(&EdgeId::new(String::from_str(id))) {
        return Err(ReplayError::DuplicateEdge(String::from_str(id)));
    }
    if !state.has_node(&NodeId::new(String::from_str(source))) {
        return Err(ReplayError::PolicyViolation(message("source node not found: ", source)));
    }
    if !state.has_node(&NodeId::new(String::from_str(target))) {
        return Err(ReplayError::PolicyViolation(message("target node not found: ", target)));
    }
    Ok(add_default_edge(state, id, source, target))
}

/// Apply `EdgeDisconnect`, reporting a missing edge as `EdgeNotFound`.
pub fn apply_edge_disconnect_checked(state: DiagramProjection, id: &str) -> (r: Result<DiagramProjection, ReplayError>)
    ensures
        crate::projection::outcome_view(r) == edge_disconnect_checked_spec(state@, id@),
{
    if !state.has_edge(&EdgeId::new(String::from_str(id))) {
        return Err(ReplayError::EdgeNotFound(String::from_str(id)));
    }
    Ok(remove_edge(state, id))
}

/// Apply a node operation; any other operation is an invalid event.
pub fn apply_node_op(state: DiagramProjection, op: &DomainOp) -> (r: Result<DiagramProjection, ReplayError>)
    ensures
        crate::projection::outcome_view(r) == node_op_spec(state@, *op),
{
    match op {
        DomainOp::NodeAdd { id, x, y, width, height, label } => apply_node_add(state, id.as_str(), *x, *y, *width, *height, label.as_str()),
        DomainOp::NodeMove { id, x, y } => apply_node_move(state, id.as_str(), *x, *y),
        DomainOp::NodeDelete { id } => apply_node_delete(state, id.as_str()),
        DomainOp::NodeRestore { id } => apply_node_restore(state, id.as_str()),
        _ => Err(ReplayError::InvalidEvent(message("not a node operation: ", op.kind_name()))),
    }
}

/// Apply an edge operation with the checked error kinds; any other operation is an invalid event.
pub fn apply_edge_op(state: DiagramProjection, op: &DomainOp) -> (r: Result<DiagramProjection, ReplayError>)
    ensures
        crate::projection::outcome_view(r) == edge_op_spec(state@, *op),
{
    match op {
        DomainOp::EdgeConnect { id, source, target } => apply_edge_connect_checked(state, id.as_str(), source.as_str(), target.as_str()),
        DomainOp::EdgeDisconnect { id } => apply_edge_disconnect_checked(state, id.as_str()),
        _ => Err(ReplayError::InvalidEvent(message("not an edge operation: ", op.kind_name()))),
    }
}

/// The outcome of relabelling an edge: the edge must exist and takes the new label.
pub open spec fn update_edge_label_spec(s: ProjectionView, id: Seq<char>, label: Seq<char>) -> Result<ProjectionView, ReplayErrorView> {
    if s.edges.contains_key(id) {
        Ok(s.with_edges(s.edges.insert(id, EdgeView { label, ..s.edges[id] })))
    } else {
        Err(ReplayErrorView::InvariantViolation("edge not found: "@ + id))
    }
}

/// Give an existing edge a new label.
pub fn apply_update_edge_label(state: DiagramProjection, id: &str, label: &String) -> (r: Result<DiagramProjection, ReplayError>)
    ensures
        crate::projection::outcome_view(r) == update_edge_label_spec(state@, id@, label@),
{
    let edge_id = EdgeId::new(String::from_str(id));
    let mut state = state;
    let ghost before = state.edges;
    match edge_map_remove(&mut state.edges, &edge_id) {
        None => Err(ReplayError::InvariantViolation(message("edge not found: ", id))),
        Some(edge) => {
            let ghost removed = state.edges;
            let mut edge = edge;
            edge.label = label.clone();
            let _ = edge_map_insert(&mut state.edges, edge_id, edge);
            proof {
                lemma_edges_view_remove(before, removed, id@);
                lemma_edges_view_insert(removed, state.edges, id@, edge);
                assert(crate::document::edges_view(state.edges) =~= crate::document::edges_view(before).insert(id@, edge@));
            }
            Ok(state)
        },
    }
}

/// Deleting a node removes it together with every edge that touches it, and keeps
/// every other node and edge.
pub proof fn lemma_node_delete_removes_its_edges(s: ProjectionView, id: Seq<char>)
    ensures
        node_delete_spec(s, id) matches Ok(s2) ==> {
            &&& !s2.nodes.contains_key(id)
            &&& forall|k: Seq<char>| #[trigger] s2.edges.contains_key(k) ==> !touches(s2.edges[k], id)
            &&& forall|k: Seq<char>| k != id && #[trigger] s.nodes.contains_key(k) ==> s2.nodes.contains_key(k) && s2.nodes[k] == s.nodes[k]
            &&& forall|k: Seq<char>| #[trigger] s.edges.contains_key(k) && !touches(s.edges[k], id) ==> s2.edges.contains_key(k)
        },
{
}

/// What the node and edge operations do to a projection, read off their fields: an
/// added node needs a fresh id and appears with the given position, size and label;
/// a moved node needs to exist and only its position changes; a connection needs a
/// fresh id and two existing ends and joins them; a disconnection needs the edge and
/// removes only it. Nothing else in the projection changes.
pub proof fn lemma_projection_op_effects(s: ProjectionView, op: DomainOp)
    ensures
        match op {
            DomainOp::NodeAdd { id, x, y, width, height, label } => match node_op_spec(s, op) {
                Ok(t) => !s.nodes.contains_key(id@) && t.nodes.contains_key(id@) && t.nodes[id@].x == x.0
                    && t.nodes[id@].y == y.0 && t.nodes[id@].width == width.0 && t.nodes[id@].height == height.0
                    && t.nodes[id@].label == label@ && t.nodes[id@].parent is None
                    && t.nodes.remove(id@) == s.nodes && t.edges == s.edges && t.version == s.version
                    && t.revision == s.revision && t.priority == s.priority,
                Err(_) => s.nodes.contains_key(id@),
            },
            DomainOp::NodeMove { id, x, y } => match node_op_spec(s, op) {
                Ok(t) => s.nodes.contains_key(id@) && t.nodes.dom() == s.nodes.dom() && t.nodes[id@].x == x.0
                    && t.nodes[id@].y == y.0 && t.nodes[id@].width == s.nodes[id@].width
                    && t.nodes[id@].height == s.nodes[id@].height && t.nodes[id@].parent == s.nodes[id@].parent
                    && (forall|k: Seq<char>| #[trigger] t.nodes.contains_key(k) && k != id@ ==> t.nodes[k] == s.nodes[k])
                    && t.edges == s.edges,
                Err(_) => !s.nodes.contains_key(id@),
            },
            DomainOp::NodeDelete { id } => match node_op_spec(s, op) {
                Ok(t) => s.nodes.contains_key(id@) && !t.nodes.contains_key(id@) && t.nodes == s.nodes.remove(id@)
                    && (forall|k: Seq<char>| #[trigger] t.edges.contains_key(k) ==> s.edges.contains_key(k)
                        && t.edges[k] == s.edges[k] && t.edges[k].source != id@ && t.edges[k].target != id@)
                    && (forall|k: Seq<char>| #[trigger] s.edges.contains_key(k) && s.edges[k].source != id@
                        && s.edges[k].target != id@ ==> t.edges.contains_key(k)),
                Err(_) => !s.nodes.contains_key(id@),
            },
            DomainOp::NodeRestore { id } => match node_op_spec(s, op) {
                Ok(t) => s.nodes.contains_key(id@) && t == s,
                Err(_) => !s.nodes.contains_key(id@),
            },
            DomainOp::EdgeConnect { id, source, target } => match edge_op_spec(s, op) {
                Ok(t) => !s.edges.contains_key(id@) && s.nodes.contains_key(source@) && s.nodes.contains_key(target@)
                    && t.edges.contains_key(id@) && t.edges[id@].source == source@ && t.edges[id@].target == target@
                    && t.edges.remove(id@) == s.edges && t.nodes == s.nodes,
                Err(_) => s.edges.contains_key(id@) || !s.nodes.contains_key(source@) || !s.nodes.contains_key(target@),
            },
            DomainOp::EdgeDisconnect { id } => match edge_op_spec(s, op) {
                Ok(t) => s.edges.contains_key(id@) && t.edges == s.edges.remove(id@) && t.nodes == s.nodes,
                Err(_) => !s.edges.contains_key(id@),
            },
            _ => node_op_spec(s, op) is Err && edge_op_spec(s, op) is Err,
        },
{
    match op {
        DomainOp::NodeAdd { id, x, y, width, height, label } => {
            if node_op_spec(s, op) is Ok {
                let t = node_op_spec(s, op)->Ok_0;
                assert(t.nodes.remove(id@) =~= s.nodes);
            }
        },
        DomainOp::EdgeConnect { id, source, target } => {
            if edge_op_spec(s, op) is Ok {
                let t = edge_op_spec(s, op)->Ok_0;
                assert(t.edges.remove(id@) =~= s.edges);
            }
        },
        _ => {},
    }
}

} // verus!
