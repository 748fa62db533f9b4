//! Integrity checks on the edges of a projection.

use vstd::prelude::*;

use crate::collections::{edge_map_contents, edge_map_get, edge_map_keys, lists_edge_keys, node_map_contains};
use crate::document::{Edge, EdgeId, EdgeView, NodeView};
use crate::ordered_float::is_finite_bits;
use crate::projection::{DiagramProjection, ReplayError, ReplayErrorView};
use crate::text::{concat_str, str_eq};

verus! {

/// What is wrong with one edge, checked in order: its source and its target must be
/// nodes, and its label offset and thickness must be finite.
pub open spec fn edge_tolerance_error(nodes: Map<Seq<char>, NodeView>, id: Seq<char>, e: EdgeView) -> Option<ReplayErrorView> {
    if !nodes.contains_key(e.source) {
        Some(ReplayErrorView::PolicyViolation("edge "@ + id + " references non-existent source node: "@ + e.source))
    } else if !nodes.contains_key(e.target) {
        Some(ReplayErrorView::PolicyViolation("edge "@ + id + " references non-existent target node: "@ + e.target))
    } else if !is_finite_bits(e.label_offset_t) {
        Some(ReplayErrorView::InvariantViolation("edge "@ + id + " has invalid label_offset_t"@))
    } else if !is_finite_bits(e.thickness) {
        Some(ReplayErrorView::InvariantViolation("edge "@ + id + " has invalid thickness"@))
    } else {
        None
    }
}

/// Record an edge identifier as seen; a second sighting is an error.
pub fn check_edge_id_unique(seen_ids: &mut Vec<String>, edge_id: &EdgeId) -> (r: Result<(), ReplayError>)
    ensures
        (exists|i: int| 0 <= i < old(seen_ids)@.len() && #[trigger] old(seen_ids)@[i]@ == edge_id@) ==>
            (r matches Err(e) && e@ == ReplayErrorView::DuplicateEdge(edge_id@)) && final(seen_ids)@ == old(seen_ids)@,
        !(exists|i: int| 0 <= i < old(seen_ids)@.len() && #[trigger] old(seen_ids)@[i]@ == edge_id@) ==>
            r is Ok && final(seen_ids)@.len() == old(seen_ids)@.len() + 1
            && final(seen_ids)@.subrange(0, old(seen_ids)@.len() as int) == old(seen_ids)@
            && final(seen_ids)@.last()@ == edge_id@,
{
    let mut i: usize = 0;
    while i < seen_ids.len()
        invariant
            i <= seen_ids@.len(),
            forall|j: int| 0 <= j < i ==> seen_ids@[j]@ != edge_id@,
        decreases seen_ids.len() - i,
    {
        if str_eq(seen_ids[i].as_str(), edge_id.as_str()) {
            return Err(ReplayError::DuplicateEdge(String::from_str(edge_id.as_str())));
        }
        i = i + 1;
    }
    seen_ids.push(String::from_str(edge_id.as_str()));
    assert(seen_ids@.subrange(0, old(seen_ids)@.len() as int) =~= old(seen_ids)@);
    Ok(())
}

/// Check that both ends of the edge are nodes of the projection.
pub fn verify_edge_endpoints(state: &DiagramProjection, edge_id: &EdgeId, edge: &Edge) -> (r: Result<(), ReplayError>)
    ensures
        r is Ok <==> state@.nodes.contains_key(edge@.source) && state@.nodes.contains_key(edge@.target),
        r matches Err(e) ==> Some(e@) == edge_tolerance_error(state@.nodes, edge_id@, edge@),
{
    if !node_map_contains(&state.nodes, &edge.source) {
        let mut m = concat_str("edge ", edge_id.as_str());
        m.append(" references non-existent source node: ");
        m.append(edge.source.as_str());
        return Err(ReplayError::PolicyViolation(m));
    }
    if !node_map_contains(&state.nodes, &edge.target) {
        let mut m = concat_str("edge ", edge_id.as_str());
        m.append(" references non-existent target node: ");
        m.append(edge.target.as_str());
        return Err(ReplayError::PolicyViolation(m));
    }
    Ok(())
}

/// Check that the label offset and the thickness of the edge are finite.
pub fn verify_edge_geometry(edge_id: &EdgeId, edge: &Edge) -> (r: Result<(), ReplayError>)
    ensures
        r is Ok <==> is_finite_bits(edge.label_offset_t.0) && is_finite_bits(edge.thickness.0),
        r matches Err(e) ==> e@ == if !is_finite_bits(edge.label_offset_t.0) {
            ReplayErrorView::InvariantViolation("edge "@ + edge_id@ + " has invalid label_offset_t"@)
        } else {
            ReplayErrorView::InvariantViolation("edge "@ + edge_id@ + " has invalid thickness"@)
        },
{
    if !edge.label_offset_t.is_finite() {
        let mut m = concat_str("edge ", edge_id.as_str());
        m.append(" has invalid label_offset_t");
        return Err(ReplayError::InvariantViolation(m));
    }
    if !edge.thickness.is_finite() {
        let mut m = concat_str("edge ", edge_id.as_str());
        m.append(" has invalid thickness");
        return Err(ReplayError::InvariantViolation(m));
    }
    Ok(())
}

/// Check every edge of the projection, in the order the map is walked: its identifier
/// is seen once, its ends are nodes, and its geometry is finite. The first problem
/// found is reported.
pub fn verify_edge_tolerance(state: &DiagramProjection) -> (r: Result<(), ReplayError>)
    ensures
        r is Ok <==> forall|k: Seq<char>| #[trigger] state@.edges.contains_key(k) ==> edge_tolerance_error(state@.nodes, k, state@.edges[k]) is None,
        r matches Err(e) ==> exists|k: Seq<char>| #[trigger] state@.edges.contains_key(k) && edge_tolerance_error(state@.nodes, k, state@.edges[k]) == Some(e@),
{
    let ghost s = state@;
    let keys = edge_map_keys(&state.edges);
    let mut seen: Vec<String> = Vec::new();
    let mut i: usize = 0;
    while i < keys.len()
        invariant
            i <= keys@.len(),
            s == state@,
            lists_edge_keys(keys@, edge_map_contents(state.edges)),
            seen@.len() == i,
            forall|j: int| 0 <= j < i ==> #[trigger] seen@[j]@ == keys@[j]@,
            forall|j: int| 0 <= j < i ==> edge_tolerance_error(s.nodes, keys@[j]@, #[trigger] s.edges[keys@[j]@]) is None,
        decreases keys.len() - i,
    {
        let k = &keys[i];
        proof {
            assert forall|j: int| 0 <= j < seen@.len() implies #[trigger] seen@[j]@ != k@ by {
                assert(seen@[j]@ == keys@[j]@);
            }
        }
        let ghost before = seen@;
        let unique = check_edge_id_unique(&mut seen, k);
        match unique {
            Err(e) => {
                assert(false);
                return Err(e);
            },
            Ok(()) => {},
        }
        assert forall|j: int| 0 <= j < i + 1 implies #[trigger] seen@[j]@ == keys@[j]@ by {
            if j < i {
                assert(seen@.subrange(0, i as int)[j] == seen@[j]);
            }
        }
        match edge_map_get(&state.edges, k) {
            Some(e) => {
                assert(s.edges[k@] == e@);
                match verify_edge_endpoints(state, k, e) {
                    Err(x) => {
                        assert(s.edges.contains_key(k@));
                        return Err(x);
                    },
                    Ok(()) => {},
                }
                match verify_edge_geometry(k, e) {
                    Err(x) => {
                        assert(s.edges.contains_key(k@));
                        return Err(x);
                    },
                    Ok(()) => {},
                }
            },
            None => {
                assert(edge_map_contents(state.edges).contains_key(keys@[i as int]@));
                assert(false);
            },
        }
        i = i + 1;
    }
    assert forall|k: Seq<char>| #[trigger] s.edges.contains_key(k) implies edge_tolerance_error(s.nodes, k, s.edges[k]) is None by {
        assert(edge_map_contents(state.edges).contains_key(k));
        let j = choose|j: int| 0 <= j < keys@.len() && #[trigger] keys@[j]@ == k;
        assert(edge_tolerance_error(s.nodes, keys@[j]@, s.edges[keys@[j]@]) is None);
    }
    Ok(())
}

/// An edge passes the tolerance check exactly when both of its ends are nodes and its
/// label offset and thickness are finite numbers.
pub proof fn lemma_tolerated_edges(nodes: Map<Seq<char>, NodeView>, id: Seq<char>, e: EdgeView)
    ensures
        edge_tolerance_error(nodes, id, e) is None <==> nodes.contains_key(e.source) && nodes.contains_key(e.target)
            && is_finite_bits(e.label_offset_t) && is_finite_bits(e.thickness),
{
}

} // verus!
