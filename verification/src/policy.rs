//! Cycle policy enforcement and the geometry check that precedes hashing.

use vstd::prelude::*;

use crate::collections::{
    edge_map_contents, edge_map_get, edge_map_keys, lists_edge_keys, lists_node_keys,
    node_map_contents, node_map_get, node_map_keys,
};
use crate::dag::{cycle_message, is_acyclic, validate_dag, CycleError};
use crate::document::{EdgeView, NodeView};
use crate::envelope::{Author, DomainOp};
use crate::ordered_float::is_finite_bits;
use crate::projection::{outcome_view, CyclePolicy, DiagramProjection, EventRecord, ProjectionView, ReplayError, ReplayErrorView};
use crate::replay::{apply_event_parts, event_outcome};
use crate::text::{decimal, u64_to_decimal};

verus! {

/// The projection satisfies its cycle policy: cycles are allowed, or there is none.
pub open spec fn policy_holds(s: ProjectionView) -> bool {
    s.cycle_policy == CyclePolicy::Allow || is_acyclic(s.edges)
}

/// Enforce the projection's cycle policy: under `Deny` the edge graph must be acyclic.
pub fn enforce_cycle_policy(state: &DiagramProjection) -> (r: Result<(), ReplayError>)
    ensures
        r is Ok <==> policy_holds(state@),
        r matches Err(e) ==> exists|n: nat| n > 0 && e@ == ReplayErrorView::CycleViolation(#[trigger] cycle_message(n)),
{
    match state.cycle_policy {
        CyclePolicy::Allow => Ok(()),
        CyclePolicy::Deny => match validate_dag(&state.nodes, &state.edges) {
            Ok(()) => Ok(()),
            Err(e) => {
                let m = e.to_string();
                proof {
                    let n = e->CycleDetected_0;
                    assert(m@ == cycle_message(n as nat));
                }
                Err(ReplayError::CycleViolation(m))
            },
        },
    }
}

/// The event that a policy-checked operation is applied as: the operation identifier
/// `policy-op-` followed by the revision, written by the policy enforcer.
pub open spec fn policy_event(s: ProjectionView, op: DomainOp, op_id: String, author: Author) -> bool {
    &&& op_id@ == "policy-op-"@ + decimal(s.revision as nat)
    &&& author.id@ == "system"@
    &&& author.name@ == "Policy Enforcer"@
    &&& author.email is None
}

/// The outcomes of applying an operation under the cycle policy: the operation is
/// applied as an event at the current revision, and the new projection must satisfy
/// the policy.
pub open spec fn policy_op_outcome(s: ProjectionView, op: DomainOp, r: Result<ProjectionView, ReplayErrorView>) -> bool {
    exists|op_id: String, author: Author, mid: Result<ProjectionView, ReplayErrorView>|
        #![trigger event_outcome(s, EventRecord { op_id, revision: s.revision, operation: op, author, timestamp: 0 }, mid)]
        policy_event(s, op, op_id, author)
        && event_outcome(s, EventRecord { op_id, revision: s.revision, operation: op, author, timestamp: 0 }, mid)
        && match mid {
            Err(x) => r == Err::<ProjectionView, ReplayErrorView>(x),
            Ok(s2) => if policy_holds(s2) {
                r == Ok::<ProjectionView, ReplayErrorView>(s2)
            } else {
                exists|n: nat| n > 0 && r == Err::<ProjectionView, ReplayErrorView>(ReplayErrorView::CycleViolation(#[trigger] cycle_message(n)))
            },
        }
}

/// Apply an operation while respecting the cycle policy: it is applied as an event
/// written by the policy enforcer, and refused if the result breaks the policy.
pub fn apply_policy_op(state: DiagramProjection, op: &DomainOp) -> (r: Result<DiagramProjection, ReplayError>)
    requires
        state.revision < u64::MAX,
    ensures
        policy_op_outcome(state@, *op, outcome_view(r)),
{
    let ghost s = state@;
    let mut op_id = String::from_str("policy-op-");
    let rev = u64_to_decimal(state.revision);
    op_id.append(rev.as_str());
    let author = Author { id: String::from_str("system"), name: String::from_str("Policy Enforcer"), email: None };
    let revision = state.revision;
    let applied = apply_event_parts(state, &op_id, revision, op, &author);
    let ghost mid = outcome_view(applied);
    proof {
        reveal_strlit("system");
        reveal_strlit("Policy Enforcer");
        assert(policy_event(s, *op, op_id, author));
        assert(event_outcome(s, EventRecord { op_id, revision: s.revision, operation: *op, author, timestamp: 0 }, mid));
    }
    match applied {
        Err(e) => Err(e),
        Ok(new_state) => {
            match enforce_cycle_policy(&new_state) {
                Ok(()) => Ok(new_state),
                Err(e) => Err(e),
            }
        },
    }
}

/// The message of a non-finite geometry field.
pub open spec fn non_finite_message(kind: Seq<char>, id: Seq<char>, field: Seq<char>) -> Seq<char> {
    kind + " "@ + id + " has non-finite "@ + field
}

/// The geometry error of a node: coordinates first, then dimensions.
pub open spec fn node_geometry_error(id: Seq<char>, n: NodeView) -> Option<Seq<char>> {
    if !(is_finite_bits(n.x) && is_finite_bits(n.y)) {
        Some(non_finite_message("node"@, id, "coordinates"@))
    } else if !(is_finite_bits(n.width) && is_finite_bits(n.height)) {
        Some(non_finite_message("node"@, id, "dimensions"@))
    } else {
        None
    }
}

/// The geometry error of an edge: label offset first, then thickness.
pub open spec fn edge_geometry_error(id: Seq<char>, e: EdgeView) -> Option<Seq<char>> {
    if !is_finite_bits(e.label_offset_t) {
        Some(non_finite_message("edge"@, id, "label_offset_t"@))
    } else if !is_finite_bits(e.thickness) {
        Some(non_finite_message("edge"@, id, "thickness"@))
    } else {
        None
    }
}

/// Every node and every edge of the projection has finite geometry.
pub open spec fn geometry_is_finite(s: ProjectionView) -> bool {
    &&& forall|k: Seq<char>| #[trigger] s.nodes.contains_key(k) ==> node_geometry_error(k, s.nodes[k]) is None
    &&& forall|k: Seq<char>| #[trigger] s.edges.contains_key(k) ==> edge_geometry_error(k, s.edges[k]) is None
}

/// The error reported for non-finite geometry: that of some offending node if there is
/// one, else that of some offending edge.
pub open spec fn is_geometry_error(s: ProjectionView, m: Seq<char>) -> bool {
    if exists|k: Seq<char>| #[trigger] s.nodes.contains_key(k) && node_geometry_error(k, s.nodes[k]) is Some {
        exists|k: Seq<char>| #[trigger] s.nodes.contains_key(k) && node_geometry_error(k, s.nodes[k]) == Some(m)
    } else {
        exists|k: Seq<char>| #[trigger] s.edges.contains_key(k) && edge_geometry_error(k, s.edges[k]) == Some(m)
    }
}

/// A geometry field must be finite: `is_valid` says whether it is.
pub fn validate_finite(id: &str, kind: &str, field: &str, is_valid: bool) -> (r: Result<(), ReplayError>)
    ensures
        r is Ok <==> is_valid,
        r matches Err(e) ==> e@ == ReplayErrorView::InvariantViolation(non_finite_message(kind@, id@, field@)),
{
    if !is_valid {
        let mut m = String::from_str(kind);
        m.append(" ");
        m.append(id);
        m.append(" has non-finite ");
        m.append(field);
        return Err(ReplayError::InvariantViolation(m));
    }
    Ok(())
}

/// Check that every node and edge of the projection has finite geometry: node
/// coordinates and dimensions, edge label offsets and thicknesses. Nodes are checked
/// before edges, each in the order the maps are walked.
pub fn check_finite_geometry(state: &DiagramProjection) -> (r: Result<(), ReplayError>)
    ensures
        r is Ok <==> geometry_is_finite(state@),
        r matches Err(e) ==> (e@ matches ReplayErrorView::InvariantViolation(m) && is_geometry_error(state@, m)),
{
    let ghost s = state@;
    let nkeys = node_map_keys(&state.nodes);
    let mut i: usize = 0;
    while i < nkeys.len()
        invariant
            i <= nkeys.len(),
            s == state@,
            lists_node_keys(nkeys@, node_map_contents(state.nodes)),
            forall|j: int| 0 <= j < i ==> node_geometry_error(nkeys@[j]@, #[trigger] s.nodes[nkeys@[j]@]) is None,
        decreases nkeys.len() - i,
    {
        match node_map_get(&state.nodes, &nkeys[i]) {
            Some(n) => {
                let ghost k = nkeys@[i as int]@;
                assert(s.nodes[k] == n@);
                if let Err(e) = validate_finite(nkeys[i].as_str(), "node", "coordinates", n.x.is_finite() && n.y.is_finite()) {
                    proof {
                        reveal_strlit("node");
                        reveal_strlit("coordinates");
                        assert(s.nodes.contains_key(k) && node_geometry_error(k, s.nodes[k]) is Some);
                    }
                    return Err(e);
                }
                if let Err(e) = validate_finite(nkeys[i].as_str(), "node", "dimensions", n.width.is_finite() && n.height.is_finite()) {
                    proof {
                        reveal_strlit("node");
                        reveal_strlit("dimensions");
                        assert(s.nodes.contains_key(k) && node_geometry_error(k, s.nodes[k]) is Some);
                    }
                    return Err(e);
                }
            },
            None => {
                assert(node_map_contents(state.nodes).contains_key(nkeys@[i as int]@));
                assert(false);
            },
        }
        i = i + 1;
    }
    assert forall|k: Seq<char>| #[trigger] s.nodes.contains_key(k) implies node_geometry_error(k, s.nodes[k]) is None by {
        assert(node_map_contents(state.nodes).contains_key(k));
        let j = choose|j: int| 0 <= j < nkeys@.len() && #[trigger] nkeys@[j]@ == k;
        assert(node_geometry_error(nkeys@[j]@, s.nodes[nkeys@[j]@]) is None);
    }
    let ekeys = edge_map_keys(&state.edges);
    let mut i: usize = 0;
    while i < ekeys.len()
        invariant
            i <= ekeys.len(),
            s == state@,
            lists_edge_keys(ekeys@, edge_map_contents(state.edges)),
            forall|k: Seq<char>| #[trigger] s.nodes.contains_key(k) ==> node_geometry_error(k, s.nodes[k]) is None,
            forall|j: int| 0 <= j < i ==> edge_geometry_error(ekeys@[j]@, #[trigger] s.edges[ekeys@[j]@]) is None,
        decreases ekeys.len() - i,
    {
        match edge_map_get(&state.edges, &ekeys[i]) {
            Some(e) => {
                let ghost k = ekeys@[i as int]@;
                assert(s.edges[k] == e@);
                if let Err(err) = validate_finite(ekeys[i].as_str(), "edge", "label_offset_t", e.label_offset_t.is_finite()) {
                    proof {
                        reveal_strlit("edge");
                        reveal_strlit("label_offset_t");
                        assert(s.edges.contains_key(k) && edge_geometry_error(k, s.edges[k]) is Some);
                    }
                    return Err(err);
                }
                if let Err(err) = validate_finite(ekeys[i].as_str(), "edge", "thickness", e.thickness.is_finite()) {
                    proof {
                        reveal_strlit("edge");
                        reveal_strlit("thickness");
                        assert(s.edges.contains_key(k) && edge_geometry_error(k, s.edges[k]) is Some);
                    }
                    return Err(err);
                }
            },
            None => {
                assert(edge_map_contents(state.edges).contains_key(ekeys@[i as int]@));
                assert(false);
            },
        }
        i = i + 1;
    }
    assert forall|k: Seq<char>| #[trigger] s.edges.contains_key(k) implies edge_geometry_error(k, s.edges[k]) is None by {
        assert(edge_map_contents(state.edges).contains_key(k));
        let j = choose|j: int| 0 <= j < ekeys@.len() && #[trigger] ekeys@[j]@ == k;
        assert(edge_geometry_error(ekeys@[j]@, s.edges[ekeys@[j]@]) is None);
    }
    Ok(())
}

/// An operation applied under the cycle policy never yields a projection that breaks
/// the policy: under `Deny` the result is acyclic.
pub proof fn lemma_policy_op_keeps_policy(s: ProjectionView, op: DomainOp, r: Result<ProjectionView, ReplayErrorView>)
    requires
        policy_op_outcome(s, op, r),
    ensures
        r matches Ok(s2) ==> policy_holds(s2),
{
}

/// The geometry check passes exactly when every node's coordinates and dimensions and
/// every edge's label offset and thickness are finite numbers.
pub proof fn lemma_finite_geometry_means_finite_numbers(s: ProjectionView)
    ensures
        geometry_is_finite(s) <==> {
            &&& forall|k: Seq<char>| #[trigger] s.nodes.contains_key(k) ==> is_finite_bits(s.nodes[k].x)
                && is_finite_bits(s.nodes[k].y) && is_finite_bits(s.nodes[k].width) && is_finite_bits(s.nodes[k].height)
            &&& forall|k: Seq<char>| #[trigger] s.edges.contains_key(k) ==> is_finite_bits(s.edges[k].label_offset_t)
                && is_finite_bits(s.edges[k].thickness)
        },
{
}

} // verus!
