//! Adding nodes to and removing them from subgraph containers of a projection.
//!
//! The container's bounds follow its children; computing them is floating-point
//! arithmetic and happens outside this library. Here: the checks, the parent links, the
//! stacking order of the children, storing computed bounds, and emptying a container
//! (whose bounds are then the empty rectangle, with no arithmetic to do).

use vstd::prelude::*;

use crate::collections::{lists_node_keys, node_map_contains, node_map_contents, node_map_get, node_map_insert, node_map_keys, node_map_remove};
use crate::document::{
    copy_parent, lemma_nodes_view_insert, lemma_nodes_view_remove, nodes_view, Node, NodeId, NodeKind, NodeView,
};
use crate::ordered_float::{lt_zero_bits, OrderedFloat};
use crate::projection::{DiagramProjection, ProjectionView};
use crate::subgraph::{
    children_in, lemma_reparent_keeps_parents_acyclic, lemma_walk_ended, lemma_walk_split, lemma_walk_step, on_chain, parents_acyclic,
    placed, walk,
};

verus! {

/// The projection that subgraph events work on.
pub type DiagramState = DiagramProjection;

/// A rectangle: position and size.
#[derive(Debug, Clone, Copy, PartialEq, Eq, Structural)]
pub struct Rect {
    pub x: OrderedFloat,
    pub y: OrderedFloat,
    pub width: OrderedFloat,
    pub height: OrderedFloat,
}

/// Errors of subgraph events.
#[derive(Debug, Clone, PartialEq, Eq)]
pub enum Error {
    NodeNotFound(NodeId),
    CycleDetected(NodeId, NodeId),
    InvalidBounds(Rect),
}

impl Rect {
    /// The rectangle, unless its width or height is negative.
    pub fn new(x: OrderedFloat, y: OrderedFloat, width: OrderedFloat, height: OrderedFloat) -> (r: Result<Rect, Error>)
        ensures
            lt_zero_bits(width.0) || lt_zero_bits(height.0) ==> r == Err::<Rect, Error>(Error::InvalidBounds(Rect { x, y, width, height })),
            !(lt_zero_bits(width.0) || lt_zero_bits(height.0)) ==> r == Ok::<Rect, Error>(Rect { x, y, width, height }),
    {
        if width.lt_zero() || height.lt_zero() {
            return Err(Error::InvalidBounds(Rect { x, y, width, height }));
        }
        Ok(Rect { x, y, width, height })
    }
}

/// The node, or an error naming it.
pub fn get_node<'a>(state: &'a DiagramState, id: &NodeId) -> (r: Result<&'a Node, Error>)
    ensures
        r is Ok <==> state@.nodes.contains_key(id@),
        r matches Ok(n) ==> n@ == state@.nodes[id@],
        r matches Err(e) ==> e == Error::NodeNotFound(*id),
{
    match node_map_get(&state.nodes, id) {
        Some(n) => Ok(n),
        None => Err(Error::NodeNotFound(id.duplicate())),
    }
}

/// The node if it is a subgraph container, or an error naming it.
pub fn get_subgraph<'a>(state: &'a DiagramState, id: &NodeId) -> (r: Result<&'a Node, Error>)
    ensures
        r is Ok <==> state@.nodes.contains_key(id@) && state@.nodes[id@].kind == NodeKind::Subgraph,
        r matches Ok(n) ==> n@ == state@.nodes[id@],
        r matches Err(e) ==> e == Error::NodeNotFound(*id),
{
    let node = get_node(state, id)?;
    match node.kind {
        NodeKind::Subgraph => Ok(node),
        _ => Err(Error::NodeNotFound(id.duplicate())),
    }
}

/// The nodes after every child of the container is stacked just above it.
pub open spec fn children_above(nodes: Map<Seq<char>, NodeView>, sid: Seq<char>, z: i64) -> Map<Seq<char>, NodeView> {
    Map::new(
        |k: Seq<char>| nodes.contains_key(k),
        |k: Seq<char>| if nodes[k].parent == Some(sid) { NodeView { z_index: z, ..nodes[k] } } else { nodes[k] },
    )
}

/// After restacking, every child of a container lies strictly above it, unless the
/// container is its own parent (it is then restacked with its children).
pub proof fn lemma_children_stacked_above(nodes: Map<Seq<char>, NodeView>, sid: Seq<char>)
    requires
        nodes.contains_key(sid),
        nodes[sid].z_index < i64::MAX,
        nodes[sid].parent != Some(sid),
    ensures
        forall|k: Seq<char>| #[trigger] children_above(nodes, sid, (nodes[sid].z_index + 1) as i64).contains_key(k)
            && nodes[k].parent == Some(sid)
            ==> children_above(nodes, sid, (nodes[sid].z_index + 1) as i64)[k].z_index
                > children_above(nodes, sid, (nodes[sid].z_index + 1) as i64)[sid].z_index,
{
}

/// Stack every child of the container one level above the container.
pub fn update_z_index_ordering(subgraph_id: &NodeId, state: &mut DiagramState) -> (r: Result<(), Error>)
    requires
        old(state)@.nodes.contains_key(subgraph_id@) ==> old(state)@.nodes[subgraph_id@].z_index < i64::MAX,
    ensures
        r is Ok <==> old(state)@.nodes.contains_key(subgraph_id@) && old(state)@.nodes[subgraph_id@].kind == NodeKind::Subgraph,
        r matches Err(e) ==> e == Error::NodeNotFound(*subgraph_id) && *final(state) == *old(state),
        r is Ok ==> final(state)@ == (ProjectionView {
            nodes: children_above(old(state)@.nodes, subgraph_id@, (old(state)@.nodes[subgraph_id@].z_index + 1) as i64),
            ..old(state)@
        }),
{
    let base_z = get_subgraph(state, subgraph_id)?.z_index;
    let z = base_z + 1;
    let ghost n0 = state@.nodes;
    let keys = node_map_keys(&state.nodes);
    let mut i: usize = 0;
    while i < keys.len()
        invariant
            i <= keys@.len(),
            n0 == old(state)@.nodes,
            lists_node_keys(keys@, node_map_contents(old(state).nodes)),
            state.version == old(state).version,
            state.revision == old(state).revision,
            state.edges == old(state).edges,
            state.author_priority == old(state).author_priority,
            state.cycle_policy == old(state).cycle_policy,
            state@.nodes.dom() == n0.dom(),
            forall|k: Seq<char>| #[trigger] n0.contains_key(k) ==> state@.nodes[k] == if n0[k].parent == Some(subgraph_id@)
                && (exists|a: int| 0 <= a < i && #[trigger] keys@[a]@ == k) {
                NodeView { z_index: z, ..n0[k] }
            } else {
                n0[k]
            },
        decreases keys.len() - i,
    {
        let ghost before = state.nodes;
        let ghost cur = state@.nodes;
        let ghost c = keys@[i as int]@;
        proof {
            assert(node_map_contents(old(state).nodes).contains_key(c));
        }
        let is_child = match node_map_get(&state.nodes, &keys[i]) {
            Some(n) => match &n.parent {
                Some(p) => p.same(subgraph_id),
                None => false,
            },
            None => false,
        };
        proof {
            assert(n0.contains_key(c));
            assert(cur[c] == n0[c]) by {
                if exists|a: int| 0 <= a < i && #[trigger] keys@[a]@ == c {
                    let a = choose|a: int| 0 <= a < i && #[trigger] keys@[a]@ == c;
                    assert(keys@[a]@ != keys@[i as int]@);
                }
            }
        }
        if is_child {
            match node_map_remove(&mut state.nodes, &keys[i]) {
                Some(n) => {
                    let ghost removed = state.nodes;
                    let mut n = n;
                    n.z_index = z;
                    let _ = node_map_insert(&mut state.nodes, keys[i].duplicate(), n);
                    proof {
                        lemma_nodes_view_remove(before, removed, c);
                        lemma_nodes_view_insert(removed, state.nodes, c, n);
                        assert(nodes_view(state.nodes) =~= cur.insert(c, NodeView { z_index: z, ..cur[c] }));
                    }
                },
                None => {},
            }
        }
        proof {
            assert forall|k: Seq<char>| #[trigger] n0.contains_key(k) implies state@.nodes[k] == if n0[k].parent == Some(subgraph_id@)
                && (exists|a: int| 0 <= a < i + 1 && #[trigger] keys@[a]@ == k) {
                NodeView { z_index: z, ..n0[k] }
            } else {
                n0[k]
            } by {
                if k == c {
                    assert(keys@[i as int]@ == k);
                } else if exists|a: int| 0 <= a < i + 1 && #[trigger] keys@[a]@ == k {
                    let a = choose|a: int| 0 <= a < i + 1 && #[trigger] keys@[a]@ == k;
                    assert(a < i);
                }
            }
            assert(state@.nodes.dom() =~= n0.dom());
        }
        i = i + 1;
    }
    proof {
        assert forall|k: Seq<char>| #[trigger] n0.contains_key(k) implies exists|a: int| 0 <= a < keys@.len() && #[trigger] keys@[a]@ == k by {
            assert(node_map_contents(old(state).nodes).contains_key(k));
        }
        assert(state@.nodes =~= children_above(n0, subgraph_id@, z));
    }
    Ok(())
}

/// Following parents from the container reaches the child, or comes back to a node
/// already passed, before it ends.
pub open spec fn chain_hits_or_repeats(nodes: Map<Seq<char>, NodeView>, sid: Seq<char>, child: Seq<char>) -> bool {
    exists|j: nat| #[trigger] walk(nodes, sid, j) is Some && (walk(nodes, sid, j) == Some(child)
        || exists|i: nat| i < j && walk(nodes, sid, j) == #[trigger] walk(nodes, sid, i))
}

/// A list of distinct texts drawn from another list is no longer than it.
proof fn lemma_distinct_within(vs: Seq<Seq<char>>, kv: Seq<Seq<char>>)
    requires
        vs.no_duplicates(),
        forall|i: int| 0 <= i < vs.len() ==> kv.contains(#[trigger] vs[i]),
    ensures
        vs.len() <= kv.len(),
{
    vs.unique_seq_to_set();
    kv.lemma_cardinality_of_set();
    assert(vs.to_set().subset_of(kv.to_set())) by {
        assert forall|x: Seq<char>| vs.to_set().contains(x) implies kv.to_set().contains(x) by {
            let i = choose|i: int| 0 <= i < vs.len() && vs[i] == x;
            assert(kv.contains(vs[i]));
        }
    }
    vstd::seq_lib::seq_to_set_is_finite(kv);
    vstd::set_lib::lemma_len_subset(vs.to_set(), kv.to_set());
}

/// Check that making the container the parent of the child closes no cycle: the child
/// is not the container, and the container's parent chain neither reaches the child nor
/// loops.
pub fn detect_cycle(child_id: &NodeId, subgraph_id: &NodeId, state: &DiagramState) -> (r: Result<(), Error>)
    ensures
        r is Ok <==> !chain_hits_or_repeats(state@.nodes, subgraph_id@, child_id@),
        r matches Err(e) ==> e == Error::CycleDetected(*child_id, *subgraph_id),
{
    let ghost nv = state@.nodes;
    let ghost sid = subgraph_id@;
    if child_id.same(subgraph_id) {
        assert(walk(nv, sid, 0) == Some(child_id@));
        return Err(Error::CycleDetected(child_id.duplicate(), subgraph_id.duplicate()));
    }
    let keys = node_map_keys(&state.nodes);
    let ghost kv = keys@.map_values(|k: NodeId| k@);
    let mut visited: Vec<NodeId> = Vec::new();
    let mut cur = subgraph_id.duplicate();
    let ghost mut k: nat = 0;
    loop
        invariant
            nv == state@.nodes,
            sid == subgraph_id@,
            lists_node_keys(keys@, node_map_contents(state.nodes)),
            kv == keys@.map_values(|k: NodeId| k@),
            walk(nv, sid, k) == Some(cur@),
            cur@ != child_id@,
            visited@.len() == k,
            forall|i: nat| i < k ==> #[trigger] walk(nv, sid, i) == Some(visited@[i as int]@),
            forall|i: int, j: int| 0 <= i < j < k ==> visited@[i]@ != visited@[j]@,
            forall|i: int| 0 <= i < k ==> visited@[i]@ != cur@,
            forall|i: int| 0 <= i < k ==> nv.contains_key(#[trigger] visited@[i]@),
            forall|i: int| 0 <= i < k ==> visited@[i]@ != child_id@,
            k <= keys@.len(),
        decreases keys@.len() - k,
    {
        let next = match node_map_get(&state.nodes, &cur) {
            Some(n) => copy_parent(&n.parent),
            None => None,
        };
        proof {
            lemma_walk_step(nv, sid, k);
        }
        match next {
            None => {
                proof {
                    assert forall|j: nat| #[trigger] walk(nv, sid, j) is Some implies !(walk(nv, sid, j) == Some(child_id@)
                        || exists|i: nat| i < j && walk(nv, sid, j) == #[trigger] walk(nv, sid, i)) by {
                        if j > k {
                            lemma_walk_ended(nv, sid, k + 1, j);
                        } else {
                            if exists|i: nat| i < j && walk(nv, sid, j) == #[trigger] walk(nv, sid, i) {
                                let i = choose|i: nat| i < j && walk(nv, sid, j) == #[trigger] walk(nv, sid, i);
                                assert(walk(nv, sid, i) == Some(visited@[i as int]@));
                                if j < k {
                                    assert(walk(nv, sid, j) == Some(visited@[j as int]@));
                                }
                            }
                            if j < k {
                                assert(walk(nv, sid, j) == Some(visited@[j as int]@));
                            }
                        }
                    }
                }
                return Ok(());
            },
            Some(p) => {
                let mut seen = false;
                let mut i: usize = 0;
                while i < visited.len()
                    invariant
                        i <= visited@.len(),
                        !seen ==> forall|j: int| 0 <= j < i ==> visited@[j]@ != p@,
                        seen ==> exists|j: int| 0 <= j < visited@.len() && visited@[j]@ == p@,
                    decreases visited.len() - i,
                {
                    if visited[i].same(&p) {
                        seen = true;
                    }
                    i = i + 1;
                }
                if p.same(child_id) || seen || p.same(&cur) {
                    proof {
                        let j = k + 1;
                        assert(walk(nv, sid, j) == Some(p@));
                        if p@ != child_id@ {
                            if seen {
                                let a = choose|a: int| 0 <= a < visited@.len() && visited@[a]@ == p@;
                                assert(walk(nv, sid, a as nat) == Some(visited@[a]@));
                                assert((a as nat) < j && walk(nv, sid, j) == walk(nv, sid, a as nat));
                            } else {
                                assert(k < j && walk(nv, sid, j) == walk(nv, sid, k));
                            }
                        }
                    }
                    return Err(Error::CycleDetected(child_id.duplicate(), subgraph_id.duplicate()));
                }
                assert(nv.contains_key(cur@));
                visited.push(cur);
                proof {
                    let vs = visited@.map_values(|x: NodeId| x@);
                    assert forall|a: int, c: int| 0 <= a < vs.len() && 0 <= c < vs.len() && a != c implies vs[a] != vs[c] by {
                        if a < c {
                            assert(visited@[a]@ != visited@[c]@);
                        } else {
                            assert(visited@[c]@ != visited@[a]@);
                        }
                    }
                    assert(vs.no_duplicates());
                    assert forall|a: int| 0 <= a < vs.len() implies kv.contains(#[trigger] vs[a]) by {
                        assert(node_map_contents(state.nodes).contains_key(visited@[a]@));
                        let b = choose|b: int| 0 <= b < keys@.len() && #[trigger] keys@[b]@ == visited@[a]@;
                        assert(kv[b] == vs[a]);
                    }
                    lemma_distinct_within(vs, kv);
                    k = k + 1;
                }
                cur = p;
            },
        }
    }
}

/// The nodes with the child under a new parent.
pub open spec fn reparented(nodes: Map<Seq<char>, NodeView>, child: Seq<char>, parent: Option<Seq<char>>) -> Map<Seq<char>, NodeView> {
    nodes.insert(child, NodeView { parent, ..nodes[child] })
}

/// Put the child under the container: the container must be a subgraph, the child must
/// exist, and no cycle may close.
pub fn attach_to_subgraph(child_id: &NodeId, subgraph_id: &NodeId, state: &mut DiagramState) -> (r: Result<(), Error>)
    ensures
        !(old(state)@.nodes.contains_key(subgraph_id@) && old(state)@.nodes[subgraph_id@].kind == NodeKind::Subgraph)
            ==> r == Err::<(), Error>(Error::NodeNotFound(*subgraph_id)),
        old(state)@.nodes.contains_key(subgraph_id@) && old(state)@.nodes[subgraph_id@].kind == NodeKind::Subgraph
            && !old(state)@.nodes.contains_key(child_id@) ==> r == Err::<(), Error>(Error::NodeNotFound(*child_id)),
        old(state)@.nodes.contains_key(subgraph_id@) && old(state)@.nodes[subgraph_id@].kind == NodeKind::Subgraph
            && old(state)@.nodes.contains_key(child_id@) && chain_hits_or_repeats(old(state)@.nodes, subgraph_id@, child_id@)
            ==> r == Err::<(), Error>(Error::CycleDetected(*child_id, *subgraph_id)),
        r is Err ==> *final(state) == *old(state),
        r is Ok ==> final(state)@ == (ProjectionView { nodes: reparented(old(state)@.nodes, child_id@, Some(subgraph_id@)), ..old(state)@ }),
{
    let _ = get_subgraph(state, subgraph_id)?;
    let _ = get_node(state, child_id)?;
    detect_cycle(child_id, subgraph_id, state)?;
    let ghost before = state.nodes;
    match node_map_remove(&mut state.nodes, child_id) {
        Some(n) => {
            let ghost removed = state.nodes;
            let mut n = n;
            n.parent = Some(subgraph_id.duplicate());
            let _ = node_map_insert(&mut state.nodes, child_id.duplicate(), n);
            proof {
                lemma_nodes_view_remove(before, removed, child_id@);
                lemma_nodes_view_insert(removed, state.nodes, child_id@, n);
                assert(nodes_view(state.nodes) =~= reparented(nodes_view(before), child_id@, Some(subgraph_id@)));
            }
            Ok(())
        },
        None => {
            assert(false);
            Err(Error::NodeNotFound(child_id.duplicate()))
        },
    }
}

/// Putting a node under a container never closes a cycle of parents: where no node was
/// its own ancestor, none is after an attachment that the checks accept.
pub proof fn lemma_attach_keeps_parents_acyclic(nodes: Map<Seq<char>, NodeView>, child: Seq<char>, sid: Seq<char>)
    requires
        parents_acyclic(nodes),
        nodes.contains_key(sid) && nodes[sid].kind == NodeKind::Subgraph,
        nodes.contains_key(child),
        !chain_hits_or_repeats(nodes, sid, child),
    ensures
        parents_acyclic(reparented(nodes, child, Some(sid))),
{
    if on_chain(nodes, sid, child) {
        let j = choose|j: nat| #[trigger] walk(nodes, sid, j) == Some(child);
        assert(walk(nodes, sid, j) is Some);
    }
    lemma_reparent_keeps_parents_acyclic(nodes, child, sid, None);
    assert(reparented(nodes, child, Some(sid)) =~= nodes.insert(child, placed(nodes[child], Some(sid), None)));
}

/// Take the child out of its container; the former container is handed back.
pub fn detach_from_subgraph(child_id: &NodeId, state: &mut DiagramState) -> (r: Result<Option<NodeId>, Error>)
    ensures
        r is Ok <==> old(state)@.nodes.contains_key(child_id@),
        r matches Err(e) ==> e == Error::NodeNotFound(*child_id) && *final(state) == *old(state),
        r matches Ok(p) ==> crate::document::parent_view(p) == old(state)@.nodes[child_id@].parent
            && final(state)@ == (ProjectionView { nodes: reparented(old(state)@.nodes, child_id@, None), ..old(state)@ }),
{
    let old_parent = copy_parent(&get_node(state, child_id)?.parent);
    let ghost before = state.nodes;
    match node_map_remove(&mut state.nodes, child_id) {
        Some(n) => {
            let ghost removed = state.nodes;
            let mut n = n;
            n.parent = None;
            let _ = node_map_insert(&mut state.nodes, child_id.duplicate(), n);
            proof {
                lemma_nodes_view_remove(before, removed, child_id@);
                lemma_nodes_view_insert(removed, state.nodes, child_id@, n);
                assert(nodes_view(state.nodes) =~= reparented(nodes_view(before), child_id@, None));
            }
            Ok(old_parent)
        },
        None => {
            assert(false);
            Err(Error::NodeNotFound(child_id.duplicate()))
        },
    }
}

/// The keys of a list of node identifiers.
pub open spec fn id_keys(ids: Seq<NodeId>) -> Set<Seq<char>> {
    Set::new(|k: Seq<char>| exists|i: int| 0 <= i < ids.len() && #[trigger] ids[i]@ == k)
}

/// The nodes after every node whose key is in `ids` gets the given parent.
pub open spec fn set_parents(
    nodes: Map<Seq<char>, NodeView>,
    ids: Set<Seq<char>>,
    parent: Option<Seq<char>>,
) -> Map<Seq<char>, NodeView> {
    Map::new(
        |k: Seq<char>| nodes.contains_key(k),
        |k: Seq<char>| if ids.contains(k) { NodeView { parent, ..nodes[k] } } else { nodes[k] },
    )
}

/// Give every listed node the same parent. Every listed node must be in the projection.
fn reparent_each(ids: &[NodeId], parent: &Option<NodeId>, state: &mut DiagramState)
    requires
        forall|i: int| 0 <= i < ids@.len() ==> old(state)@.nodes.contains_key(#[trigger] ids@[i]@),
    ensures
        final(state)@ == (ProjectionView {
            nodes: set_parents(old(state)@.nodes, id_keys(ids@), crate::document::parent_view(*parent)),
            ..old(state)@
        }),
{
    let ghost n0 = state@.nodes;
    let ghost pv = crate::document::parent_view(*parent);
    let mut i: usize = 0;
    while i < ids.len()
        invariant
            i <= ids@.len(),
            n0 == old(state)@.nodes,
            pv == crate::document::parent_view(*parent),
            forall|j: int| 0 <= j < ids@.len() ==> n0.contains_key(#[trigger] ids@[j]@),
            state.version == old(state).version,
            state.revision == old(state).revision,
            state.edges == old(state).edges,
            state.author_priority == old(state).author_priority,
            state.cycle_policy == old(state).cycle_policy,
            state@.nodes.dom() == n0.dom(),
            forall|k: Seq<char>| #[trigger] n0.contains_key(k) ==> state@.nodes[k] == if exists|a: int|
                0 <= a < i && #[trigger] ids@[a]@ == k {
                NodeView { parent: pv, ..n0[k] }
            } else {
                n0[k]
            },
        decreases ids.len() - i,
    {
        let ghost before = state.nodes;
        let ghost cur = state@.nodes;
        let ghost c = ids@[i as int]@;
        proof {
            assert(n0.contains_key(c));
            assert(node_map_contents(before).contains_key(c));
        }
        match node_map_remove(&mut state.nodes, &ids[i]) {
            Some(n) => {
                let ghost removed = state.nodes;
                let mut n = n;
                n.parent = copy_parent(parent);
                let _ = node_map_insert(&mut state.nodes, ids[i].duplicate(), n);
                proof {
                    lemma_nodes_view_remove(before, removed, c);
                    lemma_nodes_view_insert(removed, state.nodes, c, n);
                    assert(nodes_view(state.nodes) =~= cur.insert(c, NodeView { parent: pv, ..cur[c] }));
                }
            },
            None => {
                assert(false);
            },
        }
        proof {
            assert forall|k: Seq<char>| #[trigger] n0.contains_key(k) implies state@.nodes[k] == if exists|a: int|
                0 <= a < i + 1 && #[trigger] ids@[a]@ == k {
                NodeView { parent: pv, ..n0[k] }
            } else {
                n0[k]
            } by {
                if k == c {
                    assert(ids@[i as int]@ == k);
                } else if exists|a: int| 0 <= a < i + 1 && #[trigger] ids@[a]@ == k {
                    let a = choose|a: int| 0 <= a < i + 1 && #[trigger] ids@[a]@ == k;
                    assert(a < i);
                }
            }
            assert(state@.nodes.dom() =~= n0.dom());
        }
        i = i + 1;
    }
    proof {
        assert(state@.nodes =~= set_parents(n0, id_keys(ids@), pv));
    }
}

/// The node moved and resized to the rectangle.
pub open spec fn with_bounds(n: NodeView, b: Rect) -> NodeView {
    NodeView { x: b.x.0, y: b.y.0, width: b.width.0, height: b.height.0, ..n }
}

/// Move and resize the container to the rectangle.
pub fn apply_bounds_to_subgraph(subgraph_id: &NodeId, bounds: Rect, state: &mut DiagramState) -> (r: Result<(), Error>)
    ensures
        r is Ok <==> old(state)@.nodes.contains_key(subgraph_id@),
        r matches Err(e) ==> e == Error::NodeNotFound(*subgraph_id) && *final(state) == *old(state),
        r is Ok ==> final(state)@ == (ProjectionView {
            nodes: old(state)@.nodes.insert(subgraph_id@, with_bounds(old(state)@.nodes[subgraph_id@], bounds)),
            ..old(state)@
        }),
{
    if !node_map_contains(&state.nodes, subgraph_id) {
        return Err(Error::NodeNotFound(subgraph_id.duplicate()));
    }
    let ghost before = state.nodes;
    match node_map_remove(&mut state.nodes, subgraph_id) {
        Some(n) => {
            let ghost removed = state.nodes;
            let mut n = n;
            n.x = bounds.x;
            n.y = bounds.y;
            n.width = bounds.width;
            n.height = bounds.height;
            let _ = node_map_insert(&mut state.nodes, subgraph_id.duplicate(), n);
            proof {
                lemma_nodes_view_remove(before, removed, subgraph_id@);
                lemma_nodes_view_insert(removed, state.nodes, subgraph_id@, n);
                assert(nodes_view(state.nodes) =~= nodes_view(before).insert(
                    subgraph_id@,
                    with_bounds(nodes_view(before)[subgraph_id@], bounds),
                ));
            }
            Ok(())
        },
        None => {
            assert(false);
            Err(Error::NodeNotFound(subgraph_id.duplicate()))
        },
    }
}

/// The keys of the nodes whose parent is the container.
pub open spec fn child_keys(nodes: Map<Seq<char>, NodeView>, sid: Seq<char>) -> Set<Seq<char>> {
    Set::new(|k: Seq<char>| nodes.contains_key(k) && nodes[k].parent == Some(sid))
}

/// The rectangle at the origin with no extent.
pub open spec fn empty_rect() -> Rect {
    Rect { x: OrderedFloat(0), y: OrderedFloat(0), width: OrderedFloat(0), height: OrderedFloat(0) }
}

/// The nodes after the container is emptied: its children lose their parent, and the
/// container, now without children, shrinks to the empty rectangle at the origin.
pub open spec fn emptied(nodes: Map<Seq<char>, NodeView>, sid: Seq<char>) -> Map<Seq<char>, NodeView> {
    let freed = set_parents(nodes, child_keys(nodes, sid), None);
    freed.insert(sid, with_bounds(freed[sid], empty_rect()))
}

/// Take every child out of the container, leaving it empty.
pub fn remove_all_nodes_from_subgraph(subgraph_id: &NodeId, state: &mut DiagramState) -> (r: Result<(), Error>)
    ensures
        r is Ok <==> old(state)@.nodes.contains_key(subgraph_id@) && old(state)@.nodes[subgraph_id@].kind == NodeKind::Subgraph,
        r matches Err(e) ==> e == Error::NodeNotFound(*subgraph_id) && *final(state) == *old(state),
        r is Ok ==> final(state)@ == (ProjectionView { nodes: emptied(old(state)@.nodes, subgraph_id@), ..old(state)@ }),
        r is Ok ==> forall|k: Seq<char>| #[trigger] final(state)@.nodes.contains_key(k)
            ==> final(state)@.nodes[k].parent != Some(subgraph_id@),
{
    let _ = get_subgraph(state, subgraph_id)?;
    let ghost n0 = state@.nodes;
    let children = children_in(&state.nodes, subgraph_id);
    proof {
        assert(id_keys(children@) =~= child_keys(n0, subgraph_id@));
    }
    reparent_each(children.as_slice(), &None, state);
    // No child is left, so the bounds around the children are the empty rectangle.
    let zero = OrderedFloat(0);
    let r = apply_bounds_to_subgraph(subgraph_id, Rect { x: zero, y: zero, width: zero, height: zero }, state);
    proof {
        assert(state@.nodes =~= emptied(n0, subgraph_id@));
    }
    r
}

/// Why a node cannot go under the container: it is missing, or putting it there closes
/// a cycle.
pub open spec fn attach_error(nodes: Map<Seq<char>, NodeView>, sid: NodeId, child: NodeId) -> Option<Error> {
    if !nodes.contains_key(child@) {
        Some(Error::NodeNotFound(child))
    } else if chain_hits_or_repeats(nodes, sid@, child@) {
        Some(Error::CycleDetected(child, sid))
    } else {
        None
    }
}

/// Put every listed node under the container. All of them are checked against the
/// projection as it stands before any is moved; the first that fails is reported and
/// nothing changes.
pub fn attach_all_to_subgraph(child_ids: &[NodeId], subgraph_id: &NodeId, state: &mut DiagramState) -> (r: Result<(), Error>)
    ensures
        !(old(state)@.nodes.contains_key(subgraph_id@) && old(state)@.nodes[subgraph_id@].kind == NodeKind::Subgraph)
            ==> r == Err::<(), Error>(Error::NodeNotFound(*subgraph_id)),
        old(state)@.nodes.contains_key(subgraph_id@) && old(state)@.nodes[subgraph_id@].kind == NodeKind::Subgraph
            ==> (r is Ok <==> forall|i: int| 0 <= i < child_ids@.len()
                ==> #[trigger] attach_error(old(state)@.nodes, *subgraph_id, child_ids@[i]) is None),
        old(state)@.nodes.contains_key(subgraph_id@) && old(state)@.nodes[subgraph_id@].kind == NodeKind::Subgraph
            ==> (r matches Err(e) ==> exists|i: int| 0 <= i < child_ids@.len()
                && #[trigger] attach_error(old(state)@.nodes, *subgraph_id, child_ids@[i]) == Some(e)
                && forall|j: int| 0 <= j < i ==> #[trigger] attach_error(old(state)@.nodes, *subgraph_id, child_ids@[j]) is None),
        r is Err ==> *final(state) == *old(state),
        r is Ok ==> final(state)@ == (ProjectionView {
            nodes: set_parents(old(state)@.nodes, id_keys(child_ids@), Some(subgraph_id@)),
            ..old(state)@
        }),
{
    let _ = get_subgraph(state, subgraph_id)?;
    let ghost nv = state@.nodes;
    let mut i: usize = 0;
    while i < child_ids.len()
        invariant
            i <= child_ids@.len(),
            *state == *old(state),
            nv == old(state)@.nodes,
            nv.contains_key(subgraph_id@) && nv[subgraph_id@].kind == NodeKind::Subgraph,
            forall|j: int| 0 <= j < i ==> #[trigger] attach_error(nv, *subgraph_id, child_ids@[j]) is None,
        decreases child_ids.len() - i,
    {
        let _ = get_node(state, &child_ids[i])?;
        detect_cycle(&child_ids[i], subgraph_id, state)?;
        assert(attach_error(nv, *subgraph_id, child_ids@[i as int]) is None);
        i = i + 1;
    }
    proof {
        assert forall|j: int| 0 <= j < child_ids@.len() implies nv.contains_key(#[trigger] child_ids@[j]@) by {
            assert(attach_error(nv, *subgraph_id, child_ids@[j]) is None);
        }
    }
    reparent_each(child_ids, &Some(subgraph_id.duplicate()), state);
    Ok(())
}

/// Giving a set of nodes a new parent leaves every walk alone until it reaches one of them.
proof fn lemma_walk_unchanged_until_any(
    nodes: Map<Seq<char>, NodeView>,
    ids: Set<Seq<char>>,
    parent: Option<Seq<char>>,
    k: Seq<char>,
    n: nat,
)
    requires
        forall|i: nat| i < n ==> !(#[trigger] walk(nodes, k, i) matches Some(c) && ids.contains(c)),
    ensures
        walk(set_parents(nodes, ids, parent), k, n) == walk(nodes, k, n),
    decreases n,
{
    if n > 0 {
        let m = (n - 1) as nat;
        lemma_walk_unchanged_until_any(nodes, ids, parent, k, m);
        lemma_walk_step(nodes, k, m);
        lemma_walk_step(set_parents(nodes, ids, parent), k, m);
        assert(!(walk(nodes, k, m) matches Some(c) && ids.contains(c)));
    }
}

/// Within `n` steps a walk either never reaches the set or reaches it a first time.
proof fn lemma_first_arrival_in(nodes: Map<Seq<char>, NodeView>, k: Seq<char>, ids: Set<Seq<char>>, n: nat)
    ensures
        (forall|i: nat| i <= n ==> !(#[trigger] walk(nodes, k, i) matches Some(c) && ids.contains(c)))
            || exists|m: nat| m <= n && (#[trigger] walk(nodes, k, m) matches Some(c) && ids.contains(c))
                && forall|i: nat| i < m ==> !(#[trigger] walk(nodes, k, i) matches Some(c) && ids.contains(c)),
    decreases n,
{
    if n > 0 {
        lemma_first_arrival_in(nodes, k, ids, (n - 1) as nat);
        if exists|m: nat| m <= n - 1 && (#[trigger] walk(nodes, k, m) matches Some(c) && ids.contains(c))
            && forall|i: nat| i < m ==> !(#[trigger] walk(nodes, k, i) matches Some(c) && ids.contains(c)) {
            let m = choose|m: nat| m <= n - 1 && (#[trigger] walk(nodes, k, m) matches Some(c) && ids.contains(c))
                && forall|i: nat| i < m ==> !(#[trigger] walk(nodes, k, i) matches Some(c) && ids.contains(c));
            assert(m <= n);
        } else if walk(nodes, k, n) matches Some(c) && ids.contains(c) {
            assert(forall|i: nat| i < n ==> !(#[trigger] walk(nodes, k, i) matches Some(c) && ids.contains(c)));
        }
    } else if walk(nodes, k, 0) matches Some(c) && ids.contains(c) {
        assert(forall|i: nat| i < 0 ==> !(#[trigger] walk(nodes, k, i) matches Some(c) && ids.contains(c)));
    }
}

/// Putting several nodes under a container at once never closes a cycle of parents,
/// when each of them passes the check against the projection as it was.
pub proof fn lemma_attach_all_keeps_parents_acyclic(nodes: Map<Seq<char>, NodeView>, ids: Set<Seq<char>>, sid: Seq<char>)
    requires
        parents_acyclic(nodes),
        nodes.contains_key(sid),
        forall|c: Seq<char>| #[trigger] ids.contains(c) ==> !chain_hits_or_repeats(nodes, sid, c),
    ensures
        parents_acyclic(set_parents(nodes, ids, Some(sid))),
{
    let after = set_parents(nodes, ids, Some(sid));
    assert forall|i: nat| !(#[trigger] walk(nodes, sid, i) matches Some(c) && ids.contains(c)) by {
        if let Some(c) = walk(nodes, sid, i) {
            if ids.contains(c) {
                assert(walk(nodes, sid, i) is Some && walk(nodes, sid, i) == Some(c));
                assert(chain_hits_or_repeats(nodes, sid, c));
            }
        }
    }
    let n0 = choose|n: nat| #[trigger] walk(nodes, sid, n) is None;
    lemma_walk_unchanged_until_any(nodes, ids, Some(sid), sid, n0);
    assert(walk(after, sid, n0) is None);
    assert forall|k: Seq<char>| #[trigger] after.contains_key(k) implies exists|n: nat| #[trigger] walk(after, k, n) is None by {
        assert(nodes.contains_key(k));
        let n1 = choose|n: nat| #[trigger] walk(nodes, k, n) is None;
        lemma_first_arrival_in(nodes, k, ids, n1);
        if forall|i: nat| i <= n1 ==> !(#[trigger] walk(nodes, k, i) matches Some(c) && ids.contains(c)) {
            lemma_walk_unchanged_until_any(nodes, ids, Some(sid), k, n1);
            assert(walk(after, k, n1) is None);
        } else {
            let m = choose|m: nat| m <= n1 && (#[trigger] walk(nodes, k, m) matches Some(c) && ids.contains(c))
                && forall|i: nat| i < m ==> !(#[trigger] walk(nodes, k, i) matches Some(c) && ids.contains(c));
            lemma_walk_unchanged_until_any(nodes, ids, Some(sid), k, m);
            let c = walk(nodes, k, m)->0;
            lemma_walk_step(after, k, m);
            if after.contains_key(c) {
                assert(walk(after, k, m + 1) == Some(sid));
                lemma_walk_split(after, k, m + 1, n0, sid);
                assert(walk(after, k, m + 1 + n0) is None);
            } else {
                assert(walk(after, k, m + 1) is None);
            }
        }
    }
}

/// Taking nodes out of their containers never closes a cycle of parents.
pub proof fn lemma_detach_keeps_parents_acyclic(nodes: Map<Seq<char>, NodeView>, ids: Set<Seq<char>>)
    requires
        parents_acyclic(nodes),
    ensures
        parents_acyclic(set_parents(nodes, ids, None)),
{
    let after = set_parents(nodes, ids, None);
    assert forall|k: Seq<char>| #[trigger] after.contains_key(k) implies exists|n: nat| #[trigger] walk(after, k, n) is None by {
        assert(nodes.contains_key(k));
        let n1 = choose|n: nat| #[trigger] walk(nodes, k, n) is None;
        lemma_first_arrival_in(nodes, k, ids, n1);
        if forall|i: nat| i <= n1 ==> !(#[trigger] walk(nodes, k, i) matches Some(c) && ids.contains(c)) {
            lemma_walk_unchanged_until_any(nodes, ids, None, k, n1);
            assert(walk(after, k, n1) is None);
        } else {
            let m = choose|m: nat| m <= n1 && (#[trigger] walk(nodes, k, m) matches Some(c) && ids.contains(c))
                && forall|i: nat| i < m ==> !(#[trigger] walk(nodes, k, i) matches Some(c) && ids.contains(c));
            lemma_walk_unchanged_until_any(nodes, ids, None, k, m);
            lemma_walk_step(after, k, m);
            assert(walk(after, k, m + 1) is None);
        }
    }
}

} // verus!
