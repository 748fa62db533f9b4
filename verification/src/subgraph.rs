//! Subgraph containers: their types, reparenting nodes into and out of them, and
//! removing a container while keeping its children.
//!
//! Placement arithmetic (bounds of a group, world coordinates) is floating point and
//! is done by the caller, which hands the resulting coordinates in.

use vstd::prelude::*;

use crate::collections::{
    lists_node_keys, node_map_contains, node_map_contents, node_map_get, node_map_insert,
    node_map_keys, node_map_remove, NodeMap,
};
use crate::document::{
    copy_parent, LockState, lemma_nodes_view_insert, lemma_nodes_view_remove, nodes_view, DocumentData, Node,
    NodeId, NodeKind, NodeView, Point,
};
use crate::ordered_float::{gt_zero_bits, OrderedFloat};

verus! {

/// The document graph that subgraph operations work on.
pub type CanvasState = DocumentData;

/// Why a subgraph operation was refused.
#[derive(Debug, PartialEq, Eq)]
pub enum Error {
    InvalidPadding,
    EmptySelection,
    NodeNotFound(NodeId),
    CircularDependency,
    NodeLocked(NodeId),
    InvalidTransform,
    InvalidNodeType,
    InvariantViolation,
}

/// An error with its node identifier taken as text.
pub enum ErrorView {
    InvalidPadding,
    EmptySelection,
    NodeNotFound(Seq<char>),
    CircularDependency,
    NodeLocked(Seq<char>),
    InvalidTransform,
    InvalidNodeType,
    InvariantViolation,
}

impl View for Error {
    type V = ErrorView;

    open spec fn view(&self) -> ErrorView {
        match self {
            Error::InvalidPadding => ErrorView::InvalidPadding,
            Error::EmptySelection => ErrorView::EmptySelection,
            Error::NodeNotFound(id) => ErrorView::NodeNotFound(id@),
            Error::CircularDependency => ErrorView::CircularDependency,
            Error::NodeLocked(id) => ErrorView::NodeLocked(id@),
            Error::InvalidTransform => ErrorView::InvalidTransform,
            Error::InvalidNodeType => ErrorView::InvalidNodeType,
            Error::InvariantViolation => ErrorView::InvariantViolation,
        }
    }
}

/// The view of an outcome that carries no value.
pub open spec fn unit_view(r: Result<(), Error>) -> Result<(), ErrorView> {
    match r {
        Ok(()) => Ok(()),
        Err(e) => Err(e@),
    }
}

/// Padding around the children of a container, per side.
#[derive(Clone, Copy, Debug, PartialEq, Eq, Structural)]
pub struct Padding {
    pub top: u32,
    pub right: u32,
    pub bottom: u32,
    pub left: u32,
}

/// A scale factor that is strictly positive.
#[derive(Clone, Copy, Debug, PartialEq, Eq, Structural)]
pub struct PositiveScale(OrderedFloat);

impl View for PositiveScale {
    type V = u64;

    /// The bit pattern of the scale factor.
    closed spec fn view(&self) -> u64 {
        self.0.0
    }
}

impl PositiveScale {
    /// The scale, if `value` is strictly greater than zero.
    pub fn try_new(value: OrderedFloat) -> (r: Result<PositiveScale, Error>)
        ensures
            r is Ok <==> gt_zero_bits(value.0),
            r matches Ok(s) ==> s@ == value.0,
            r matches Err(e) ==> e == Error::InvalidTransform,
    {
        if value.gt_zero() {
            Ok(PositiveScale(value))
        } else {
            Err(Error::InvalidTransform)
        }
    }

    /// The scale factor.
    pub fn inner(&self) -> (v: OrderedFloat)
        ensures
            v.0 == self@,
    {
        self.0
    }
}

/// Bit pattern of `100.0`, the minimum width of a container.
pub const MIN_SUBGRAPH_WIDTH_BITS: u64 = 0x4059_0000_0000_0000;

/// Bit pattern of `60.0`, the minimum height of a container.
pub const MIN_SUBGRAPH_HEIGHT_BITS: u64 = 0x404e_0000_0000_0000;

/// An empty container node at `position`, with the minimum dimensions.
pub open spec fn empty_subgraph_view(position: Point) -> NodeView {
    NodeView {
        kind: NodeKind::Subgraph,
        icon: Seq::empty(),
        label: Seq::empty(),
        x: position.x.0,
        y: position.y.0,
        width: MIN_SUBGRAPH_WIDTH_BITS,
        height: MIN_SUBGRAPH_HEIGHT_BITS,
        font_size: None,
        font_weight: None,
        lock_state: LockState::Unlocked,
        parent: None,
        dag_rank: None,
        tags: Seq::empty(),
        metadata: Map::empty(),
        z_index: 0,
        style: None,
        collapsed: None,
    }
}

/// Create an empty container node at a position, with the minimum dimensions.
pub fn create_empty_subgraph(id: NodeId, position: Point) -> (r: Result<Node, Error>)
    ensures
        r matches Ok(n) && n@ == empty_subgraph_view(position),
{
    let node = Node {
        kind: NodeKind::Subgraph,
        icon: String::new(),
        label: String::new(),
        x: position.x,
        y: position.y,
        width: OrderedFloat(MIN_SUBGRAPH_WIDTH_BITS),
        height: OrderedFloat(MIN_SUBGRAPH_HEIGHT_BITS),
        lock_state: LockState::Unlocked,
        parent: None,
        tags: crate::collections::tag_list_new(),
        metadata: crate::collections::meta_map_new(),
        z_index: 0,
        font_size: None,
        font_weight: None,
        dag_rank: None,
        style: None,
        collapsed: None,
    };
    assert(node@.tags =~= Seq::<Seq<char>>::empty());
    assert(crate::collections::meta_map_contents(node.metadata) =~= Map::empty());
    Ok(node)
}

// ---------------------------------------------------------------- parent chains

/// The parent of `k` in `nodes`, if `k` is a node that has one.
pub open spec fn parent_of(nodes: Map<Seq<char>, NodeView>, k: Seq<char>) -> Option<Seq<char>> {
    if nodes.contains_key(k) { nodes[k].parent } else { None }
}

/// The node `n` steps up the parent chain from `start`, if the chain is that long.
pub open spec fn walk(nodes: Map<Seq<char>, NodeView>, start: Seq<char>, n: nat) -> Option<Seq<char>>
    decreases n,
{
    if n == 0 {
        Some(start)
    } else {
        match parent_of(nodes, start) {
            Some(p) => walk(nodes, p, (n - 1) as nat),
            None => None,
        }
    }
}

/// `target` is `start` or one of its ancestors.
pub open spec fn on_chain(nodes: Map<Seq<char>, NodeView>, start: Seq<char>, target: Seq<char>) -> bool {
    exists|n: nat| #[trigger] walk(nodes, start, n) == Some(target)
}

/// Following parents from `start` ends, at a root or at `target`: the walk is finite.
pub open spec fn chain_stops(nodes: Map<Seq<char>, NodeView>, start: Seq<char>, target: Seq<char>) -> bool {
    exists|n: nat| #[trigger] walk(nodes, start, n) is None || walk(nodes, start, n) == Some(target)
}

/// One more step up the chain goes to the parent of where the walk was.
pub proof fn lemma_walk_step(nodes: Map<Seq<char>, NodeView>, start: Seq<char>, n: nat)
    ensures
        walk(nodes, start, n + 1) == match walk(nodes, start, n) {
            Some(c) => parent_of(nodes, c),
            None => None::<Seq<char>>,
        },
    decreases n,
{
    if n > 0 {
        match parent_of(nodes, start) {
            Some(p) => lemma_walk_step(nodes, p, (n - 1) as nat),
            None => {},
        }
    } else {
        match parent_of(nodes, start) {
            Some(p) => assert(walk(nodes, p, 0) == Some(p)),
            None => {},
        }
    }
}

/// Once the chain has ended it stays ended.
pub proof fn lemma_walk_ended(nodes: Map<Seq<char>, NodeView>, start: Seq<char>, a: nat, b: nat)
    requires
        walk(nodes, start, a) is None,
        a <= b,
    ensures
        walk(nodes, start, b) is None,
    decreases b - a,
{
    if a < b {
        lemma_walk_step(nodes, start, a);
        lemma_walk_ended(nodes, start, (a + 1) as nat, b);
    }
}

/// Walking `a + b` steps is walking `a` steps and then `b` more from where that led.
pub proof fn lemma_walk_split(nodes: Map<Seq<char>, NodeView>, start: Seq<char>, a: nat, b: nat, c: Seq<char>)
    requires
        walk(nodes, start, a) == Some(c),
    ensures
        walk(nodes, start, a + b) == walk(nodes, c, b),
    decreases b,
{
    if b > 0 {
        lemma_walk_split(nodes, start, a, (b - 1) as nat, c);
        lemma_walk_step(nodes, start, (a + b - 1) as nat);
        lemma_walk_step(nodes, c, (b - 1) as nat);
    }
}

/// Changing one node leaves every walk alone until it reaches that node.
proof fn lemma_walk_unchanged_until(
    nodes: Map<Seq<char>, NodeView>,
    child: Seq<char>,
    v: NodeView,
    k: Seq<char>,
    n: nat,
)
    requires
        nodes.contains_key(child),
        forall|i: nat| i < n ==> #[trigger] walk(nodes, k, i) != Some(child),
    ensures
        walk(nodes.insert(child, v), k, n) == walk(nodes, k, n),
    decreases n,
{
    if n > 0 {
        let m = (n - 1) as nat;
        lemma_walk_unchanged_until(nodes, child, v, k, m);
        lemma_walk_step(nodes, k, m);
        lemma_walk_step(nodes.insert(child, v), k, m);
        assert(walk(nodes, k, m) != Some(child));
    }
}

/// Within `n` steps a walk either never reaches `target` or reaches it a first time.
proof fn lemma_first_arrival(nodes: Map<Seq<char>, NodeView>, k: Seq<char>, target: Seq<char>, n: nat)
    ensures
        (forall|i: nat| i <= n ==> #[trigger] walk(nodes, k, i) != Some(target))
            || exists|m: nat| m <= n && #[trigger] walk(nodes, k, m) == Some(target)
                && forall|i: nat| i < m ==> #[trigger] walk(nodes, k, i) != Some(target),
    decreases n,
{
    if n > 0 {
        lemma_first_arrival(nodes, k, target, (n - 1) as nat);
        if exists|m: nat| m <= n - 1 && #[trigger] walk(nodes, k, m) == Some(target)
            && forall|i: nat| i < m ==> #[trigger] walk(nodes, k, i) != Some(target) {
            let m = choose|m: nat| m <= n - 1 && #[trigger] walk(nodes, k, m) == Some(target)
                && forall|i: nat| i < m ==> #[trigger] walk(nodes, k, i) != Some(target);
            assert(m <= n && walk(nodes, k, m) == Some(target));
        } else if walk(nodes, k, n) == Some(target) {
            assert(forall|i: nat| i < n ==> #[trigger] walk(nodes, k, i) != Some(target));
        }
    } else if walk(nodes, k, 0) == Some(target) {
        assert(forall|i: nat| i < 0 ==> #[trigger] walk(nodes, k, i) != Some(target));
    }
}

/// Every parent chain ends: no node is its own ancestor.
pub open spec fn parents_acyclic(nodes: Map<Seq<char>, NodeView>) -> bool {
    forall|k: Seq<char>| #[trigger] nodes.contains_key(k) ==> exists|n: nat| #[trigger] walk(nodes, k, n) is None
}

/// Reparenting never closes a cycle: where no node was its own ancestor, none is after
/// a node is put under a container that reparenting accepts.
pub proof fn lemma_reparent_keeps_parents_acyclic(
    nodes: Map<Seq<char>, NodeView>,
    child: Seq<char>,
    parent: Seq<char>,
    position: Option<Point>,
)
    requires
        parents_acyclic(nodes),
        reparent_error(nodes, child, parent) is None,
    ensures
        parents_acyclic(nodes.insert(child, placed(nodes[child], Some(parent), position))),
{
    let v = placed(nodes[child], Some(parent), position);
    let after = nodes.insert(child, v);
    assert(nodes.contains_key(parent));
    let n0 = choose|n: nat| #[trigger] walk(nodes, parent, n) is None;
    assert(forall|i: nat| i < n0 ==> #[trigger] walk(nodes, parent, i) != Some(child));
    lemma_walk_unchanged_until(nodes, child, v, parent, n0);
    lemma_walk_step(after, child, 0);
    assert(walk(after, child, 1) == Some(parent));
    lemma_walk_split(after, child, 1, n0, parent);
    assert(walk(after, child, 1 + n0) is None);
    assert forall|k: Seq<char>| #[trigger] after.contains_key(k) implies exists|n: nat| #[trigger] walk(after, k, n) is None by {
        assert(nodes.contains_key(k));
        let n1 = choose|n: nat| #[trigger] walk(nodes, k, n) is None;
        lemma_first_arrival(nodes, k, child, n1);
        if forall|i: nat| i <= n1 ==> #[trigger] walk(nodes, k, i) != Some(child) {
            lemma_walk_unchanged_until(nodes, child, v, k, n1);
            assert(walk(after, k, n1) is None);
        } else {
            let m = choose|m: nat| m <= n1 && #[trigger] walk(nodes, k, m) == Some(child)
                && forall|i: nat| i < m ==> #[trigger] walk(nodes, k, i) != Some(child);
            lemma_walk_unchanged_until(nodes, child, v, k, m);
            lemma_walk_split(after, k, m, 1 + n0, child);
            assert(walk(after, k, m + (1 + n0)) is None);
        }
    }
}

/// Whether `child_id` is `parent_id` or one of its ancestors: making `parent_id` the
/// parent of `child_id` would then close a cycle.
pub fn check_cycle(canvas: &CanvasState, child_id: &NodeId, parent_id: &NodeId) -> (b: bool)
    requires
        chain_stops(nodes_view(canvas.nodes), parent_id@, child_id@),
    ensures
        b == on_chain(nodes_view(canvas.nodes), parent_id@, child_id@),
{
    let ghost nv = nodes_view(canvas.nodes);
    let ghost bound = choose|n: nat| #[trigger] walk(nv, parent_id@, n) is None || walk(nv, parent_id@, n) == Some(child_id@);
    let mut cur = parent_id.duplicate();
    let ghost mut k: nat = 0;
    while !cur.same(child_id)
        invariant
            nv == nodes_view(canvas.nodes),
            walk(nv, parent_id@, bound) is None || walk(nv, parent_id@, bound) == Some(child_id@),
            k <= bound,
            walk(nv, parent_id@, k) == Some(cur@),
            forall|j: nat| j < k ==> #[trigger] walk(nv, parent_id@, j) != Some(child_id@),
        decreases bound - k,
    {
        proof {
            lemma_walk_step(nv, parent_id@, k);
        }
        let next = match node_map_get(&canvas.nodes, &cur) {
            Some(n) => copy_parent(&n.parent),
            None => None,
        };
        match next {
            Some(p) => {
                cur = p;
                proof {
                    k = k + 1;
                }
            },
            None => {
                proof {
                    assert forall|m: nat| #[trigger] walk(nv, parent_id@, m) != Some(child_id@) by {
                        if m > k {
                            lemma_walk_ended(nv, parent_id@, k + 1, m);
                        }
                    }
                }
                return false;
            },
        }
    }
    true
}

/// A map that some list of identifiers names key by key has finitely many keys, as
/// many as the list.
proof fn lemma_listed_keys_count(keys: Seq<NodeId>, m: Map<Seq<char>, Node>)
    requires
        lists_node_keys(keys, m),
    ensures
        m.dom().finite(),
        m.dom().len() == keys.len(),
{
    let vs = keys.map_values(|k: NodeId| k@);
    assert forall|i: int, j: int| 0 <= i < vs.len() && 0 <= j < vs.len() && i != j implies vs[i] != vs[j] by {
        if i < j {
            assert(keys[i]@ != keys[j]@);
        } else {
            assert(keys[j]@ != keys[i]@);
        }
    }
    assert(vs.no_duplicates());
    assert forall|k: Seq<char>| #[trigger] vs.to_set().contains(k) <==> m.dom().contains(k) by {
        if m.dom().contains(k) {
            let i = choose|i: int| 0 <= i < keys.len() && #[trigger] keys[i]@ == k;
            assert(vs[i] == k);
        }
        if vs.to_set().contains(k) {
            let i = choose|i: int| 0 <= i < vs.len() && vs[i] == k;
            assert(m.contains_key(keys[i]@));
        }
    }
    assert(vs.to_set() =~= m.dom());
    vs.unique_seq_to_set();
    vstd::seq_lib::seq_to_set_is_finite(vs);
}

/// A walk that comes back to where it was before never ends; if it has not met
/// `target` before coming back, it never meets it.
proof fn lemma_repeating_walk(nodes: Map<Seq<char>, NodeView>, start: Seq<char>, target: Seq<char>, i: nat, j: nat, n: nat)
    requires
        i < j,
        walk(nodes, start, i) is Some,
        walk(nodes, start, i) == walk(nodes, start, j),
        forall|m: nat| m < j ==> (#[trigger] walk(nodes, start, m)) is Some && walk(nodes, start, m) != Some(target),
    ensures
        walk(nodes, start, n) is Some,
        walk(nodes, start, n) != Some(target),
    decreases n,
{
    if n >= j {
        let p = (j - i) as nat;
        let m = (n - p) as nat;
        let c = walk(nodes, start, i)->0;
        lemma_repeating_walk(nodes, start, target, i, j, m);
        lemma_walk_split(nodes, start, i, (m - i) as nat, c);
        lemma_walk_split(nodes, start, j, (m - i) as nat, c);
        assert(i + (m - i) == m);
        assert(j + (m - i) == n);
    }
}

/// A walk of one step more than a map has nodes, through nodes of the map only,
/// comes back to a node it has already visited.
proof fn lemma_long_walk_repeats(nodes: Map<Seq<char>, NodeView>, start: Seq<char>, bound: nat)
    requires
        nodes.dom().finite(),
        nodes.dom().len() == bound,
        forall|n: nat| n <= bound ==> (#[trigger] walk(nodes, start, n)) is Some && nodes.contains_key(walk(nodes, start, n)->0),
    ensures
        exists|i: nat, j: nat| i < j <= bound && #[trigger] walk(nodes, start, i) == #[trigger] walk(nodes, start, j),
{
    let ws = Seq::new(bound + 1, |n: int| walk(nodes, start, n as nat)->0);
    if !exists|i: nat, j: nat| i < j <= bound && #[trigger] walk(nodes, start, i) == #[trigger] walk(nodes, start, j) {
        assert forall|a: int, b: int| 0 <= a < ws.len() && 0 <= b < ws.len() && a != b implies ws[a] != ws[b] by {
            let (x, y) = if a < b { (a as nat, b as nat) } else { (b as nat, a as nat) };
            assert(walk(nodes, start, x) is Some && walk(nodes, start, y) is Some);
            assert(walk(nodes, start, x) != walk(nodes, start, y));
        }
        assert(ws.no_duplicates());
        ws.unique_seq_to_set();
        assert forall|k: Seq<char>| ws.to_set().contains(k) implies nodes.dom().contains(k) by {
            let a = choose|a: int| 0 <= a < ws.len() && ws[a] == k;
            assert(walk(nodes, start, a as nat) is Some);
        }
        vstd::set_lib::lemma_len_subset(ws.to_set(), nodes.dom());
        assert(false);
    }
}

/// Whether following parents from `start` ends, at a root, at a missing node or at
/// `target`. The walk stops after one step more than the graph has nodes: a longer
/// chain has come back to a node it passed and loops for ever.
pub fn parent_chain_stops(canvas: &CanvasState, start: &NodeId, target: &NodeId) -> (b: bool)
    ensures
        b == chain_stops(nodes_view(canvas.nodes), start@, target@),
{
    let ghost nv = nodes_view(canvas.nodes);
    let keys = node_map_keys(&canvas.nodes);
    let bound = keys.len();
    proof {
        lemma_listed_keys_count(keys@, node_map_contents(canvas.nodes));
        assert(nv.dom() =~= node_map_contents(canvas.nodes).dom());
    }
    let mut cur = start.duplicate();
    let mut i: usize = 0;
    loop
        invariant
            nv == nodes_view(canvas.nodes),
            nv.dom().finite(),
            nv.dom().len() == bound,
            i <= bound,
            walk(nv, start@, i as nat) == Some(cur@),
            forall|n: nat| n < i ==> (#[trigger] walk(nv, start@, n)) is Some && nv.contains_key(walk(nv, start@, n)->0)
                && walk(nv, start@, n) != Some(target@),
        decreases bound - i,
    {
        if cur.same(target) {
            assert(walk(nv, start@, i as nat) == Some(target@));
            return true;
        }
        proof {
            lemma_walk_step(nv, start@, i as nat);
        }
        let next = match node_map_get(&canvas.nodes, &cur) {
            Some(n) => copy_parent(&n.parent),
            None => None,
        };
        match next {
            None => {
                assert(walk(nv, start@, (i + 1) as nat) is None);
                return true;
            },
            Some(p) => {
                assert(nv.contains_key(cur@));
                if i == bound {
                    proof {
                        lemma_long_walk_repeats(nv, start@, bound as nat);
                        let (a, c) = choose|a: nat, c: nat| a < c <= bound && #[trigger] walk(nv, start@, a) == #[trigger] walk(nv, start@, c);
                        assert forall|n: nat| !(#[trigger] walk(nv, start@, n) is None || walk(nv, start@, n) == Some(target@)) by {
                            lemma_repeating_walk(nv, start@, target@, a, c, n);
                        }
                    }
                    return false;
                }
                cur = p;
                i = i + 1;
            },
        }
    }
}

/// Check that the child exists.
pub fn validate_child_exists(canvas: &CanvasState, child_id: &NodeId) -> (r: Result<(), Error>)
    ensures
        r is Ok <==> nodes_view(canvas.nodes).contains_key(child_id@),
        r matches Err(e) ==> e@ == ErrorView::NodeNotFound(child_id@),
{
    if !node_map_contains(&canvas.nodes, child_id) {
        return Err(Error::NodeNotFound(child_id.duplicate()));
    }
    Ok(())
}

/// Check that the parent is a subgraph container.
pub fn validate_parent_is_subgraph(canvas: &CanvasState, parent_id: &NodeId) -> (r: Result<(), Error>)
    ensures
        r is Ok <==> (nodes_view(canvas.nodes).contains_key(parent_id@) && nodes_view(canvas.nodes)[parent_id@].kind == NodeKind::Subgraph),
        r matches Err(e) ==> e == Error::InvalidNodeType,
{
    match node_map_get(&canvas.nodes, parent_id) {
        Some(n) => match n.kind {
            NodeKind::Subgraph => Ok(()),
            _ => Err(Error::InvalidNodeType),
        },
        None => Err(Error::InvalidNodeType),
    }
}

/// Check that the new parent relation would close no cycle.
pub fn validate_no_cycle(canvas: &CanvasState, child_id: &NodeId, parent_id: &NodeId) -> (r: Result<(), Error>)
    requires
        chain_stops(nodes_view(canvas.nodes), parent_id@, child_id@),
    ensures
        r is Ok <==> !on_chain(nodes_view(canvas.nodes), parent_id@, child_id@),
        r matches Err(e) ==> e == Error::CircularDependency,
{
    if check_cycle(canvas, child_id, parent_id) {
        return Err(Error::CircularDependency);
    }
    Ok(())
}

/// The node view with another parent.
pub open spec fn with_parent(n: NodeView, parent: Option<Seq<char>>) -> NodeView {
    NodeView { parent, ..n }
}

/// The node view with another parent and, if given, another position.
pub open spec fn placed(n: NodeView, parent: Option<Seq<char>>, position: Option<Point>) -> NodeView {
    match position {
        Some(p) => NodeView { parent, x: p.x.0, y: p.y.0, ..n },
        None => NodeView { parent, ..n },
    }
}

/// Give the child a new parent and, if one is given, a new position.
pub fn update_node_parent(canvas: &mut CanvasState, child_id: NodeId, parent: Option<NodeId>, position: Option<Point>) -> (r: Result<(), Error>)
    ensures
        final(canvas).edges == old(canvas).edges,
        r is Ok <==> nodes_view(old(canvas).nodes).contains_key(child_id@),
        r matches Err(e) ==> e@ == ErrorView::NodeNotFound(child_id@),
        r is Ok ==> nodes_view(final(canvas).nodes) == nodes_view(old(canvas).nodes).insert(child_id@,
            placed(nodes_view(old(canvas).nodes)[child_id@], crate::document::parent_view(parent), position)),
        r is Err ==> nodes_view(final(canvas).nodes) == nodes_view(old(canvas).nodes),
{
    let ghost before = canvas.nodes;
    match node_map_remove(&mut canvas.nodes, &child_id) {
        None => Err(Error::NodeNotFound(child_id)),
        Some(node) => {
            let ghost removed = canvas.nodes;
            let mut node = node;
            node.parent = parent;
            match position {
                Some(p) => {
                    node.x = p.x;
                    node.y = p.y;
                },
                None => {},
            }
            let ghost k = child_id@;
            let _ = node_map_insert(&mut canvas.nodes, child_id, node);
            proof {
                lemma_nodes_view_remove(before, removed, k);
                lemma_nodes_view_insert(removed, canvas.nodes, k, node);
                assert(nodes_view(canvas.nodes) =~= nodes_view(before).insert(k, node@));
            }
            Ok(())
        },
    }
}

/// Why reparenting `child` under `parent` is refused, checked in order: the child must
/// exist, the parent must exist and be a subgraph, and no cycle may close.
pub open spec fn reparent_error(nodes: Map<Seq<char>, NodeView>, child: Seq<char>, parent: Seq<char>) -> Option<ErrorView> {
    if !nodes.contains_key(child) {
        Some(ErrorView::NodeNotFound(child))
    } else if !nodes.contains_key(parent) {
        Some(ErrorView::NodeNotFound(parent))
    } else if nodes[parent].kind != NodeKind::Subgraph {
        Some(ErrorView::InvalidNodeType)
    } else if on_chain(nodes, parent, child) {
        Some(ErrorView::CircularDependency)
    } else {
        None
    }
}

/// The cycle check of a reparenting terminates: whenever it is reached, the parent
/// chain of the new parent ends.
pub open spec fn reparent_checkable(nodes: Map<Seq<char>, NodeView>, child: Seq<char>, parent: Seq<char>) -> bool {
    nodes.contains_key(child) && nodes.contains_key(parent) && nodes[parent].kind == NodeKind::Subgraph
        ==> chain_stops(nodes, parent, child)
}

/// Check every condition of reparenting `child_id` under `parent_id`.
pub fn validate_reparent(canvas: &CanvasState, child_id: &NodeId, parent_id: &NodeId) -> (r: Result<(), Error>)
    requires
        reparent_checkable(nodes_view(canvas.nodes), child_id@, parent_id@),
    ensures
        match reparent_error(nodes_view(canvas.nodes), child_id@, parent_id@) {
            Some(e) => r matches Err(x) && x@ == e,
            None => r is Ok,
        },
{
    validate_child_exists(canvas, child_id)?;
    if !node_map_contains(&canvas.nodes, parent_id) {
        return Err(Error::NodeNotFound(parent_id.duplicate()));
    }
    validate_parent_is_subgraph(canvas, parent_id)?;
    validate_no_cycle(canvas, child_id, parent_id)?;
    Ok(())
}

/// Why reparenting `child` under `parent` is refused, as `reparent_error` says, except
/// that a parent whose chain of parents loops without reaching `child` is refused as a
/// cycle too (searching that chain for `child` would never end).
pub open spec fn bounded_reparent_error(nodes: Map<Seq<char>, NodeView>, child: Seq<char>, parent: Seq<char>) -> Option<ErrorView> {
    if nodes.contains_key(child) && nodes.contains_key(parent) && nodes[parent].kind == NodeKind::Subgraph
        && !chain_stops(nodes, parent, child) {
        Some(ErrorView::CircularDependency)
    } else {
        reparent_error(nodes, child, parent)
    }
}

/// Reparenting is accepted exactly when the child and the parent are nodes of the
/// graph, the parent is a subgraph container and the child is neither the parent nor
/// one of its ancestors; the bounded check accepts the same, and in addition needs the
/// parent's chain of parents to end.
pub proof fn lemma_reparent_accepted(nodes: Map<Seq<char>, NodeView>, child: Seq<char>, parent: Seq<char>)
    ensures
        reparent_error(nodes, child, parent) is None <==> (nodes.contains_key(child) && nodes.contains_key(parent)
            && nodes[parent].kind == NodeKind::Subgraph
            && !(exists|n: nat| #[trigger] walk(nodes, parent, n) == Some(child))),
        bounded_reparent_error(nodes, child, parent) is None <==> (nodes.contains_key(child) && nodes.contains_key(parent)
            && nodes[parent].kind == NodeKind::Subgraph
            && !(exists|n: nat| #[trigger] walk(nodes, parent, n) == Some(child))
            && (exists|n: nat| #[trigger] walk(nodes, parent, n) is None)),
{
    if bounded_reparent_error(nodes, child, parent) is None {
        assert(reparent_error(nodes, child, parent) is None);
        assert(!on_chain(nodes, parent, child));
        assert(chain_stops(nodes, parent, child));
        let n = choose|n: nat| #[trigger] walk(nodes, parent, n) is None || walk(nodes, parent, n) == Some(child);
        assert(walk(nodes, parent, n) != Some(child));
        assert(walk(nodes, parent, n) is None);
        assert(exists|m: nat| #[trigger] walk(nodes, parent, m) is None);
    }
    if nodes.contains_key(child) && nodes.contains_key(parent) && nodes[parent].kind == NodeKind::Subgraph
        && !on_chain(nodes, parent, child) && (exists|n: nat| #[trigger] walk(nodes, parent, n) is None) {
        let n = choose|n: nat| #[trigger] walk(nodes, parent, n) is None;
        assert(walk(nodes, parent, n) is None || walk(nodes, parent, n) == Some(child));
        assert(chain_stops(nodes, parent, child));
        assert(reparent_error(nodes, child, parent) is None);
        assert(bounded_reparent_error(nodes, child, parent) is None);
    }
}

/// Check every condition of reparenting `child_id` under `parent_id`, on any graph:
/// a loop in the parent chain of `parent_id` is refused as a cycle.
pub fn check_reparent(canvas: &CanvasState, child_id: &NodeId, parent_id: &NodeId) -> (r: Result<(), Error>)
    ensures
        match bounded_reparent_error(nodes_view(canvas.nodes), child_id@, parent_id@) {
            Some(e) => r matches Err(x) && x@ == e,
            None => r is Ok,
        },
        r is Ok ==> reparent_checkable(nodes_view(canvas.nodes), child_id@, parent_id@),
{
    validate_child_exists(canvas, child_id)?;
    if !node_map_contains(&canvas.nodes, parent_id) {
        return Err(Error::NodeNotFound(parent_id.duplicate()));
    }
    validate_parent_is_subgraph(canvas, parent_id)?;
    if !parent_chain_stops(canvas, parent_id, child_id) {
        return Err(Error::CircularDependency);
    }
    validate_no_cycle(canvas, child_id, parent_id)?;
    Ok(())
}

/// Make `parent_id` the parent of `child_id`, after checking that both exist, that the
/// parent is a subgraph container and that no cycle closes. When `new_position` is
/// given, the child also moves there (its position relative to the new parent).
pub fn set_node_parent_ext(child_id: NodeId, parent_id: NodeId, canvas: &mut CanvasState, new_position: Option<Point>) -> (r: Result<(), Error>)
    requires
        reparent_checkable(nodes_view(old(canvas).nodes), child_id@, parent_id@),
    ensures
        final(canvas).edges == old(canvas).edges,
        match reparent_error(nodes_view(old(canvas).nodes), child_id@, parent_id@) {
            Some(e) => (r matches Err(x) && x@ == e) && nodes_view(final(canvas).nodes) == nodes_view(old(canvas).nodes),
            None => r is Ok && nodes_view(final(canvas).nodes) == nodes_view(old(canvas).nodes).insert(child_id@,
                placed(nodes_view(old(canvas).nodes)[child_id@], Some(parent_id@), new_position)),
        },
{
    validate_reparent(canvas, &child_id, &parent_id)?;
    let ghost pv = parent_id@;
    update_node_parent(canvas, child_id, Some(parent_id), new_position)
}

/// Move a node to the root level: it loses its parent and, when `new_position` is
/// given, moves there (its world position).
pub fn unparent_node_ext(child_id: NodeId, canvas: &mut CanvasState, new_position: Option<Point>) -> (r: Result<(), Error>)
    ensures
        final(canvas).edges == old(canvas).edges,
        r is Ok <==> nodes_view(old(canvas).nodes).contains_key(child_id@),
        r matches Err(e) ==> e@ == ErrorView::NodeNotFound(child_id@),
        r is Ok ==> nodes_view(final(canvas).nodes) == nodes_view(old(canvas).nodes).insert(child_id@,
            placed(nodes_view(old(canvas).nodes)[child_id@], None, new_position)),
        r is Err ==> nodes_view(final(canvas).nodes) == nodes_view(old(canvas).nodes),
{
    if !node_map_contains(&canvas.nodes, &child_id) {
        return Err(Error::NodeNotFound(child_id));
    }
    update_node_parent(canvas, child_id, None, new_position)
}

// ---------------------------------------------------------------- grouping checks

/// Check that the selection is not empty.
pub fn validate_non_empty_selection(child_ids: &[NodeId]) -> (r: Result<(), Error>)
    ensures
        r is Ok <==> child_ids@.len() > 0,
        r matches Err(e) ==> e == Error::EmptySelection,
{
    if child_ids.len() == 0 {
        return Err(Error::EmptySelection);
    }
    Ok(())
}

/// The first selected node that is missing or locked, with the error it gives.
pub open spec fn first_unlock_error(nodes: Map<Seq<char>, NodeView>, ids: Seq<NodeId>, i: int) -> Option<ErrorView>
    decreases ids.len() - i,
{
    if i < 0 || i >= ids.len() {
        None
    } else if !nodes.contains_key(ids[i]@) {
        Some(ErrorView::NodeNotFound(ids[i]@))
    } else if nodes[ids[i]@].lock_state == LockState::Locked {
        Some(ErrorView::NodeLocked(ids[i]@))
    } else {
        first_unlock_error(nodes, ids, i + 1)
    }
}

/// A selection passes the lock check exactly when every selected identifier names a
/// node of the graph and none of those nodes is locked; a refused selection is
/// refused about one of its identifiers, which is missing or locked.
pub proof fn lemma_unlock_check_covers_selection(nodes: Map<Seq<char>, NodeView>, ids: Seq<NodeId>, i: int)
    requires
        0 <= i <= ids.len(),
    ensures
        first_unlock_error(nodes, ids, i) is None <==> forall|j: int| i <= j < ids.len() ==>
            nodes.contains_key(#[trigger] ids[j]@) && nodes[ids[j]@].lock_state != LockState::Locked,
        first_unlock_error(nodes, ids, i) matches Some(e) ==> exists|j: int| i <= j < ids.len() && (
            (!nodes.contains_key(#[trigger] ids[j]@) && e == ErrorView::NodeNotFound(ids[j]@))
            || (nodes.contains_key(ids[j]@) && nodes[ids[j]@].lock_state == LockState::Locked && e == ErrorView::NodeLocked(ids[j]@))),
    decreases ids.len() - i,
{
    if i < ids.len() {
        lemma_unlock_check_covers_selection(nodes, ids, i + 1);
        if first_unlock_error(nodes, ids, i) is None {
            assert forall|j: int| i <= j < ids.len() implies
                nodes.contains_key(#[trigger] ids[j]@) && nodes[ids[j]@].lock_state != LockState::Locked by {
                if j > i {
                    assert(first_unlock_error(nodes, ids, i + 1) is None);
                }
            }
        }
    }
}

/// Check that every selected node exists and is unlocked, in selection order.
pub fn validate_children_unlocked(canvas: &CanvasState, child_ids: &[NodeId]) -> (r: Result<(), Error>)
    ensures
        match first_unlock_error(nodes_view(canvas.nodes), child_ids@, 0) {
            Some(e) => r matches Err(x) && x@ == e,
            None => r is Ok,
        },
        r is Ok <==> forall|j: int| 0 <= j < child_ids@.len() ==>
            nodes_view(canvas.nodes).contains_key(#[trigger] child_ids@[j]@)
            && nodes_view(canvas.nodes)[child_ids@[j]@].lock_state != LockState::Locked,
{
    proof {
        lemma_unlock_check_covers_selection(nodes_view(canvas.nodes), child_ids@, 0);
    }
    let ghost nv = nodes_view(canvas.nodes);
    let mut i: usize = 0;
    while i < child_ids.len()
        invariant
            i <= child_ids@.len(),
            nv == nodes_view(canvas.nodes),
            first_unlock_error(nv, child_ids@, 0) == first_unlock_error(nv, child_ids@, i as int),
        decreases child_ids.len() - i,
    {
        match node_map_get(&canvas.nodes, &child_ids[i]) {
            None => return Err(Error::NodeNotFound(child_ids[i].duplicate())),
            Some(n) => {
                assert(nv[child_ids@[i as int]@] == n@);
                if n.is_locked() {
                    return Err(Error::NodeLocked(child_ids[i].duplicate()));
                }
            },
        }
        i = i + 1;
    }
    Ok(())
}

/// Every listed node exists and has `parent` as its parent.
pub open spec fn all_reparented(nodes: Map<Seq<char>, NodeView>, ids: Seq<NodeId>, parent: Seq<char>) -> bool {
    forall|i: int| 0 <= i < ids.len() ==> nodes.contains_key(#[trigger] ids[i]@) && nodes[ids[i]@].parent == Some(parent)
}

/// Check that every listed node now has the group as its parent.
pub fn validate_children_reparented(canvas: &CanvasState, child_ids: &[NodeId], group_id: &NodeId) -> (r: Result<(), Error>)
    ensures
        r is Ok <==> all_reparented(nodes_view(canvas.nodes), child_ids@, group_id@),
        r matches Err(e) ==> e == Error::InvariantViolation,
{
    let ghost nv = nodes_view(canvas.nodes);
    let mut i: usize = 0;
    while i < child_ids.len()
        invariant
            i <= child_ids@.len(),
            nv == nodes_view(canvas.nodes),
            forall|j: int| 0 <= j < i ==> nv.contains_key(#[trigger] child_ids@[j]@) && nv[child_ids@[j]@].parent == Some(group_id@),
        decreases child_ids.len() - i,
    {
        match node_map_get(&canvas.nodes, &child_ids[i]) {
            None => return Err(Error::InvariantViolation),
            Some(n) => {
                assert(nv[child_ids@[i as int]@] == n@);
                let ok = match &n.parent {
                    Some(p) => p.same(group_id),
                    None => false,
                };
                if !ok {
                    return Err(Error::InvariantViolation);
                }
            },
        }
        i = i + 1;
    }
    Ok(())
}

/// Check that reparenting took effect (the same check as `validate_children_reparented`).
pub fn validate_reparenting(child_ids: &[NodeId], parent_id: &NodeId, canvas: &CanvasState) -> (r: Result<(), Error>)
    ensures
        r is Ok <==> all_reparented(nodes_view(canvas.nodes), child_ids@, parent_id@),
        r matches Err(e) ==> e == Error::InvariantViolation,
{
    validate_children_reparented(canvas, child_ids, parent_id)
}

/// The selected nodes, in selection order; the first missing one is an error.
pub fn collect_children(canvas: &CanvasState, child_ids: &[NodeId]) -> (r: Result<Vec<Node>, Error>)
    ensures
        (forall|i: int| 0 <= i < child_ids@.len() ==> nodes_view(canvas.nodes).contains_key(#[trigger] child_ids@[i]@)) <==> r is Ok,
        r matches Ok(v) ==> v@.len() == child_ids@.len()
            && forall|i: int| 0 <= i < v@.len() ==> #[trigger] v@[i]@ == nodes_view(canvas.nodes)[child_ids@[i]@],
        r matches Err(e) ==> exists|i: int| 0 <= i < child_ids@.len() && !nodes_view(canvas.nodes).contains_key(#[trigger] child_ids@[i]@)
            && e@ == ErrorView::NodeNotFound(child_ids@[i]@)
            && forall|j: int| 0 <= j < i ==> nodes_view(canvas.nodes).contains_key(#[trigger] child_ids@[j]@),
{
    let ghost nv = nodes_view(canvas.nodes);
    let mut out: Vec<Node> = Vec::new();
    let mut i: usize = 0;
    while i < child_ids.len()
        invariant
            i <= child_ids@.len(),
            nv == nodes_view(canvas.nodes),
            out@.len() == i,
            forall|j: int| 0 <= j < i ==> nv.contains_key(#[trigger] child_ids@[j]@),
            forall|j: int| 0 <= j < i ==> #[trigger] out@[j]@ == nv[child_ids@[j]@],
        decreases child_ids.len() - i,
    {
        match node_map_get(&canvas.nodes, &child_ids[i]) {
            None => return Err(Error::NodeNotFound(child_ids[i].duplicate())),
            Some(n) => {
                assert(nv[child_ids@[i as int]@] == n@);
                out.push(n.duplicate());
            },
        }
        i = i + 1;
    }
    Ok(out)
}

// ---------------------------------------------------------------- ungrouping

/// The graph after a container is removed: the container goes and each of its children
/// takes the container's parent.
pub open spec fn ungrouped(nodes: Map<Seq<char>, NodeView>, gid: Seq<char>) -> Map<Seq<char>, NodeView> {
    Map::new(
        |k: Seq<char>| nodes.contains_key(k) && k != gid,
        |k: Seq<char>| if nodes[k].parent == Some(gid) { with_parent(nodes[k], nodes[gid].parent) } else { nodes[k] },
    )
}

/// After ungrouping, a walk is the old walk with the group skipped: each place it reaches
/// the old walk reaches too, no earlier.
proof fn lemma_ungrouped_walk(nodes: Map<Seq<char>, NodeView>, gid: Seq<char>, k: Seq<char>, i: nat) -> (j: nat)
    requires
        nodes.contains_key(gid),
    ensures
        walk(ungrouped(nodes, gid), k, i) is None || (j >= i && walk(nodes, k, j) == walk(ungrouped(nodes, gid), k, i)),
    decreases i,
{
    let after = ungrouped(nodes, gid);
    if i == 0 {
        0
    } else {
        let m = (i - 1) as nat;
        let jm = lemma_ungrouped_walk(nodes, gid, k, m);
        lemma_walk_step(after, k, m);
        match walk(after, k, m) {
            None => 0,
            Some(x) => {
                lemma_walk_step(nodes, k, jm);
                if after.contains_key(x) && nodes[x].parent == Some(gid) {
                    lemma_walk_step(nodes, k, jm + 1);
                    jm + 2
                } else {
                    jm + 1
                }
            },
        }
    }
}

/// Ungrouping never closes a cycle of parents: where no node was its own ancestor, none
/// is after the group is removed and its children go to its parent.
pub proof fn lemma_ungroup_keeps_parents_acyclic(nodes: Map<Seq<char>, NodeView>, gid: Seq<char>)
    requires
        parents_acyclic(nodes),
        nodes.contains_key(gid),
    ensures
        parents_acyclic(ungrouped(nodes, gid)),
{
    let after = ungrouped(nodes, gid);
    assert forall|k: Seq<char>| #[trigger] after.contains_key(k) implies exists|n: nat| #[trigger] walk(after, k, n) is None by {
        assert(nodes.contains_key(k));
        let n1 = choose|n: nat| #[trigger] walk(nodes, k, n) is None;
        let j = lemma_ungrouped_walk(nodes, gid, k, n1);
        if walk(after, k, n1) is Some {
            lemma_walk_ended(nodes, k, n1, j);
        }
        assert(walk(after, k, n1) is None);
    }
}

/// `ids` lists, each once, exactly the nodes whose parent is `gid`.
pub open spec fn lists_children(nodes: Map<Seq<char>, NodeView>, gid: Seq<char>, ids: Seq<NodeId>) -> bool {
    &&& forall|i: int| 0 <= i < ids.len() ==> nodes.contains_key(#[trigger] ids[i]@) && nodes[ids[i]@].parent == Some(gid)
    &&& forall|i: int, j: int| 0 <= i < j < ids.len() ==> ids[i]@ != ids[j]@
    &&& forall|k: Seq<char>| nodes.contains_key(k) && nodes[k].parent == Some(gid) ==> exists|i: int| 0 <= i < ids.len() && #[trigger] ids[i]@ == k
}

/// Ungrouping is accepted exactly when the group is a node of the graph, is a subgraph
/// container and is not locked.
pub proof fn lemma_ungroup_accepted(nodes: Map<Seq<char>, NodeView>, gid: Seq<char>)
    ensures
        ungroup_error(nodes, gid) is None <==> (nodes.contains_key(gid) && nodes[gid].kind == NodeKind::Subgraph
            && nodes[gid].lock_state != LockState::Locked),
{
}

/// Why ungrouping `gid` is refused: the group must exist, be a subgraph and be unlocked.
pub open spec fn ungroup_error(nodes: Map<Seq<char>, NodeView>, gid: Seq<char>) -> Option<ErrorView> {
    if !nodes.contains_key(gid) {
        Some(ErrorView::NodeNotFound(gid))
    } else if nodes[gid].kind != NodeKind::Subgraph {
        Some(ErrorView::InvalidNodeType)
    } else if nodes[gid].lock_state == LockState::Locked {
        Some(ErrorView::NodeLocked(gid))
    } else {
        None
    }
}

/// The nodes whose parent is the group, in the order the map is walked.
pub fn find_group_children(canvas: &CanvasState, group_id: &NodeId) -> (r: Vec<NodeId>)
    ensures
        lists_children(nodes_view(canvas.nodes), group_id@, r@),
{
    children_in(&canvas.nodes, group_id)
}

/// The keys of the nodes of a map whose parent is the group, in the order the map is walked.
pub fn children_in(nodes: &NodeMap, group_id: &NodeId) -> (r: Vec<NodeId>)
    ensures
        lists_children(nodes_view(*nodes), group_id@, r@),
{
    let ghost nv = nodes_view(*nodes);
    let keys = node_map_keys(nodes);
    let mut out: Vec<NodeId> = Vec::new();
    let mut i: usize = 0;
    while i < keys.len()
        invariant
            i <= keys@.len(),
            nv == nodes_view(*nodes),
            lists_node_keys(keys@, node_map_contents(*nodes)),
            forall|a: int| 0 <= a < out@.len() ==> nv.contains_key(#[trigger] out@[a]@) && nv[out@[a]@].parent == Some(group_id@),
            forall|a: int| #![trigger out@[a]] 0 <= a < out@.len() ==> exists|b: int| 0 <= b < i && #[trigger] keys@[b]@ == out@[a]@,
            forall|a: int, b: int| 0 <= a < b < out@.len() ==> out@[a]@ != out@[b]@,
            forall|b: int| 0 <= b < i && nv[#[trigger] keys@[b]@].parent == Some(group_id@)
                ==> exists|a: int| 0 <= a < out@.len() && #[trigger] out@[a]@ == keys@[b]@,
        decreases keys.len() - i,
    {
        match node_map_get(nodes, &keys[i]) {
            Some(n) => {
                assert(nv[keys@[i as int]@] == n@);
                let is_child = match &n.parent {
                    Some(p) => p.same(group_id),
                    None => false,
                };
                if is_child {
                    let ghost old_out = out@;
                    out.push(keys[i].duplicate());
                    proof {
                        assert(out@[out@.len() - 1]@ == keys@[i as int]@);
                        assert forall|a: int, b: int| 0 <= a < b < out@.len() implies out@[a]@ != out@[b]@ by {
                            if b == out@.len() - 1 {
                                assert(old_out[a] == out@[a]);
                                let bb = choose|bb: int| 0 <= bb < i && #[trigger] keys@[bb]@ == old_out[a]@;
                                assert(keys@[bb]@ != keys@[i as int]@);
                            }
                        }
                        assert forall|a: int| #![trigger out@[a]] 0 <= a < out@.len() implies exists|b: int| 0 <= b < i + 1 && #[trigger] keys@[b]@ == out@[a]@ by {
                            if a == out@.len() - 1 {
                                assert(keys@[i as int]@ == out@[a]@);
                            } else {
                                assert(old_out[a] == out@[a]);
                            }
                        }
                        assert forall|b: int| 0 <= b < i + 1 && nv[#[trigger] keys@[b]@].parent == Some(group_id@)
                            implies exists|a: int| 0 <= a < out@.len() && #[trigger] out@[a]@ == keys@[b]@ by {
                            if b == i {
                                assert(out@[out@.len() - 1]@ == keys@[b]@);
                            } else {
                                let a = choose|a: int| 0 <= a < old_out.len() && #[trigger] old_out[a]@ == keys@[b]@;
                                assert(out@[a] == old_out[a]);
                            }
                        }
                    }
                }
            },
            None => {
                assert(node_map_contents(*nodes).contains_key(keys@[i as int]@));
                assert(false);
            },
        }
        i = i + 1;
    }
    proof {
        assert forall|k: Seq<char>| nv.contains_key(k) && nv[k].parent == Some(group_id@)
            implies exists|a: int| 0 <= a < out@.len() && #[trigger] out@[a]@ == k by {
            assert(node_map_contents(*nodes).contains_key(k));
            let b = choose|b: int| 0 <= b < keys@.len() && #[trigger] keys@[b]@ == k;
            assert(nv[keys@[b]@].parent == Some(group_id@));
        }
    }
    out
}

/// Take the group node out of the graph.
pub fn remove_group(canvas: &mut CanvasState, group_id: &NodeId) -> (r: Result<(), Error>)
    ensures
        final(canvas).edges == old(canvas).edges,
        r is Ok <==> nodes_view(old(canvas).nodes).contains_key(group_id@),
        r matches Err(e) ==> e@ == ErrorView::NodeNotFound(group_id@),
        nodes_view(final(canvas).nodes) == nodes_view(old(canvas).nodes).remove(group_id@),
{
    let ghost before = canvas.nodes;
    let removed = node_map_remove(&mut canvas.nodes, group_id);
    proof {
        lemma_nodes_view_remove(before, canvas.nodes, group_id@);
    }
    match removed {
        Some(_) => Ok(()),
        None => Err(Error::NodeNotFound(group_id.duplicate())),
    }
}

/// Give each listed child that is still in the graph the new parent.
pub fn reparent_children_to_grandparent(canvas: &mut CanvasState, children: &[NodeId], new_parent: &Option<NodeId>)
    ensures
        final(canvas).edges == old(canvas).edges,
        nodes_view(final(canvas).nodes) == Map::new(
            |k: Seq<char>| nodes_view(old(canvas).nodes).contains_key(k),
            |k: Seq<char>| if exists|i: int| 0 <= i < children@.len() && #[trigger] children@[i]@ == k {
                with_parent(nodes_view(old(canvas).nodes)[k], crate::document::parent_view(*new_parent))
            } else {
                nodes_view(old(canvas).nodes)[k]
            },
        ),
{
    let ghost n0 = nodes_view(canvas.nodes);
    let ghost np = crate::document::parent_view(*new_parent);
    let mut i: usize = 0;
    while i < children.len()
        invariant
            i <= children@.len(),
            canvas.edges == old(canvas).edges,
            n0 == nodes_view(old(canvas).nodes),
            np == crate::document::parent_view(*new_parent),
            nodes_view(canvas.nodes).dom() == n0.dom(),
            forall|k: Seq<char>| #[trigger] n0.contains_key(k) ==> nodes_view(canvas.nodes)[k] == if exists|a: int| 0 <= a < i && #[trigger] children@[a]@ == k {
                with_parent(n0[k], np)
            } else {
                n0[k]
            },
        decreases children.len() - i,
    {
        let ghost before = canvas.nodes;
        let ghost cur = nodes_view(canvas.nodes);
        let ghost c = children@[i as int]@;
        match node_map_remove(&mut canvas.nodes, &children[i]) {
            Some(child) => {
                let ghost removed = canvas.nodes;
                let mut child = child;
                child.parent = copy_parent(new_parent);
                let _ = node_map_insert(&mut canvas.nodes, children[i].duplicate(), child);
                proof {
                    lemma_nodes_view_remove(before, removed, c);
                    lemma_nodes_view_insert(removed, canvas.nodes, c, child);
                    assert(nodes_view(canvas.nodes) =~= cur.insert(c, with_parent(cur[c], np)));
                    assert(with_parent(cur[c], np) == with_parent(n0[c], np)) by {
                        assert(node_map_contents(before).contains_key(c));
                        assert(cur.contains_key(c));
                        assert(n0.contains_key(c));
                    }
                    assert forall|k: Seq<char>| #[trigger] n0.contains_key(k) implies nodes_view(canvas.nodes)[k] == if exists|a: int| 0 <= a < i + 1 && #[trigger] children@[a]@ == k {
                        with_parent(n0[k], np)
                    } else {
                        n0[k]
                    } by {
                        if k == c {
                            assert(children@[i as int]@ == k);
                        } else if exists|a: int| 0 <= a < i + 1 && #[trigger] children@[a]@ == k {
                            let a = choose|a: int| 0 <= a < i + 1 && #[trigger] children@[a]@ == k;
                            assert(a < i);
                        }
                    }
                    assert(nodes_view(canvas.nodes).dom() =~= n0.dom());
                }
            },
            None => {
                proof {
                    lemma_nodes_view_remove(before, canvas.nodes, c);
                    assert(nodes_view(canvas.nodes) =~= cur);
                    assert forall|k: Seq<char>| #[trigger] n0.contains_key(k) implies nodes_view(canvas.nodes)[k] == if exists|a: int| 0 <= a < i + 1 && #[trigger] children@[a]@ == k {
                        with_parent(n0[k], np)
                    } else {
                        n0[k]
                    } by {
                        if exists|a: int| 0 <= a < i + 1 && #[trigger] children@[a]@ == k {
                            let a = choose|a: int| 0 <= a < i + 1 && #[trigger] children@[a]@ == k;
                            if a == i {
                                assert(!cur.contains_key(c));
                            }
                        }
                    }
                }
            },
        }
        i = i + 1;
    }
    proof {
        assert(nodes_view(canvas.nodes) =~= Map::new(
            |k: Seq<char>| n0.contains_key(k),
            |k: Seq<char>| if exists|a: int| 0 <= a < children@.len() && #[trigger] children@[a]@ == k {
                with_parent(n0[k], np)
            } else {
                n0[k]
            },
        ));
    }
}

/// Check that every listed node is in the graph.
pub fn validate_children_exist(canvas: &CanvasState, children: &[NodeId]) -> (r: Result<(), Error>)
    ensures
        r is Ok <==> forall|i: int| 0 <= i < children@.len() ==> nodes_view(canvas.nodes).contains_key(#[trigger] children@[i]@),
        r matches Err(e) ==> e == Error::InvariantViolation,
{
    let mut i: usize = 0;
    while i < children.len()
        invariant
            i <= children@.len(),
            forall|j: int| 0 <= j < i ==> nodes_view(canvas.nodes).contains_key(#[trigger] children@[j]@),
        decreases children.len() - i,
    {
        if !node_map_contains(&canvas.nodes, &children[i]) {
            return Err(Error::InvariantViolation);
        }
        i = i + 1;
    }
    Ok(())
}

/// Remove a container and hand its children to the container's own parent.
///
/// The group must exist, be a subgraph and be unlocked. On success the result lists
/// the former children. A group that is its own parent is counted among its children;
/// it is then missing after the removal, which is reported as an invariant violation.
pub fn ungroup_nodes(canvas: &mut CanvasState, group_id: NodeId) -> (r: Result<Vec<NodeId>, Error>)
    ensures
        final(canvas).edges == old(canvas).edges,
        match ungroup_error(nodes_view(old(canvas).nodes), group_id@) {
            Some(e) => (r matches Err(x) && x@ == e) && nodes_view(final(canvas).nodes) == nodes_view(old(canvas).nodes),
            None => {
                &&& nodes_view(final(canvas).nodes) == ungrouped(nodes_view(old(canvas).nodes), group_id@)
                &&& if nodes_view(old(canvas).nodes)[group_id@].parent == Some(group_id@) {
                    r matches Err(x) && x == Error::InvariantViolation
                } else {
                    r matches Ok(children) && lists_children(nodes_view(old(canvas).nodes), group_id@, children@)
                }
            },
        },
{
    let ghost n0 = nodes_view(canvas.nodes);
    let group_parent = match node_map_get(&canvas.nodes, &group_id) {
        None => return Err(Error::NodeNotFound(group_id)),
        Some(group) => {
            match group.kind {
                NodeKind::Subgraph => {},
                _ => return Err(Error::InvalidNodeType),
            }
            if group.is_locked() {
                return Err(Error::NodeLocked(group_id));
            }
            copy_parent(&group.parent)
        },
    };
    let ghost gp = crate::document::parent_view(group_parent);
    assert(gp == n0[group_id@].parent);
    let children = find_group_children(canvas, &group_id);
    let _ = remove_group(canvas, &group_id);
    let ghost n1 = nodes_view(canvas.nodes);
    reparent_children_to_grandparent(canvas, children.as_slice(), &group_parent);
    proof {
        assert(nodes_view(canvas.nodes) =~= ungrouped(n0, group_id@)) by {
            assert forall|k: Seq<char>| #[trigger] nodes_view(canvas.nodes).contains_key(k) implies
                nodes_view(canvas.nodes)[k] == ungrouped(n0, group_id@)[k] by {
                if n0[k].parent == Some(group_id@) {
                    assert(exists|a: int| 0 <= a < children@.len() && #[trigger] children@[a]@ == k);
                } else {
                    if exists|a: int| 0 <= a < children@.len() && #[trigger] children@[a]@ == k {
                        let a = choose|a: int| 0 <= a < children@.len() && #[trigger] children@[a]@ == k;
                        assert(n0[children@[a]@].parent == Some(group_id@));
                    }
                }
            }
        }
    }
    let checked = validate_children_exist(canvas, children.as_slice());
    match checked {
        Ok(()) => {
            proof {
                if n0[group_id@].parent == Some(group_id@) {
                    let a = choose|a: int| 0 <= a < children@.len() && #[trigger] children@[a]@ == group_id@;
                    assert(!nodes_view(canvas.nodes).contains_key(children@[a]@));
                }
            }
            Ok(children)
        },
        Err(e) => {
            proof {
                let a = choose|a: int| 0 <= a < children@.len() && !nodes_view(canvas.nodes).contains_key(#[trigger] children@[a]@);
                assert(n0.contains_key(children@[a]@));
                assert(children@[a]@ == group_id@);
            }
            Err(e)
        },
    }
}

} // verus!
