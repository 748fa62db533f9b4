//! Trusted interface to the persistent maps, sets and vectors of the `im` crate.
//!
//! Each instantiation the library uses gets a name for its contents (a `Map` or
//! `Set` keyed by the text of the key, a `Seq` for a vector) and a wrapper per
//! method. The contracts say what `im`'s source does: `insert`/`remove` update one
//! key, `get`/`contains_key` read one key, `keys` hands out every key once in an
//! unspecified order, a map's or set's `clone` shares the same tree, `new` is empty.

use vstd::prelude::*;

use crate::document::{Edge, EdgeId, Node, NodeId, Point};

verus! {

#[verifier::external_type_specification]
#[verifier::external_body]
#[verifier::reject_recursive_types(K)]
#[verifier::reject_recursive_types(V)]
#[verifier::reject_recursive_types(S)]
pub struct ExImHashMap<K, V, S>(im::HashMap<K, V, S>);

#[verifier::external_type_specification]
#[verifier::external_body]
#[verifier::reject_recursive_types(A)]
#[verifier::reject_recursive_types(S)]
pub struct ExImHashSet<A, S>(im::HashSet<A, S>);

#[verifier::external_type_specification]
#[verifier::external_body]
#[verifier::reject_recursive_types(A)]
pub struct ExImVector<A>(im::Vector<A>);

#[verifier::external_type_specification]
#[verifier::external_body]
pub struct ExJsonValue(serde_json::Value);

/// Nodes keyed by identifier.
pub type NodeMap = im::HashMap<NodeId, Node>;

/// Edges keyed by identifier.
pub type EdgeMap = im::HashMap<EdgeId, Edge>;

/// Author priority: operation identifier to "was written by a human".
pub type PriorityMap = im::HashMap<String, bool>;

/// Free-form metadata of a node or edge.
pub type MetaMap = im::HashMap<String, serde_json::Value>;

/// A set of element identifiers (the editor selection).
pub type IdSet = im::HashSet<String>;

/// The tags of a node or an edge, in order.
pub type TagList = im::Vector<String>;

/// The bend points of an edge, in order.
pub type PointList = im::Vector<Point>;

/// What a node map holds, keyed by the text of the identifier.
pub uninterp spec fn node_map_contents(m: NodeMap) -> Map<Seq<char>, Node>;

/// What an edge map holds, keyed by the text of the identifier.
pub uninterp spec fn edge_map_contents(m: EdgeMap) -> Map<Seq<char>, Edge>;

/// What a priority map holds, keyed by the operation identifier's text.
pub uninterp spec fn priority_map_contents(m: PriorityMap) -> Map<Seq<char>, bool>;

/// What a metadata map holds, keyed by the text of the key.
pub uninterp spec fn meta_map_contents(m: MetaMap) -> Map<Seq<char>, serde_json::Value>;

/// What an identifier set holds.
pub uninterp spec fn id_set_contents(s: IdSet) -> Set<Seq<char>>;

/// What a tag list holds, in order, each tag by its text.
pub uninterp spec fn tag_list_contents(v: TagList) -> Seq<Seq<char>>;

/// What a point list holds, in order.
pub uninterp spec fn point_list_contents(v: PointList) -> Seq<Point>;

/// Whether a sequence of node identifiers lists every key of `m` exactly once.
pub open spec fn lists_node_keys(keys: Seq<NodeId>, m: Map<Seq<char>, Node>) -> bool {
    &&& forall|i: int| 0 <= i < keys.len() ==> m.contains_key(#[trigger] keys[i]@)
    &&& forall|i: int, j: int| 0 <= i < j < keys.len() ==> keys[i]@ != keys[j]@
    &&& forall|k: Seq<char>| m.contains_key(k) ==> exists|i: int| 0 <= i < keys.len() && #[trigger] keys[i]@ == k
}

/// Whether a sequence of edge identifiers lists every key of `m` exactly once.
pub open spec fn lists_edge_keys(keys: Seq<EdgeId>, m: Map<Seq<char>, Edge>) -> bool {
    &&& forall|i: int| 0 <= i < keys.len() ==> m.contains_key(#[trigger] keys[i]@)
    &&& forall|i: int, j: int| 0 <= i < j < keys.len() ==> keys[i]@ != keys[j]@
    &&& forall|k: Seq<char>| m.contains_key(k) ==> exists|i: int| 0 <= i < keys.len() && #[trigger] keys[i]@ == k
}

/// Whether a sequence of strings lists every element of `s` exactly once.
pub open spec fn lists_strings(items: Seq<String>, s: Set<Seq<char>>) -> bool {
    &&& forall|i: int| 0 <= i < items.len() ==> s.contains(#[trigger] items[i]@)
    &&& forall|i: int, j: int| 0 <= i < j < items.len() ==> items[i]@ != items[j]@
    &&& forall|k: Seq<char>| s.contains(k) ==> exists|i: int| 0 <= i < items.len() && #[trigger] items[i]@ == k
}

/// `Clone` of an `im::HashMap`: it copies the size and the reference-counted handles
/// on the same tree, pool and hasher, so the clone cannot be told apart from the map it was made from.
pub assume_specification<K: Clone, V: Clone, S>[<im::HashMap<K, V, S> as Clone>::clone](
    m: &im::HashMap<K, V, S>,
) -> (r: im::HashMap<K, V, S>)
    ensures
        r == *m,
;

/// `Clone` of an `im::HashSet`: it copies the size and the reference-counted handles
/// on the same tree, pool and hasher, so the clone cannot be told apart from the set it was made from.
pub assume_specification<A: Clone, S>[<im::HashSet<A, S> as Clone>::clone](
    s: &im::HashSet<A, S>,
) -> (r: im::HashSet<A, S>)
    ensures
        r == *s,
;

/// `Clone` of an `im::Vector`, for any element type: it clones each element, so for an
/// element type whose clone is not exact nothing is claimed of the result here; the
/// tag lists' own wrapper below states what holds for strings.
pub assume_specification<A: Clone>[<im::Vector<A> as Clone>::clone](v: &im::Vector<A>) -> im::Vector<A>;

// ---------------------------------------------------------------- node maps

/// `im::HashMap::new`: an empty map.
#[verifier::external_body]
pub fn node_map_new() -> (m: NodeMap)
    ensures
        node_map_contents(m).dom().is_empty(),
{
    im::HashMap::new()
}

/// `im::HashMap::get`: the value stored under the key, if any.
#[verifier::external_body]
pub fn node_map_get<'a>(m: &'a NodeMap, k: &NodeId) -> (r: Option<&'a Node>)
    ensures
        r is Some <==> node_map_contents(*m).contains_key(k@),
        r matches Some(v) ==> *v == node_map_contents(*m)[k@],
{
    m.get(k)
}

/// `im::HashMap::contains_key`.
#[verifier::external_body]
pub fn node_map_contains(m: &NodeMap, k: &NodeId) -> (b: bool)
    ensures
        b == node_map_contents(*m).contains_key(k@),
{
    m.contains_key(k)
}

/// `im::HashMap::insert`: stores the value under the key, handing back the value it replaced.
#[verifier::external_body]
pub fn node_map_insert(m: &mut NodeMap, k: NodeId, v: Node) -> (r: Option<Node>)
    ensures
        node_map_contents(*final(m)) == node_map_contents(*old(m)).insert(k@, v),
        r is Some <==> node_map_contents(*old(m)).contains_key(k@),
        r matches Some(p) ==> p == node_map_contents(*old(m))[k@],
{
    m.insert(k, v)
}

/// `im::HashMap::remove`: takes the key out, handing back its value.
#[verifier::external_body]
pub fn node_map_remove(m: &mut NodeMap, k: &NodeId) -> (r: Option<Node>)
    ensures
        node_map_contents(*final(m)) == node_map_contents(*old(m)).remove(k@),
        r is Some <==> node_map_contents(*old(m)).contains_key(k@),
        r matches Some(p) ==> p == node_map_contents(*old(m))[k@],
{
    m.remove(k)
}

/// `im::HashMap::len`.
#[verifier::external_body]
pub fn node_map_len(m: &NodeMap) -> (n: usize)
    ensures
        n == node_map_contents(*m).dom().len(),
{
    m.len()
}

/// `im::HashMap::keys`, cloned: every key once, in the map's iteration order.
#[verifier::external_body]
pub fn node_map_keys(m: &NodeMap) -> (keys: Vec<NodeId>)
    ensures
        lists_node_keys(keys@, node_map_contents(*m)),
{
    m.keys().cloned().collect()
}

// ---------------------------------------------------------------- edge maps

/// `im::HashMap::new`: an empty map.
#[verifier::external_body]
pub fn edge_map_new() -> (m: EdgeMap)
    ensures
        edge_map_contents(m).dom().is_empty(),
{
    im::HashMap::new()
}

/// `im::HashMap::get`: the value stored under the key, if any.
#[verifier::external_body]
pub fn edge_map_get<'a>(m: &'a EdgeMap, k: &EdgeId) -> (r: Option<&'a Edge>)
    ensures
        r is Some <==> edge_map_contents(*m).contains_key(k@),
        r matches Some(v) ==> *v == edge_map_contents(*m)[k@],
{
    m.get(k)
}

/// `im::HashMap::contains_key`.
#[verifier::external_body]
pub fn edge_map_contains(m: &EdgeMap, k: &EdgeId) -> (b: bool)
    ensures
        b == edge_map_contents(*m).contains_key(k@),
{
    m.contains_key(k)
}

/// `im::HashMap::insert`: stores the value under the key, handing back the value it replaced.
#[verifier::external_body]
pub fn edge_map_insert(m: &mut EdgeMap, k: EdgeId, v: Edge) -> (r: Option<Edge>)
    ensures
        edge_map_contents(*final(m)) == edge_map_contents(*old(m)).insert(k@, v),
        r is Some <==> edge_map_contents(*old(m)).contains_key(k@),
        r matches Some(p) ==> p == edge_map_contents(*old(m))[k@],
{
    m.insert(k, v)
}

/// `im::HashMap::remove`: takes the key out, handing back its value.
#[verifier::external_body]
pub fn edge_map_remove(m: &mut EdgeMap, k: &EdgeId) -> (r: Option<Edge>)
    ensures
        edge_map_contents(*final(m)) == edge_map_contents(*old(m)).remove(k@),
        r is Some <==> edge_map_contents(*old(m)).contains_key(k@),
        r matches Some(p) ==> p == edge_map_contents(*old(m))[k@],
{
    m.remove(k)
}

/// `im::HashMap::len`.
#[verifier::external_body]
pub fn edge_map_len(m: &EdgeMap) -> (n: usize)
    ensures
        n == edge_map_contents(*m).dom().len(),
{
    m.len()
}

/// `im::HashMap::keys`, cloned: every key once, in the map's iteration order.
#[verifier::external_body]
pub fn edge_map_keys(m: &EdgeMap) -> (keys: Vec<EdgeId>)
    ensures
        lists_edge_keys(keys@, edge_map_contents(*m)),
{
    m.keys().cloned().collect()
}

// ---------------------------------------------------------------- priority maps

/// `im::HashMap::new`: an empty map.
#[verifier::external_body]
pub fn priority_map_new() -> (m: PriorityMap)
    ensures
        priority_map_contents(m).dom().is_empty(),
{
    im::HashMap::new()
}

/// `im::HashMap::insert`: stores the flag under the key, handing back the flag it replaced.
#[verifier::external_body]
pub fn priority_map_insert(m: &mut PriorityMap, k: String, v: bool) -> (r: Option<bool>)
    ensures
        priority_map_contents(*final(m)) == priority_map_contents(*old(m)).insert(k@, v),
        r is Some <==> priority_map_contents(*old(m)).contains_key(k@),
        r matches Some(p) ==> p == priority_map_contents(*old(m))[k@],
{
    m.insert(k, v)
}

/// `im::HashMap::contains_key`.
#[verifier::external_body]
pub fn priority_map_contains(m: &PriorityMap, k: &String) -> (b: bool)
    ensures
        b == priority_map_contents(*m).contains_key(k@),
{
    m.contains_key(k)
}

// ---------------------------------------------------------------- metadata maps

/// `im::HashMap::new`: an empty map.
#[verifier::external_body]
pub fn meta_map_new() -> (m: MetaMap)
    ensures
        meta_map_contents(m).dom().is_empty(),
{
    im::HashMap::new()
}

// ---------------------------------------------------------------- identifier sets

/// `im::HashSet::new`: an empty set.
#[verifier::external_body]
pub fn id_set_new() -> (s: IdSet)
    ensures
        id_set_contents(s).is_empty(),
{
    im::HashSet::new()
}

/// `im::HashSet::insert`.
#[verifier::external_body]
pub fn id_set_insert(s: &mut IdSet, v: String)
    ensures
        id_set_contents(*final(s)) == id_set_contents(*old(s)).insert(v@),
{
    s.insert(v);
}

/// `im::HashSet::contains`.
#[verifier::external_body]
pub fn id_set_contains(s: &IdSet, v: &String) -> (b: bool)
    ensures
        b == id_set_contents(*s).contains(v@),
{
    s.contains(v)
}

/// The elements of an `im::HashSet`, cloned, every element once in iteration order.
#[verifier::external_body]
pub fn id_set_items(s: &IdSet) -> (items: Vec<String>)
    ensures
        lists_strings(items@, id_set_contents(*s)),
{
    s.iter().cloned().collect()
}

// ---------------------------------------------------------------- tag lists

/// `im::Vector::new`: an empty vector.
#[verifier::external_body]
pub(crate) fn tag_list_new() -> (v: TagList)
    ensures
        tag_list_contents(v) == Seq::<Seq<char>>::empty(),
{
    im::Vector::new()
}

/// `im::Vector::new`: an empty vector.
#[verifier::external_body]
pub(crate) fn point_list_new() -> (v: PointList)
    ensures
        point_list_contents(v) == Seq::<Point>::empty(),
{
    im::Vector::new()
}

/// `Clone` of an `im::Vector`: the same elements in the same order, each one cloned
/// (a cloned `String` has the same text).
#[verifier::external_body]
pub(crate) fn tag_list_clone(v: &TagList) -> (r: TagList)
    ensures
        tag_list_contents(r) == tag_list_contents(*v),
{
    v.clone()
}

} // verus!
