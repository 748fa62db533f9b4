//! Schema validation of a whole document: version, node geometry and parents,
//! parent chains, edges, and the DAG property.

use vstd::prelude::*;

use crate::collections::{
    edge_map_contents, edge_map_get, edge_map_keys, lists_edge_keys, lists_node_keys,
    node_map_contains, node_map_contents, node_map_get, node_map_keys, NodeMap,
};
use crate::dag::{cycle_message, is_acyclic, validate_dag};
use crate::document::{copy_parent, edges_view, nodes_view, DiagramDocument, EdgeView, NodeId, NodeKind, NodeView};
use crate::ordered_float::{gt_positive_const_bits, lt_zero_bits};
use crate::subgraph::{lemma_walk_ended, lemma_walk_step, parents_acyclic, walk};
use crate::text::{chars_of, concat_str, decimal, u64_to_decimal};

verus! {

/// Bit pattern of `1.0`, the upper end of an edge's label offset.
pub const ONE_BITS: u64 = 0x3ff0_0000_0000_0000;

/// `c` is an ASCII hexadecimal digit.
pub open spec fn is_hex_digit(c: char) -> bool {
    ('0' <= c && c <= '9') || ('a' <= c && c <= 'f') || ('A' <= c && c <= 'F')
}

/// `#` followed by 3, 4, 6 or 8 hexadecimal digits (`#RGB`, `#RGBA`, `#RRGGBB`, `#RRGGBBAA`).
pub open spec fn valid_hex_color(s: Seq<char>) -> bool {
    &&& (s.len() == 4 || s.len() == 5 || s.len() == 7 || s.len() == 9)
    &&& s[0] == '#'
    &&& forall|i: int| 1 <= i < s.len() ==> is_hex_digit(#[trigger] s[i])
}

/// Whether a color is written in one of the accepted hexadecimal forms.
pub fn is_valid_hex_color(color: &str) -> (b: bool)
    ensures
        b == valid_hex_color(color@),
{
    let cs = chars_of(color);
    let n = cs.len();
    if !(n == 4 || n == 5 || n == 7 || n == 9) {
        return false;
    }
    if cs[0] != '#' {
        return false;
    }
    let mut i: usize = 1;
    while i < n
        invariant
            1 <= i <= n,
            n == cs@.len(),
            cs@ == color@,
            forall|j: int| 1 <= j < i ==> is_hex_digit(#[trigger] cs@[j]),
        decreases n - i,
    {
        let c = cs[i];
        if !(('0' <= c && c <= '9') || ('a' <= c && c <= 'f') || ('A' <= c && c <= 'F')) {
            return false;
        }
        i = i + 1;
    }
    true
}

/// Following parents from `id` comes back to a node already passed.
pub open spec fn chain_repeats(nodes: Map<Seq<char>, NodeView>, id: Seq<char>) -> bool {
    exists|i: nat, j: nat| #![trigger walk(nodes, id, i), walk(nodes, id, j)]
        i < j && walk(nodes, id, i) is Some && walk(nodes, id, j) == walk(nodes, id, i)
}

/// A list of distinct texts drawn from another list is no longer than it.
proof fn lemma_distinct_within(vs: Seq<Seq<char>>, kv: Seq<Seq<char>>)
    requires
        vs.no_duplicates(),
        forall|i: int| 0 <= i < vs.len() ==> kv.contains(#[trigger] vs[i]),
    ensures
        vs.len() <= kv.len(),
{
    vs.unique_seq_to_set();
    kv.lemma_cardinality_of_set();
    assert(vs.to_set().subset_of(kv.to_set())) by {
        assert forall|x: Seq<char>| vs.to_set().contains(x) implies kv.to_set().contains(x) by {
            let i = choose|i: int| 0 <= i < vs.len() && vs[i] == x;
            assert(kv.contains(vs[i]));
        }
    }
    vstd::seq_lib::seq_to_set_is_finite(kv);
    vstd::set_lib::lemma_len_subset(vs.to_set(), kv.to_set());
}

/// Whether the parent chain starting at `start` comes back to a node it passed.
pub fn check_parent_cycle(nodes: &NodeMap, start: &NodeId) -> (b: bool)
    ensures
        b == chain_repeats(nodes_view(*nodes), start@),
{
    let ghost nv = nodes_view(*nodes);
    let keys = node_map_keys(nodes);
    let ghost kv = keys@.map_values(|k: NodeId| k@);
    let mut visited: Vec<NodeId> = Vec::new();
    let mut cur = start.duplicate();
    let ghost mut k: nat = 0;
    loop
        invariant
            nv == nodes_view(*nodes),
            lists_node_keys(keys@, node_map_contents(*nodes)),
            kv == keys@.map_values(|k: NodeId| k@),
            walk(nv, start@, k) == Some(cur@),
            visited@.len() == k,
            forall|i: nat| i < k ==> #[trigger] walk(nv, start@, i) == Some(visited@[i as int]@),
            forall|i: int, j: int| 0 <= i < j < k ==> visited@[i]@ != visited@[j]@,
            forall|i: int| 0 <= i < k ==> nv.contains_key(#[trigger] visited@[i]@),
            k <= keys@.len(),
        decreases keys@.len() - k,
    {
        let mut seen = false;
        let mut i: usize = 0;
        while i < visited.len()
            invariant
                i <= visited@.len(),
                !seen ==> forall|j: int| 0 <= j < i ==> visited@[j]@ != cur@,
                seen ==> exists|j: int| 0 <= j < visited@.len() && visited@[j]@ == cur@,
            decreases visited.len() - i,
        {
            if visited[i].same(&cur) {
                seen = true;
            }
            i = i + 1;
        }
        if seen {
            proof {
                let j = choose|j: int| 0 <= j < visited@.len() && visited@[j]@ == cur@;
                assert(walk(nv, start@, j as nat) == Some(visited@[(j as nat) as int]@));
                assert((j as nat) < k && walk(nv, start@, j as nat) is Some && walk(nv, start@, k) == walk(nv, start@, j as nat));
            }
            return true;
        }
        let next = match node_map_get(nodes, &cur) {
            Some(n) => copy_parent(&n.parent),
            None => None,
        };
        proof {
            lemma_walk_step(nv, start@, k);
        }
        match next {
            None => {
                proof {
                    assert forall|a: nat, c: nat| #![trigger walk(nv, start@, a), walk(nv, start@, c)]
                        !(a < c && walk(nv, start@, a) is Some && walk(nv, start@, c) == walk(nv, start@, a)) by {
                        if a < c && walk(nv, start@, a) is Some && walk(nv, start@, c) == walk(nv, start@, a) {
                            if c > k {
                                lemma_walk_ended(nv, start@, k + 1, c);
                            } else if c == k {
                                assert(walk(nv, start@, a) == Some(visited@[a as int]@));
                            } else {
                                assert(walk(nv, start@, a) == Some(visited@[a as int]@));
                                assert(walk(nv, start@, c) == Some(visited@[c as int]@));
                            }
                        }
                    }
                }
                return false;
            },
            Some(p) => {
                let ghost before = visited@;
                assert(nv.contains_key(cur@));
                visited.push(cur);
                proof {
                    let vs = visited@.map_values(|x: NodeId| x@);
                    assert forall|a: int, c: int| 0 <= a < vs.len() && 0 <= c < vs.len() && a != c implies vs[a] != vs[c] by {
                        if a < c {
                            assert(visited@[a]@ != visited@[c]@);
                        } else {
                            assert(visited@[c]@ != visited@[a]@);
                        }
                    }
                    assert(vs.no_duplicates());
                    assert forall|a: int| 0 <= a < vs.len() implies kv.contains(#[trigger] vs[a]) by {
                        assert(node_map_contents(*nodes).contains_key(visited@[a]@));
                        let b = choose|b: int| 0 <= b < keys@.len() && #[trigger] keys@[b]@ == visited@[a]@;
                        assert(kv[b] == vs[a]);
                    }
                    lemma_distinct_within(vs, kv);
                    k = k + 1;
                }
                cur = p;
            },
        }
    }
}

/// The first problem of a node: negative width or height, then its parent must exist
/// and be a subgraph.
pub open spec fn node_schema_error(nodes: Map<Seq<char>, NodeView>, id: Seq<char>, n: NodeView) -> Option<Seq<char>> {
    if lt_zero_bits(n.width) {
        Some("Node "@ + id + " has negative width"@)
    } else if lt_zero_bits(n.height) {
        Some("Node "@ + id + " has negative height"@)
    } else {
        match n.parent {
            Some(p) => if !nodes.contains_key(p) {
                Some("Node "@ + id + " references non-existent parent "@ + p)
            } else if nodes[p].kind != NodeKind::Subgraph {
                Some("Node "@ + id + " parent "@ + p + " is not a subgraph"@)
            } else {
                None
            },
            None => None,
        }
    }
}

/// The first problem of an edge: its ends must be nodes, its label offset within
/// `[0, 1]`, and its color, if any, a hexadecimal color.
pub open spec fn edge_schema_error(nodes: Map<Seq<char>, NodeView>, id: Seq<char>, e: EdgeView) -> Option<Seq<char>> {
    if !nodes.contains_key(e.source) {
        Some("Edge "@ + id + " references non-existent source "@ + e.source)
    } else if !nodes.contains_key(e.target) {
        Some("Edge "@ + id + " references non-existent target "@ + e.target)
    } else if lt_zero_bits(e.label_offset_t) || gt_positive_const_bits(e.label_offset_t, ONE_BITS) {
        Some("Edge "@ + id + " has label_offset_t outside valid range [0, 1]"@)
    } else {
        match e.color {
            Some(c) => if !valid_hex_color(c) {
                Some("Edge "@ + id + " has invalid color format: "@ + c)
            } else {
                None
            },
            None => None,
        }
    }
}

/// The message of a circular parent chain.
pub open spec fn parent_cycle_message(id: Seq<char>) -> Seq<char> {
    "Circular parent chain detected involving node "@ + id
}

/// The message of a wrong schema version.
pub open spec fn version_message(v: u32) -> Seq<char> {
    "Document version must be 2, got "@ + decimal(v as nat)
}

/// The outcomes schema validation may have. The version is checked first; then every
/// node, every parent chain and every edge, in that order of stages, each stage in the
/// order the maps are walked; then the DAG property. The first problem is reported.
pub open spec fn schema_outcome(d: DiagramDocument, r: Result<(), String>) -> bool {
    let nodes = nodes_view(d.document.nodes);
    let edges = edges_view(d.document.edges);
    if d.version != 2 {
        r matches Err(m) && m@ == version_message(d.version)
    } else if exists|k: Seq<char>| #[trigger] nodes.contains_key(k) && node_schema_error(nodes, k, nodes[k]) is Some {
        r matches Err(m) && exists|k: Seq<char>| #[trigger] nodes.contains_key(k) && node_schema_error(nodes, k, nodes[k]) == Some(m@)
    } else if exists|k: Seq<char>| #[trigger] nodes.contains_key(k) && chain_repeats(nodes, k) {
        r matches Err(m) && exists|k: Seq<char>| #[trigger] nodes.contains_key(k) && chain_repeats(nodes, k) && m@ == parent_cycle_message(k)
    } else if exists|k: Seq<char>| #[trigger] edges.contains_key(k) && edge_schema_error(nodes, k, edges[k]) is Some {
        r matches Err(m) && exists|k: Seq<char>| #[trigger] edges.contains_key(k) && edge_schema_error(nodes, k, edges[k]) == Some(m@)
    } else if !is_acyclic(edges) {
        r matches Err(m) && exists|n: nat| n > 0 && m@ == "DAG Validation Failed: "@ + #[trigger] cycle_message(n)
    } else {
        r is Ok
    }
}

/// A parent chain without repeats ends within as many steps as there are nodes, plus one.
proof fn lemma_chain_without_repeats_ends(nodes: Map<Seq<char>, NodeView>, k: Seq<char>)
    requires
        nodes.dom().finite(),
        !chain_repeats(nodes, k),
    ensures
        walk(nodes, k, nodes.dom().len() + 1) is None,
{
    let n = nodes.dom().len() + 1;
    if walk(nodes, k, n) is Some {
        assert forall|i: nat| i < n implies #[trigger] walk(nodes, k, i) is Some && nodes.contains_key(walk(nodes, k, i)->0) by {
            if walk(nodes, k, i) is None {
                lemma_walk_ended(nodes, k, i, n);
            }
            if walk(nodes, k, (i + 1) as nat) is None {
                lemma_walk_ended(nodes, k, (i + 1) as nat, n);
            }
            lemma_walk_step(nodes, k, i);
        }
        let vs = Seq::new(n, |i: int| walk(nodes, k, i as nat)->0);
        if vs.no_duplicates() {
            vs.unique_seq_to_set();
            assert(vs.to_set().subset_of(nodes.dom())) by {
                assert forall|x: Seq<char>| vs.to_set().contains(x) implies nodes.dom().contains(x) by {
                    let i = choose|i: int| 0 <= i < vs.len() && vs[i] == x;
                    assert(walk(nodes, k, i as nat) is Some);
                }
            }
            vstd::set_lib::lemma_len_subset(vs.to_set(), nodes.dom());
        } else {
            let (a, b) = choose|a: int, b: int| 0 <= a < vs.len() && 0 <= b < vs.len() && a != b && vs[a] == vs[b];
            let (i, j) = if a < b { (a as nat, b as nat) } else { (b as nat, a as nat) };
            assert(walk(nodes, k, i) is Some && walk(nodes, k, j) is Some);
            assert(walk(nodes, k, j) == walk(nodes, k, i));
            assert(chain_repeats(nodes, k));
        }
    }
}

/// A document that passes schema validation has no cycle of parents: every parent
/// chain ends.
pub proof fn lemma_valid_schema_has_no_parent_cycle(d: DiagramDocument, r: Result<(), String>)
    requires
        schema_outcome(d, r),
        r is Ok,
        nodes_view(d.document.nodes).dom().finite(),
    ensures
        parents_acyclic(nodes_view(d.document.nodes)),
{
    let nodes = nodes_view(d.document.nodes);
    assert forall|k: Seq<char>| #[trigger] nodes.contains_key(k) implies exists|n: nat| #[trigger] walk(nodes, k, n) is None by {
        lemma_chain_without_repeats_ends(nodes, k);
    }
}

/// A document that passes schema validation has version 2; every node has a width
/// and a height that are not negative and a parent, if any, that is a subgraph of the
/// document; and every edge joins two nodes of the document, has a label offset
/// within `[0, 1]` (not below zero, not above one) and a color, if any, that is `#`
/// followed by 3, 4, 6 or 8 hexadecimal digits.
pub proof fn lemma_valid_schema_bounds(d: DiagramDocument, r: Result<(), String>)
    requires
        schema_outcome(d, r),
        r is Ok,
    ensures
        d.version == 2,
        forall|k: Seq<char>| #[trigger] nodes_view(d.document.nodes).contains_key(k) ==> {
            let n = nodes_view(d.document.nodes)[k];
            &&& !lt_zero_bits(n.width)
            &&& !lt_zero_bits(n.height)
            &&& (n.parent matches Some(p) ==> nodes_view(d.document.nodes).contains_key(p)
                && nodes_view(d.document.nodes)[p].kind == NodeKind::Subgraph)
        },
        forall|k: Seq<char>| #[trigger] edges_view(d.document.edges).contains_key(k) ==> {
            let e = edges_view(d.document.edges)[k];
            &&& nodes_view(d.document.nodes).contains_key(e.source)
            &&& nodes_view(d.document.nodes).contains_key(e.target)
            &&& !lt_zero_bits(e.label_offset_t)
            &&& !gt_positive_const_bits(e.label_offset_t, ONE_BITS)
            &&& (e.color matches Some(c) ==> (c.len() == 4 || c.len() == 5 || c.len() == 7 || c.len() == 9) && c[0] == '#'
                && forall|i: int| 1 <= i < c.len() ==> ('0' <= #[trigger] c[i] <= '9') || ('a' <= c[i] <= 'f') || ('A' <= c[i] <= 'F'))
        },
{
    let nodes = nodes_view(d.document.nodes);
    let edges = edges_view(d.document.edges);
    assert forall|k: Seq<char>| #[trigger] nodes.contains_key(k) implies {
        let n = nodes[k];
        &&& !lt_zero_bits(n.width)
        &&& !lt_zero_bits(n.height)
        &&& (n.parent matches Some(p) ==> nodes.contains_key(p) && nodes[p].kind == NodeKind::Subgraph)
    } by {
        assert(node_schema_error(nodes, k, nodes[k]) is None);
    }
    assert forall|k: Seq<char>| #[trigger] edges.contains_key(k) implies {
        let e = edges[k];
        &&& nodes.contains_key(e.source)
        &&& nodes.contains_key(e.target)
        &&& !lt_zero_bits(e.label_offset_t)
        &&& !gt_positive_const_bits(e.label_offset_t, ONE_BITS)
        &&& (e.color matches Some(c) ==> (c.len() == 4 || c.len() == 5 || c.len() == 7 || c.len() == 9) && c[0] == '#'
            && forall|i: int| 1 <= i < c.len() ==> ('0' <= #[trigger] c[i] <= '9') || ('a' <= c[i] <= 'f') || ('A' <= c[i] <= 'F'))
    } by {
        assert(edge_schema_error(nodes, k, edges[k]) is None);
    }
}

fn text2(a: &str, b: &str) -> (s: String)
    ensures
        s@ == a@ + b@,
{
    concat_str(a, b)
}

fn text3(a: &str, b: &str, c: &str) -> (s: String)
    ensures
        s@ == a@ + b@ + c@,
{
    let mut s = concat_str(a, b);
    s.append(c);
    s
}

fn text4(a: &str, b: &str, c: &str, d: &str) -> (s: String)
    ensures
        s@ == a@ + b@ + c@ + d@,
{
    let mut s = concat_str(a, b);
    s.append(c);
    s.append(d);
    s
}

/// The first problem of a node, if any.
fn check_node_schema(nodes: &NodeMap, id: &NodeId, n: &crate::document::Node) -> (r: Result<(), String>)
    ensures
        match node_schema_error(nodes_view(*nodes), id@, n@) {
            Some(m) => r matches Err(x) && x@ == m,
            None => r is Ok,
        },
{
    if n.width.lt_zero() {
        return Err(text3("Node ", id.as_str(), " has negative width"));
    }
    if n.height.lt_zero() {
        return Err(text3("Node ", id.as_str(), " has negative height"));
    }
    match &n.parent {
        Some(p) => {
            match node_map_get(nodes, p) {
                None => Err(text4("Node ", id.as_str(), " references non-existent parent ", p.as_str())),
                Some(pn) => {
                    assert(nodes_view(*nodes)[p@] == pn@);
                    match pn.kind {
                        NodeKind::Subgraph => Ok(()),
                        _ => {
                            let mut m = text4("Node ", id.as_str(), " parent ", p.as_str());
                            m.append(" is not a subgraph");
                            Err(m)
                        },
                    }
                },
            }
        },
        None => Ok(()),
    }
}

/// The first problem of an edge, if any.
fn check_edge_schema(nodes: &NodeMap, id: &str, e: &crate::document::Edge) -> (r: Result<(), String>)
    ensures
        match edge_schema_error(nodes_view(*nodes), id@, e@) {
            Some(m) => r matches Err(x) && x@ == m,
            None => r is Ok,
        },
{
    if !node_map_contains(nodes, &e.source) {
        return Err(text4("Edge ", id, " references non-existent source ", e.source.as_str()));
    }
    if !node_map_contains(nodes, &e.target) {
        return Err(text4("Edge ", id, " references non-existent target ", e.target.as_str()));
    }
    if e.label_offset_t.lt_zero() || e.label_offset_t.gt_positive_const(ONE_BITS) {
        return Err(text3("Edge ", id, " has label_offset_t outside valid range [0, 1]"));
    }
    match &e.color {
        Some(c) => {
            if !is_valid_hex_color(c.as_str()) {
                return Err(text4("Edge ", id, " has invalid color format: ", c.as_str()));
            }
            Ok(())
        },
        None => Ok(()),
    }
}

/// Validate a document's schema, reporting the first problem found.
pub fn validate_schema(doc: &DiagramDocument) -> (r: Result<(), String>)
    ensures
        schema_outcome(*doc, r),
{
    let nodes = &doc.document.nodes;
    let ghost nv = nodes_view(*nodes);
    let ghost ev = edges_view(doc.document.edges);
    if doc.version != 2 {
        let d = u64_to_decimal(doc.version as u64);
        return Err(text2("Document version must be 2, got ", d.as_str()));
    }
    let nkeys = node_map_keys(nodes);
    let mut i: usize = 0;
    while i < nkeys.len()
        invariant
            i <= nkeys@.len(),
            nv == nodes_view(*nodes),
            nv == nodes_view(doc.document.nodes),
            doc.version == 2,
            lists_node_keys(nkeys@, node_map_contents(*nodes)),
            forall|j: int| 0 <= j < i ==> node_schema_error(nv, nkeys@[j]@, #[trigger] nv[nkeys@[j]@]) is None,
        decreases nkeys.len() - i,
    {
        match node_map_get(nodes, &nkeys[i]) {
            Some(n) => {
                assert(nv[nkeys@[i as int]@] == n@);
                match check_node_schema(nodes, &nkeys[i], n) {
                    Err(m) => {
                        assert(nv.contains_key(nkeys@[i as int]@));
                        return Err(m);
                    },
                    Ok(()) => {},
                }
            },
            None => {
                assert(node_map_contents(*nodes).contains_key(nkeys@[i as int]@));
                assert(false);
            },
        }
        i = i + 1;
    }
    assert forall|k: Seq<char>| #[trigger] nv.contains_key(k) implies node_schema_error(nv, k, nv[k]) is None by {
        assert(node_map_contents(*nodes).contains_key(k));
        let j = choose|j: int| 0 <= j < nkeys@.len() && #[trigger] nkeys@[j]@ == k;
        assert(node_schema_error(nv, nkeys@[j]@, nv[nkeys@[j]@]) is None);
    }
    let mut i: usize = 0;
    while i < nkeys.len()
        invariant
            i <= nkeys@.len(),
            nv == nodes_view(*nodes),
            nv == nodes_view(doc.document.nodes),
            doc.version == 2,
            lists_node_keys(nkeys@, node_map_contents(*nodes)),
            forall|k: Seq<char>| #[trigger] nv.contains_key(k) ==> node_schema_error(nv, k, nv[k]) is None,
            forall|j: int| 0 <= j < i ==> !chain_repeats(nv, #[trigger] nkeys@[j]@),
        decreases nkeys.len() - i,
    {
        if check_parent_cycle(nodes, &nkeys[i]) {
            let m = text2("Circular parent chain detected involving node ", nkeys[i].as_str());
            proof {
                assert(node_map_contents(*nodes).contains_key(nkeys@[i as int]@));
                assert(nv.contains_key(nkeys@[i as int]@) && chain_repeats(nv, nkeys@[i as int]@));
            }
            return Err(m);
        }
        i = i + 1;
    }
    assert forall|k: Seq<char>| #[trigger] nv.contains_key(k) implies !chain_repeats(nv, k) by {
        assert(node_map_contents(*nodes).contains_key(k));
        let j = choose|j: int| 0 <= j < nkeys@.len() && #[trigger] nkeys@[j]@ == k;
        assert(!chain_repeats(nv, nkeys@[j]@));
    }
    let ekeys = edge_map_keys(&doc.document.edges);
    let mut i: usize = 0;
    while i < ekeys.len()
        invariant
            i <= ekeys@.len(),
            nv == nodes_view(*nodes),
            nv == nodes_view(doc.document.nodes),
            doc.version == 2,
            ev == edges_view(doc.document.edges),
            lists_edge_keys(ekeys@, edge_map_contents(doc.document.edges)),
            forall|k: Seq<char>| #[trigger] nv.contains_key(k) ==> node_schema_error(nv, k, nv[k]) is None,
            forall|k: Seq<char>| #[trigger] nv.contains_key(k) ==> !chain_repeats(nv, k),
            forall|j: int| 0 <= j < i ==> edge_schema_error(nv, ekeys@[j]@, #[trigger] ev[ekeys@[j]@]) is None,
        decreases ekeys.len() - i,
    {
        match edge_map_get(&doc.document.edges, &ekeys[i]) {
            Some(e) => {
                assert(ev[ekeys@[i as int]@] == e@);
                match check_edge_schema(nodes, ekeys[i].as_str(), e) {
                    Err(m) => {
                        assert(ev.contains_key(ekeys@[i as int]@));
                        return Err(m);
                    },
                    Ok(()) => {},
                }
            },
            None => {
                assert(edge_map_contents(doc.document.edges).contains_key(ekeys@[i as int]@));
                assert(false);
            },
        }
        i = i + 1;
    }
    assert forall|k: Seq<char>| #[trigger] ev.contains_key(k) implies edge_schema_error(nv, k, ev[k]) is None by {
        assert(edge_map_contents(doc.document.edges).contains_key(k));
        let j = choose|j: int| 0 <= j < ekeys@.len() && #[trigger] ekeys@[j]@ == k;
        assert(edge_schema_error(nv, ekeys@[j]@, ev[ekeys@[j]@]) is None);
    }
    match validate_dag(nodes, &doc.document.edges) {
        Ok(()) => Ok(()),
        Err(e) => {
            let m = e.to_string();
            proof {
                let n = e->CycleDetected_0;
                assert(m@ == cycle_message(n as nat));
            }
            Err(text2("DAG Validation Failed: ", m.as_str()))
        },
    }
}

} // verus!
