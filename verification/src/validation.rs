//! Semantic validation of a diagram document.
//!
//! Validation is a pure function of the document graph: it reports every dangling
//! edge end, every bad parent reference, every node with non-finite coordinates or
//! bad dimensions, and a cycle in the edge graph. Editor state is ignored.

use vstd::prelude::*;

use crate::collections::{
    edge_map_contents, edge_map_get, edge_map_keys, lists_edge_keys, lists_node_keys,
    node_map_contents, node_map_get, node_map_keys, NodeMap,
};
use crate::dag::{is_acyclic, validate_dag, CycleError};
use crate::document::{edges_view, nodes_view, DiagramDocument, DocumentData, EdgeView, NodeKind, NodeView};
use crate::ordered_float::{is_finite_bits, lt_zero_bits};
use crate::text::u64_to_decimal;

verus! {

/// Severity of a validation issue; an error outranks a warning.
#[derive(Clone, Copy, Debug, PartialEq, Eq, PartialOrd, Ord, Structural)]
pub enum ValidationSeverity {
    Warning,
    Error,
}

/// A single validation issue discovered in a document.
#[derive(Clone, Debug, PartialEq, Eq)]
pub struct ValidationIssue {
    pub severity: ValidationSeverity,
    pub code: &'static str,
    pub message: String,
    pub subject: Option<String>,
}

/// An issue with its texts taken as character sequences.
pub struct IssueView {
    pub severity: ValidationSeverity,
    pub code: Seq<char>,
    pub message: Seq<char>,
    pub subject: Option<Seq<char>>,
}

impl View for ValidationIssue {
    type V = IssueView;

    open spec fn view(&self) -> IssueView {
        IssueView {
            severity: self.severity,
            code: self.code@,
            message: self.message@,
            subject: match self.subject {
                Some(s) => Some(s@),
                None => None,
            },
        }
    }
}

/// The views of a list of issues.
pub open spec fn issues_view(v: Seq<ValidationIssue>) -> Seq<IssueView> {
    v.map_values(|i: ValidationIssue| i@)
}

/// An error-level issue.
pub open spec fn error_issue(code: Seq<char>, message: Seq<char>, subject: Option<Seq<char>>) -> IssueView {
    IssueView { severity: ValidationSeverity::Error, code, message, subject }
}

/// `seq![x]` when `cond` holds, the empty sequence otherwise.
pub open spec fn issue_if(cond: bool, x: IssueView) -> Seq<IssueView> {
    if cond { seq![x] } else { Seq::empty() }
}

/// The issues of one edge: each end that names no node dangles.
pub open spec fn edge_issues(nodes: Map<Seq<char>, NodeView>, id: Seq<char>, e: EdgeView) -> Seq<IssueView> {
    issue_if(!nodes.contains_key(e.source), error_issue("edge-dangling"@,
        "Edge "@ + id + " source '"@ + e.source + "' does not exist"@, Some(id)))
    + issue_if(!nodes.contains_key(e.target), error_issue("edge-dangling"@,
        "Edge "@ + id + " target '"@ + e.target + "' does not exist"@, Some(id)))
}

/// The parent issue of a node: the parent must exist and be a subgraph.
pub open spec fn parent_issues(nodes: Map<Seq<char>, NodeView>, id: Seq<char>, n: NodeView) -> Seq<IssueView> {
    match n.parent {
        Some(p) => if !nodes.contains_key(p) {
            seq![error_issue("invalid-parent"@, "Node "@ + id + " references non-existent parent "@ + p, Some(id))]
        } else if nodes[p].kind != NodeKind::Subgraph {
            seq![error_issue("invalid-parent"@, "Node "@ + id + " parent "@ + p + " is not a Subgraph"@, Some(id))]
        } else {
            Seq::empty()
        },
        None => Seq::empty(),
    }
}

/// The coordinates of a node are not both finite.
pub open spec fn bad_coordinates(n: NodeView) -> bool {
    !is_finite_bits(n.x) || !is_finite_bits(n.y)
}

/// The dimensions of a node are negative or not finite.
pub open spec fn bad_dimensions(n: NodeView) -> bool {
    lt_zero_bits(n.width) || lt_zero_bits(n.height) || !is_finite_bits(n.width) || !is_finite_bits(n.height)
}

/// The issues of one node: its parent, then its coordinates, then its dimensions.
pub open spec fn node_issues(nodes: Map<Seq<char>, NodeView>, id: Seq<char>, n: NodeView) -> Seq<IssueView> {
    parent_issues(nodes, id, n)
    + issue_if(bad_coordinates(n), error_issue("invalid-numeric"@, "Node "@ + id + " has non-finite coordinates"@, Some(id)))
    + issue_if(bad_dimensions(n), error_issue("invalid-numeric"@, "Node "@ + id + " has invalid dimensions"@, Some(id)))
}

/// The issues of the edges listed by `ks`, in that order.
pub open spec fn edges_issues(nodes: Map<Seq<char>, NodeView>, edges: Map<Seq<char>, EdgeView>, ks: Seq<Seq<char>>) -> Seq<IssueView>
    decreases ks.len(),
{
    if ks.len() == 0 {
        Seq::empty()
    } else {
        edges_issues(nodes, edges, ks.drop_last()) + edge_issues(nodes, ks.last(), edges[ks.last()])
    }
}

/// The issues of the nodes listed by `ks`, in that order.
pub open spec fn nodes_issues(nodes: Map<Seq<char>, NodeView>, ks: Seq<Seq<char>>) -> Seq<IssueView>
    decreases ks.len(),
{
    if ks.len() == 0 {
        Seq::empty()
    } else {
        nodes_issues(nodes, ks.drop_last()) + node_issues(nodes, ks.last(), nodes[ks.last()])
    }
}

/// The message of a cycle in the edge graph.
pub open spec fn cycle_issue_message() -> Seq<char> {
    "Document contains a cycle \u{2014} DAGs must be acyclic"@
}

/// The issue of the graph as a whole: it must have no cycle.
pub open spec fn dag_issues(edges: Map<Seq<char>, EdgeView>) -> Seq<IssueView> {
    issue_if(!is_acyclic(edges), error_issue("dag-cycle"@, cycle_issue_message(), None))
}

/// `ks` lists every element of `dom` exactly once.
pub open spec fn lists_keys(ks: Seq<Seq<char>>, dom: Set<Seq<char>>) -> bool {
    &&& forall|i: int| 0 <= i < ks.len() ==> dom.contains(#[trigger] ks[i])
    &&& forall|i: int, j: int| 0 <= i < j < ks.len() ==> ks[i] != ks[j]
    &&& forall|k: Seq<char>| dom.contains(k) ==> exists|i: int| 0 <= i < ks.len() && #[trigger] ks[i] == k
}

/// All issues of a document graph when its edges are visited in the order `ek` and
/// its nodes in the order `nk`: edge issues, then node issues, then the cycle issue.
pub open spec fn document_issues(nodes: Map<Seq<char>, NodeView>, edges: Map<Seq<char>, EdgeView>, ek: Seq<Seq<char>>, nk: Seq<Seq<char>>) -> Seq<IssueView> {
    edges_issues(nodes, edges, ek) + nodes_issues(nodes, nk) + dag_issues(edges)
}

/// The issues of a document graph, for some order of its edges and of its nodes (the
/// order in which the maps are walked).
pub open spec fn are_document_issues(d: DocumentData, issues: Seq<IssueView>) -> bool {
    exists|ek: Seq<Seq<char>>, nk: Seq<Seq<char>>|
        #![trigger document_issues(nodes_view(d.nodes), edges_view(d.edges), ek, nk)]
        lists_keys(ek, edges_view(d.edges).dom()) && lists_keys(nk, nodes_view(d.nodes).dom())
            && issues == document_issues(nodes_view(d.nodes), edges_view(d.edges), ek, nk)
}

fn text3(a: &str, b: &str, c: &str) -> (s: String)
    ensures
        s@ == a@ + b@ + c@,
{
    let mut s = String::from_str(a);
    s.append(b);
    s.append(c);
    s
}

fn text5(a: &str, b: &str, c: &str, d: &str, e: &str) -> (s: String)
    ensures
        s@ == a@ + b@ + c@ + d@ + e@,
{
    let mut s = String::from_str(a);
    s.append(b);
    s.append(c);
    s.append(d);
    s.append(e);
    s
}

fn error_of(code: &'static str, message: String, subject: Option<String>) -> (i: ValidationIssue)
    ensures
        i@ == error_issue(code@, message@, match subject { Some(s) => Some(s@), None => None }),
{
    ValidationIssue { severity: ValidationSeverity::Error, code, message, subject }
}

/// Append one issue to a list of issues.
fn push_issue(issues: &mut Vec<ValidationIssue>, i: ValidationIssue)
    ensures
        issues_view(final(issues)@) == issues_view(old(issues)@).push(i@),
{
    issues.push(i);
    assert(issues_view(issues@) =~= issues_view(old(issues)@).push(i@));
}

/// Append the issues of one edge.
fn check_edge(nodes: &NodeMap, id: &str, e: &crate::document::Edge, issues: &mut Vec<ValidationIssue>)
    ensures
        issues_view(final(issues)@) == issues_view(old(issues)@) + edge_issues(nodes_view(*nodes), id@, e@),
{
    let ghost nv = nodes_view(*nodes);
    let ghost before = issues_view(issues@);
    let has_source = crate::collections::node_map_contains(nodes, &e.source);
    if !has_source {
        let m = text5("Edge ", id, " source '", e.source.as_str(), "' does not exist");
        push_issue(issues, error_of("edge-dangling", m, Some(String::from_str(id))));
    }
    let ghost mid = issues_view(issues@);
    let has_target = crate::collections::node_map_contains(nodes, &e.target);
    if !has_target {
        let m = text5("Edge ", id, " target '", e.target.as_str(), "' does not exist");
        push_issue(issues, error_of("edge-dangling", m, Some(String::from_str(id))));
    }
    proof {
        reveal_strlit("edge-dangling");
        assert(nv.contains_key(e@.source) == has_source);
        assert(nv.contains_key(e@.target) == has_target);
        assert(mid =~= before + issue_if(!nv.contains_key(e@.source), error_issue("edge-dangling"@,
            "Edge "@ + id@ + " source '"@ + e@.source + "' does not exist"@, Some(id@))));
        assert(issues_view(issues@) =~= before + edge_issues(nv, id@, e@));
    }
}

/// Append the issues of one node.
fn check_node(nodes: &NodeMap, id: &str, n: &crate::document::Node, issues: &mut Vec<ValidationIssue>)
    ensures
        issues_view(final(issues)@) == issues_view(old(issues)@) + node_issues(nodes_view(*nodes), id@, n@),
{
    let ghost nv = nodes_view(*nodes);
    let ghost before = issues_view(issues@);
    match &n.parent {
        Some(p) => {
            match node_map_get(nodes, p) {
                None => {
                    let m = text3("Node ", id, " references non-existent parent ");
                    let mut m = m;
                    m.append(p.as_str());
                    push_issue(issues, error_of("invalid-parent", m, Some(String::from_str(id))));
                },
                Some(parent) => {
                    assert(nv[p@] == parent@);
                    match parent.kind {
                        NodeKind::Subgraph => {},
                        _ => {
                            let m = text5("Node ", id, " parent ", p.as_str(), " is not a Subgraph");
                            push_issue(issues, error_of("invalid-parent", m, Some(String::from_str(id))));
                        },
                    }
                },
            }
        },
        None => {},
    }
    let ghost after_parent = issues_view(issues@);
    assert(after_parent =~= before + parent_issues(nv, id@, n@));
    if !n.x.is_finite() || !n.y.is_finite() {
        let m = text3("Node ", id, " has non-finite coordinates");
        push_issue(issues, error_of("invalid-numeric", m, Some(String::from_str(id))));
    }
    let ghost after_coords = issues_view(issues@);
    assert(after_coords =~= after_parent + issue_if(bad_coordinates(n@), error_issue("invalid-numeric"@,
        "Node "@ + id@ + " has non-finite coordinates"@, Some(id@))));
    if n.width.lt_zero() || n.height.lt_zero() || !n.width.is_finite() || !n.height.is_finite() {
        let m = text3("Node ", id, " has invalid dimensions");
        push_issue(issues, error_of("invalid-numeric", m, Some(String::from_str(id))));
    }
    assert(issues_view(issues@) =~= before + node_issues(nv, id@, n@));
}

/// Validate the structural document graph and return every issue found.
///
/// Edge issues come first, then node issues, then a cycle in the edge graph; within
/// each group the items come in the order in which the maps are walked.
pub fn validate_document_data(document: &DocumentData) -> (issues: Vec<ValidationIssue>)
    ensures
        are_document_issues(*document, issues_view(issues@)),
{
    let nodes = &document.nodes;
    let edges = &document.edges;
    let ghost nv = nodes_view(*nodes);
    let ghost ev = edges_view(*edges);
    let mut issues: Vec<ValidationIssue> = Vec::new();
    let ekeys = edge_map_keys(edges);
    let ghost ek = ekeys@.map_values(|k: crate::document::EdgeId| k@);
    let mut i: usize = 0;
    assert(issues_view(issues@) =~= Seq::<IssueView>::empty());
    while i < ekeys.len()
        invariant
            i <= ekeys.len(),
            nv == nodes_view(*nodes),
            ev == edges_view(*edges),
            ek == ekeys@.map_values(|k: crate::document::EdgeId| k@),
            lists_edge_keys(ekeys@, edge_map_contents(*edges)),
            issues_view(issues@) == edges_issues(nv, ev, ek.subrange(0, i as int)),
        decreases ekeys.len() - i,
    {
        match edge_map_get(edges, &ekeys[i]) {
            Some(e) => {
                assert(ev[ek[i as int]] == e@);
                check_edge(nodes, ekeys[i].as_str(), e, &mut issues);
                assert(ek.subrange(0, i + 1).drop_last() =~= ek.subrange(0, i as int));
            },
            None => {
                assert(edge_map_contents(*edges).contains_key(ekeys@[i as int]@));
                assert(false);
            },
        }
        i = i + 1;
    }
    let nkeys = node_map_keys(nodes);
    let ghost nk = nkeys@.map_values(|k: crate::document::NodeId| k@);
    let ghost edge_part = issues_view(issues@);
    let mut j: usize = 0;
    assert(nodes_issues(nv, nk.subrange(0, 0)) =~= Seq::<IssueView>::empty());
    assert(issues_view(issues@) =~= edge_part + nodes_issues(nv, nk.subrange(0, 0)));
    while j < nkeys.len()
        invariant
            j <= nkeys.len(),
            nv == nodes_view(*nodes),
            nk == nkeys@.map_values(|k: crate::document::NodeId| k@),
            lists_node_keys(nkeys@, node_map_contents(*nodes)),
            issues_view(issues@) == edge_part + nodes_issues(nv, nk.subrange(0, j as int)),
        decreases nkeys.len() - j,
    {
        match node_map_get(nodes, &nkeys[j]) {
            Some(n) => {
                assert(nv[nk[j as int]] == n@);
                let ghost before = issues_view(issues@);
                check_node(nodes, nkeys[j].as_str(), n, &mut issues);
                assert(nk.subrange(0, j + 1).drop_last() =~= nk.subrange(0, j as int));
                assert(issues_view(issues@) =~= edge_part + nodes_issues(nv, nk.subrange(0, j + 1)));
            },
            None => {
                assert(node_map_contents(*nodes).contains_key(nkeys@[j as int]@));
                assert(false);
            },
        }
        j = j + 1;
    }
    let ghost node_part = issues_view(issues@);
    let dag = validate_dag(nodes, edges);
    match dag {
        Ok(()) => {},
        Err(CycleError::CycleDetected(_)) => {
            push_issue(&mut issues, error_of("dag-cycle", String::from_str("Document contains a cycle \u{2014} DAGs must be acyclic"), None));
        },
        Err(CycleError::DisconnectedGraph(n)) => {
            let mut m = String::from_str("Graph has ");
            let d = u64_to_decimal(n as u64);
            m.append(d.as_str());
            m.append(" disconnected components \u{2014} all nodes must be connected");
            push_issue(&mut issues, error_of("dag-disconnected", m, None));
        },
    }
    proof {
        reveal_strlit("dag-cycle");
        assert(ek.subrange(0, ekeys@.len() as int) =~= ek);
        assert(nk.subrange(0, nkeys@.len() as int) =~= nk);
        assert(issues_view(issues@) =~= node_part + dag_issues(ev));
        assert(lists_keys(ek, ev.dom())) by {
            assert forall|k: Seq<char>| ev.dom().contains(k) implies exists|i: int| 0 <= i < ek.len() && #[trigger] ek[i] == k by {
                assert(edge_map_contents(*edges).contains_key(k));
                let i = choose|i: int| 0 <= i < ekeys@.len() && #[trigger] ekeys@[i]@ == k;
                assert(ek[i] == k);
            }
        }
        assert(lists_keys(nk, nv.dom())) by {
            assert forall|k: Seq<char>| nv.dom().contains(k) implies exists|i: int| 0 <= i < nk.len() && #[trigger] nk[i] == k by {
                assert(node_map_contents(*nodes).contains_key(k));
                let i = choose|i: int| 0 <= i < nkeys@.len() && #[trigger] nkeys@[i]@ == k;
                assert(nk[i] == k);
            }
        }
        assert(issues_view(issues@) == document_issues(nv, ev, ek, nk));
    }
    issues
}

/// Validate a document: the issues of its structural graph; editor state is ignored.
pub fn validate_document(doc: &DiagramDocument) -> (issues: Vec<ValidationIssue>)
    ensures
        are_document_issues(doc.document, issues_view(issues@)),
{
    validate_document_data(&doc.document)
}

/// Every issue of the listed edges is an error.
proof fn lemma_edge_issues_are_errors(nodes: Map<Seq<char>, NodeView>, edges: Map<Seq<char>, EdgeView>, ks: Seq<Seq<char>>)
    ensures
        forall|i: int| 0 <= i < edges_issues(nodes, edges, ks).len() ==> {
            &&& (#[trigger] edges_issues(nodes, edges, ks)[i]).severity == ValidationSeverity::Error
            &&& edges_issues(nodes, edges, ks)[i].code == "edge-dangling"@
            &&& edges_issues(nodes, edges, ks)[i].subject is Some
        },
    decreases ks.len(),
{
    if ks.len() > 0 {
        lemma_edge_issues_are_errors(nodes, edges, ks.drop_last());
        let a = edges_issues(nodes, edges, ks.drop_last());
        let b = edge_issues(nodes, ks.last(), edges[ks.last()]);
        assert forall|i: int| 0 <= i < (a + b).len() implies {
            &&& (#[trigger] (a + b)[i]).severity == ValidationSeverity::Error
            &&& (a + b)[i].code == "edge-dangling"@
            &&& (a + b)[i].subject is Some
        } by {
            if i < a.len() {
                assert((a + b)[i] == a[i]);
            } else {
                let e = edges[ks.last()];
                let b1 = issue_if(!nodes.contains_key(e.source), error_issue("edge-dangling"@,
                    "Edge "@ + ks.last() + " source '"@ + e.source + "' does not exist"@, Some(ks.last())));
                let b2 = issue_if(!nodes.contains_key(e.target), error_issue("edge-dangling"@,
                    "Edge "@ + ks.last() + " target '"@ + e.target + "' does not exist"@, Some(ks.last())));
                assert(b == b1 + b2);
                if i - a.len() < b1.len() {
                    assert(b[i - a.len()] == b1[i - a.len()]);
                } else {
                    assert(b[i - a.len()] == b2[i - a.len() - b1.len()]);
                }
            }
        }
    }
}

/// Every issue of the listed nodes is an error.
proof fn lemma_node_issues_are_errors(nodes: Map<Seq<char>, NodeView>, ks: Seq<Seq<char>>)
    ensures
        forall|i: int| 0 <= i < nodes_issues(nodes, ks).len() ==> {
            &&& (#[trigger] nodes_issues(nodes, ks)[i]).severity == ValidationSeverity::Error
            &&& nodes_issues(nodes, ks)[i].code != "edge-dangling"@
            &&& nodes_issues(nodes, ks)[i].subject is Some
        },
    decreases ks.len(),
{
    lemma_codes_differ();
    if ks.len() > 0 {
        lemma_node_issues_are_errors(nodes, ks.drop_last());
        let a = nodes_issues(nodes, ks.drop_last());
        let id = ks.last();
        let n = nodes[id];
        let b1 = parent_issues(nodes, id, n);
        let b2 = issue_if(bad_coordinates(n), error_issue("invalid-numeric"@, "Node "@ + id + " has non-finite coordinates"@, Some(id)));
        let b3 = issue_if(bad_dimensions(n), error_issue("invalid-numeric"@, "Node "@ + id + " has invalid dimensions"@, Some(id)));
        let b = node_issues(nodes, id, n);
        assert(b == b1 + b2 + b3);
        assert forall|i: int| 0 <= i < (a + b).len() implies {
            &&& (#[trigger] (a + b)[i]).severity == ValidationSeverity::Error
            &&& (a + b)[i].code != "edge-dangling"@
            &&& (a + b)[i].subject is Some
        } by {
            if i < a.len() {
                assert((a + b)[i] == a[i]);
            } else {
                let j = i - a.len();
                if j < b1.len() {
                    assert((b1 + b2 + b3)[j] == b1[j]);
                } else if j < b1.len() + b2.len() {
                    assert((b1 + b2 + b3)[j] == b2[j - b1.len()]);
                } else {
                    assert((b1 + b2 + b3)[j] == b3[j - b1.len() - b2.len()]);
                }
            }
        }
    }
}

/// Validation reports errors only: every issue it finds has the error severity.
pub proof fn lemma_document_issues_are_errors(d: DocumentData, issues: Seq<IssueView>)
    requires
        are_document_issues(d, issues),
    ensures
        forall|i: int| 0 <= i < issues.len() ==> #[trigger] issues[i].severity == ValidationSeverity::Error,
{
    let (ek, nk) = choose|ek: Seq<Seq<char>>, nk: Seq<Seq<char>>|
        #![trigger document_issues(nodes_view(d.nodes), edges_view(d.edges), ek, nk)]
        lists_keys(ek, edges_view(d.edges).dom()) && lists_keys(nk, nodes_view(d.nodes).dom())
            && issues == document_issues(nodes_view(d.nodes), edges_view(d.edges), ek, nk);
    let nv = nodes_view(d.nodes);
    let ev = edges_view(d.edges);
    lemma_edge_issues_are_errors(nv, ev, ek);
    lemma_node_issues_are_errors(nv, nk);
    let a = edges_issues(nv, ev, ek);
    let b = nodes_issues(nv, nk);
    let c = dag_issues(ev);
    assert forall|i: int| 0 <= i < issues.len() implies #[trigger] issues[i].severity == ValidationSeverity::Error by {
        if i < a.len() {
            assert(issues[i] == a[i]);
        } else if i < a.len() + b.len() {
            assert(issues[i] == b[i - a.len()]);
        } else {
            assert(issues[i] == c[i - a.len() - b.len()]);
        }
    }
}

/// How many of `issues` carry the code `code` and the subject `subject`.
pub open spec fn count_issues(issues: Seq<IssueView>, code: Seq<char>, subject: Option<Seq<char>>) -> nat
    decreases issues.len(),
{
    if issues.len() == 0 {
        0
    } else {
        count_issues(issues.drop_last(), code, subject)
            + if issues.last().code == code && issues.last().subject == subject { 1nat } else { 0nat }
    }
}

/// One for a condition that holds, zero otherwise.
pub open spec fn one_if(b: bool) -> nat {
    if b { 1 } else { 0 }
}

/// The number of ends of an edge that name no node.
pub open spec fn dangling_ends(nodes: Map<Seq<char>, NodeView>, e: EdgeView) -> nat {
    one_if(!nodes.contains_key(e.source)) + one_if(!nodes.contains_key(e.target))
}

/// The parent of a node is named but is missing or is not a subgraph.
pub open spec fn bad_parent(nodes: Map<Seq<char>, NodeView>, n: NodeView) -> bool {
    match n.parent {
        Some(p) => !nodes.contains_key(p) || nodes[p].kind != NodeKind::Subgraph,
        None => false,
    }
}

/// How many issues with the code `code` one edge raises about itself.
pub open spec fn edge_code_count(nodes: Map<Seq<char>, NodeView>, e: EdgeView, code: Seq<char>) -> nat {
    if code == "edge-dangling"@ { dangling_ends(nodes, e) } else { 0 }
}

/// How many issues with the code `code` one node raises about itself.
pub open spec fn node_code_count(nodes: Map<Seq<char>, NodeView>, n: NodeView, code: Seq<char>) -> nat {
    (if code == "invalid-parent"@ { one_if(bad_parent(nodes, n)) } else { 0 })
        + (if code == "invalid-numeric"@ { one_if(bad_coordinates(n)) + one_if(bad_dimensions(n)) } else { 0 })
}

proof fn lemma_codes_differ()
    ensures
        "edge-dangling"@ != "invalid-parent"@,
        "edge-dangling"@ != "invalid-numeric"@,
        "invalid-parent"@ != "invalid-numeric"@,
        "dag-cycle"@ != "edge-dangling"@,
{
    reveal_strlit("edge-dangling");
    reveal_strlit("invalid-parent");
    reveal_strlit("invalid-numeric");
    reveal_strlit("dag-cycle");
    assert("edge-dangling"@[0] != "invalid-parent"@[0]);
    assert("edge-dangling"@[0] != "invalid-numeric"@[0]);
    assert("invalid-parent"@.len() != "invalid-numeric"@.len());
    assert("dag-cycle"@.len() != "edge-dangling"@.len());
}

proof fn lemma_count_concat(a: Seq<IssueView>, b: Seq<IssueView>, code: Seq<char>, subject: Option<Seq<char>>)
    ensures
        count_issues(a + b, code, subject) == count_issues(a, code, subject) + count_issues(b, code, subject),
    decreases b.len(),
{
    if b.len() == 0 {
        assert(a + b =~= a);
    } else {
        lemma_count_concat(a, b.drop_last(), code, subject);
        assert((a + b).drop_last() =~= a + b.drop_last());
        assert((a + b).last() == b.last());
    }
}

proof fn lemma_count_issue_if(c: bool, x: IssueView, code: Seq<char>, subject: Option<Seq<char>>)
    ensures
        count_issues(issue_if(c, x), code, subject) == one_if(c && x.code == code && x.subject == subject),
{
    if c {
        assert(seq![x].drop_last() =~= Seq::<IssueView>::empty());
        assert(count_issues(Seq::<IssueView>::empty(), code, subject) == 0);
    } else {
        assert(count_issues(Seq::<IssueView>::empty(), code, subject) == 0);
    }
}

proof fn lemma_edge_issue_count(nodes: Map<Seq<char>, NodeView>, id: Seq<char>, e: EdgeView, code: Seq<char>, k: Seq<char>)
    ensures
        count_issues(edge_issues(nodes, id, e), code, Some(k))
            == if id == k { edge_code_count(nodes, e, code) } else { 0 },
{
    let x1 = error_issue("edge-dangling"@, "Edge "@ + id + " source '"@ + e.source + "' does not exist"@, Some(id));
    let x2 = error_issue("edge-dangling"@, "Edge "@ + id + " target '"@ + e.target + "' does not exist"@, Some(id));
    lemma_count_concat(issue_if(!nodes.contains_key(e.source), x1), issue_if(!nodes.contains_key(e.target), x2), code, Some(k));
    lemma_count_issue_if(!nodes.contains_key(e.source), x1, code, Some(k));
    lemma_count_issue_if(!nodes.contains_key(e.target), x2, code, Some(k));
}

proof fn lemma_node_issue_count(nodes: Map<Seq<char>, NodeView>, id: Seq<char>, n: NodeView, code: Seq<char>, k: Seq<char>)
    ensures
        count_issues(node_issues(nodes, id, n), code, Some(k))
            == if id == k { node_code_count(nodes, n, code) } else { 0 },
{
    lemma_codes_differ();
    let p = parent_issues(nodes, id, n);
    let x2 = error_issue("invalid-numeric"@, "Node "@ + id + " has non-finite coordinates"@, Some(id));
    let x3 = error_issue("invalid-numeric"@, "Node "@ + id + " has invalid dimensions"@, Some(id));
    let b2 = issue_if(bad_coordinates(n), x2);
    let b3 = issue_if(bad_dimensions(n), x3);
    lemma_count_concat(p + b2, b3, code, Some(k));
    lemma_count_concat(p, b2, code, Some(k));
    lemma_count_issue_if(bad_coordinates(n), x2, code, Some(k));
    lemma_count_issue_if(bad_dimensions(n), x3, code, Some(k));
    assert(count_issues(p, code, Some(k)) == if id == k && code == "invalid-parent"@ { one_if(bad_parent(nodes, n)) } else { 0 }) by {
        match n.parent {
            Some(q) => {
                if !nodes.contains_key(q) {
                    let x = error_issue("invalid-parent"@, "Node "@ + id + " references non-existent parent "@ + q, Some(id));
                    assert(p == issue_if(true, x));
                    lemma_count_issue_if(true, x, code, Some(k));
                } else if nodes[q].kind != NodeKind::Subgraph {
                    let x = error_issue("invalid-parent"@, "Node "@ + id + " parent "@ + q + " is not a Subgraph"@, Some(id));
                    assert(p == issue_if(true, x));
                    lemma_count_issue_if(true, x, code, Some(k));
                } else {
                    assert(p == Seq::<IssueView>::empty());
                }
            },
            None => {
                assert(p == Seq::<IssueView>::empty());
            },
        }
    }
}

/// `ks` has no element twice.
pub open spec fn distinct_keys(ks: Seq<Seq<char>>) -> bool {
    forall|i: int, j: int| 0 <= i < j < ks.len() ==> ks[i] != ks[j]
}

proof fn lemma_distinct_drop_last(ks: Seq<Seq<char>>, k: Seq<char>)
    requires
        ks.len() > 0,
        distinct_keys(ks),
    ensures
        distinct_keys(ks.drop_last()),
        ks.contains(k) <==> (ks.drop_last().contains(k) || ks.last() == k),
        ks.last() == k ==> !ks.drop_last().contains(k),
{
    let d = ks.drop_last();
    if ks.contains(k) {
        let i = choose|i: int| 0 <= i < ks.len() && ks[i] == k;
        if i < ks.len() - 1 {
            assert(d[i] == k);
        }
    }
    if d.contains(k) {
        let i = choose|i: int| 0 <= i < d.len() && d[i] == k;
        assert(ks[i] == k);
        if ks.last() == k {
            assert(ks[i] != ks[ks.len() - 1]);
        }
    }
    if ks.last() == k {
        assert(ks[ks.len() - 1] == k);
    }
}

proof fn lemma_edges_issue_count(nodes: Map<Seq<char>, NodeView>, edges: Map<Seq<char>, EdgeView>, ks: Seq<Seq<char>>, code: Seq<char>, k: Seq<char>)
    requires
        distinct_keys(ks),
    ensures
        count_issues(edges_issues(nodes, edges, ks), code, Some(k))
            == if ks.contains(k) { edge_code_count(nodes, edges[k], code) } else { 0 },
    decreases ks.len(),
{
    if ks.len() == 0 {
    } else {
        lemma_distinct_drop_last(ks, k);
        lemma_edges_issue_count(nodes, edges, ks.drop_last(), code, k);
        lemma_count_concat(edges_issues(nodes, edges, ks.drop_last()), edge_issues(nodes, ks.last(), edges[ks.last()]), code, Some(k));
        lemma_edge_issue_count(nodes, ks.last(), edges[ks.last()], code, k);
    }
}

proof fn lemma_nodes_issue_count(nodes: Map<Seq<char>, NodeView>, ks: Seq<Seq<char>>, code: Seq<char>, k: Seq<char>)
    requires
        distinct_keys(ks),
    ensures
        count_issues(nodes_issues(nodes, ks), code, Some(k))
            == if ks.contains(k) { node_code_count(nodes, nodes[k], code) } else { 0 },
    decreases ks.len(),
{
    if ks.len() == 0 {
    } else {
        lemma_distinct_drop_last(ks, k);
        lemma_nodes_issue_count(nodes, ks.drop_last(), code, k);
        lemma_count_concat(nodes_issues(nodes, ks.drop_last()), node_issues(nodes, ks.last(), nodes[ks.last()]), code, Some(k));
        lemma_node_issue_count(nodes, ks.last(), nodes[ks.last()], code, k);
    }
}

/// What validation reports about one subject, code by code: the issues of an edge
/// about its own ends, and those of a node about its parent and its numbers.
pub proof fn lemma_issue_count(d: DocumentData, issues: Seq<IssueView>, code: Seq<char>, k: Seq<char>)
    requires
        are_document_issues(d, issues),
    ensures
        count_issues(issues, code, Some(k))
            == (if edges_view(d.edges).contains_key(k) { edge_code_count(nodes_view(d.nodes), edges_view(d.edges)[k], code) } else { 0 })
            + (if nodes_view(d.nodes).contains_key(k) { node_code_count(nodes_view(d.nodes), nodes_view(d.nodes)[k], code) } else { 0 }),
{
    let nv = nodes_view(d.nodes);
    let ev = edges_view(d.edges);
    let (ek, nk) = choose|ek: Seq<Seq<char>>, nk: Seq<Seq<char>>|
        #![trigger document_issues(nodes_view(d.nodes), edges_view(d.edges), ek, nk)]
        lists_keys(ek, edges_view(d.edges).dom()) && lists_keys(nk, nodes_view(d.nodes).dom())
            && issues == document_issues(nodes_view(d.nodes), edges_view(d.edges), ek, nk);
    lemma_edges_issue_count(nv, ev, ek, code, k);
    lemma_nodes_issue_count(nv, nk, code, k);
    let a = edges_issues(nv, ev, ek);
    let b = nodes_issues(nv, nk);
    let c = dag_issues(ev);
    lemma_count_concat(a + b, c, code, Some(k));
    lemma_count_concat(a, b, code, Some(k));
    lemma_count_issue_if(!is_acyclic(ev), error_issue("dag-cycle"@, cycle_issue_message(), None), code, Some(k));
    assert(ek.contains(k) <==> ev.dom().contains(k)) by {
        if ev.dom().contains(k) {
            let i = choose|i: int| 0 <= i < ek.len() && #[trigger] ek[i] == k;
            assert(ek[i] == k);
        }
    }
    assert(nk.contains(k) <==> nv.dom().contains(k)) by {
        if nv.dom().contains(k) {
            let i = choose|i: int| 0 <= i < nk.len() && #[trigger] nk[i] == k;
            assert(nk[i] == k);
        }
    }
}

/// Each edge gets one dangling-edge issue per end that names no node, and nothing
/// else carries that code under its id.
pub proof fn lemma_dangling_issue_count(d: DocumentData, issues: Seq<IssueView>, k: Seq<char>)
    requires
        are_document_issues(d, issues),
    ensures
        count_issues(issues, "edge-dangling"@, Some(k))
            == if edges_view(d.edges).contains_key(k) { dangling_ends(nodes_view(d.nodes), edges_view(d.edges)[k]) } else { 0 },
{
    lemma_codes_differ();
    lemma_issue_count(d, issues, "edge-dangling"@, k);
}

/// Each node gets exactly one parent issue when its parent is missing or is not a
/// subgraph, and none otherwise.
pub proof fn lemma_parent_issue_count(d: DocumentData, issues: Seq<IssueView>, k: Seq<char>)
    requires
        are_document_issues(d, issues),
    ensures
        count_issues(issues, "invalid-parent"@, Some(k))
            == if nodes_view(d.nodes).contains_key(k) { one_if(bad_parent(nodes_view(d.nodes), nodes_view(d.nodes)[k])) } else { 0 },
{
    lemma_codes_differ();
    lemma_issue_count(d, issues, "invalid-parent"@, k);
}

/// Each node gets one numeric issue for coordinates that are not finite and one for
/// dimensions that are negative or not finite.
pub proof fn lemma_numeric_issue_count(d: DocumentData, issues: Seq<IssueView>, k: Seq<char>)
    requires
        are_document_issues(d, issues),
    ensures
        count_issues(issues, "invalid-numeric"@, Some(k))
            == if nodes_view(d.nodes).contains_key(k) {
                one_if(bad_coordinates(nodes_view(d.nodes)[k])) + one_if(bad_dimensions(nodes_view(d.nodes)[k]))
            } else { 0 },
{
    lemma_codes_differ();
    lemma_issue_count(d, issues, "invalid-numeric"@, k);
}

/// The order of the issues: the dangling-edge issues come first; every issue but a
/// cycle issue names its subject; and a cycle issue, raised exactly when the edge
/// graph has a cycle, comes last.
pub proof fn lemma_issue_order(d: DocumentData, issues: Seq<IssueView>)
    requires
        are_document_issues(d, issues),
    ensures
        forall|i: int| 0 <= i < issues.len() ==>
            ((#[trigger] issues[i]).subject is None <==> (!is_acyclic(edges_view(d.edges)) && i == issues.len() - 1)),
        !is_acyclic(edges_view(d.edges)) ==> issues.len() > 0
            && issues.last() == error_issue("dag-cycle"@, cycle_issue_message(), None),
        forall|i: int, j: int| 0 <= i < j < issues.len() && (#[trigger] issues[j]).code == "edge-dangling"@
            ==> (#[trigger] issues[i]).code == "edge-dangling"@,
{
    lemma_codes_differ();
    let (ek, nk) = choose|ek: Seq<Seq<char>>, nk: Seq<Seq<char>>|
        #![trigger document_issues(nodes_view(d.nodes), edges_view(d.edges), ek, nk)]
        lists_keys(ek, edges_view(d.edges).dom()) && lists_keys(nk, nodes_view(d.nodes).dom())
            && issues == document_issues(nodes_view(d.nodes), edges_view(d.edges), ek, nk);
    let nv = nodes_view(d.nodes);
    let ev = edges_view(d.edges);
    lemma_edge_issues_are_errors(nv, ev, ek);
    lemma_node_issues_are_errors(nv, nk);
    let a = edges_issues(nv, ev, ek);
    let b = nodes_issues(nv, nk);
    let c = dag_issues(ev);
    assert forall|i: int| 0 <= i < issues.len() implies
        (i < a.len() ==> issues[i] == a[i])
        && (a.len() <= i < a.len() + b.len() ==> issues[i] == b[i - a.len()])
        && (a.len() + b.len() <= i ==> issues[i] == c[i - a.len() - b.len()]) by {}
    assert forall|i: int| 0 <= i < issues.len() implies
        ((#[trigger] issues[i]).subject is None <==> (!is_acyclic(ev) && i == issues.len() - 1)) by {
        if i < a.len() {
            assert(a[i].subject is Some);
        } else if i < a.len() + b.len() {
            assert(b[i - a.len()].subject is Some);
        }
    }
    assert forall|i: int, j: int| 0 <= i < j < issues.len() && (#[trigger] issues[j]).code == "edge-dangling"@
        implies (#[trigger] issues[i]).code == "edge-dangling"@ by {
        if j < a.len() {
            assert(a[j].code == "edge-dangling"@);
        } else if j < a.len() + b.len() {
            assert(b[j - a.len()].code != "edge-dangling"@);
        }
        assert(i < a.len());
        assert(a[i].code == "edge-dangling"@);
    }
}

/// How many numeric issues validation raises about a node, read off its four numbers:
/// one when `x` or `y` is not finite, and one more when the width or the height is
/// negative or not finite. So a node with a negative or non-finite size, or
/// non-finite coordinates, is always reported, and a node with finite coordinates
/// and a finite, non-negative size never is.
pub proof fn lemma_numeric_issues_follow_geometry(d: DiagramDocument, issues: Seq<IssueView>, k: Seq<char>)
    requires
        are_document_issues(d.document, issues),
        nodes_view(d.document.nodes).contains_key(k),
    ensures
        count_issues(issues, "invalid-numeric"@, Some(k)) == ({
            let n = nodes_view(d.document.nodes)[k];
            (if !is_finite_bits(n.x) || !is_finite_bits(n.y) { 1nat } else { 0nat })
                + (if lt_zero_bits(n.width) || lt_zero_bits(n.height) || !is_finite_bits(n.width)
                    || !is_finite_bits(n.height) { 1nat } else { 0nat })
        }),
        ({
            let n = nodes_view(d.document.nodes)[k];
            lt_zero_bits(n.width) || lt_zero_bits(n.height) || !is_finite_bits(n.width) || !is_finite_bits(n.height)
                || !is_finite_bits(n.x) || !is_finite_bits(n.y)
        }) <==> count_issues(issues, "invalid-numeric"@, Some(k)) >= 1,
{
    lemma_numeric_issue_count(d.document, issues, k);
}

} // verus!
