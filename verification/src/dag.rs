//! Cycle detection on the edge graph of a diagram.
//!
//! A graph is acyclic exactly when its nodes can be ranked so that every edge
//! leads from a lower rank to a higher one. The check peels off, one node at a
//! time, a node that starts an edge but ends none of the edges left; the graph is
//! acyclic exactly when that removes every edge.

use vstd::prelude::*;

use crate::collections::{edge_map_contents, edge_map_get, edge_map_keys, EdgeMap, NodeMap};
use crate::document::{edges_view, EdgeView};
use crate::text::{str_eq, u64_to_decimal};

verus! {

/// `rank` sends every edge of `edges` upwards: its source ranks below its target.
pub open spec fn ranks_edges(edges: Map<Seq<char>, EdgeView>, rank: spec_fn(Seq<char>) -> int) -> bool {
    forall|k: Seq<char>| #[trigger] edges.contains_key(k) ==> rank(edges[k].source) < rank(edges[k].target)
}

/// The edge graph has no cycle: some ranking of the nodes sends every edge upwards.
pub open spec fn is_acyclic(edges: Map<Seq<char>, EdgeView>) -> bool {
    exists|rank: spec_fn(Seq<char>) -> int| ranks_edges(edges, rank)
}

/// The text of each string of a list.
pub open spec fn texts(v: Seq<String>) -> Seq<Seq<char>> {
    v.map_values(|s: String| s@)
}

/// Some edge of the map goes from `src` to `tgt`.
pub open spec fn is_edge_of(edges: Map<Seq<char>, EdgeView>, src: Seq<char>, tgt: Seq<char>) -> bool {
    exists|k: Seq<char>| #[trigger] edges.contains_key(k) && edges[k].source == src && edges[k].target == tgt
}

/// Parallel lists of sources and targets describe exactly the edges of a map.
pub open spec fn lists_endpoints(srcs: Seq<Seq<char>>, tgts: Seq<Seq<char>>, edges: Map<Seq<char>, EdgeView>) -> bool {
    &&& srcs.len() == tgts.len()
    &&& forall|i: int| 0 <= i < srcs.len() ==> #[trigger] is_edge_of(edges, srcs[i], tgts[i])
    &&& forall|k: Seq<char>| #[trigger] edges.contains_key(k) ==> exists|i: int| 0 <= i < srcs.len() && srcs[i] == edges[k].source && tgts[i] == edges[k].target
}

/// `rank` sends every listed edge upwards.
pub open spec fn ranks_pairs(srcs: Seq<Seq<char>>, tgts: Seq<Seq<char>>, rank: spec_fn(Seq<char>) -> int) -> bool {
    forall|i: int| 0 <= i < srcs.len() ==> rank(#[trigger] srcs[i]) < rank(tgts[i])
}

/// How many entries of a list of flags are set.
pub open spec fn count_set(a: Seq<bool>) -> nat
    decreases a.len(),
{
    if a.len() == 0 {
        0
    } else {
        count_set(a.drop_last()) + if a.last() { 1nat } else { 0nat }
    }
}

/// Why an edge graph is not a DAG.
#[derive(Clone, Debug, PartialEq, Eq)]
pub enum CycleError {
    /// Some edges lie on or behind a cycle; the number of edges that cannot be ordered.
    CycleDetected(usize),
    /// The graph falls apart into this many components.
    DisconnectedGraph(usize),
}

impl CycleError {
    /// The error's text.
    pub fn to_string(&self) -> (s: String)
        ensures
            self matches CycleError::CycleDetected(n) ==> s@ == cycle_message(n as nat),
            self matches CycleError::DisconnectedGraph(n) ==> s@ == disconnected_message(n as nat),
    {
        match self {
            CycleError::CycleDetected(n) => {
                let mut s = String::from_str("Cycle detected: ");
                let d = u64_to_decimal(*n as u64);
                s.append(d.as_str());
                s.append(" edges cannot be ordered");
                s
            },
            CycleError::DisconnectedGraph(n) => {
                let mut s = String::from_str("Graph has ");
                let d = u64_to_decimal(*n as u64);
                s.append(d.as_str());
                s.append(" disconnected components");
                s
            },
        }
    }
}

/// The text of a graph in several components.
pub open spec fn disconnected_message(n: nat) -> Seq<char> {
    "Graph has "@ + crate::text::decimal(n) + " disconnected components"@
}

/// The text of a detected cycle.
pub open spec fn cycle_message(n: nat) -> Seq<char> {
    "Cycle detected: "@ + crate::text::decimal(n) + " edges cannot be ordered"@
}

/// Counting one more entry adds it to the count.
proof fn lemma_count_push(a: Seq<bool>, b: bool)
    ensures
        count_set(a.push(b)) == count_set(a) + if b { 1nat } else { 0nat },
{
    assert(a.push(b).drop_last() =~= a);
}

/// Clearing flags that were set, at least one, lowers the count.
proof fn lemma_count_decreases(a: Seq<bool>, b: Seq<bool>, i: int)
    requires
        a.len() == b.len(),
        forall|j: int| 0 <= j < b.len() && #[trigger] b[j] ==> a[j],
        0 <= i < a.len(),
        a[i],
        !b[i],
    ensures
        count_set(b) < count_set(a),
    decreases a.len(),
{
    lemma_count_le(a.drop_last(), b.drop_last());
    if i < a.len() - 1 {
        lemma_count_decreases(a.drop_last(), b.drop_last(), i);
    }
}

/// Clearing flags never raises the count.
proof fn lemma_count_le(a: Seq<bool>, b: Seq<bool>)
    requires
        a.len() == b.len(),
        forall|j: int| 0 <= j < b.len() && #[trigger] b[j] ==> a[j],
    ensures
        count_set(b) <= count_set(a),
    decreases a.len(),
{
    if a.len() > 0 {
        lemma_count_le(a.drop_last(), b.drop_last());
    }
}

/// A count of zero means no flag is set.
proof fn lemma_count_zero(a: Seq<bool>, i: int)
    requires
        count_set(a) == 0,
        0 <= i < a.len(),
    ensures
        !a[i],
    decreases a.len(),
{
    if i < a.len() - 1 {
        lemma_count_zero(a.drop_last(), i);
    }
}

/// Among the listed edges that are still set, one has a source of least rank.
proof fn lemma_least_source(srcs: Seq<Seq<char>>, alive: Seq<bool>, rank: spec_fn(Seq<char>) -> int, i0: int) -> (m: int)
    requires
        srcs.len() == alive.len(),
        0 <= i0 < alive.len(),
        alive[i0],
    ensures
        0 <= m < alive.len(),
        alive[m],
        forall|j: int| 0 <= j < alive.len() && #[trigger] alive[j] ==> rank(srcs[m]) <= rank(srcs[j]),
    decreases alive.len(),
{
    let n = alive.len();
    if i0 == n - 1 && (forall|j: int| 0 <= j < n - 1 ==> !#[trigger] alive[j]) {
        assert forall|j: int| 0 <= j < alive.len() && #[trigger] alive[j] implies rank(srcs[i0]) <= rank(srcs[j]) by {
            if j < n - 1 {
                assert(!alive[j]);
            }
        }
        i0
    } else {
        let i1 = if i0 < n - 1 { i0 } else { choose|j: int| 0 <= j < n - 1 && #[trigger] alive[j] };
        assert(alive.drop_last()[i1] == alive[i1]);
        let m1 = lemma_least_source(srcs.drop_last(), alive.drop_last(), rank, i1);
        assert(srcs.drop_last()[m1] == srcs[m1]);
        assert(alive.drop_last()[m1] == alive[m1]);
        if alive[n - 1] && rank(srcs[n - 1]) < rank(srcs[m1]) {
            assert forall|j: int| 0 <= j < alive.len() && #[trigger] alive[j] implies rank(srcs[n - 1]) <= rank(srcs[j]) by {
                if j < n - 1 {
                    assert(alive.drop_last()[j]);
                    assert(srcs.drop_last()[j] == srcs[j]);
                }
            }
            n - 1
        } else {
            assert forall|j: int| 0 <= j < alive.len() && #[trigger] alive[j] implies rank(srcs[m1]) <= rank(srcs[j]) by {
                if j < n - 1 {
                    assert(alive.drop_last()[j]);
                    assert(srcs.drop_last()[j] == srcs[j]);
                }
            }
            m1
        }
    }
}

/// Listed edges and map edges are ranked by the same rankings.
proof fn lemma_ranks_agree(srcs: Seq<Seq<char>>, tgts: Seq<Seq<char>>, edges: Map<Seq<char>, EdgeView>, rank: spec_fn(Seq<char>) -> int)
    requires
        lists_endpoints(srcs, tgts, edges),
    ensures
        ranks_pairs(srcs, tgts, rank) <==> ranks_edges(edges, rank),
{
    if ranks_pairs(srcs, tgts, rank) {
        assert forall|k: Seq<char>| #[trigger] edges.contains_key(k) implies rank(edges[k].source) < rank(edges[k].target) by {
            let i = choose|i: int| 0 <= i < srcs.len() && srcs[i] == edges[k].source && tgts[i] == edges[k].target;
            assert(rank(srcs[i]) < rank(tgts[i]));
        }
    }
    if ranks_edges(edges, rank) {
        assert forall|i: int| 0 <= i < srcs.len() implies rank(#[trigger] srcs[i]) < rank(tgts[i]) by {
            assert(is_edge_of(edges, srcs[i], tgts[i]));
            let k = choose|k: Seq<char>| #[trigger] edges.contains_key(k) && edges[k].source == srcs[i] && edges[k].target == tgts[i];
        }
    }
}

/// Sources and targets taken edge by edge along a listing of the keys list the edges.
proof fn lemma_endpoints_listed(kv: Seq<Seq<char>>, ev: Map<Seq<char>, EdgeView>, s: Seq<Seq<char>>, t: Seq<Seq<char>>)
    requires
        s.len() == kv.len(),
        t.len() == kv.len(),
        forall|j: int| 0 <= j < kv.len() ==> #[trigger] ev.contains_key(kv[j]),
        forall|k: Seq<char>| #[trigger] ev.contains_key(k) ==> exists|j: int| 0 <= j < kv.len() && kv[j] == k,
        forall|j: int| 0 <= j < kv.len() ==> s[j] == ev[#[trigger] kv[j]].source && t[j] == ev[kv[j]].target,
    ensures
        lists_endpoints(s, t, ev),
{
    assert forall|i: int| 0 <= i < s.len() implies #[trigger] is_edge_of(ev, s[i], t[i]) by {
        assert(ev.contains_key(kv[i]));
    }
    assert forall|k: Seq<char>| #[trigger] ev.contains_key(k) implies exists|i: int| 0 <= i < s.len() && s[i] == ev[k].source && t[i] == ev[k].target by {
        let j = choose|j: int| 0 <= j < kv.len() && kv[j] == k;
        assert(ev.contains_key(kv[j]));
    }
}

/// The sources and targets of every edge of the map, in the map's order.
fn edge_endpoints(edges: &EdgeMap) -> (r: (Vec<String>, Vec<String>))
    ensures
        lists_endpoints(texts(r.0@), texts(r.1@), edges_view(*edges)),
{
    let keys = edge_map_keys(edges);
    let ghost ev = edges_view(*edges);
    let mut srcs: Vec<String> = Vec::new();
    let mut tgts: Vec<String> = Vec::new();
    let mut i: usize = 0;
    while i < keys.len()
        invariant
            i <= keys.len(),
            ev == edges_view(*edges),
            crate::collections::lists_edge_keys(keys@, edge_map_contents(*edges)),
            srcs.len() == i,
            tgts.len() == i,
            forall|j: int| 0 <= j < i ==> #[trigger] srcs@[j]@ == ev[keys@[j]@].source && tgts@[j]@ == ev[keys@[j]@].target,
        decreases keys.len() - i,
    {
        match edge_map_get(edges, &keys[i]) {
            Some(e) => {
                assert(ev[keys@[i as int]@] == e@);
                srcs.push(e.source.id.clone());
                tgts.push(e.target.id.clone());
            },
            None => {
                assert(edge_map_contents(*edges).contains_key(keys@[i as int]@));
                assert(false);
            },
        }
        i = i + 1;
    }
    proof {
        let kv = keys@.map_values(|k: crate::document::EdgeId| k@);
        assert forall|j: int| 0 <= j < kv.len() implies #[trigger] ev.contains_key(kv[j]) by {
            assert(edge_map_contents(*edges).contains_key(keys@[j]@));
        }
        assert forall|k: Seq<char>| #[trigger] ev.contains_key(k) implies exists|j: int| 0 <= j < kv.len() && kv[j] == k by {
            assert(edge_map_contents(*edges).contains_key(k));
            let j = choose|j: int| 0 <= j < keys@.len() && #[trigger] keys@[j]@ == k;
            assert(kv[j] == k);
        }
        assert forall|j: int| 0 <= j < kv.len() implies texts(srcs@)[j] == ev[#[trigger] kv[j]].source && texts(tgts@)[j] == ev[kv[j]].target by {
            assert(srcs@[j]@ == ev[keys@[j]@].source);
            assert(tgts@[j]@ == ev[keys@[j]@].target);
        }
        lemma_endpoints_listed(kv, ev, texts(srcs@), texts(tgts@));
    }
    (srcs, tgts)
}

/// Whether `v` is the target of some edge still in play.
fn is_live_target(tgts: &Vec<String>, alive: &Vec<bool>, v: &String) -> (b: bool)
    requires
        tgts.len() == alive.len(),
    ensures
        b == exists|j: int| 0 <= j < alive.len() && #[trigger] alive@[j] && tgts@[j]@ == v@,
{
    let mut j: usize = 0;
    while j < tgts.len()
        invariant
            j <= tgts.len(),
            tgts.len() == alive.len(),
            forall|k: int| 0 <= k < j ==> !(#[trigger] alive@[k] && tgts@[k]@ == v@),
        decreases tgts.len() - j,
    {
        if alive[j] && str_eq(tgts[j].as_str(), v.as_str()) {
            return true;
        }
        j = j + 1;
    }
    false
}

/// What holds while edges are peeled off: `alive` marks the edges still in play,
/// `removed` gives each peeled node the step at which it went, and every step so far
/// is below `step`. Each peeled edge goes from a node peeled earlier than its target
/// (if the target went at all); an edge in play touches no peeled node.
pub open spec fn peel_state(s: Seq<Seq<char>>, t: Seq<Seq<char>>, alive: Seq<bool>, removed: Map<Seq<char>, int>, step: int) -> bool {
    &&& s.len() == t.len()
    &&& alive.len() == s.len()
    &&& forall|j: int| 0 <= j < s.len() && !(#[trigger] alive[j]) ==> removed.contains_key(s[j])
        && (removed.contains_key(t[j]) ==> removed[s[j]] < removed[t[j]])
    &&& forall|j: int| 0 <= j < s.len() && #[trigger] alive[j] ==> !removed.contains_key(s[j]) && !removed.contains_key(t[j])
    &&& forall|v: Seq<char>| #[trigger] removed.contains_key(v) ==> removed[v] < step
}

/// Some edge in play ends where edge `m` starts.
pub open spec fn entered(s: Seq<Seq<char>>, t: Seq<Seq<char>>, alive: Seq<bool>, m: int) -> bool {
    exists|j: int| 0 <= j < alive.len() && #[trigger] alive[j] && t[j] == s[m]
}

/// Every edge in play starts at a node that some edge in play ends at.
pub open spec fn stuck(s: Seq<Seq<char>>, t: Seq<Seq<char>>, alive: Seq<bool>) -> bool {
    forall|m: int| 0 <= m < alive.len() && alive[m] ==> #[trigger] entered(s, t, alive, m)
}

/// Peeling node `v`, the source of edge `f` which no edge in play ends at, keeps the
/// peeling state.
proof fn lemma_peel_step(s: Seq<Seq<char>>, t: Seq<Seq<char>>, before: Seq<bool>, after: Seq<bool>, removed: Map<Seq<char>, int>, step: int, f: int)
    requires
        peel_state(s, t, before, removed, step),
        0 <= f < s.len(),
        before[f],
        !exists|j: int| 0 <= j < s.len() && #[trigger] before[j] && t[j] == s[f],
        after.len() == before.len(),
        forall|m: int| 0 <= m < s.len() && #[trigger] after[m] ==> before[m] && s[m] != s[f],
        forall|m: int| 0 <= m < s.len() && before[m] && !(#[trigger] after[m]) ==> s[m] == s[f],
    ensures
        peel_state(s, t, after, removed.insert(s[f], step), step + 1),
        count_set(after) < count_set(before),
{
    let v = s[f];
    let r2 = removed.insert(v, step);
    assert(!after[f]);
    lemma_count_decreases(before, after, f);
    assert forall|m: int| 0 <= m < s.len() && !(#[trigger] after[m]) implies r2.contains_key(s[m])
        && (r2.contains_key(t[m]) ==> r2[s[m]] < r2[t[m]]) by {
        if before[m] {
            if t[m] == v {
                assert(before[m] && t[m] == s[f]);
            }
        }
    }
    assert forall|m: int| 0 <= m < s.len() && #[trigger] after[m] implies !r2.contains_key(s[m]) && !r2.contains_key(t[m]) by {
        assert(before[m]);
        if t[m] == v {
            assert(before[m] && t[m] == s[f]);
        }
    }
}

/// When every edge is peeled, ranking each node by its step (and the others above
/// them all) sends every edge upwards.
proof fn lemma_peeled_ranks(s: Seq<Seq<char>>, t: Seq<Seq<char>>, alive: Seq<bool>, removed: Map<Seq<char>, int>, step: int)
    requires
        peel_state(s, t, alive, removed, step),
        count_set(alive) == 0,
    ensures
        exists|rank: spec_fn(Seq<char>) -> int| ranks_pairs(s, t, rank),
{
    let rank = |v: Seq<char>| if removed.contains_key(v) { removed[v] } else { step };
    assert forall|j: int| 0 <= j < s.len() implies rank(#[trigger] s[j]) < rank(t[j]) by {
        lemma_count_zero(alive, j);
    }
    assert(ranks_pairs(s, t, rank));
}

/// When edges are left and every one starts where another ends, no ranking exists:
/// the edge whose source ranks least would have an edge coming into it from below.
proof fn lemma_stuck_unranked(s: Seq<Seq<char>>, t: Seq<Seq<char>>, alive: Seq<bool>)
    requires
        s.len() == t.len(),
        alive.len() == s.len(),
        stuck(s, t, alive),
        count_set(alive) != 0,
    ensures
        !exists|rank: spec_fn(Seq<char>) -> int| ranks_pairs(s, t, rank),
{
    if !(exists|i0: int| 0 <= i0 < alive.len() && #[trigger] alive[i0]) {
        lemma_count_all_clear(alive);
    }
    let i0 = choose|i0: int| 0 <= i0 < alive.len() && #[trigger] alive[i0];
    if exists|rank: spec_fn(Seq<char>) -> int| ranks_pairs(s, t, rank) {
        let rank = choose|rank: spec_fn(Seq<char>) -> int| ranks_pairs(s, t, rank);
        let m = lemma_least_source(s, alive, rank, i0);
        assert(alive[m]);
        assert(entered(s, t, alive, m));
        let j = choose|j: int| 0 <= j < alive.len() && #[trigger] alive[j] && t[j] == s[m];
        assert(rank(s[j]) < rank(t[j]));
        assert(rank(s[m]) <= rank(s[j]));
    }
}

/// An edge in play whose source no edge in play ends at, if there is one.
fn find_peelable(srcs: &Vec<String>, tgts: &Vec<String>, alive: &Vec<bool>) -> (found: Option<usize>)
    requires
        srcs.len() == tgts.len(),
        alive.len() == srcs.len(),
    ensures
        found matches Some(f) ==> f < srcs.len() && alive@[f as int]
            && !exists|j: int| 0 <= j < srcs.len() && #[trigger] alive@[j] && texts(tgts@)[j] == texts(srcs@)[f as int],
        found is None ==> stuck(texts(srcs@), texts(tgts@), alive@),
{
    let ghost s = texts(srcs@);
    let ghost t = texts(tgts@);
    let len = srcs.len();
    let mut k: usize = 0;
    while k < len
        invariant
            k <= len,
            len == srcs.len(),
            len == tgts.len(),
            alive.len() == len,
            s == texts(srcs@),
            t == texts(tgts@),
            forall|m: int| 0 <= m < k && alive@[m] ==> #[trigger] entered(s, t, alive@, m),
        decreases len - k,
    {
        if alive[k] {
            let targeted = is_live_target(tgts, alive, &srcs[k]);
            if !targeted {
                proof {
                    assert forall|j: int| 0 <= j < len && #[trigger] alive@[j] implies t[j] != s[k as int] by {
                        assert(t[j] == tgts@[j]@);
                    }
                }
                return Some(k);
            }
            proof {
                let j = choose|j: int| 0 <= j < alive.len() && #[trigger] alive@[j] && tgts@[j]@ == srcs@[k as int]@;
                assert(t[j] == s[k as int]);
                assert(entered(s, t, alive@, k as int));
            }
        }
        k = k + 1;
    }
    None
}

/// Take out of play every edge in play whose source is `srcs[f]`.
fn peel_source(srcs: &Vec<String>, alive: &mut Vec<bool>, f: usize)
    requires
        f < srcs.len(),
        old(alive).len() == srcs.len(),
    ensures
        final(alive).len() == old(alive).len(),
        forall|m: int| 0 <= m < srcs.len() && #[trigger] final(alive)@[m] ==> old(alive)@[m] && texts(srcs@)[m] != texts(srcs@)[f as int],
        forall|m: int| 0 <= m < srcs.len() && old(alive)@[m] && !(#[trigger] final(alive)@[m]) ==> texts(srcs@)[m] == texts(srcs@)[f as int],
{
    let ghost s = texts(srcs@);
    let ghost before = alive@;
    let len = srcs.len();
    let mut j: usize = 0;
    while j < len
        invariant
            j <= len,
            len == srcs.len(),
            f < len,
            s == texts(srcs@),
            alive.len() == len,
            before.len() == len,
            forall|m: int| 0 <= m < len && #[trigger] alive@[m] ==> before[m],
            forall|m: int| 0 <= m < j ==> !(#[trigger] alive@[m] && s[m] == s[f as int]),
            forall|m: int| j <= m < len ==> #[trigger] alive@[m] == before[m],
            forall|m: int| 0 <= m < len && before[m] && !(#[trigger] alive@[m]) ==> s[m] == s[f as int],
        decreases len - j,
    {
        if alive[j] && str_eq(srcs[j].as_str(), srcs[f].as_str()) {
            alive.set(j, false);
        }
        j = j + 1;
    }
}

/// How many of the flags are set.
fn count_alive(alive: &Vec<bool>) -> (count: usize)
    ensures
        count == count_set(alive@),
{
    let mut count: usize = 0;
    let mut i: usize = 0;
    while i < alive.len()
        invariant
            i <= alive.len(),
            count == count_set(alive@.subrange(0, i as int)),
            count <= i,
        decreases alive.len() - i,
    {
        proof {
            assert(alive@.subrange(0, i + 1) =~= alive@.subrange(0, i as int).push(alive@[i as int]));
            lemma_count_push(alive@.subrange(0, i as int), alive@[i as int]);
        }
        if alive[i] {
            count = count + 1;
        }
        i = i + 1;
    }
    assert(alive@.subrange(0, alive.len() as int) =~= alive@);
    count
}

/// The number of listed edges that are left once every edge that can be ordered is
/// peeled off: zero exactly when the listed edges have a ranking.
fn unordered_edges(srcs: &Vec<String>, tgts: &Vec<String>) -> (n: usize)
    requires
        srcs.len() == tgts.len(),
    ensures
        n == 0 <==> exists|rank: spec_fn(Seq<char>) -> int| ranks_pairs(texts(srcs@), texts(tgts@), rank),
{
    let ghost s = texts(srcs@);
    let ghost t = texts(tgts@);
    let len = srcs.len();
    let mut alive: Vec<bool> = Vec::new();
    let mut i: usize = 0;
    while i < len
        invariant
            i <= len,
            alive.len() == i,
            forall|j: int| 0 <= j < i ==> #[trigger] alive@[j],
        decreases len - i,
    {
        alive.push(true);
        i = i + 1;
    }
    let ghost mut removed: Map<Seq<char>, int> = Map::empty();
    let ghost mut step: int = 0;
    loop
        invariant
            len == srcs.len(),
            len == tgts.len(),
            s == texts(srcs@),
            t == texts(tgts@),
            peel_state(s, t, alive@, removed, step),
        ensures
            peel_state(s, t, alive@, removed, step),
            stuck(s, t, alive@),
        decreases count_set(alive@),
    {
        match find_peelable(srcs, tgts, &alive) {
            None => {
                break;
            },
            Some(f) => {
                let ghost before = alive@;
                peel_source(srcs, &mut alive, f);
                proof {
                    lemma_peel_step(s, t, before, alive@, removed, step, f as int);
                    removed = removed.insert(s[f as int], step);
                    step = step + 1;
                }
            },
        }
    }
    let count = count_alive(&alive);
    proof {
        if count == 0 {
            lemma_peeled_ranks(s, t, alive@, removed, step);
        } else {
            lemma_stuck_unranked(s, t, alive@);
        }
    }
    count
}

/// A list with no flag set counts zero.
proof fn lemma_count_all_clear(a: Seq<bool>)
    requires
        forall|j: int| 0 <= j < a.len() ==> !#[trigger] a[j],
    ensures
        count_set(a) == 0,
    decreases a.len(),
{
    if a.len() > 0 {
        lemma_count_all_clear(a.drop_last());
    }
}

/// Check that the edge graph is a DAG. Nodes without edges are always fine.
pub fn validate_dag(nodes: &NodeMap, edges: &EdgeMap) -> (r: Result<(), CycleError>)
    ensures
        r is Ok <==> is_acyclic(edges_view(*edges)),
        r matches Err(e) ==> e matches CycleError::CycleDetected(n) && n > 0,
{
    let (srcs, tgts) = edge_endpoints(edges);
    let n = unordered_edges(&srcs, &tgts);
    proof {
        let ev = edges_view(*edges);
        if n == 0 {
            let rank = choose|rank: spec_fn(Seq<char>) -> int| ranks_pairs(texts(srcs@), texts(tgts@), rank);
            lemma_ranks_agree(texts(srcs@), texts(tgts@), ev, rank);
        } else {
            assert forall|rank: spec_fn(Seq<char>) -> int| !ranks_edges(ev, rank) by {
                lemma_ranks_agree(texts(srcs@), texts(tgts@), ev, rank);
            }
        }
    }
    if n == 0 {
        Ok(())
    } else {
        Err(CycleError::CycleDetected(n))
    }
}

} // verus!
