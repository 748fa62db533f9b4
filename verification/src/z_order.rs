//! Z-order (layering) operations on a projection.
//!
//! Every z-order operation lists all nodes by ascending `z_index` (nodes with equal
//! indices come in the map's iteration order, which is unspecified), rearranges the
//! list, and then numbers the nodes consecutively from the smallest index present.

use vstd::prelude::*;

use crate::collections::{lists_node_keys, node_map_contents, node_map_get, node_map_insert, node_map_keys, node_map_remove};
use crate::document::{lemma_nodes_view_insert, lemma_nodes_view_remove, nodes_view, NodeId, NodeView};
use crate::projection::{DiagramProjection, ProjectionView, ReplayError, ReplayErrorView};

verus! {

/// The four z-order operations.
#[derive(Clone, Copy, Debug, PartialEq, Eq, Structural)]
pub enum ZMove {
    BringForward,
    SendBackward,
    BringToFront,
    SendToBack,
}

/// The identifiers of a list of node identifiers.
pub open spec fn ids_view(v: Seq<NodeId>) -> Seq<Seq<char>> {
    v.map_values(|id: NodeId| id@)
}

/// The texts of a list of strings.
pub open spec fn strings_text(v: Seq<String>) -> Seq<Seq<char>> {
    v.map_values(|s: String| s@)
}

/// `order` lists every node once, by ascending `z_index`.
pub open spec fn z_sorted_listing(order: Seq<Seq<char>>, nodes: Map<Seq<char>, NodeView>) -> bool {
    &&& forall|i: int| 0 <= i < order.len() ==> nodes.contains_key(#[trigger] order[i])
    &&& forall|i: int, j: int| 0 <= i < j < order.len() ==> order[i] != order[j]
    &&& forall|k: Seq<char>| nodes.contains_key(k) ==> order.contains(k)
    &&& forall|i: int, j: int| 0 <= i < j < order.len() ==> nodes[order[i]].z_index <= nodes[order[j]].z_index
}

/// Length of the longest prefix of `s` whose elements are all in `sel`.
pub open spec fn selected_run(s: Seq<Seq<char>>, sel: Set<Seq<char>>) -> nat
    decreases s.len(),
{
    if s.len() == 0 || !sel.contains(s[0]) {
        0
    } else {
        1 + selected_run(s.drop_first(), sel)
    }
}

/// A run of selected nodes is no longer than the listing it starts.
pub proof fn lemma_selected_run_bounded(s: Seq<Seq<char>>, sel: Set<Seq<char>>)
    ensures
        selected_run(s, sel) <= s.len(),
        forall|i: int| 0 <= i < selected_run(s, sel) ==> sel.contains(#[trigger] s[i]),
        selected_run(s, sel) < s.len() ==> !sel.contains(s[selected_run(s, sel) as int]),
    decreases s.len(),
{
    if s.len() > 0 && sel.contains(s[0]) {
        lemma_selected_run_bounded(s.drop_first(), sel);
        assert forall|i: int| 0 <= i < selected_run(s, sel) implies sel.contains(#[trigger] s[i]) by {
            if i > 0 {
                assert(s[i] == s.drop_first()[i - 1]);
            }
        }
    }
}

/// One step forward: every unselected node that directly follows a block of
/// selected nodes moves in front of that block.
pub open spec fn bring_forward_seq(s: Seq<Seq<char>>, sel: Set<Seq<char>>) -> Seq<Seq<char>>
    decreases s.len(),
{
    if s.len() == 0 {
        s
    } else if !sel.contains(s[0]) {
        seq![s[0]] + bring_forward_seq(s.drop_first(), sel)
    } else {
        let k = selected_run(s, sel);
        if k >= s.len() {
            s
        } else {
            seq![s[k as int]] + s.take(k as int) + bring_forward_seq(s.skip(k + 1 as int), sel)
        }
    }
}

/// One step backward: every block of selected nodes moves in front of the
/// unselected node that directly precedes it.
pub open spec fn send_backward_seq(s: Seq<Seq<char>>, sel: Set<Seq<char>>) -> Seq<Seq<char>>
    decreases s.len(),
{
    if s.len() == 0 {
        s
    } else if sel.contains(s[0]) {
        seq![s[0]] + send_backward_seq(s.drop_first(), sel)
    } else {
        let k = selected_run(s.drop_first(), sel);
        if k == 0 {
            seq![s[0]] + send_backward_seq(s.drop_first(), sel)
        } else {
            proof {
                lemma_selected_run_bounded(s.drop_first(), sel);
            }
            s.subrange(1, k + 1 as int) + seq![s[0]] + send_backward_seq(s.skip(k + 1 as int), sel)
        }
    }
}

/// The elements of `s` whose membership in `sel` is `member`, in order.
pub open spec fn keep(s: Seq<Seq<char>>, sel: Set<Seq<char>>, member: bool) -> Seq<Seq<char>>
    decreases s.len(),
{
    if s.len() == 0 {
        s
    } else {
        let rest = keep(s.drop_last(), sel, member);
        if sel.contains(s.last()) == member { rest.push(s.last()) } else { rest }
    }
}

/// The rearranged listing each operation produces from the sorted listing.
pub open spec fn rearranged(m: ZMove, order: Seq<Seq<char>>, sel: Set<Seq<char>>) -> Seq<Seq<char>> {
    match m {
        ZMove::BringForward => bring_forward_seq(order, sel),
        ZMove::SendBackward => send_backward_seq(order, sel),
        ZMove::BringToFront => keep(order, sel, false) + keep(order, sel, true),
        ZMove::SendToBack => keep(order, sel, true) + keep(order, sel, false),
    }
}

/// The smallest `z_index` among the listed nodes (0 for an empty listing).
pub open spec fn min_z(nodes: Map<Seq<char>, NodeView>, order: Seq<Seq<char>>) -> i64
    decreases order.len(),
{
    if order.len() == 0 {
        0
    } else if order.len() == 1 {
        nodes[order[0]].z_index
    } else {
        let m = min_z(nodes, order.drop_last());
        let z = nodes[order.last()].z_index;
        if z < m { z } else { m }
    }
}

/// `base.saturating_add(offset)`.
pub open spec fn saturating_z(base: i64, offset: int) -> i64 {
    if base + offset > i64::MAX { i64::MAX } else { (base + offset) as i64 }
}

/// The nodes renumbered along `order`: the node at position `i` gets `base + i`.
pub open spec fn renumbered(nodes: Map<Seq<char>, NodeView>, order: Seq<Seq<char>>, base: i64) -> Map<Seq<char>, NodeView> {
    Map::new(
        |k: Seq<char>| nodes.contains_key(k),
        |k: Seq<char>| if order.contains(k) {
            NodeView { z_index: saturating_z(base, order.index_of(k)), ..nodes[k] }
        } else {
            nodes[k]
        },
    )
}

/// The selected nodes: the listed identifiers that name a node.
pub open spec fn selection(nodes: Map<Seq<char>, NodeView>, ids: Seq<Seq<char>>) -> Set<Seq<char>> {
    Set::new(|k: Seq<char>| nodes.contains_key(k) && ids.contains(k))
}

/// `ids.join(sep)`.
pub open spec fn joined(ids: Seq<Seq<char>>, sep: Seq<char>) -> Seq<char>
    decreases ids.len(),
{
    if ids.len() == 0 {
        Seq::empty()
    } else if ids.len() == 1 {
        ids[0]
    } else {
        joined(ids.drop_last(), sep) + sep + ids.last()
    }
}

/// Renumbering along a listing, as `reassign_z_indices` does.
pub open spec fn renumber_outcome(s: ProjectionView, order: Seq<Seq<char>>) -> Result<ProjectionView, ReplayErrorView> {
    if order.len() > 0 && order.len() - 1 > i64::MAX {
        Err(ReplayErrorView::ZIndexOverflow)
    } else {
        Ok(s.with_nodes(renumbered(s.nodes, order, min_z(s.nodes, order))))
    }
}

/// The outcomes a z-order operation may have: an error for an empty or wholly unknown
/// selection, else the renumbering of the rearranged listing for some sorted listing.
pub open spec fn z_order_outcome(s: ProjectionView, m: ZMove, ids: Seq<Seq<char>>, r: Result<ProjectionView, ReplayErrorView>) -> bool {
    if ids.len() == 0 {
        r == Err::<ProjectionView, ReplayErrorView>(ReplayErrorView::NoNodesSpecified)
    } else if selection(s.nodes, ids).is_empty() {
        r == Err::<ProjectionView, ReplayErrorView>(ReplayErrorView::AllNodesInvalid(joined(ids, ", "@)))
    } else {
        exists|order: Seq<Seq<char>>| z_sorted_listing(order, s.nodes)
            && r == renumber_outcome(s, rearranged(m, order, selection(s.nodes, ids)))
    }
}

/// What a listing with one more element contains.
pub proof fn lemma_contains_push(s: Seq<Seq<char>>, x: Seq<char>, k: Seq<char>)
    ensures
        s.push(x).contains(k) <==> (s.contains(k) || k == x),
{
    if s.contains(k) {
        let j = choose|j: int| 0 <= j < s.len() && s[j] == k;
        assert(s.push(x)[j] == k);
    }
    if k == x {
        assert(s.push(x)[s.len() as int] == k);
    }
    if s.push(x).contains(k) {
        let j = choose|j: int| 0 <= j < s.push(x).len() && s.push(x)[j] == k;
        if j < s.len() {
            assert(s[j] == k);
        }
    }
}

/// What a listing with an element inserted contains.
pub proof fn lemma_contains_insert(s: Seq<Seq<char>>, p: int, x: Seq<char>, k: Seq<char>)
    requires
        0 <= p <= s.len(),
    ensures
        s.insert(p, x).contains(k) <==> (s.contains(k) || k == x),
{
    let t = s.insert(p, x);
    if s.contains(k) {
        let j = choose|j: int| 0 <= j < s.len() && s[j] == k;
        if j < p { assert(t[j] == k); } else { assert(t[j + 1] == k); }
    }
    if k == x {
        assert(t[p] == k);
    }
    if t.contains(k) {
        let j = choose|j: int| 0 <= j < t.len() && t[j] == k;
        if j < p { assert(s[j] == k); } else if j > p { assert(s[j - 1] == k); }
    }
}

/// Whether `id` is one of `sel`.
fn is_selected(sel: &Vec<NodeId>, id: &NodeId) -> (b: bool)
    ensures
        b == ids_view(sel@).contains(id@),
{
    let mut i: usize = 0;
    while i < sel.len()
        invariant
            i <= sel.len(),
            forall|j: int| 0 <= j < i ==> sel@[j]@ != id@,
        decreases sel.len() - i,
    {
        if sel[i].same(id) {
            assert(ids_view(sel@)[i as int] == id@);
            return true;
        }
        i = i + 1;
    }
    assert forall|j: int| 0 <= j < ids_view(sel@).len() implies ids_view(sel@)[j] != id@ by {
        assert(ids_view(sel@)[j] == sel@[j]@);
    }
    false
}

/// `ids.join(sep)`.
pub fn join_strings(ids: &[String], sep: &str) -> (r: String)
    ensures
        r@ == joined(strings_text(ids@), sep@),
{
    let mut r = String::new();
    let mut i: usize = 0;
    while i < ids.len()
        invariant
            i <= ids.len(),
            r@ == joined(strings_text(ids@).take(i as int), sep@),
        decreases ids.len() - i,
    {
        let ghost t = strings_text(ids@);
        if i > 0 {
            r.append(sep);
        }
        r.append(ids[i].as_str());
        proof {
            assert(t.take(i + 1).drop_last() =~= t.take(i as int));
            assert(t.take(i + 1).last() == ids@[i as int]@);
            if i == 0 {
                assert(t.take(0) =~= Seq::<Seq<char>>::empty());
            }
        }
        i = i + 1;
    }
    assert(strings_text(ids@).take(ids.len() as int) =~= strings_text(ids@));
    r
}

/// Validates that ids are not empty and that at least one names a node; returns the
/// identifiers that name a node.
fn validate_selected_ids(state: &DiagramProjection, ids: &[String]) -> (r: Result<Vec<NodeId>, ReplayError>)
    ensures
        ids@.len() == 0 ==> (r matches Err(e) && e@ == ReplayErrorView::NoNodesSpecified),
        ids@.len() > 0 && selection(state@.nodes, strings_text(ids@)).is_empty()
            ==> (r matches Err(e) && e@ == ReplayErrorView::AllNodesInvalid(joined(strings_text(ids@), ", "@))),
        ids@.len() > 0 && !selection(state@.nodes, strings_text(ids@)).is_empty()
            ==> (r matches Ok(sel) && ids_view(sel@).to_set() == selection(state@.nodes, strings_text(ids@))),
{
    if ids.len() == 0 {
        return Err(ReplayError::NoNodesSpecified);
    }
    let ghost text = strings_text(ids@);
    let ghost target = selection(state@.nodes, text);
    let mut sel: Vec<NodeId> = Vec::new();
    let mut i: usize = 0;
    while i < ids.len()
        invariant
            i <= ids.len(),
            text == strings_text(ids@),
            target == selection(state@.nodes, text),
            forall|k: Seq<char>| ids_view(sel@).contains(k) <==> (state@.nodes.contains_key(k) && text.take(i as int).contains(k)),
        decreases ids.len() - i,
    {
        let id = NodeId::new(ids[i].clone());
        let ghost old_sel = ids_view(sel@);
        if state.has_node(&id) {
            sel.push(id);
        }
        proof {
            assert forall|k: Seq<char>| ids_view(sel@).contains(k) <==> (state@.nodes.contains_key(k) && text.take(i + 1).contains(k)) by {
                assert(text.take(i + 1) =~= text.take(i as int).push(text[i as int]));
                assert(text[i as int] == ids@[i as int]@);
                lemma_contains_push(text.take(i as int), text[i as int], k);
                if state@.nodes.contains_key(id@) {
                    assert(ids_view(sel@) =~= old_sel.push(id@));
                    lemma_contains_push(old_sel, id@, k);
                } else {
                    assert(ids_view(sel@) =~= old_sel);
                }
            }
        }
        i = i + 1;
    }
    assert(text.take(ids.len() as int) =~= text);
    if sel.len() == 0 {
        proof {
            assert forall|k: Seq<char>| !target.contains(k) by {
                if target.contains(k) {
                    assert(!ids_view(sel@).contains(k));
                }
            }
            assert(target =~= Set::<Seq<char>>::empty());
        }
        return Err(ReplayError::AllNodesInvalid(join_strings(ids, ", ")));
    }
    proof {
        assert(ids_view(sel@).to_set() =~= target);
        assert(ids_view(sel@).contains(ids_view(sel@)[0]));
        assert(target.contains(ids_view(sel@)[0]));
    }
    Ok(sel)
}

/// All node identifiers, by ascending `z_index`; nodes with equal indices keep the
/// map's iteration order.
fn sort_nodes_by_z_index(state: &DiagramProjection) -> (r: Vec<NodeId>)
    ensures
        z_sorted_listing(ids_view(r@), state@.nodes),
{
    let keys = node_map_keys(&state.nodes);
    let ghost nodes = state@.nodes;
    let mut out: Vec<NodeId> = Vec::new();
    let mut zs: Vec<i64> = Vec::new();
    let mut i: usize = 0;
    while i < keys.len()
        invariant
            i <= keys.len(),
            nodes == state@.nodes,
            lists_node_keys(keys@, node_map_contents(state.nodes)),
            out@.len() == zs@.len(),
            out@.len() == i,
            forall|a: int| 0 <= a < out@.len() ==> nodes.contains_key(#[trigger] out@[a]@),
            forall|a: int| 0 <= a < out@.len() ==> zs@[a] == nodes[#[trigger] out@[a]@].z_index,
            forall|a: int, b: int| 0 <= a < b < out@.len() ==> out@[a]@ != out@[b]@,
            forall|a: int, b: int| 0 <= a < b < out@.len() ==> zs@[a] <= zs@[b],
            forall|k: Seq<char>| ids_view(out@).contains(k) <==> ids_view(keys@.take(i as int)).contains(k),
        decreases keys.len() - i,
    {
        let k = keys[i].duplicate();
        let z: i64 = match node_map_get(&state.nodes, &k) {
            Some(n) => n.z_index,
            None => 0,
        };
        assert(nodes.contains_key(keys@[i as int]@));
        let mut p: usize = 0;
        while p < zs.len() && zs[p] <= z
            invariant
                p <= zs.len(),
                forall|a: int| 0 <= a < p ==> zs@[a] <= z,
            decreases zs.len() - p,
        {
            p = p + 1;
        }
        let ghost old_out = out@;
        let ghost old_zs = zs@;
        out.insert(p, k);
        zs.insert(p, z);
        proof {
            assert(out@ == old_out.insert(p as int, k));
            assert forall|a: int| 0 <= a < out@.len() implies nodes.contains_key(#[trigger] out@[a]@) by {
                if a < p { assert(out@[a] == old_out[a]); } else if a > p { assert(out@[a] == old_out[a - 1]); }
            }
            assert forall|a: int| 0 <= a < out@.len() implies zs@[a] == nodes[#[trigger] out@[a]@].z_index by {
                if a < p { assert(out@[a] == old_out[a]); } else if a > p { assert(out@[a] == old_out[a - 1]); }
            }
            assert(!ids_view(keys@.take(i as int)).contains(k@)) by {
                if ids_view(keys@.take(i as int)).contains(k@) {
                    let j = choose|j: int| 0 <= j < i && ids_view(keys@.take(i as int))[j] == k@;
                    assert(keys@[j]@ == keys@[i as int]@);
                }
            }
            assert forall|a: int| 0 <= a < old_out.len() implies old_out[a]@ != k@ by {
                assert(ids_view(old_out)[a] == old_out[a]@);
                assert(ids_view(old_out).contains(old_out[a]@));
            }
            assert forall|a: int, b: int| 0 <= a < b < out@.len() implies out@[a]@ != out@[b]@ by {
                if a < p && b < p { assert(out@[a] == old_out[a] && out@[b] == old_out[b]); }
                else if a < p && b == p { assert(out@[a] == old_out[a]); }
                else if a < p && b > p { assert(out@[a] == old_out[a] && out@[b] == old_out[b - 1]); }
                else if a == p { assert(out@[b] == old_out[b - 1]); }
                else { assert(out@[a] == old_out[a - 1] && out@[b] == old_out[b - 1]); }
            }
            assert forall|a: int, b: int| 0 <= a < b < out@.len() implies zs@[a] <= zs@[b] by {
                if b == p { } else if a == p {
                    if p < old_zs.len() { assert(zs@[p + 1] == old_zs[p as int]); assert(old_zs[p as int] > z); }
                    if b > p + 1 { assert(zs@[b] == old_zs[b - 1]); assert(old_zs[p as int] <= old_zs[b - 1]); }
                } else if a < p && b > p {
                    assert(zs@[a] == old_zs[a]);
                    assert(zs@[b] == old_zs[b - 1]);
                } else if a < p {
                    assert(zs@[a] == old_zs[a] && zs@[b] == old_zs[b]);
                } else {
                    assert(zs@[a] == old_zs[a - 1] && zs@[b] == old_zs[b - 1]);
                }
            }
            assert forall|kk: Seq<char>| ids_view(out@).contains(kk) <==> ids_view(keys@.take(i + 1)).contains(kk) by {
                assert(keys@.take(i + 1) =~= keys@.take(i as int).push(keys@[i as int]));
                assert(ids_view(keys@.take(i + 1)) =~= ids_view(keys@.take(i as int)).push(k@));
                assert(ids_view(out@) =~= ids_view(old_out).insert(p as int, k@));
                lemma_contains_push(ids_view(keys@.take(i as int)), k@, kk);
                lemma_contains_insert(ids_view(old_out), p as int, k@, kk);
            }
        }
        i = i + 1;
    }
    proof {
        assert(keys@.take(keys@.len() as int) =~= keys@);
        let o = ids_view(out@);
        assert forall|kk: Seq<char>| nodes.contains_key(kk) implies o.contains(kk) by {
            let j = choose|j: int| 0 <= j < keys@.len() && #[trigger] keys@[j]@ == kk;
            assert(ids_view(keys@)[j] == kk);
        }
        assert forall|a: int| 0 <= a < o.len() implies nodes.contains_key(#[trigger] o[a]) by {
            assert(o[a] == out@[a]@);
        }
        assert forall|a: int, b: int| 0 <= a < b < o.len() implies o[a] != o[b] by {
            assert(o[a] == out@[a]@ && o[b] == out@[b]@);
        }
        assert forall|a: int, b: int| 0 <= a < b < o.len() implies nodes[o[a]].z_index <= nodes[o[b]].z_index by {
            assert(o[a] == out@[a]@ && o[b] == out@[b]@);
        }
    }
    out
}

/// No element occurs twice.
pub open spec fn distinct(s: Seq<Seq<char>>) -> bool {
    forall|a: int, b: int| 0 <= a < b < s.len() ==> s[a] != s[b]
}

/// Every element of `out` is one of the first `n` elements of `s`.
pub open spec fn drawn_from(out: Seq<Seq<char>>, s: Seq<Seq<char>>, n: int) -> bool {
    forall|a: int| #![trigger out[a]] 0 <= a < out.len() ==> exists|x: int| 0 <= x < n && #[trigger] s[x] == out[a]
}

/// The run of selected nodes at the start of a listing ends at the first node that is
/// not selected.
pub proof fn lemma_run_unique(t: Seq<Seq<char>>, sel: Set<Seq<char>>, r: int)
    requires
        0 <= r <= t.len(),
        forall|x: int| 0 <= x < r ==> sel.contains(#[trigger] t[x]),
        r < t.len() ==> !sel.contains(t[r]),
    ensures
        selected_run(t, sel) == r,
{
    lemma_selected_run_bounded(t, sel);
    let k = selected_run(t, sel) as int;
    if k < r {
        assert(sel.contains(t[k]));
    } else if k > r {
        assert(sel.contains(t[r]));
    }
}

/// End of the run of selected identifiers starting at `i`.
fn run_end(order: &Vec<NodeId>, sel: &Vec<NodeId>, i: usize) -> (j: usize)
    requires
        i <= order.len(),
    ensures
        i <= j <= order.len(),
        j - i == selected_run(ids_view(order@).skip(i as int), ids_view(sel@).to_set()),
        forall|x: int| i <= x < j ==> ids_view(sel@).to_set().contains(#[trigger] ids_view(order@)[x]),
        j < order.len() ==> !ids_view(sel@).to_set().contains(ids_view(order@)[j as int]),
{
    let ghost s = ids_view(order@);
    let ghost set = ids_view(sel@).to_set();
    let mut j = i;
    while j < order.len() && is_selected(sel, &order[j])
        invariant
            i <= j <= order.len(),
            s == ids_view(order@),
            set == ids_view(sel@).to_set(),
            forall|x: int| i <= x < j ==> set.contains(#[trigger] s[x]),
        decreases order.len() - j,
    {
        assert(s[j as int] == order@[j as int]@);
        j = j + 1;
    }
    proof {
        if j < order.len() {
            assert(s[j as int] == order@[j as int]@);
        }
        let t = s.skip(i as int);
        assert forall|x: int| 0 <= x < j - i implies set.contains(#[trigger] t[x]) by {
            assert(t[x] == s[i + x]);
        }
        if j < order.len() {
            assert(t[j - i] == s[j as int]);
        }
        lemma_run_unique(t, set, j - i);
    }
    j
}

fn push_range(out: &mut Vec<NodeId>, order: &Vec<NodeId>, from: usize, to: usize)
    requires
        from <= to <= order.len(),
    ensures
        ids_view(final(out)@) == ids_view(old(out)@) + ids_view(order@).subrange(from as int, to as int),
{
    let mut x = from;
    while x < to
        invariant
            from <= x <= to <= order.len(),
            ids_view(out@) == ids_view(old(out)@) + ids_view(order@).subrange(from as int, x as int),
        decreases to - x,
    {
        let ghost prev = ids_view(out@);
        out.push(order[x].duplicate());
        assert(ids_view(out@) =~= prev.push(order@[x as int]@));
        assert(ids_view(order@).subrange(from as int, x + 1) =~= ids_view(order@).subrange(from as int, x as int).push(order@[x as int]@));
        assert(ids_view(out@) =~= ids_view(old(out)@) + ids_view(order@).subrange(from as int, x + 1));
        x = x + 1;
    }
}

/// The listing after `BringForward`.
fn bring_forward_order(order: &Vec<NodeId>, sel: &Vec<NodeId>) -> (r: Vec<NodeId>)
    requires
        distinct(ids_view(order@)),
    ensures
        ids_view(r@) == bring_forward_seq(ids_view(order@), ids_view(sel@).to_set()),
        distinct(ids_view(r@)),
        drawn_from(ids_view(r@), ids_view(order@), order@.len() as int),
{
    let ghost s = ids_view(order@);
    let ghost set = ids_view(sel@).to_set();
    let mut out: Vec<NodeId> = Vec::new();
    let mut i: usize = 0;
    assert(s.skip(0) =~= s);
    while i < order.len()
        invariant
            i <= order.len(),
            s == ids_view(order@),
            set == ids_view(sel@).to_set(),
            distinct(s),
            ids_view(out@) + bring_forward_seq(s.skip(i as int), set) == bring_forward_seq(s, set),
            distinct(ids_view(out@)),
            drawn_from(ids_view(out@), s, i as int),
        decreases order.len() - i,
    {
        let ghost t = s.skip(i as int);
        let ghost old_out = ids_view(out@);
        assert(t[0] == s[i as int]);
        assert(s[i as int] == order@[i as int]@);
        if !is_selected(sel, &order[i]) {
            out.push(order[i].duplicate());
            proof {
                assert(t.drop_first() =~= s.skip(i + 1));
                assert(ids_view(out@) =~= old_out.push(s[i as int]));
                assert(ids_view(out@) + bring_forward_seq(s.skip(i + 1), set) =~= old_out + bring_forward_seq(t, set));
                assert forall|a: int| #![trigger ids_view(out@)[a]] 0 <= a < ids_view(out@).len() implies exists|x: int| 0 <= x < i + 1 && #[trigger] s[x] == ids_view(out@)[a] by {
                    if a == old_out.len() { assert(s[i as int] == ids_view(out@)[a]); } else { assert(ids_view(out@)[a] == old_out[a]); }
                }
                assert forall|a: int, b: int| 0 <= a < b < ids_view(out@).len() implies ids_view(out@)[a] != ids_view(out@)[b] by {
                    if b == old_out.len() {
                        assert(ids_view(out@)[a] == old_out[a]);
                        let x = choose|x: int| 0 <= x < i && #[trigger] s[x] == old_out[a];
                    } else {
                        assert(ids_view(out@)[a] == old_out[a] && ids_view(out@)[b] == old_out[b]);
                    }
                }
            }
            i = i + 1;
        } else {
            let j = run_end(order, sel, i);
            if j == order.len() {
                push_range(&mut out, order, i, j);
                proof {
                    assert(t =~= s.subrange(i as int, j as int));
                    assert(s.skip(j as int) =~= Seq::<Seq<char>>::empty());
                    let nw = ids_view(out@);
                    assert forall|a: int| #![trigger nw[a]] 0 <= a < nw.len() implies exists|x: int| 0 <= x < j && #[trigger] s[x] == nw[a] by {
                        if a < old_out.len() {
                            assert(nw[a] == old_out[a]);
                            let x = choose|x: int| 0 <= x < i && #[trigger] s[x] == old_out[a];
                        } else {
                            assert(nw[a] == s[i + (a - old_out.len())]);
                        }
                    }
                    assert forall|a: int, b: int| 0 <= a < b < nw.len() implies nw[a] != nw[b] by {
                        if b >= old_out.len() {
                            assert(nw[b] == s[i + (b - old_out.len())]);
                            if a < old_out.len() {
                                assert(nw[a] == old_out[a]);
                                let x = choose|x: int| 0 <= x < i && #[trigger] s[x] == old_out[a];
                            } else {
                                assert(nw[a] == s[i + (a - old_out.len())]);
                            }
                        } else {
                            assert(nw[a] == old_out[a] && nw[b] == old_out[b]);
                        }
                    }
                }
                i = j;
            } else {
                out.push(order[j].duplicate());
                push_range(&mut out, order, i, j);
                proof {
                    let k = j - i;
                    assert(s[j as int] == order@[j as int]@);
                    assert(t[k] == s[j as int]);
                    assert(t.take(k) =~= s.subrange(i as int, j as int));
                    assert(t.skip(k + 1) =~= s.skip(j + 1));
                    let nw = ids_view(out@);
                    assert(nw =~= old_out + seq![s[j as int]] + s.subrange(i as int, j as int));
                    assert(nw + bring_forward_seq(s.skip(j + 1), set) =~= old_out + bring_forward_seq(t, set));
                    assert forall|a: int| #![trigger nw[a]] 0 <= a < nw.len() implies exists|x: int| 0 <= x < j + 1 && #[trigger] s[x] == nw[a] by {
                        if a < old_out.len() {
                            assert(nw[a] == old_out[a]);
                            let x = choose|x: int| 0 <= x < i && #[trigger] s[x] == old_out[a];
                        } else if a == old_out.len() {
                            assert(nw[a] == s[j as int]);
                        } else {
                            assert(nw[a] == s[i + (a - old_out.len() - 1)]);
                        }
                    }
                    assert forall|a: int, b: int| 0 <= a < b < nw.len() implies nw[a] != nw[b] by {
                        if a < old_out.len() {
                            assert(nw[a] == old_out[a]);
                            let x = choose|x: int| 0 <= x < i && #[trigger] s[x] == old_out[a];
                            if b == old_out.len() {
                                assert(nw[b] == s[j as int]);
                            } else if b > old_out.len() {
                                assert(nw[b] == s[i + (b - old_out.len() - 1)]);
                            } else {
                                assert(nw[b] == old_out[b]);
                            }
                        } else if a == old_out.len() {
                            assert(nw[a] == s[j as int]);
                            assert(nw[b] == s[i + (b - old_out.len() - 1)]);
                        } else {
                            assert(nw[a] == s[i + (a - old_out.len() - 1)]);
                            assert(nw[b] == s[i + (b - old_out.len() - 1)]);
                        }
                    }
                }
                i = j + 1;
            }
        }
    }
    proof {
        assert(s.skip(order.len() as int) =~= Seq::<Seq<char>>::empty());
        assert(ids_view(out@) + Seq::<Seq<char>>::empty() =~= ids_view(out@));
    }
    out
}

/// The listing after `SendBackward`.
fn send_backward_order(order: &Vec<NodeId>, sel: &Vec<NodeId>) -> (r: Vec<NodeId>)
    requires
        distinct(ids_view(order@)),
    ensures
        ids_view(r@) == send_backward_seq(ids_view(order@), ids_view(sel@).to_set()),
        distinct(ids_view(r@)),
        drawn_from(ids_view(r@), ids_view(order@), order@.len() as int),
{
    let ghost s = ids_view(order@);
    let ghost set = ids_view(sel@).to_set();
    let mut out: Vec<NodeId> = Vec::new();
    let mut i: usize = 0;
    assert(s.skip(0) =~= s);
    while i < order.len()
        invariant
            i <= order.len(),
            s == ids_view(order@),
            set == ids_view(sel@).to_set(),
            distinct(s),
            ids_view(out@) + send_backward_seq(s.skip(i as int), set) == send_backward_seq(s, set),
            distinct(ids_view(out@)),
            drawn_from(ids_view(out@), s, i as int),
        decreases order.len() - i,
    {
        let ghost t = s.skip(i as int);
        let ghost old_out = ids_view(out@);
        assert(t[0] == s[i as int]);
        assert(s[i as int] == order@[i as int]@);
        let j = if is_selected(sel, &order[i]) { i + 1 } else { run_end(order, sel, i + 1) };
        if j == i + 1 {
            out.push(order[i].duplicate());
            proof {
                assert(t.drop_first() =~= s.skip(i + 1));
                if !set.contains(s[i as int]) {
                    assert(t.drop_first() =~= s.skip(i + 1));
                }
                assert(ids_view(out@) =~= old_out.push(s[i as int]));
                assert(ids_view(out@) + send_backward_seq(s.skip(i + 1), set) =~= old_out + send_backward_seq(t, set));
                assert forall|a: int| #![trigger ids_view(out@)[a]] 0 <= a < ids_view(out@).len() implies exists|x: int| 0 <= x < i + 1 && #[trigger] s[x] == ids_view(out@)[a] by {
                    if a == old_out.len() { assert(s[i as int] == ids_view(out@)[a]); } else { assert(ids_view(out@)[a] == old_out[a]); }
                }
                assert forall|a: int, b: int| 0 <= a < b < ids_view(out@).len() implies ids_view(out@)[a] != ids_view(out@)[b] by {
                    if b == old_out.len() {
                        assert(ids_view(out@)[a] == old_out[a]);
                        let x = choose|x: int| 0 <= x < i && #[trigger] s[x] == old_out[a];
                    } else {
                        assert(ids_view(out@)[a] == old_out[a] && ids_view(out@)[b] == old_out[b]);
                    }
                }
            }
            i = i + 1;
        } else {
            push_range(&mut out, order, i + 1, j);
            out.push(order[i].duplicate());
            proof {
                let k = j - i - 1;
                assert(t.drop_first() =~= s.skip(i + 1));
                assert(t.subrange(1, k + 1) =~= s.subrange(i + 1, j as int));
                assert(t.skip(k + 1) =~= s.skip(j as int));
                let nw = ids_view(out@);
                assert(nw =~= old_out + s.subrange(i + 1, j as int) + seq![s[i as int]]);
                assert(nw + send_backward_seq(s.skip(j as int), set) =~= old_out + send_backward_seq(t, set));
                assert forall|a: int| #![trigger nw[a]] 0 <= a < nw.len() implies exists|x: int| 0 <= x < j && #[trigger] s[x] == nw[a] by {
                    if a < old_out.len() {
                        assert(nw[a] == old_out[a]);
                        let x = choose|x: int| 0 <= x < i && #[trigger] s[x] == old_out[a];
                    } else if a == nw.len() - 1 {
                        assert(nw[a] == s[i as int]);
                    } else {
                        assert(nw[a] == s[i + 1 + (a - old_out.len())]);
                    }
                }
                assert forall|a: int, b: int| 0 <= a < b < nw.len() implies nw[a] != nw[b] by {
                    if a < old_out.len() {
                        assert(nw[a] == old_out[a]);
                        let x = choose|x: int| 0 <= x < i && #[trigger] s[x] == old_out[a];
                        if b == nw.len() - 1 {
                            assert(nw[b] == s[i as int]);
                        } else if b >= old_out.len() {
                            assert(nw[b] == s[i + 1 + (b - old_out.len())]);
                        } else {
                            assert(nw[b] == old_out[b]);
                        }
                    } else if b == nw.len() - 1 {
                        assert(nw[b] == s[i as int]);
                        assert(nw[a] == s[i + 1 + (a - old_out.len())]);
                    } else {
                        assert(nw[a] == s[i + 1 + (a - old_out.len())]);
                        assert(nw[b] == s[i + 1 + (b - old_out.len())]);
                    }
                }
            }
            i = j;
        }
    }
    proof {
        assert(s.skip(order.len() as int) =~= Seq::<Seq<char>>::empty());
        assert(ids_view(out@) + Seq::<Seq<char>>::empty() =~= ids_view(out@));
    }
    out
}

/// Appends to `out` the identifiers of `order` whose selection status is `member`.
fn push_kept(out: &mut Vec<NodeId>, order: &Vec<NodeId>, sel: &Vec<NodeId>, member: bool)
    ensures
        ids_view(final(out)@) == ids_view(old(out)@) + keep(ids_view(order@), ids_view(sel@).to_set(), member),
        forall|a: int| #![trigger keep(ids_view(order@), ids_view(sel@).to_set(), member)[a]] 0 <= a < keep(ids_view(order@), ids_view(sel@).to_set(), member).len()
            ==> exists|x: int| 0 <= x < order@.len() && #[trigger] ids_view(order@)[x] == keep(ids_view(order@), ids_view(sel@).to_set(), member)[a],
        forall|a: int| 0 <= a < keep(ids_view(order@), ids_view(sel@).to_set(), member).len()
            ==> ids_view(sel@).to_set().contains(#[trigger] keep(ids_view(order@), ids_view(sel@).to_set(), member)[a]) == member,
        distinct(ids_view(order@)) ==> distinct(keep(ids_view(order@), ids_view(sel@).to_set(), member)),
{
    let ghost s = ids_view(order@);
    let ghost set = ids_view(sel@).to_set();
    let ghost start = ids_view(out@);
    let mut i: usize = 0;
    assert(s.take(0) =~= Seq::<Seq<char>>::empty());
    while i < order.len()
        invariant
            i <= order.len(),
            s == ids_view(order@),
            set == ids_view(sel@).to_set(),
            start == ids_view(old(out)@),
            ids_view(out@) == start + keep(s.take(i as int), set, member),
            forall|a: int| #![trigger keep(s.take(i as int), set, member)[a]] 0 <= a < keep(s.take(i as int), set, member).len()
                ==> exists|x: int| 0 <= x < i && #[trigger] s[x] == keep(s.take(i as int), set, member)[a],
            forall|a: int| 0 <= a < keep(s.take(i as int), set, member).len()
                ==> set.contains(#[trigger] keep(s.take(i as int), set, member)[a]) == member,
            distinct(s) ==> distinct(keep(s.take(i as int), set, member)),
        decreases order.len() - i,
    {
        let ghost prev = ids_view(out@);
        let ghost kp = keep(s.take(i as int), set, member);
        assert(s.take(i + 1).drop_last() =~= s.take(i as int));
        assert(s.take(i + 1).last() == s[i as int]);
        assert(s[i as int] == order@[i as int]@);
        if is_selected(sel, &order[i]) == member {
            out.push(order[i].duplicate());
            proof {
                let kn = keep(s.take(i + 1), set, member);
                assert(kn == kp.push(s[i as int]));
                assert(ids_view(out@) =~= prev.push(s[i as int]));
                assert forall|a: int| #![trigger kn[a]] 0 <= a < kn.len() implies exists|x: int| 0 <= x < i + 1 && #[trigger] s[x] == kn[a] by {
                    if a == kp.len() { assert(s[i as int] == kn[a]); } else { assert(kn[a] == kp[a]); }
                }
                assert forall|a: int| 0 <= a < kn.len() implies set.contains(#[trigger] kn[a]) == member by {
                    if a < kp.len() { assert(kn[a] == kp[a]); }
                }
                if distinct(s) {
                    assert forall|a: int, b: int| 0 <= a < b < kn.len() implies kn[a] != kn[b] by {
                        if b == kp.len() {
                            assert(kn[a] == kp[a]);
                            let x = choose|x: int| 0 <= x < i && #[trigger] s[x] == kp[a];
                        } else {
                            assert(kn[a] == kp[a] && kn[b] == kp[b]);
                        }
                    }
                }
            }
        } else {
            proof {
                let kn = keep(s.take(i + 1), set, member);
                assert(kn == kp);
            }
        }
        i = i + 1;
    }
    assert(s.take(order.len() as int) =~= s);
}

/// The listing after `BringToFront` (`to_front`) or `SendToBack` (`!to_front`).
fn partition_order(order: &Vec<NodeId>, sel: &Vec<NodeId>, to_front: bool) -> (r: Vec<NodeId>)
    requires
        distinct(ids_view(order@)),
    ensures
        ids_view(r@) == keep(ids_view(order@), ids_view(sel@).to_set(), !to_front)
            + keep(ids_view(order@), ids_view(sel@).to_set(), to_front),
        distinct(ids_view(r@)),
        drawn_from(ids_view(r@), ids_view(order@), order@.len() as int),
{
    let mut out: Vec<NodeId> = Vec::new();
    push_kept(&mut out, order, sel, !to_front);
    push_kept(&mut out, order, sel, to_front);
    proof {
        let s = ids_view(order@);
        let set = ids_view(sel@).to_set();
        let a1 = keep(s, set, !to_front);
        let a2 = keep(s, set, to_front);
        assert(ids_view(out@) =~= a1 + a2);
        let o = a1 + a2;
        assert forall|a: int| #![trigger o[a]] 0 <= a < o.len() implies exists|x: int| 0 <= x < order@.len() && #[trigger] s[x] == o[a] by {
            if a < a1.len() { assert(o[a] == a1[a]); } else { assert(o[a] == a2[a - a1.len()]); }
        }
        assert forall|a: int, b: int| 0 <= a < b < o.len() implies o[a] != o[b] by {
            if b < a1.len() {
                assert(o[a] == a1[a] && o[b] == a1[b]);
            } else if a >= a1.len() {
                assert(o[a] == a2[a - a1.len()] && o[b] == a2[b - a1.len()]);
            } else {
                assert(o[a] == a1[a] && o[b] == a2[b - a1.len()]);
                assert(set.contains(a1[a]) == !to_front);
                assert(set.contains(a2[b - a1.len()]) == to_front);
            }
        }
    }
    out
}

/// `base.saturating_add(offset)`.
fn saturating_z_exec(base: i64, offset: usize) -> (z: i64)
    requires
        offset <= i64::MAX,
    ensures
        z == saturating_z(base, offset as int),
{
    let off = offset as i64;
    if base > 0 && off > i64::MAX - base {
        i64::MAX
    } else {
        base + off
    }
}

/// The smallest `z_index` among the listed nodes (0 for an empty listing).
fn min_z_exec(state: &DiagramProjection, ordered: &Vec<NodeId>) -> (m: i64)
    requires
        forall|i: int| 0 <= i < ordered@.len() ==> state@.nodes.contains_key(#[trigger] ordered@[i]@),
    ensures
        m == min_z(state@.nodes, ids_view(ordered@)),
{
    let ghost s = ids_view(ordered@);
    if ordered.len() == 0 {
        return 0;
    }
    let mut m: i64 = match state.get_node(&ordered[0]) {
        Some(n) => n.z_index,
        None => 0,
    };
    assert(state@.nodes.contains_key(ordered@[0]@));
    assert(s.take(1) =~= seq![s[0]]);
    let mut i: usize = 1;
    while i < ordered.len()
        invariant
            1 <= i <= ordered.len(),
            s == ids_view(ordered@),
            forall|a: int| 0 <= a < ordered@.len() ==> state@.nodes.contains_key(#[trigger] ordered@[a]@),
            m == min_z(state@.nodes, s.take(i as int)),
        decreases ordered.len() - i,
    {
        assert(state@.nodes.contains_key(ordered@[i as int]@));
        let z = match state.get_node(&ordered[i]) {
            Some(n) => n.z_index,
            None => 0,
        };
        assert(s.take(i + 1).drop_last() =~= s.take(i as int));
        assert(s.take(i + 1).last() == s[i as int]);
        if z < m {
            m = z;
        }
        i = i + 1;
    }
    assert(s.take(ordered.len() as int) =~= s);
    m
}

/// In a listing without repeats, the position of an element is where it stands.
pub proof fn lemma_index_of_distinct(s: Seq<Seq<char>>, i: int)
    requires
        distinct(s),
        0 <= i < s.len(),
    ensures
        s.index_of(s[i]) == i,
{
    assert(s.contains(s[i]));
    let j = s.index_of(s[i]);
    assert(0 <= j < s.len() && s[j] == s[i]);
}

/// Numbers the nodes consecutively along `ordered`, starting from the smallest index present.
fn reassign_z_indices(state: DiagramProjection, ordered: &Vec<NodeId>) -> (r: Result<DiagramProjection, ReplayError>)
    requires
        distinct(ids_view(ordered@)),
        forall|i: int| 0 <= i < ordered@.len() ==> state@.nodes.contains_key(#[trigger] ordered@[i]@),
    ensures
        crate::projection::outcome_view(r) == renumber_outcome(state@, ids_view(ordered@)),
{
    let min_z_value = min_z_exec(&state, ordered);
    if ordered.len() > 0 && (ordered.len() - 1) as u64 > 0x7fff_ffff_ffff_ffffu64 {
        return Err(ReplayError::ZIndexOverflow);
    }
    let ghost s = ids_view(ordered@);
    let ghost orig = state@;
    let ghost target = renumbered(orig.nodes, s, min_z_value);
    let mut state = state;
    let mut i: usize = 0;
    while i < ordered.len()
        invariant
            i <= ordered.len(),
            s == ids_view(ordered@),
            distinct(s),
            ordered.len() == 0 || ordered.len() - 1 <= i64::MAX,
            forall|a: int| 0 <= a < ordered@.len() ==> orig.nodes.contains_key(#[trigger] ordered@[a]@),
            target == renumbered(orig.nodes, s, min_z_value),
            state@ == orig.with_nodes(state@.nodes),
            state@.nodes.dom() == orig.nodes.dom(),
            forall|k: Seq<char>| #[trigger] state@.nodes.contains_key(k) ==>
                state@.nodes[k] == (if s.take(i as int).contains(k) { target[k] } else { orig.nodes[k] }),
        decreases ordered.len() - i,
    {
        let ghost before = state.nodes;
        let ghost prev = state@.nodes;
        let key = ordered[i].duplicate();
        assert(s[i as int] == key@);
        assert(orig.nodes.contains_key(key@));
        match node_map_remove(&mut state.nodes, &key) {
            Some(node) => {
                let ghost removed = state.nodes;
                let mut node = node;
                node.z_index = saturating_z_exec(min_z_value, i);
                let _ = node_map_insert(&mut state.nodes, key, node);
                proof {
                    lemma_nodes_view_remove(before, removed, s[i as int]);
                    lemma_nodes_view_insert(removed, state.nodes, s[i as int], node);
                    lemma_index_of_distinct(s, i as int);
                    assert(s.take(i + 1) =~= s.take(i as int).push(s[i as int]));
                    assert(!s.take(i as int).contains(s[i as int])) by {
                        if s.take(i as int).contains(s[i as int]) {
                            let j = choose|j: int| 0 <= j < i && s.take(i as int)[j] == s[i as int];
                            assert(s[j] == s[i as int]);
                        }
                    }
                    assert(s.contains(s[i as int]));
                    assert forall|k: Seq<char>| #[trigger] state@.nodes.contains_key(k) implies
                        state@.nodes[k] == (if s.take(i + 1).contains(k) { target[k] } else { orig.nodes[k] }) by {
                        lemma_contains_push(s.take(i as int), s[i as int], k);
                        if k != s[i as int] {
                            assert(prev.contains_key(k));
                        }
                    }
                    assert(state@.nodes.dom() =~= orig.nodes.dom());
                    assert(state@ == orig.with_nodes(state@.nodes));
                }
            },
            None => {
                assert(false);
            },
        }
        i = i + 1;
    }
    proof {
        assert(s.take(ordered.len() as int) =~= s);
        assert(state@.nodes =~= target);
    }
    Ok(state)
}

/// Applies a z-order operation.
fn apply_z_move(state: DiagramProjection, ids: &[String], m: ZMove) -> (r: Result<DiagramProjection, ReplayError>)
    ensures
        z_order_outcome(state@, m, strings_text(ids@), crate::projection::outcome_view(r)),
{
    let sel = match validate_selected_ids(&state, ids) {
        Ok(sel) => sel,
        Err(e) => return Err(e),
    };
    let sorted = sort_nodes_by_z_index(&state);
    let ghost order = ids_view(sorted@);
    let ghost set = ids_view(sel@).to_set();
    assert(distinct(order));
    let reordered = match m {
        ZMove::BringForward => bring_forward_order(&sorted, &sel),
        ZMove::SendBackward => send_backward_order(&sorted, &sel),
        ZMove::BringToFront => partition_order(&sorted, &sel, true),
        ZMove::SendToBack => partition_order(&sorted, &sel, false),
    };
    proof {
        assert(ids_view(reordered@) == rearranged(m, order, set));
        assert forall|i: int| 0 <= i < reordered@.len() implies state@.nodes.contains_key(#[trigger] reordered@[i]@) by {
            assert(ids_view(reordered@)[i] == reordered@[i]@);
            let x = choose|x: int| 0 <= x < sorted@.len() && #[trigger] order[x] == ids_view(reordered@)[i];
        }
    }
    let r = reassign_z_indices(state, &reordered);
    assert(z_sorted_listing(order, state@.nodes) && crate::projection::outcome_view(r) == renumber_outcome(state@, rearranged(m, order, selection(state@.nodes, strings_text(ids@)))));
    r
}

/// Apply `BringForward`.
pub fn apply_bring_forward(state: DiagramProjection, ids: &[String]) -> (r: Result<DiagramProjection, ReplayError>)
    ensures
        z_order_outcome(state@, ZMove::BringForward, strings_text(ids@), crate::projection::outcome_view(r)),
{
    apply_z_move(state, ids, ZMove::BringForward)
}

/// Apply `SendBackward`.
pub fn apply_send_backward(state: DiagramProjection, ids: &[String]) -> (r: Result<DiagramProjection, ReplayError>)
    ensures
        z_order_outcome(state@, ZMove::SendBackward, strings_text(ids@), crate::projection::outcome_view(r)),
{
    apply_z_move(state, ids, ZMove::SendBackward)
}

/// Apply `BringToFront`.
pub fn apply_bring_to_front(state: DiagramProjection, ids: &[String]) -> (r: Result<DiagramProjection, ReplayError>)
    ensures
        z_order_outcome(state@, ZMove::BringToFront, strings_text(ids@), crate::projection::outcome_view(r)),
{
    apply_z_move(state, ids, ZMove::BringToFront)
}

/// Apply `SendToBack`.
pub fn apply_send_to_back(state: DiagramProjection, ids: &[String]) -> (r: Result<DiagramProjection, ReplayError>)
    ensures
        z_order_outcome(state@, ZMove::SendToBack, strings_text(ids@), crate::projection::outcome_view(r)),
{
    apply_z_move(state, ids, ZMove::SendToBack)
}

/// What `keep` retains: members of `s` whose membership in `sel` is `member`, all of
/// them, each once if `s` has no repeats.
proof fn lemma_keep_members(s: Seq<Seq<char>>, sel: Set<Seq<char>>, member: bool)
    ensures
        forall|i: int| 0 <= i < keep(s, sel, member).len() ==> sel.contains(#[trigger] keep(s, sel, member)[i]) == member
            && s.contains(keep(s, sel, member)[i]),
        forall|x: Seq<char>| s.contains(x) && sel.contains(x) == member ==> #[trigger] keep(s, sel, member).contains(x),
        distinct(s) ==> distinct(keep(s, sel, member)),
    decreases s.len(),
{
    if s.len() > 0 {
        let t = s.drop_last();
        lemma_keep_members(t, sel, member);
        let rest = keep(t, sel, member);
        let x = s.last();
        assert forall|y: Seq<char>| t.contains(y) implies s.contains(y) by {
            let j = choose|j: int| 0 <= j < t.len() && t[j] == y;
            assert(s[j] == y);
        }
        assert forall|y: Seq<char>| s.contains(y) && y != x implies t.contains(y) by {
            let j = choose|j: int| 0 <= j < s.len() && s[j] == y;
            assert(t[j] == y);
        }
        assert(s.contains(x)) by {
            assert(s[s.len() - 1] == x);
        }
        if sel.contains(x) == member {
            assert forall|y: Seq<char>| s.contains(y) && sel.contains(y) == member implies #[trigger] keep(s, sel, member).contains(y) by {
                lemma_contains_push(rest, x, y);
            }
            if distinct(s) {
                assert(distinct(t));
                assert forall|a: int| 0 <= a < rest.len() implies rest[a] != x by {
                    if rest[a] == x {
                        assert(t.contains(x));
                        let j = choose|j: int| 0 <= j < t.len() && t[j] == x;
                        assert(s[j] == s[s.len() - 1]);
                    }
                }
            }
        } else {
            assert forall|y: Seq<char>| s.contains(y) && sel.contains(y) == member implies #[trigger] keep(s, sel, member).contains(y) by {
            }
            if distinct(s) {
                assert(distinct(t));
            }
        }
    }
}

/// `keep` splits a listing in two whose lengths add up to it.
proof fn lemma_keep_lengths(s: Seq<Seq<char>>, sel: Set<Seq<char>>)
    ensures
        keep(s, sel, false).len() + keep(s, sel, true).len() == s.len(),
    decreases s.len(),
{
    if s.len() > 0 {
        lemma_keep_lengths(s.drop_last(), sel);
    }
}

/// The smallest `z_index` of a listing is at most that of each listed node.
proof fn lemma_min_z_le(nodes: Map<Seq<char>, NodeView>, order: Seq<Seq<char>>, i: int)
    requires
        0 <= i < order.len(),
    ensures
        min_z(nodes, order) <= nodes[order[i]].z_index,
    decreases order.len(),
{
    if order.len() > 1 && i < order.len() - 1 {
        lemma_min_z_le(nodes, order.drop_last(), i);
    }
}

/// Bringing the selection to the front puts every selected node above every node
/// that is not selected, as long as no `z_index` is pushed past `i64::MAX` (each
/// `z_index` plus the number of nodes stays within it).
pub proof fn lemma_bring_to_front_raises_selection(s: ProjectionView, ids: Seq<Seq<char>>, r: Result<ProjectionView, ReplayErrorView>)
    requires
        z_order_outcome(s, ZMove::BringToFront, ids, r),
        forall|k: Seq<char>| #[trigger] s.nodes.contains_key(k) ==> s.nodes[k].z_index + s.nodes.dom().len() <= i64::MAX,
    ensures
        r matches Ok(s2) ==> forall|a: Seq<char>, b: Seq<char>|
            s.nodes.contains_key(a) && ids.contains(a) && s.nodes.contains_key(b) && !ids.contains(b)
            ==> #[trigger] s2.nodes[a].z_index > #[trigger] s2.nodes[b].z_index,
{
    if r is Ok && ids.len() > 0 && !selection(s.nodes, ids).is_empty() {
        let nodes = s.nodes;
        let sel = selection(nodes, ids);
        let order = choose|order: Seq<Seq<char>>| z_sorted_listing(order, nodes)
            && r == renumber_outcome(s, rearranged(ZMove::BringToFront, order, sel));
        let u = keep(order, sel, false);
        let w = keep(order, sel, true);
        let rr = u + w;
        lemma_keep_members(order, sel, false);
        lemma_keep_members(order, sel, true);
        lemma_keep_lengths(order, sel);
        assert(distinct(order));
        assert(distinct(rr)) by {
            assert forall|a: int, b: int| 0 <= a < b < rr.len() implies rr[a] != rr[b] by {
                if b < u.len() {
                    assert(rr[a] == u[a] && rr[b] == u[b]);
                } else if a >= u.len() {
                    assert(rr[a] == w[a - u.len()] && rr[b] == w[b - u.len()]);
                } else {
                    assert(rr[a] == u[a] && rr[b] == w[b - u.len()]);
                    assert(!sel.contains(u[a]));
                    assert(sel.contains(w[b - u.len()]));
                }
            }
        }
        assert(order.to_set() =~= nodes.dom()) by {
            assert forall|x: Seq<char>| order.to_set().contains(x) implies nodes.dom().contains(x) by {
                let j = choose|j: int| 0 <= j < order.len() && order[j] == x;
                assert(nodes.contains_key(order[j]));
            }
        }
        assert(order.no_duplicates());
        order.unique_seq_to_set();
        let s2 = r->Ok_0;
        let base = min_z(nodes, rr);
        assert forall|a: Seq<char>, b: Seq<char>|
            nodes.contains_key(a) && ids.contains(a) && nodes.contains_key(b) && !ids.contains(b)
            implies #[trigger] s2.nodes[a].z_index > #[trigger] s2.nodes[b].z_index by {
            assert(sel.contains(a));
            assert(!sel.contains(b));
            assert(order.contains(a) && order.contains(b));
            assert(w.contains(a));
            assert(u.contains(b));
            let p0 = choose|p: int| 0 <= p < w.len() && w[p] == a;
            let q = choose|q: int| 0 <= q < u.len() && u[q] == b;
            let p = p0 + u.len();
            assert(rr[p] == a);
            assert(rr[q] == b);
            lemma_index_of_distinct(rr, p);
            lemma_index_of_distinct(rr, q);
            assert(rr.contains(a));
            assert(rr.contains(b));
            lemma_min_z_le(nodes, rr, 0);
            assert(nodes.contains_key(rr[0]));
            assert(base + p <= i64::MAX);
        }
    }
}

/// Sending the selection to the back puts every selected node below every node that
/// is not selected, as long as no `z_index` is pushed past `i64::MAX` (each
/// `z_index` plus the number of nodes stays within it).
pub proof fn lemma_send_to_back_lowers_selection(s: ProjectionView, ids: Seq<Seq<char>>, r: Result<ProjectionView, ReplayErrorView>)
    requires
        z_order_outcome(s, ZMove::SendToBack, ids, r),
        forall|k: Seq<char>| #[trigger] s.nodes.contains_key(k) ==> s.nodes[k].z_index + s.nodes.dom().len() <= i64::MAX,
    ensures
        r matches Ok(s2) ==> forall|a: Seq<char>, b: Seq<char>|
            s.nodes.contains_key(a) && ids.contains(a) && s.nodes.contains_key(b) && !ids.contains(b)
            ==> #[trigger] s2.nodes[a].z_index < #[trigger] s2.nodes[b].z_index,
{
    if r is Ok && ids.len() > 0 && !selection(s.nodes, ids).is_empty() {
        let nodes = s.nodes;
        let sel = selection(nodes, ids);
        let order = choose|order: Seq<Seq<char>>| z_sorted_listing(order, nodes)
            && r == renumber_outcome(s, rearranged(ZMove::SendToBack, order, sel));
        let u = keep(order, sel, false);
        let w = keep(order, sel, true);
        let rr = w + u;
        lemma_keep_members(order, sel, false);
        lemma_keep_members(order, sel, true);
        lemma_keep_lengths(order, sel);
        assert(distinct(order));
        assert(distinct(rr)) by {
            assert forall|a: int, b: int| 0 <= a < b < rr.len() implies rr[a] != rr[b] by {
                if b < w.len() {
                    assert(rr[a] == w[a] && rr[b] == w[b]);
                } else if a >= w.len() {
                    assert(rr[a] == u[a - w.len()] && rr[b] == u[b - w.len()]);
                } else {
                    assert(rr[a] == w[a] && rr[b] == u[b - w.len()]);
                    assert(sel.contains(w[a]));
                    assert(!sel.contains(u[b - w.len()]));
                }
            }
        }
        assert(order.to_set() =~= nodes.dom()) by {
            assert forall|x: Seq<char>| order.to_set().contains(x) implies nodes.dom().contains(x) by {
                let j = choose|j: int| 0 <= j < order.len() && order[j] == x;
                assert(nodes.contains_key(order[j]));
            }
        }
        assert(order.no_duplicates());
        order.unique_seq_to_set();
        let s2 = r->Ok_0;
        let base = min_z(nodes, rr);
        assert forall|a: Seq<char>, b: Seq<char>|
            nodes.contains_key(a) && ids.contains(a) && nodes.contains_key(b) && !ids.contains(b)
            implies #[trigger] s2.nodes[a].z_index < #[trigger] s2.nodes[b].z_index by {
            assert(sel.contains(a));
            assert(!sel.contains(b));
            assert(order.contains(a) && order.contains(b));
            assert(w.contains(a));
            assert(u.contains(b));
            let p = choose|p: int| 0 <= p < w.len() && w[p] == a;
            let q0 = choose|q: int| 0 <= q < u.len() && u[q] == b;
            let q = q0 + w.len();
            assert(rr[p] == a);
            assert(rr[q] == b);
            lemma_index_of_distinct(rr, p);
            lemma_index_of_distinct(rr, q);
            assert(rr.contains(a));
            assert(rr.contains(b));
            lemma_min_z_le(nodes, rr, 0);
            assert(nodes.contains_key(rr[0]));
            assert(base + q <= i64::MAX);
        }
    }
}

/// A z-order move changes nothing but stacking levels: the same nodes, each with all its
/// other fields, and the same edges, records, revision, version and cycle policy.
pub proof fn lemma_z_order_changes_only_levels(s: ProjectionView, m: ZMove, ids: Seq<Seq<char>>, r: Result<ProjectionView, ReplayErrorView>)
    requires
        z_order_outcome(s, m, ids, r),
    ensures
        r matches Ok(s2) ==> {
            &&& s2.nodes.dom() == s.nodes.dom()
            &&& forall|k: Seq<char>| #[trigger] s.nodes.contains_key(k)
                ==> s2.nodes[k] == (NodeView { z_index: s2.nodes[k].z_index, ..s.nodes[k] })
            &&& s2.edges == s.edges
            &&& s2.priority == s.priority
            &&& s2.revision == s.revision
            &&& s2.version == s.version
            &&& s2.cycle_policy == s.cycle_policy
        },
{
    if r is Ok {
        let order = choose|order: Seq<Seq<char>>| z_sorted_listing(order, s.nodes)
            && r == renumber_outcome(s, rearranged(m, order, selection(s.nodes, ids)));
        let rr = rearranged(m, order, selection(s.nodes, ids));
        assert(renumbered(s.nodes, rr, min_z(s.nodes, rr)).dom() =~= s.nodes.dom());
    }
}

} // verus!
