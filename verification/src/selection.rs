//! Selection and edit-mode gestures on a document.
//!
//! Bounds of a selection and marquee hit-testing are floating-point geometry and
//! are computed outside this library.

use vstd::prelude::*;

use crate::collections::{id_set_contents, id_set_insert, node_map_get};
use crate::document::{nodes_view, DiagramDocument, LockState, NodeId};
use crate::ordered_float::{ge_positive_const_bits, OrderedFloat};

verus! {

/// Why a selection gesture was refused.
#[derive(Debug, Clone, Copy, PartialEq, Eq, Structural)]
pub enum SelectionError {
    NodeNotFound,
    MovementExceededDragThreshold,
    NodeNotEditable,
    InvalidMarqueeBounds,
}

impl SelectionError {
    /// The error's text.
    pub fn to_string(&self) -> (s: String)
        ensures
            *self == SelectionError::NodeNotFound ==> s@ == "Node not found in document"@,
            *self == SelectionError::MovementExceededDragThreshold ==> s@ == "Movement exceeded drag threshold"@,
            *self == SelectionError::NodeNotEditable ==> s@ == "Node is not editable"@,
            *self == SelectionError::InvalidMarqueeBounds ==> s@ == "Invalid marquee bounds: negative width or height"@,
    {
        match self {
            SelectionError::NodeNotFound => String::from_str("Node not found in document"),
            SelectionError::MovementExceededDragThreshold => String::from_str("Movement exceeded drag threshold"),
            SelectionError::NodeNotEditable => String::from_str("Node is not editable"),
            SelectionError::InvalidMarqueeBounds => String::from_str("Invalid marquee bounds: negative width or height"),
        }
    }
}

/// Bit pattern of `5.0`, the distance beyond which a press becomes a drag.
pub const DRAG_THRESHOLD_BITS: u64 = 0x4014_0000_0000_0000;

/// A long press on a node adds it to the selection, unless the pointer moved at least
/// the drag threshold (then the press is a drag) or the node does not exist.
pub fn handle_long_press(doc: &mut DiagramDocument, target: NodeId, movement: OrderedFloat) -> (r: Result<(), SelectionError>)
    ensures
        ge_positive_const_bits(movement.0, DRAG_THRESHOLD_BITS) ==> r == Err::<(), SelectionError>(SelectionError::MovementExceededDragThreshold),
        !ge_positive_const_bits(movement.0, DRAG_THRESHOLD_BITS) && !nodes_view(old(doc).document.nodes).contains_key(target@)
            ==> r == Err::<(), SelectionError>(SelectionError::NodeNotFound),
        r is Err ==> *final(doc) == *old(doc),
        r is Ok <==> !ge_positive_const_bits(movement.0, DRAG_THRESHOLD_BITS) && nodes_view(old(doc).document.nodes).contains_key(target@),
        r is Ok ==> final(doc).document == old(doc).document
            && final(doc).version == old(doc).version
            && final(doc).revision == old(doc).revision
            && final(doc).editor_state.edit_mode_target == old(doc).editor_state.edit_mode_target
            && id_set_contents(final(doc).editor_state.selected_items) == id_set_contents(old(doc).editor_state.selected_items).insert(target@),
{
    if movement.ge_positive_const(DRAG_THRESHOLD_BITS) {
        return Err(SelectionError::MovementExceededDragThreshold);
    }
    if !crate::collections::node_map_contains(&doc.document.nodes, &target) {
        return Err(SelectionError::NodeNotFound);
    }
    id_set_insert(&mut doc.editor_state.selected_items, target.id);
    Ok(())
}

/// A double click on a node enters edit mode on it, unless it does not exist or is
/// locked.
pub fn handle_double_click(doc: &mut DiagramDocument, target: NodeId) -> (r: Result<(), SelectionError>)
    ensures
        !nodes_view(old(doc).document.nodes).contains_key(target@) ==> r == Err::<(), SelectionError>(SelectionError::NodeNotFound),
        nodes_view(old(doc).document.nodes).contains_key(target@) && (nodes_view(old(doc).document.nodes)[target@].lock_state == LockState::Locked)
            ==> r == Err::<(), SelectionError>(SelectionError::NodeNotEditable),
        r is Err ==> *final(doc) == *old(doc),
        r is Ok <==> nodes_view(old(doc).document.nodes).contains_key(target@) && nodes_view(old(doc).document.nodes)[target@].lock_state != LockState::Locked,
        r is Ok ==> final(doc).document == old(doc).document
            && final(doc).version == old(doc).version
            && final(doc).revision == old(doc).revision
            && final(doc).editor_state.selected_items == old(doc).editor_state.selected_items
            && (final(doc).editor_state.edit_mode_target matches Some(t) && t@ == target@),
{
    match node_map_get(&doc.document.nodes, &target) {
        None => return Err(SelectionError::NodeNotFound),
        Some(node) => {
            assert(nodes_view(doc.document.nodes)[target@] == node@);
            if node.is_locked() {
                return Err(SelectionError::NodeNotEditable);
            }
        },
    }
    doc.editor_state.edit_mode_target = Some(target.id);
    Ok(())
}

} // verus!
