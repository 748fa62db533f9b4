//! Selections that a transform applies to.
//!
//! Applying the transform itself is floating-point arithmetic on positions and sizes
//! and happens outside this library.

use vstd::prelude::*;

use crate::document::{nodes_view, DiagramDocument, NodeId};

verus! {

/// Why a transform was refused.
#[derive(Debug, Clone, PartialEq, Eq)]
pub enum Error {
    EmptySelection,
    InvalidTransform,
    ItemNotFound(NodeId),
    DocumentLocked,
    PersistenceFailed,
}

/// A selection with at least one item.
#[derive(Debug)]
pub struct NonEmptySelection {
    items: Vec<NodeId>,
}

impl NonEmptySelection {
    /// The selection holds at least one item.
    #[verifier::type_invariant]
    spec fn has_items(self) -> bool {
        self.items@.len() > 0
    }
}

impl View for NonEmptySelection {
    type V = Seq<NodeId>;

    /// The selected items, in order.
    closed spec fn view(&self) -> Seq<NodeId> {
        self.items@
    }
}

impl Clone for NonEmptySelection {
    fn clone(&self) -> (r: Self)
        ensures
            r@ == self@,
    {
        proof {
            use_type_invariant(self);
        }
        let mut v: Vec<NodeId> = Vec::new();
        let mut i: usize = 0;
        while i < self.items.len()
            invariant
                i <= self.items@.len(),
                v@ == self.items@.subrange(0, i as int),
            decreases self.items.len() - i,
        {
            v.push(self.items[i].duplicate());
            i = i + 1;
            assert(v@ =~= self.items@.subrange(0, i as int));
        }
        assert(self.items@.subrange(0, self.items@.len() as int) =~= self.items@);
        NonEmptySelection { items: v }
    }
}

impl NonEmptySelection {
    /// The selection of `items`, which must not be empty.
    pub fn try_new(items: Vec<NodeId>) -> (r: Result<NonEmptySelection, Error>)
        ensures
            r is Ok <==> items@.len() > 0,
            r matches Ok(s) ==> s@ == items@,
            r matches Err(e) ==> e == Error::EmptySelection,
    {
        if items.len() == 0 {
            Err(Error::EmptySelection)
        } else {
            Ok(NonEmptySelection { items })
        }
    }

    /// The selected items.
    pub fn items(&self) -> (r: &[NodeId])
        ensures
            r@ == self@,
            r@.len() > 0,
    {
        proof {
            use_type_invariant(self);
        }
        self.items.as_slice()
    }
}

/// How a marquee selects: nodes wholly inside it, or nodes it touches.
#[derive(Debug, Clone, Copy, PartialEq, Eq, Structural)]
pub enum MarqueeMode {
    Contain,
    Intersect,
}

/// Check that every selected item is a node of the document, in selection order.
pub fn validate_items_exist(selection: &NonEmptySelection, doc: &DiagramDocument) -> (r: Result<(), Error>)
    ensures
        r is Ok <==> forall|i: int| 0 <= i < selection@.len() ==> nodes_view(doc.document.nodes).contains_key(#[trigger] selection@[i]@),
        r matches Err(e) ==> exists|i: int| 0 <= i < selection@.len() && e == Error::ItemNotFound(selection@[i])
            && !nodes_view(doc.document.nodes).contains_key(#[trigger] selection@[i]@)
            && forall|j: int| 0 <= j < i ==> nodes_view(doc.document.nodes).contains_key(#[trigger] selection@[j]@),
{
    let items = selection.items();
    let mut i: usize = 0;
    while i < items.len()
        invariant
            i <= items@.len(),
            items@ == selection@,
            forall|j: int| 0 <= j < i ==> nodes_view(doc.document.nodes).contains_key(#[trigger] selection@[j]@),
        decreases items.len() - i,
    {
        if !crate::collections::node_map_contains(&doc.document.nodes, &items[i]) {
            return Err(Error::ItemNotFound(items[i].duplicate()));
        }
        i = i + 1;
    }
    Ok(())
}

} // verus!
