//! Handle to a node of a tree.

use vstd::prelude::*;

verus! {

/// Handle to a node, given out by the tree that holds the node. It names a
/// slot and nothing more: whether the slot still holds a node is checked each
/// time the handle is used, and a handle to a removed node names whatever
/// node occupies the slot later.
#[derive(Debug, Clone, Copy, PartialEq, Eq)]
pub struct NodeId {
    index: usize,
}

impl View for NodeId {
    type V = usize;

    /// The slot that the handle names.
    closed spec fn view(&self) -> usize {
        self.index
    }
}

impl NodeId {
    /// Creates the handle of the slot `index`.
    pub(crate) fn new(index: usize) -> (id: Self)
        ensures
            id@ == index,
    {
        Self { index }
    }

    /// The slot that the handle names.
    pub(crate) fn slot(&self) -> (index: usize)
        ensures
            index == self@,
    {
        self.index
    }
}

/// The slot that an optional handle names.
pub open spec fn slot_of_id(id: Option<NodeId>) -> Option<usize> {
    match id {
        Some(id) => Some(id@),
        None => None,
    }
}

} // verus!
