//! Index of a node in the tree.

use vstd::prelude::*;

verus! {

/// Index of the slot that a node occupies in a tree. The links of a node are
/// read as such indices.
#[derive(Debug, Clone, Copy, PartialEq, Eq)]
pub struct NodeIdx {
    index: usize,
}

impl View for NodeIdx {
    type V = usize;

    /// The slot that the index stands for.
    closed spec fn view(&self) -> usize {
        self.index
    }
}

impl NodeIdx {
    /// Creates the index of the slot `index`.
    pub(crate) fn new(index: usize) -> (idx: Self)
        ensures
            idx@ == index,
    {
        Self { index }
    }

    /// The slot of the node in the tree.
    #[inline]
    pub fn index(&self) -> (index: usize)
        ensures
            index == self@,
    {
        self.index
    }
}

/// The slot that an optional index stands for.
pub open spec fn slot_of(idx: Option<NodeIdx>) -> Option<usize> {
    match idx {
        Some(idx) => Some(idx@),
        None => None,
    }
}

} // verus!
