//! Node inside the tree.

use crate::index::NodeIdx;
use crate::index::slot_of;
use vstd::prelude::*;

verus! {

/// The five links of a node, each the slot of another node or `None`.
#[derive(Debug, Default, Clone, Copy, PartialEq, Eq)]
pub struct Links {
    pub parent: Option<usize>,
    pub prev_sibling: Option<usize>,
    pub next_sibling: Option<usize>,
    pub first_child: Option<usize>,
    pub last_child: Option<usize>,
}

impl Links {
    /// The links of a node that is related to no other node.
    pub open spec fn isolated() -> Links {
        Links {
            parent: None,
            prev_sibling: None,
            next_sibling: None,
            first_child: None,
            last_child: None,
        }
    }

    /// The node has neither parent nor siblings.
    pub open spec fn is_detached(self) -> bool {
        self.parent is None && self.prev_sibling is None && self.next_sibling is None
    }

    /// Links of a node that is related to no other node.
    pub fn new() -> (links: Links)
        ensures
            links == Links::isolated(),
    {
        Links {
            parent: None,
            prev_sibling: None,
            next_sibling: None,
            first_child: None,
            last_child: None,
        }
    }
}

/// Node value in the tree, with its links to other nodes.
#[derive(Debug, Default, Clone, Copy, PartialEq, Eq)]
pub struct Node<T> {
    pub(crate) value: T,
    pub(crate) links: Links,
}

impl<T> Node<T> {
    /// The value that the node holds.
    pub open(crate) spec fn value(self) -> T {
        self.value
    }

    /// The links of the node.
    pub open(crate) spec fn links(self) -> Links {
        self.links
    }

    /// Creates a node that holds `value` and is related to no other node.
    pub(crate) fn new(value: T) -> (node: Self)
        ensures
            node.value() == value,
            node.links() == Links::isolated(),
    {
        Self { value, links: Links::new() }
    }

    /// Get the index for the parent node.
    pub fn parent(&self) -> (idx: Option<NodeIdx>)
        ensures
            slot_of(idx) == self.links().parent,
    {
        match self.links.parent {
            Some(index) => Some(NodeIdx::new(index)),
            None => None,
        }
    }

    /// Get the index for the previous sibling node.
    pub fn prev_sibling(&self) -> (idx: Option<NodeIdx>)
        ensures
            slot_of(idx) == self.links().prev_sibling,
    {
        match self.links.prev_sibling {
            Some(index) => Some(NodeIdx::new(index)),
            None => None,
        }
    }

    /// Get the index for the next sibling node.
    pub fn next_sibling(&self) -> (idx: Option<NodeIdx>)
        ensures
            slot_of(idx) == self.links().next_sibling,
    {
        match self.links.next_sibling {
            Some(index) => Some(NodeIdx::new(index)),
            None => None,
        }
    }

    /// Get the index for the first child node.
    pub fn first_child(&self) -> (idx: Option<NodeIdx>)
        ensures
            slot_of(idx) == self.links().first_child,
    {
        match self.links.first_child {
            Some(index) => Some(NodeIdx::new(index)),
            None => None,
        }
    }

    /// Get the index for the last child node.
    pub fn last_child(&self) -> (idx: Option<NodeIdx>)
        ensures
            slot_of(idx) == self.links().last_child,
    {
        match self.links.last_child {
            Some(index) => Some(NodeIdx::new(index)),
            None => None,
        }
    }
}

impl<T> AsRef<T> for Node<T> {
    /// The value of the node.
    fn as_ref(&self) -> (value: &T)
        ensures
            *value == self.value(),
    {
        &self.value
    }
}

impl<T> AsMut<T> for Node<T> {
    /// The value of the node, to be changed in place; the links stay.
    fn as_mut(&mut self) -> (value: &mut T)
        ensures
            *value == old(self).value(),
            final(self).value() == *final(value),
            final(self).links() == old(self).links(),
    {
        &mut self.value
    }
}

impl<T> std::borrow::Borrow<T> for Node<T> {
    /// The value of the node.
    fn borrow(&self) -> &T
        returns
            &self.value(),
    {
        &self.value
    }
}

impl<T> std::borrow::BorrowMut<T> for Node<T> {
    /// The value of the node, to be changed in place; the links stay.
    fn borrow_mut(&mut self) -> (value: &mut T)
        ensures
            ({
                let borrowed: &mut T = value;
                &&& *borrowed == old(self).value()
                &&& final(self).value() == *final(borrowed)
                &&& final(self).links() == old(self).links()
            }),
    {
        &mut self.value
    }
}

impl<T> std::ops::Deref for Node<T> {
    type Target = T;

    /// The value of the node.
    fn deref(&self) -> (value: &T)
        ensures
            *value == self.value(),
    {
        &self.value
    }
}

impl<T> std::ops::DerefMut for Node<T> {
    /// The value of the node, to be changed in place; the links stay.
    fn deref_mut(&mut self) -> (value: &mut T)
        ensures
            *value == old(self).value(),
            final(self).value() == *final(value),
            final(self).links() == old(self).links(),
    {
        &mut self.value
    }
}

} // verus!
