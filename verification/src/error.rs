//! Errors returned by the operations on the tree.

use vstd::prelude::*;

verus! {

/// The part that a node handle plays in an operation.
#[derive(Debug, Clone, Copy, PartialEq, Eq)]
pub enum Role {
    /// The node that becomes a child.
    Child,
    /// The node that becomes a parent.
    Parent,
    /// The node that is moved, detached or extended.
    Node,
    /// The node next to which another is placed.
    Sibling,
}

/// Errors returned by the tree operations.
#[derive(Debug, Clone, Copy, PartialEq, Eq)]
pub enum Error {
    /// The handle given in this role names a slot that holds no node.
    Invalid(Role),
    /// A node was to be related to itself.
    SameNode,
}

impl Error {
    /// The words that tell what went wrong.
    pub open spec fn text(self) -> &'static str {
        match self {
            Error::Invalid(Role::Child) => "couldn't get the node from the index for child",
            Error::Invalid(Role::Parent) => "couldn't get the node from the index for parent",
            Error::Invalid(Role::Node) => "couldn't get the node from the index for node",
            Error::Invalid(Role::Sibling) => "couldn't get the node from the index for sibling",
            Error::SameNode => "couldn't relate a node to itself",
        }
    }

    /// The error as a message for a reader.
    pub fn message(&self) -> (message: String)
        ensures
            message@ == self.text()@,
    {
        let text = match self {
            Error::Invalid(Role::Child) => "couldn't get the node from the index for child",
            Error::Invalid(Role::Parent) => "couldn't get the node from the index for parent",
            Error::Invalid(Role::Node) => "couldn't get the node from the index for node",
            Error::Invalid(Role::Sibling) => "couldn't get the node from the index for sibling",
            Error::SameNode => "couldn't relate a node to itself",
        };
        text.to_string()
    }
}

} // verus!
