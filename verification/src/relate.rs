//! Creates and changes relationships between nodes.

use crate::error::Error;
use crate::error::Role;
use crate::id::NodeId;
use crate::index::NodeIdx;
use crate::tree::Tree;
use vstd::prelude::*;

verus! {

impl<T> Tree<T> {
    /// Places the node in the slot `node` below `parent`, between the siblings
    /// `prev_sibling` and `next_sibling`.
    pub(crate) fn relate(
        &mut self,
        node: usize,
        parent: Option<usize>,
        prev_sibling: Option<usize>,
        next_sibling: Option<usize>,
    )
        requires
            old(self).nodes.wf(),
            old(self)@.shape.can_relate(node, parent, prev_sibling, next_sibling),
        ensures
            final(self).nodes.wf(),
            final(self)@.shape == old(self)@.shape.relate(
                node,
                parent,
                prev_sibling,
                next_sibling,
            ),
            final(self)@.store == old(self)@.store,
    {
        let mut links = self.links_at(node);
        links.parent = parent;
        links.prev_sibling = prev_sibling;
        links.next_sibling = next_sibling;
        self.set_links(node, links);

        if let Some(parent_index) = parent {
            let mut links = self.links_at(parent_index);
            if prev_sibling.is_none() {
                links.first_child = Some(node);
            }
            if next_sibling.is_none() {
                links.last_child = Some(node);
            }
            self.set_links(parent_index, links);
        }
        if let Some(prev_index) = prev_sibling {
            let mut links = self.links_at(prev_index);
            links.next_sibling = Some(node);
            self.set_links(prev_index, links);
        }
        if let Some(next_index) = next_sibling {
            let mut links = self.links_at(next_index);
            links.prev_sibling = Some(node);
            self.set_links(next_index, links);
        }
        proof {
            old(self)@.shape.lemma_relate_by_steps(node, parent, prev_sibling, next_sibling);
        }
    }

    /// Links two siblings to each other, where they exist.
    pub(crate) fn link_siblings(&mut self, next_sibling: Option<usize>, prev_sibling: Option<usize>)
        requires
            old(self).nodes.wf(),
            old(self)@.shape.is_link(next_sibling),
            old(self)@.shape.is_link(prev_sibling),
        ensures
            final(self).nodes.wf(),
            final(self)@.shape == old(self)@.shape.link_siblings(next_sibling, prev_sibling),
            final(self)@.store == old(self)@.store,
    {
        if let Some(next_index) = next_sibling {
            let mut links = self.links_at(next_index);
            links.prev_sibling = prev_sibling;
            self.set_links(next_index, links);
        }
        if let Some(prev_index) = prev_sibling {
            let mut links = self.links_at(prev_index);
            links.next_sibling = next_sibling;
            self.set_links(prev_index, links);
        }
    }

    /// Detaches the node in the slot `node` from its parent and its siblings.
    pub(crate) fn unlink(&mut self, node: usize)
        requires
            old(self).wf(),
            old(self)@.shape.is_node(node),
        ensures
            final(self).wf(),
            final(self)@.shape == old(self)@.shape.detach(node),
            final(self)@.store == old(self)@.store,
    {
        proof {
            self@.shape.lemma_detach(node);
            assert(self@.shape.node_ok(node));
        }
        let links = self.links_at(node);
        let parent = links.parent;
        let prev_sibling = links.prev_sibling;
        let next_sibling = links.next_sibling;

        let mut cleared = links;
        cleared.parent = None;
        cleared.prev_sibling = None;
        cleared.next_sibling = None;
        self.set_links(node, cleared);

        if let Some(parent_index) = parent {
            let mut links = self.links_at(parent_index);
            if links.first_child == Some(node) {
                links.first_child = next_sibling;
            }
            if links.last_child == Some(node) {
                links.last_child = prev_sibling;
            }
            self.set_links(parent_index, links);
        }
        self.link_siblings(next_sibling, prev_sibling);

        let first = if self.first_node == Some(node) {
            next_sibling
        } else {
            self.first_node
        };
        let last = if self.last_node == Some(node) {
            prev_sibling
        } else {
            self.last_node
        };
        self.set_ends(first, last);
        proof {
            old(self)@.shape.lemma_detach_by_steps(node);
        }
    }

    /// Detach the node from its parent and its siblings. The node keeps the
    /// subtree below it and becomes a tree of its own, outside the root list:
    /// where it was the first or the last root, its neighbour takes that place.
    ///
    /// # Errors
    ///
    /// - Fails if the `node` was removed
    pub fn detach(&mut self, node: &NodeId) -> (result: Result<(), Error>)
        requires
            old(self).wf(),
        ensures
            final(self).wf(),
            final(self)@.store == old(self)@.store,
            old(self)@.shape.is_node(node@) ==> result is Ok && final(self)@.shape == old(
                self,
            )@.shape.detach(node@),
            !old(self)@.shape.is_node(node@) ==> result == Err::<(), Error>(
                Error::Invalid(Role::Node),
            ) && final(self)@ == old(self)@,
            result is Ok && (old(self)@.shape.is_proper() || old(self)@.shape.is_proper_but(node@))
                ==> final(self)@.shape.is_proper_but(node@),
    {
        let index = node.slot();
        if !self.is_node(index) {
            return Err(Error::Invalid(Role::Node));
        }
        proof {
            if self@.shape.is_proper() || self@.shape.is_proper_but(index) {
                self@.shape.lemma_detach_proper_but(index);
            }
        }
        self.unlink(index);
        Ok(())
    }

    /// Make the `child` node the last child of the `parent` node. The child
    /// is detached first and keeps the subtree below it. Whether `parent`
    /// stands below `child` is not checked.
    ///
    /// # Errors
    ///
    /// - Fails if a handle names no node
    /// - Fails if the same node is passed twice
    pub fn make_child(&mut self, child: &NodeId, parent: &NodeId) -> (result: Result<(), Error>)
        requires
            old(self).wf(),
        ensures
            final(self).wf(),
            final(self)@.store == old(self)@.store,
            result == old(self)@.shape.check_pair(child@, Role::Child, parent@, Role::Parent),
            result is Ok ==> final(self)@.shape == old(self)@.shape.make_child(child@, parent@),
            result is Err ==> final(self)@ == old(self)@,
            result is Ok && (old(self)@.shape.is_proper() || old(self)@.shape.is_proper_but(
                child@,
            )) && !old(self)@.shape.is_below(parent@, child@) ==> final(self)@.shape.is_proper(),
    {
        let child_index = match self.slot(child) {
            Some(index) => index,
            None => {
                return Err(Error::Invalid(Role::Child));
            },
        };
        let parent_index = match self.slot(parent) {
            Some(index) => index,
            None => {
                return Err(Error::Invalid(Role::Parent));
            },
        };
        if child_index == parent_index {
            return Err(Error::SameNode);
        }
        proof {
            self@.shape.lemma_make_child(child_index, parent_index);
            if (self@.shape.is_proper() || self@.shape.is_proper_but(child_index))
                && !self@.shape.is_below(parent_index, child_index) {
                self@.shape.lemma_make_child_proper(child_index, parent_index);
            }
        }
        self.unlink(child_index);
        let last_child = self.links_at(parent_index).last_child;
        self.relate(child_index, Some(parent_index), last_child, None);
        Ok(())
    }

    /// Make the `node` the previous sibling of `sibling`. The node is
    /// detached first and keeps the subtree below it.
    ///
    /// # Errors
    ///
    /// - Fails if a handle names no node
    /// - Fails if the same node is passed twice
    pub fn make_prev_siblings(&mut self, node: &NodeId, sibling: &NodeId) -> (result: Result<
        (),
        Error,
    >)
        requires
            old(self).wf(),
        ensures
            final(self).wf(),
            final(self)@.store == old(self)@.store,
            result == old(self)@.shape.check_pair(node@, Role::Node, sibling@, Role::Sibling),
            result is Ok ==> final(self)@.shape == old(self)@.shape.make_prev_sibling(
                node@,
                sibling@,
            ),
            result is Err ==> final(self)@ == old(self)@,
            result is Ok && (old(self)@.shape.is_proper() || old(self)@.shape.is_proper_but(
                node@,
            )) && !old(self)@.shape.is_below(sibling@, node@) ==> final(self)@.shape.is_proper(),
    {
        let node_index = match self.slot(node) {
            Some(index) => index,
            None => {
                return Err(Error::Invalid(Role::Node));
            },
        };
        let sibling_index = match self.slot(sibling) {
            Some(index) => index,
            None => {
                return Err(Error::Invalid(Role::Sibling));
            },
        };
        if node_index == sibling_index {
            return Err(Error::SameNode);
        }
        proof {
            self@.shape.lemma_make_prev_sibling(node_index, sibling_index);
            if (self@.shape.is_proper() || self@.shape.is_proper_but(node_index))
                && !self@.shape.is_below(sibling_index, node_index) {
                self@.shape.lemma_make_prev_sibling_proper(node_index, sibling_index);
            }
        }
        self.unlink(node_index);
        let links = self.links_at(sibling_index);
        self.relate(node_index, links.parent, links.prev_sibling, Some(sibling_index));
        let first = if self.first_node == Some(sibling_index) {
            Some(node_index)
        } else {
            self.first_node
        };
        let last = self.last_node;
        self.set_ends(first, last);
        Ok(())
    }

    /// Make the `node` the next sibling of `sibling`. The node is detached
    /// first and keeps the subtree below it.
    ///
    /// # Errors
    ///
    /// - Fails if a handle names no node
    /// - Fails if the same node is passed twice
    pub fn make_next_siblings(&mut self, node: &NodeId, sibling: &NodeId) -> (result: Result<
        (),
        Error,
    >)
        requires
            old(self).wf(),
        ensures
            final(self).wf(),
            final(self)@.store == old(self)@.store,
            result == old(self)@.shape.check_pair(node@, Role::Node, sibling@, Role::Sibling),
            result is Ok ==> final(self)@.shape == old(self)@.shape.make_next_sibling(
                node@,
                sibling@,
            ),
            result is Err ==> final(self)@ == old(self)@,
            result is Ok && (old(self)@.shape.is_proper() || old(self)@.shape.is_proper_but(
                node@,
            )) && !old(self)@.shape.is_below(sibling@, node@) ==> final(self)@.shape.is_proper(),
    {
        let node_index = match self.slot(node) {
            Some(index) => index,
            None => {
                return Err(Error::Invalid(Role::Node));
            },
        };
        let sibling_index = match self.slot(sibling) {
            Some(index) => index,
            None => {
                return Err(Error::Invalid(Role::Sibling));
            },
        };
        if node_index == sibling_index {
            return Err(Error::SameNode);
        }
        proof {
            self@.shape.lemma_make_next_sibling(node_index, sibling_index);
            if (self@.shape.is_proper() || self@.shape.is_proper_but(node_index))
                && !self@.shape.is_below(sibling_index, node_index) {
                self@.shape.lemma_make_next_sibling_proper(node_index, sibling_index);
            }
        }
        self.unlink(node_index);
        let links = self.links_at(sibling_index);
        self.relate(node_index, links.parent, Some(sibling_index), links.next_sibling);
        let first = self.first_node;
        let last = if self.last_node == Some(sibling_index) {
            Some(node_index)
        } else {
            self.last_node
        };
        self.set_ends(first, last);
        Ok(())
    }

    /// Make two nodes siblings of each other: `next_sibling` is detached and
    /// placed right after `prev_sibling`.
    ///
    /// # Errors
    ///
    /// - Fails if an index names no node
    /// - Fails if the same node is passed twice
    pub fn make_sibling(&mut self, prev_sibling: NodeIdx, next_sibling: NodeIdx) -> (result: Result<
        (),
        Error,
    >)
        requires
            old(self).wf(),
        ensures
            final(self).wf(),
            final(self)@.store == old(self)@.store,
            result == old(self)@.shape.check_pair(
                next_sibling@,
                Role::Node,
                prev_sibling@,
                Role::Sibling,
            ),
            result is Ok ==> final(self)@.shape == old(self)@.shape.make_next_sibling(
                next_sibling@,
                prev_sibling@,
            ),
            result is Err ==> final(self)@ == old(self)@,
            result is Ok && (old(self)@.shape.is_proper() || old(self)@.shape.is_proper_but(
                next_sibling@,
            )) && !old(self)@.shape.is_below(prev_sibling@, next_sibling@)
                ==> final(self)@.shape.is_proper(),
    {
        let node = NodeId::new(next_sibling.index());
        let sibling = NodeId::new(prev_sibling.index());
        self.make_next_siblings(&node, &sibling)
    }
}

} // verus!
