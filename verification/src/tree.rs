//! Tree data structure with multiple roots.

use crate::arena::Store;
use crate::error::Error;
use crate::error::Role;
use crate::arena::StoreView;
use crate::forest::Forest;
use crate::id::slot_of_id;
use crate::id::NodeId;
use crate::index::NodeIdx;
use crate::node::Links;
use crate::node::Node;
use vstd::prelude::*;

verus! {

/// What a tree is: the shape of its forest, and the arena of its values, in
/// which the slot of each node holds the value of that node.
pub struct TreeView<T> {
    pub shape: Forest,
    pub store: StoreView<T>,
}

impl<T> TreeView<T> {
    /// The value of the node in the slot `index`.
    pub open spec fn value(self, index: usize) -> T
        recommends
            self.shape.is_node(index),
    {
        self.store.slots[index as int].unwrap()
    }

    /// The forest is well formed, the arena is well formed, and the slots that
    /// hold a value are those that hold a node.
    pub open spec fn wf(self) -> bool {
        &&& self.shape.wf()
        &&& self.store.wf()
        &&& self.shape.nodes.len() == self.store.slots.len()
        &&& forall|i: int|
            0 <= i < self.shape.nodes.len() ==> (#[trigger] self.shape.nodes[i] is Some
                <==> self.store.slots[i] is Some)
    }
}

/// The links of the node in a slot, or `None` for a free slot.
pub open(crate) spec fn links_in<T>(slot: Option<Node<T>>) -> Option<Links> {
    match slot {
        Some(node) => Some(node.links),
        None => None,
    }
}

/// The value of the node in a slot, or `None` for a free slot.
pub open(crate) spec fn value_in<T>(slot: Option<Node<T>>) -> Option<T> {
    match slot {
        Some(node) => Some(node.value),
        None => None,
    }
}

/// The Tree arena allocation data structure: a forest of nodes, each holding a
/// value, stored in the slots of one arena.
#[derive(Debug, Clone)]
pub struct Tree<T> {
    pub(crate) nodes: Store<Node<T>>,
    pub(crate) first_node: Option<usize>,
    pub(crate) last_node: Option<usize>,
}

impl<T> Tree<T> {
    /// The shape and the values of the tree.
    pub open(crate) spec fn view(&self) -> TreeView<T> {
        TreeView {
            shape: Forest {
                nodes: Seq::new(
                    self.nodes@.slots.len(),
                    |i: int| links_in(self.nodes@.slots[i]),
                ),
                first: self.first_node,
                last: self.last_node,
            },
            store: StoreView {
                slots: Seq::new(
                    self.nodes@.slots.len(),
                    |i: int| value_in(self.nodes@.slots[i]),
                ),
                free: self.nodes@.free,
            },
        }
    }

    /// The arena is well formed, and so is the forest that its nodes make up.
    pub open(crate) spec fn wf(&self) -> bool {
        &&& self.nodes.wf()
        &&& self@.shape.wf()
    }

    /// A well-formed tree has a well-formed view.
    pub proof fn lemma_view_wf(&self)
        requires
            self.wf(),
        ensures
            self@.wf(),
    {
        self.nodes.lemma_view_wf();
        let store = self.nodes@;
        let view = self@;
        assert forall|k: int| 0 <= k < view.store.free.len() implies (
        #[trigger] view.store.free[k]) < view.store.slots.len()
            && view.store.slots[view.store.free[k] as int] is None by {
            assert(store.slots[store.free[k] as int] is None);
        }
        assert forall|i: usize|
            i < view.store.slots.len() && view.store.slots[i as int] is None implies #[trigger] view.store.free.contains(
            i,
        ) by {
            assert(store.slots[i as int] is None);
        }
    }

    /// Create a new tree.
    #[must_use]
    pub fn new() -> (tree: Self)
        ensures
            tree.wf(),
            tree@.shape.nodes.len() == 0,
            tree@.shape.first is None,
            tree@.shape.last is None,
            tree@.store.slots.len() == 0,
            tree@.store.free.len() == 0,
            tree@.shape.is_proper(),
    {
        let tree = Self { nodes: Store::new(), first_node: None, last_node: None };
        proof {
            tree@.shape.lemma_empty_is_proper();
        }
        tree
    }

    /// Create a new tree with room reserved for `capacity` nodes.
    #[must_use]
    pub fn with_capacity(capacity: usize) -> (tree: Self)
        ensures
            tree.wf(),
            tree@.shape.nodes.len() == 0,
            tree@.shape.first is None,
            tree@.shape.last is None,
            tree@.store.slots.len() == 0,
            tree@.store.free.len() == 0,
            tree@.shape.is_proper(),
    {
        let tree = Self {
            nodes: Store::with_capacity(capacity),
            first_node: None,
            last_node: None,
        };
        proof {
            tree@.shape.lemma_empty_is_proper();
        }
        tree
    }

    /// Whether the slot `index` holds a node.
    pub(crate) fn is_node(&self, index: usize) -> (live: bool)
        ensures
            live == self@.shape.is_node(index),
    {
        self.nodes.get(index).is_some()
    }

    /// The links of the node in the slot `index`.
    pub(crate) fn links_at(&self, index: usize) -> (links: Links)
        requires
            self@.shape.is_node(index),
        ensures
            links == self@.shape.links(index),
    {
        self.nodes.get(index).unwrap().links
    }

    /// Gives the node in the slot `index` the links `links`.
    pub(crate) fn set_links(&mut self, index: usize, links: Links)
        requires
            old(self).nodes.wf(),
            old(self)@.shape.is_node(index),
        ensures
            final(self).nodes.wf(),
            final(self)@.shape == old(self)@.shape.with_links(index, links),
            final(self)@.store == old(self)@.store,
    {
        let node = self.nodes.get_mut(index).unwrap();
        node.links = links;
        proof {
            assert(self@.shape.nodes =~= old(self)@.shape.with_links(index, links).nodes);
            assert(self@.store.slots =~= old(self)@.store.slots);
        }
    }

    /// Moves the first and the last root.
    pub(crate) fn set_ends(&mut self, first: Option<usize>, last: Option<usize>)
        ensures
            final(self).nodes == old(self).nodes,
            final(self)@.shape == old(self)@.shape.with_ends(first, last),
            final(self)@.store == old(self)@.store,
    {
        self.first_node = first;
        self.last_node = last;
    }

    /// Allocates a node for `value`, related to no other node, and returns
    /// its slot.
    pub(crate) fn allocate_node(&mut self, value: T) -> (index: usize)
        requires
            old(self).wf(),
        ensures
            final(self).nodes.wf(),
            index == old(self)@.store.next_index(),
            !old(self)@.shape.is_node(index),
            index <= old(self)@.shape.nodes.len(),
            final(self)@.shape == old(self)@.shape.with_node(index),
            final(self)@.store == old(self)@.store.allocate(value),
    {
        proof {
            self.lemma_view_wf();
            if self@.store.free.len() > 0 {
                assert(self@.store.free[0] < self@.store.slots.len());
            }
        }
        let index = self.nodes.allocate(Node::new(value));
        proof {
            assert(self@.shape.nodes =~= old(self)@.shape.with_node(index).nodes);
            assert(self@.store.slots =~= old(self)@.store.allocate(value).slots);
        }
        index
    }
}

impl<T> Tree<T> {
    /// The slot that the next new node will occupy.
    pub(crate) fn get_first_free(&self) -> (index: usize)
        requires
            self.wf(),
        ensures
            index == self@.store.next_index(),
    {
        match self.nodes.first_free() {
            Some(index) => index,
            None => self.nodes.len(),
        }
    }

    /// Frees the slot `index`, which holds a node that no other node is
    /// linked to, and returns the value of that node.
    pub(crate) fn free_node(&mut self, index: usize) -> (value: T)
        requires
            old(self).nodes.wf(),
            old(self)@.shape.is_node(index),
        ensures
            final(self).nodes.wf(),
            value == old(self)@.value(index),
            final(self)@.shape == old(self)@.shape.without_node(index),
            final(self)@.store == old(self)@.store.release(index),
    {
        let node = self.nodes.free_node(index).unwrap();
        proof {
            assert(self@.shape.nodes =~= old(self)@.shape.without_node(index).nodes);
            assert(self@.store.slots =~= old(self)@.store.release(index).slots);
        }
        node.value
    }

    /// The slot that the handle names, if it holds a node.
    pub(crate) fn slot(&self, id: &NodeId) -> (index: Option<usize>)
        ensures
            index == if self@.shape.is_node(id@) {
                Some(id@)
            } else {
                None
            },
    {
        let index = id.slot();
        if self.is_node(index) {
            Some(index)
        } else {
            None
        }
    }

    /// Resolves a handle: the index of the node that it names, or `None` when
    /// its slot holds no node.
    #[must_use]
    pub fn index(&self, id: &NodeId) -> (idx: Option<NodeIdx>)
        ensures
            crate::index::slot_of(idx) == if self@.shape.is_node(id@) {
                Some(id@)
            } else {
                None
            },
    {
        let index = id.slot();
        if self.is_node(index) {
            Some(NodeIdx::new(index))
        } else {
            None
        }
    }

    /// The handle of the first root.
    #[must_use]
    pub fn first_node_id(&self) -> (id: Option<NodeId>)
        ensures
            slot_of_id(id) == self@.shape.first,
    {
        match self.first_node {
            Some(index) => Some(NodeId::new(index)),
            None => None,
        }
    }

    /// The handle of the last root: the node below which `append_child` and
    /// after which `append_sibling` adds.
    #[must_use]
    pub fn last_node_id(&self) -> (id: Option<NodeId>)
        ensures
            slot_of_id(id) == self@.shape.last,
    {
        match self.last_node {
            Some(index) => Some(NodeId::new(index)),
            None => None,
        }
    }

    /// Add a node to the tree, without relations with the other nodes.
    pub fn create_node(&mut self, value: T) -> (id: NodeId)
        requires
            old(self).wf(),
        ensures
            final(self).wf(),
            id@ == old(self)@.store.next_index(),
            final(self)@.shape == old(self)@.shape.with_node(id@),
            final(self)@.store == old(self)@.store.allocate(value),
            old(self)@.shape.is_proper() ==> final(self)@.shape.is_proper_but(id@),
    {
        let index = self.allocate_node(value);
        proof {
            old(self)@.shape.lemma_with_node(index);
            if old(self)@.shape.is_proper() {
                old(self)@.shape.lemma_with_node_proper_but(index);
            }
        }
        NodeId::new(index)
    }

    /// Access the node given the index.
    #[must_use]
    pub fn node(&self, idx: NodeIdx) -> (node: Option<&Node<T>>)
        ensures
            self@.shape.is_node(idx@) ==> node is Some && node.unwrap().links()
                == self@.shape.links(idx@) && node.unwrap().value() == self@.value(idx@),
            !self@.shape.is_node(idx@) ==> node is None,
    {
        self.nodes.get(idx.index())
    }

    /// Access the node given the index. What is written to the node is what
    /// the tree holds in that slot afterwards.
    #[must_use]
    pub fn node_mut(&mut self, idx: NodeIdx) -> (node: Option<&mut Node<T>>)
        requires
            old(self).wf(),
        ensures
            old(self)@.shape.is_node(idx@) ==> {
                &&& node is Some
                &&& node.unwrap().links() == old(self)@.shape.links(idx@)
                &&& node.unwrap().value() == old(self)@.value(idx@)
                &&& final(self)@.shape == old(self)@.shape.with_links(
                    idx@,
                    final(node.unwrap()).links(),
                )
                &&& final(self)@.store.slots == old(self)@.store.slots.update(
                    idx@ as int,
                    Some(final(node.unwrap()).value()),
                )
                &&& final(self)@.store.free == old(self)@.store.free
                &&& final(node.unwrap()).links() == node.unwrap().links() ==> final(self).wf()
            },
            !old(self)@.shape.is_node(idx@) ==> node is None && final(self)@ == old(self)@
                && final(self).wf(),
    {
        proof {
            self.lemma_node_changes(idx@);
        }
        self.nodes.get_mut(idx.index())
    }

    /// `after` is this tree with other content in the node of the slot `index`.
    spec fn node_changed(&self, after: Self, index: usize) -> bool {
        &&& after.nodes.wf()
        &&& after.first_node == self.first_node
        &&& after.last_node == self.last_node
        &&& after.nodes@.free == self.nodes@.free
        &&& after.nodes@.slots[index as int] is Some
        &&& after.nodes@.slots == self.nodes@.slots.update(
            index as int,
            after.nodes@.slots[index as int],
        )
    }

    /// A change to one node changes the links and the value of that node in the
    /// view, and nothing else; with the links as they were the tree stays well
    /// formed.
    proof fn lemma_node_changes(&self, index: usize)
        requires
            self.wf(),
        ensures
            forall|after: Self|
                #![trigger after.view()]
                #![trigger after.wf()]
                self@.shape.is_node(index) && self.node_changed(after, index) ==> {
                    let node = after.nodes@.slots[index as int].unwrap();
                    &&& after@.shape == self@.shape.with_links(index, node.links)
                    &&& after@.store.slots == self@.store.slots.update(
                        index as int,
                        Some(node.value),
                    )
                    &&& after@.store.free == self@.store.free
                    &&& node.links == self@.shape.links(index) ==> after@.shape == self@.shape
                        && after.wf()
                },
    {
        assert forall|after: Self|
            #![trigger after.view()]
            #![trigger after.wf()]
            self@.shape.is_node(index) && self.node_changed(after, index) implies {
            let node = after.nodes@.slots[index as int].unwrap();
            &&& after@.shape == self@.shape.with_links(index, node.links)
            &&& after@.store.slots == self@.store.slots.update(index as int, Some(node.value))
            &&& after@.store.free == self@.store.free
            &&& node.links == self@.shape.links(index) ==> after@.shape == self@.shape
                && after.wf()
        } by {
            let node = after.nodes@.slots[index as int].unwrap();
            assert(after@.shape.nodes =~= self@.shape.with_links(index, node.links).nodes);
            assert(after@.store.slots =~= self@.store.slots.update(
                index as int,
                Some(node.value),
            ));
            if node.links == self@.shape.links(index) {
                assert(after@.shape.nodes =~= self@.shape.nodes);
            }
        }
    }

    /// The value of the node that the handle names.
    #[must_use]
    pub fn get(&self, id: &NodeId) -> (value: Option<&T>)
        ensures
            self@.shape.is_node(id@) ==> value == Some(&self@.value(id@)),
            !self@.shape.is_node(id@) ==> value is None,
    {
        match self.nodes.get(id.slot()) {
            Some(node) => Some(&node.value),
            None => None,
        }
    }

    /// The value of the node that the handle names, to be changed in place.
    /// Nothing but that value changes.
    #[must_use]
    pub fn get_mut(&mut self, id: &NodeId) -> (value: Option<&mut T>)
        requires
            old(self).wf(),
        ensures
            final(self).wf(),
            final(self)@.shape == old(self)@.shape,
            final(self)@.store.free == old(self)@.store.free,
            old(self)@.shape.is_node(id@) ==> {
                &&& value is Some
                &&& *value.unwrap() == old(self)@.value(id@)
                &&& final(self)@.store.slots == old(self)@.store.slots.update(
                    id@ as int,
                    Some(*final(value.unwrap())),
                )
            },
            !old(self)@.shape.is_node(id@) ==> value is None && final(self)@ == old(self)@,
    {
        proof {
            self.lemma_node_changes(id@);
        }
        match self.nodes.get_mut(id.slot()) {
            Some(node) => Some(&mut node.value),
            None => None,
        }
    }
}

impl<T> Tree<T> {
    /// Adds a node for `value` as the last child of the node in the slot
    /// `index`, and returns the slot of the new node.
    pub(crate) fn insert_child_at(&mut self, index: usize, value: T) -> (node: usize)
        requires
            old(self).wf(),
            old(self)@.shape.is_node(index),
        ensures
            final(self).wf(),
            node == old(self)@.store.next_index(),
            final(self)@.shape == old(self)@.shape.append_child_to(index, node),
            final(self)@.store == old(self)@.store.allocate(value),
            final(self)@.shape.is_node(index),
            old(self)@.shape.is_proper() ==> final(self)@.shape.is_proper(),
    {
        let node = self.allocate_node(value);
        proof {
            old(self)@.shape.lemma_append_child_to(index, node);
            if old(self)@.shape.is_proper() {
                old(self)@.shape.lemma_append_child_to_proper(index, node);
            }
        }
        let last_child = self.links_at(index).last_child;
        self.relate(node, Some(index), last_child, None);
        node
    }

    /// Adds a node for `value` as the next sibling of the node in the slot
    /// `index`, and returns the slot of the new node.
    pub(crate) fn insert_sibling_at(&mut self, index: usize, value: T) -> (node: usize)
        requires
            old(self).wf(),
            old(self)@.shape.is_node(index),
        ensures
            final(self).wf(),
            node == old(self)@.store.next_index(),
            final(self)@.shape == old(self)@.shape.insert_sibling_after(index, node),
            final(self)@.store == old(self)@.store.allocate(value),
            final(self)@.shape.is_node(index),
            old(self)@.shape.is_proper() ==> final(self)@.shape.is_proper(),
    {
        let node = self.allocate_node(value);
        proof {
            old(self)@.shape.lemma_insert_sibling_after(index, node);
            if old(self)@.shape.is_proper() {
                old(self)@.shape.lemma_insert_sibling_after_proper(index, node);
            }
        }
        let links = self.links_at(index);
        self.relate(node, links.parent, Some(index), links.next_sibling);
        let first = self.first_node;
        let last = if self.last_node == Some(index) {
            Some(node)
        } else {
            self.last_node
        };
        self.set_ends(first, last);
        node
    }

    /// Adds a node for `value` as the only root of a tree without roots.
    fn insert_root(&mut self, value: T) -> (node: usize)
        requires
            old(self).wf(),
            old(self)@.shape.last is None,
        ensures
            final(self).wf(),
            node == old(self)@.store.next_index(),
            final(self)@.shape == old(self)@.shape.push_root(node),
            final(self)@.store == old(self)@.store.allocate(value),
            old(self)@.shape.is_proper() ==> final(self)@.shape.is_proper(),
    {
        let node = self.allocate_node(value);
        proof {
            old(self)@.shape.lemma_push_root(node);
            if old(self)@.shape.is_proper() {
                old(self)@.shape.lemma_push_root_proper(node);
            }
        }
        self.set_ends(Some(node), Some(node));
        node
    }

    /// Adds a node for `value` as the last child of the last root, or as the
    /// only root where the tree has none. The last root stays the last root.
    pub fn append_child(&mut self, value: T) -> (id: NodeId)
        requires
            old(self).wf(),
        ensures
            final(self).wf(),
            id@ == old(self)@.store.next_index(),
            final(self)@.shape == old(self)@.shape.append_child(id@),
            final(self)@.store == old(self)@.store.allocate(value),
            old(self)@.shape.is_proper() ==> final(self)@.shape.is_proper(),
    {
        proof {
            self@.shape.lemma_ends();
        }
        let node = match self.last_node {
            Some(root) => self.insert_child_at(root, value),
            None => self.insert_root(value),
        };
        NodeId::new(node)
    }

    /// Adds a node for `value` as the root after the last root, or as the only
    /// root where the tree has none. The new node becomes the last root.
    pub fn append_sibling(&mut self, value: T) -> (id: NodeId)
        requires
            old(self).wf(),
        ensures
            final(self).wf(),
            id@ == old(self)@.store.next_index(),
            final(self)@.shape == old(self)@.shape.append_sibling(id@),
            final(self)@.store == old(self)@.store.allocate(value),
            old(self)@.shape.is_proper() ==> final(self)@.shape.is_proper(),
    {
        proof {
            self@.shape.lemma_ends();
        }
        let node = match self.last_node {
            Some(root) => self.insert_sibling_at(root, value),
            None => self.insert_root(value),
        };
        NodeId::new(node)
    }

    /// Adds a node for `value` as the last child of the node that `id` names.
    ///
    /// # Errors
    ///
    /// - Fails if `id` names no node; the tree is then unchanged
    pub fn append_child_to(&mut self, id: &NodeId, value: T) -> (result: Result<NodeId, Error>)
        requires
            old(self).wf(),
        ensures
            final(self).wf(),
            old(self)@.shape.is_proper() ==> final(self)@.shape.is_proper(),
            old(self)@.shape.is_node(id@) ==> {
                &&& result is Ok
                &&& result.unwrap()@ == old(self)@.store.next_index()
                &&& final(self)@.shape == old(self)@.shape.append_child_to(
                    id@,
                    result.unwrap()@,
                )
                &&& final(self)@.store == old(self)@.store.allocate(value)
            },
            !old(self)@.shape.is_node(id@) ==> result == Err::<NodeId, Error>(
                Error::Invalid(Role::Parent),
            ) && final(self)@ == old(self)@,
    {
        match self.slot(id) {
            Some(index) => Ok(NodeId::new(self.insert_child_at(index, value))),
            None => Err(Error::Invalid(Role::Parent)),
        }
    }

    /// Adds a node for `value` as the next sibling of the node that `id`
    /// names.
    ///
    /// # Errors
    ///
    /// - Fails if `id` names no node; the tree is then unchanged
    pub fn insert_sibling_after(&mut self, id: &NodeId, value: T) -> (result: Result<
        NodeId,
        Error,
    >)
        requires
            old(self).wf(),
        ensures
            final(self).wf(),
            old(self)@.shape.is_proper() ==> final(self)@.shape.is_proper(),
            old(self)@.shape.is_node(id@) ==> {
                &&& result is Ok
                &&& result.unwrap()@ == old(self)@.store.next_index()
                &&& final(self)@.shape == old(self)@.shape.insert_sibling_after(
                    id@,
                    result.unwrap()@,
                )
                &&& final(self)@.store == old(self)@.store.allocate(value)
            },
            !old(self)@.shape.is_node(id@) ==> result == Err::<NodeId, Error>(
                Error::Invalid(Role::Sibling),
            ) && final(self)@ == old(self)@,
    {
        match self.slot(id) {
            Some(index) => Ok(NodeId::new(self.insert_sibling_at(index, value))),
            None => Err(Error::Invalid(Role::Sibling)),
        }
    }

    /// Removes a node without children from the tree and returns its value.
    /// The node is detached and its slot freed for reuse. A node that has
    /// children is not removed: the nodes below it would be left without a way
    /// to reach them, so they have to be removed or moved first.
    ///
    /// Returns `None`, and changes nothing, if `node` names no node or names a
    /// node with children.
    pub fn remove(&mut self, node: &NodeId) -> (value: Option<T>)
        requires
            old(self).wf(),
        ensures
            final(self).wf(),
            old(self)@.shape.is_proper() ==> final(self)@.shape.is_proper(),
            old(self)@.shape.is_leaf(node@) ==> {
                &&& value == Some(old(self)@.value(node@))
                &&& final(self)@.shape == old(self)@.shape.remove(node@)
                &&& final(self)@.store == old(self)@.store.release(node@)
            },
            !old(self)@.shape.is_leaf(node@) ==> value is None && final(self)@ == old(self)@,
    {
        let index = match self.slot(node) {
            Some(index) => index,
            None => {
                return None;
            },
        };
        let links = self.links_at(index);
        if links.first_child.is_some() {
            return None;
        }
        proof {
            self@.shape.lemma_remove(index);
            self@.shape.lemma_detach(index);
            if self@.shape.is_proper() {
                self@.shape.lemma_remove_proper(index);
            }
        }
        self.unlink(index);
        let value = self.free_node(index);
        Some(value)
    }
}

impl<T> Default for Tree<T> {
    /// Create a new tree.
    fn default() -> (tree: Self)
        ensures
            tree.wf(),
            tree@.shape.nodes.len() == 0,
            tree@.shape.first is None,
            tree@.shape.last is None,
            tree@.shape.is_proper(),
    {
        Self::new()
    }
}

} // verus!
