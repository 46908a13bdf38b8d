//! Implements iteration over a tree, in preorder and without recursion.

use crate::id::NodeId;
use crate::node::Node;
use crate::tree::Tree;
use crate::tree::TreeView;
use vstd::prelude::*;

verus! {

impl<T> Tree<T> {
    /// The slot of the node that follows the node in the slot `index` in
    /// preorder: its first child; else its next sibling; else the next sibling
    /// of the nearest ancestor that has one.
    pub(crate) fn next_in_preorder(&self, index: usize) -> (next: Option<usize>)
        requires
            self@.shape.links_ok(),
            self@.shape.is_node(index),
        ensures
            next == self@.shape.next_in_preorder(index),
            self@.shape.is_link(next),
    {
        proof {
            self@.shape.lemma_next_is_link(index);
            assert(self@.shape.node_ok(index));
        }
        let links = self.links_at(index);
        if links.first_child.is_some() {
            return links.first_child;
        }
        if links.next_sibling.is_some() {
            return links.next_sibling;
        }
        let mut fuel = self.nodes.len();
        let mut current = index;
        while fuel > 0
            invariant
                self@.shape.links_ok(),
                self@.shape.is_node(current),
                self@.shape.next_in_preorder(index) == self@.shape.ascend(current, fuel as nat),
                self@.shape.is_link(self@.shape.next_in_preorder(index)),
            decreases fuel,
        {
            proof {
                assert(self@.shape.node_ok(current));
            }
            match self.links_at(current).parent {
                None => {
                    return None;
                },
                Some(parent) => {
                    let next = self.links_at(parent).next_sibling;
                    if next.is_some() {
                        return next;
                    }
                    current = parent;
                    fuel -= 1;
                },
            }
        }
        None
    }
}

impl<T> Tree<T> {
    /// Iterates over the values in preorder, from the first root.
    #[must_use]
    pub fn iter(&self) -> (iter: Iter<'_, T>)
        requires
            self.wf(),
        ensures
            iter.wf(),
            iter.tree() == self@,
            iter.current() == self@.shape.first,
    {
        proof {
            self@.shape.lemma_ends();
        }
        Iter { current: self.first_node, tree: self }
    }

    /// Iterates over the values in preorder, from the node that `id` names.
    /// Where `id` names no node, the iteration is empty.
    #[must_use]
    pub fn iter_from(&self, id: &NodeId) -> (iter: Iter<'_, T>)
        requires
            self.wf(),
        ensures
            iter.wf(),
            iter.tree() == self@,
            iter.current() == if self@.shape.is_node(id@) {
                Some(id@)
            } else {
                None
            },
    {
        Iter { current: self.slot(id), tree: self }
    }

    /// Iterates over the values in preorder, from the first root,
    /// giving each value to be changed in place.
    #[must_use]
    pub fn iter_mut(&mut self) -> (iter: IterMut<'_, T>)
        requires
            old(self).wf(),
        ensures
            iter.wf(),
            iter.tree() == old(self)@,
            iter.current() == old(self)@.shape.first,
            *final(iter.borrowed()) == *final(self),
    {
        proof {
            self@.shape.lemma_ends();
        }
        IterMut { current: self.first_node, tree: self }
    }

    /// Consumes the tree and iterates over its values in preorder, from the
    /// first root.
    #[must_use]
    pub fn into_iterator(self) -> (iter: IntoIter<T>)
        requires
            self.wf(),
        ensures
            iter.wf(),
            iter.shape() == self@.shape,
            iter.current() == self@.shape.first,
            iter.remaining() == self@.store.slots,
    {
        let wrap = |node: Node<T>| -> (wrapped: Node<Option<T>>)
            ensures
                wrapped.links == node.links,
                wrapped.value == Some(node.value),
            { Node { value: Some(node.value), links: node.links } };
        proof {
            self@.shape.lemma_ends();
        }
        let current = self.first_node;
        let last_node = self.last_node;
        let nodes = self.nodes.map(wrap);
        let tree = Tree { nodes, first_node: current, last_node };
        let iter = IntoIter { current, tree };
        proof {
            assert(iter.tree@.shape.nodes =~= self@.shape.nodes);
            assert(iter.tree@.shape == self@.shape);
            assert(iter.remaining() =~= self@.store.slots);
        }
        iter
    }
}

/// Iterator over references to the values of a tree, in preorder.
#[derive(Debug)]
pub struct Iter<'a, T> {
    current: Option<usize>,
    tree: &'a Tree<T>,
}

impl<'a, T> Iter<'a, T> {
    /// The slot of the node that comes next, if any.
    pub closed spec fn current(&self) -> Option<usize> {
        self.current
    }

    /// The tree that is iterated.
    pub closed spec fn tree(&self) -> TreeView<T> {
        self.tree@
    }

    /// The tree is well formed and the next node is one of its nodes.
    pub closed spec fn wf(&self) -> bool {
        self.tree.wf() && self.tree@.shape.is_link(self.current)
    }

    /// Gives the value of the next node, and steps to the node after it in
    /// preorder. Gives `None` once there is no next node.
    pub fn next(&mut self) -> (item: Option<&'a T>)
        requires
            old(self).wf(),
        ensures
            final(self).wf(),
            final(self).tree() == old(self).tree(),
            match old(self).current() {
                Some(index) => {
                    &&& item == Some(&old(self).tree().value(index))
                    &&& final(self).current() == old(self).tree().shape.next_in_preorder(index)
                },
                None => item is None && final(self).current() is None,
            },
    {
        match self.current {
            Some(index) => {
                self.current = self.tree.next_in_preorder(index);
                self.tree.get(&NodeId::new(index))
            },
            None => None,
        }
    }
}

impl<'a, T> Iter<'a, T> {
    /// Gives the values of all the nodes that are left, in the order of the
    /// traversal. No more values are given than the tree has slots, which is
    /// all there are unless the links of the tree form a cycle.
    pub fn collect(self) -> (items: Vec<&'a T>)
        requires
            self.wf(),
        ensures
            self.tree().reads_as(
                items@,
                self.tree().shape.walk(self.current(), self.tree().shape.nodes.len()),
            ),
            self.tree().shape.is_proper() && self.current() == self.tree().shape.first
                ==> items@.len() == self.tree().shape.node_set().len(),
    {
        proof {
            if self.tree@.shape.is_proper() {
                self.tree@.shape.lemma_preorder_complete();
            }
        }
        let mut iter = self;
        let ghost tree = iter.tree@;
        let ghost shape = iter.tree@.shape;
        let ghost all = shape.walk(iter.current, shape.nodes.len());
        let ghost visited = Seq::<usize>::empty();
        let mut items: Vec<&'a T> = Vec::new();
        let mut fuel = iter.tree.nodes.len();
        while fuel > 0
            invariant
                iter.wf(),
                iter.tree@ == tree,
                tree == self.tree(),
                shape == tree.shape,
                all == shape.walk(self.current(), shape.nodes.len()),
                shape.is_proper() && self.current() == shape.first ==> all.len()
                    == shape.node_set().len(),
                all == visited + shape.walk(iter.current, fuel as nat),
                items@.len() == visited.len(),
                forall|k: int|
                    0 <= k < items@.len() ==> *(#[trigger] items@[k]) == iter.tree@.value(
                        visited[k],
                    ),
            decreases fuel,
        {
            let ghost current = iter.current;
            match iter.next() {
                Some(value) => {
                    items.push(value);
                    proof {
                        let rest = shape.walk(iter.current, (fuel - 1) as nat);
                        assert(shape.walk(current, fuel as nat) == seq![current.unwrap()] + rest);
                        assert(visited.push(current.unwrap()) + rest =~= visited + (seq![
                            current.unwrap(),
                        ] + rest));
                        visited = visited.push(current.unwrap());
                    }
                },
                None => {
                    proof {
                        assert(all =~= visited);
                    }
                    return items;
                },
            }
            fuel -= 1;
        }
        proof {
            assert(all =~= visited);
        }
        items
    }
}

/// Iterator over mutable references to the values of a tree, in preorder.
#[derive(Debug)]
pub struct IterMut<'a, T> {
    current: Option<usize>,
    tree: &'a mut Tree<T>,
}

impl<'a, T> IterMut<'a, T> {
    /// The slot of the node that comes next, if any.
    pub closed spec fn current(&self) -> Option<usize> {
        self.current
    }

    /// The tree that is iterated, as it is now.
    pub closed spec fn tree(&self) -> TreeView<T> {
        self.tree@
    }

    /// The borrow of the tree that the iterator holds. What it points to in
    /// the end is the tree that the lender gets back.
    pub closed spec fn borrowed(&self) -> &'a mut Tree<T> {
        self.tree
    }

    /// The tree is well formed and the next node is one of its nodes.
    pub closed spec fn wf(&self) -> bool {
        self.tree.wf() && self.tree@.shape.is_link(self.current)
    }

    /// Once the iterator is no longer used, the lender gets back the tree as
    /// the iterator left it.
    pub proof fn lemma_released(self)
        requires
            has_resolved(self),
        ensures
            (*final(self.borrowed()))@ == self.tree(),
            self.wf() ==> (*final(self.borrowed())).wf(),
    {
    }

    /// Gives the value of the next node to be changed in place, and steps to
    /// the node after it in preorder. Gives `None` once there is no next node.
    /// Nothing but that value changes in the tree.
    pub fn next(&mut self) -> (item: Option<&mut T>)
        requires
            old(self).wf(),
        ensures
            final(self).wf(),
            final(self).tree().shape == old(self).tree().shape,
            final(self).tree().store.free == old(self).tree().store.free,
            *final(final(self).borrowed()) == *final(old(self).borrowed()),
            match old(self).current() {
                Some(index) => {
                    &&& item is Some
                    &&& *item.unwrap() == old(self).tree().value(index)
                    &&& final(self).tree().store.slots == old(self).tree().store.slots.update(
                        index as int,
                        Some(*final(item.unwrap())),
                    )
                    &&& final(self).current() == old(self).tree().shape.next_in_preorder(index)
                },
                None => item is None && final(self).current() is None && final(self).tree()
                    == old(self).tree(),
            },
    {
        match self.current {
            Some(index) => {
                self.current = self.tree.next_in_preorder(index);
                self.tree.get_mut(&NodeId::new(index))
            },
            None => None,
        }
    }
}

/// Iterator that owns the nodes of a tree and gives out their values, in
/// preorder.
#[derive(Debug)]
pub struct IntoIter<T> {
    current: Option<usize>,
    tree: Tree<Option<T>>,
}

impl<T> IntoIter<T> {
    /// The slot of the node that comes next, if any.
    pub closed spec fn current(&self) -> Option<usize> {
        self.current
    }

    /// The shape of the tree that is iterated.
    pub closed spec fn shape(&self) -> crate::forest::Forest {
        self.tree@.shape
    }

    /// The values that have not been given out yet, slot by slot: `None` for
    /// a slot without node and for a node whose value has been given out.
    pub closed spec fn remaining(&self) -> Seq<Option<T>> {
        Seq::new(
            self.tree@.store.slots.len(),
            |i: int|
                match self.tree@.store.slots[i] {
                    Some(value) => value,
                    None => None,
                },
        )
    }

    /// The tree is well formed and the next node is one of its nodes.
    pub closed spec fn wf(&self) -> bool {
        self.tree.wf() && self.tree@.shape.is_link(self.current)
    }

    /// Gives out the value of the next node, and steps to the node after it
    /// in preorder. Gives `None` once there is no next node, and for a node
    /// whose value has been given out before.
    pub fn next(&mut self) -> (item: Option<T>)
        requires
            old(self).wf(),
        ensures
            final(self).wf(),
            final(self).shape() == old(self).shape(),
            match old(self).current() {
                Some(index) => {
                    &&& item == old(self).remaining()[index as int]
                    &&& final(self).remaining() == old(self).remaining().update(
                        index as int,
                        None,
                    )
                    &&& final(self).current() == old(self).shape().next_in_preorder(index)
                },
                None => {
                    &&& item is None
                    &&& final(self).current() is None
                    &&& final(self).remaining() == old(self).remaining()
                },
            },
    {
        match self.current {
            Some(index) => {
                self.current = self.tree.next_in_preorder(index);
                let slot = self.tree.get_mut(&NodeId::new(index)).unwrap();
                let item = slot.take();
                proof {
                    assert(self.remaining() =~= old(self).remaining().update(index as int, None));
                }
                item
            },
            None => None,
        }
    }
}

} // verus!
