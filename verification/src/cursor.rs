//! Cursor that moves over the nodes of a tree and edits the tree in place.

use crate::id::NodeId;
use crate::tree::Tree;
use crate::tree::TreeView;
use vstd::prelude::*;

verus! {

/// Cursor over the tree elements: an exclusive borrow of a tree together with
/// the position of one of its nodes.
///
/// A move operation returns a result with:
/// - `Ok`: the moved cursor
/// - `Err`: the previous unmodified cursor
#[derive(Debug)]
pub struct Cursor<'a, T> {
    index: usize,
    tree: &'a mut Tree<T>,
}

impl<T> Tree<T> {
    /// A cursor at the node that `id` names, or `None` where it names no node.
    pub fn cursor(&mut self, id: &NodeId) -> (cursor: Option<Cursor<'_, T>>)
        requires
            old(self).wf(),
        ensures
            old(self)@.shape.is_node(id@) ==> {
                &&& cursor is Some
                &&& cursor.unwrap().wf()
                &&& cursor.unwrap().tree() == old(self)@
                &&& cursor.unwrap().position() == id@
                &&& *final(cursor.unwrap().borrowed()) == *final(self)
            },
            !old(self)@.shape.is_node(id@) ==> cursor is None && *final(self) == *old(self),
    {
        match self.slot(id) {
            Some(index) => Some(Cursor { index, tree: self }),
            None => None,
        }
    }

    /// A cursor at the first root, or `None` where there is none.
    pub fn cursor_first(&mut self) -> (cursor: Option<Cursor<'_, T>>)
        requires
            old(self).wf(),
        ensures
            old(self)@.shape.first is Some ==> {
                &&& cursor is Some
                &&& cursor.unwrap().wf()
                &&& cursor.unwrap().tree() == old(self)@
                &&& Some(cursor.unwrap().position()) == old(self)@.shape.first
                &&& old(self)@.shape.links(cursor.unwrap().position()).parent is None
                &&& old(self)@.shape.links(cursor.unwrap().position()).prev_sibling is None
                &&& *final(cursor.unwrap().borrowed()) == *final(self)
            },
            old(self)@.shape.first is None ==> cursor is None && *final(self) == *old(self),
    {
        proof {
            self@.shape.lemma_ends();
        }
        match self.first_node {
            Some(index) => Some(Cursor { index, tree: self }),
            None => None,
        }
    }

    /// A cursor at the last root, or `None` where there is none.
    pub fn cursor_last(&mut self) -> (cursor: Option<Cursor<'_, T>>)
        requires
            old(self).wf(),
        ensures
            old(self)@.shape.last is Some ==> {
                &&& cursor is Some
                &&& cursor.unwrap().wf()
                &&& cursor.unwrap().tree() == old(self)@
                &&& Some(cursor.unwrap().position()) == old(self)@.shape.last
                &&& old(self)@.shape.links(cursor.unwrap().position()).parent is None
                &&& old(self)@.shape.links(cursor.unwrap().position()).next_sibling is None
                &&& *final(cursor.unwrap().borrowed()) == *final(self)
            },
            old(self)@.shape.last is None ==> cursor is None && *final(self) == *old(self),
    {
        proof {
            self@.shape.lemma_ends();
        }
        match self.last_node {
            Some(index) => Some(Cursor { index, tree: self }),
            None => None,
        }
    }
}

impl<'a, T> Cursor<'a, T> {
    /// The slot of the node at which the cursor stands.
    pub closed spec fn position(&self) -> usize {
        self.index
    }

    /// The tree that the cursor moves over, as it is now.
    pub closed spec fn tree(&self) -> TreeView<T> {
        self.tree@
    }

    /// The borrow of the tree that the cursor holds. What it points to in the
    /// end is the tree that the lender gets back.
    pub closed spec fn borrowed(&self) -> &'a mut Tree<T> {
        self.tree
    }

    /// The tree is well formed and the cursor stands at one of its nodes.
    pub closed spec fn wf(&self) -> bool {
        self.tree.wf() && self.tree@.shape.is_node(self.index)
    }

    /// Once the cursor is no longer used, the lender gets back the tree as the
    /// cursor left it.
    pub proof fn lemma_released(self)
        requires
            has_resolved(self),
        ensures
            (*final(self.borrowed()))@ == self.tree(),
            self.wf() ==> (*final(self.borrowed())).wf(),
    {
    }

    /// The handle of the node at which the cursor stands.
    pub fn id(&self) -> (id: NodeId)
        ensures
            id@ == self.position(),
    {
        NodeId::new(self.index)
    }

    /// The value of the node at which the cursor stands.
    #[must_use]
    pub fn get(&self) -> (value: &T)
        requires
            self.wf(),
        ensures
            *value == self.tree().value(self.position()),
    {
        self.tree.get(&NodeId::new(self.index)).unwrap()
    }

    /// The value of the node at which the cursor stands, to be changed in
    /// place. Nothing but that value changes.
    #[must_use]
    pub fn get_mut(&mut self) -> (value: &mut T)
        requires
            old(self).wf(),
        ensures
            final(self).wf(),
            final(self).position() == old(self).position(),
            *value == old(self).tree().value(old(self).position()),
            final(self).tree().shape == old(self).tree().shape,
            final(self).tree().store.free == old(self).tree().store.free,
            final(self).tree().store.slots == old(self).tree().store.slots.update(
                old(self).position() as int,
                Some(*final(value)),
            ),
            *final(final(self).borrowed()) == *final(old(self).borrowed()),
    {
        self.tree.get_mut(&NodeId::new(self.index)).unwrap()
    }

    /// Moves the cursor to `target`, where there is one.
    fn move_to(&mut self, target: Option<usize>) -> (moved: Result<&mut Self, &mut Self>)
        requires
            old(self).wf(),
            old(self).tree@.shape.is_link(target),
        ensures
            moved is Ok == target is Some,
            moved is Ok ==> {
                &&& Some(moved->Ok_0.index) == target
                &&& moved->Ok_0.wf()
                &&& moved->Ok_0.tree() == old(self).tree()
                &&& *final(moved->Ok_0.tree) == *final(old(self).tree)
                &&& *final(self) == *final(moved->Ok_0)
            },
            moved is Err ==> {
                &&& moved->Err_0.index == old(self).index
                &&& moved->Err_0.wf()
                &&& moved->Err_0.tree() == old(self).tree()
                &&& *final(moved->Err_0.tree) == *final(old(self).tree)
                &&& *final(self) == *final(moved->Err_0)
            },
    {
        match target {
            Some(index) => {
                self.index = index;
                Ok(self)
            },
            None => Err(self),
        }
    }

    /// Move the cursor to the parent.
    ///
    /// # Errors
    ///
    /// If the node has no parent, returns the cursor where it was
    pub fn parent(&mut self) -> (moved: Result<&mut Self, &mut Self>)
        requires
            old(self).wf(),
        ensures
            moved is Ok == old(self).tree().shape.links(old(self).position()).parent is Some,
            moved is Ok ==> {
                &&& Some(moved->Ok_0.position()) == old(self).tree().shape.links(
                    old(self).position(),
                ).parent
                &&& moved->Ok_0.wf()
                &&& moved->Ok_0.tree() == old(self).tree()
                &&& *final(moved->Ok_0.borrowed()) == *final(old(self).borrowed())
                &&& *final(self) == *final(moved->Ok_0)
            },
            moved is Err ==> {
                &&& moved->Err_0.position() == old(self).position()
                &&& moved->Err_0.wf()
                &&& moved->Err_0.tree() == old(self).tree()
                &&& *final(moved->Err_0.borrowed()) == *final(old(self).borrowed())
                &&& *final(self) == *final(moved->Err_0)
            },
    {
        proof {
            assert(self.tree@.shape.node_ok(self.index));
        }
        let target = self.tree.links_at(self.index).parent;
        self.move_to(target)
    }

    /// Move the cursor to the first child.
    ///
    /// # Errors
    ///
    /// If the node has no children, returns the cursor where it was
    pub fn first_child(&mut self) -> (moved: Result<&mut Self, &mut Self>)
        requires
            old(self).wf(),
        ensures
            moved is Ok == old(self).tree().shape.links(old(self).position()).first_child is Some,
            moved is Ok ==> {
                &&& Some(moved->Ok_0.position()) == old(self).tree().shape.links(
                    old(self).position(),
                ).first_child
                &&& moved->Ok_0.wf()
                &&& moved->Ok_0.tree() == old(self).tree()
                &&& *final(moved->Ok_0.borrowed()) == *final(old(self).borrowed())
                &&& *final(self) == *final(moved->Ok_0)
            },
            moved is Err ==> {
                &&& moved->Err_0.position() == old(self).position()
                &&& moved->Err_0.wf()
                &&& moved->Err_0.tree() == old(self).tree()
                &&& *final(moved->Err_0.borrowed()) == *final(old(self).borrowed())
                &&& *final(self) == *final(moved->Err_0)
            },
    {
        proof {
            assert(self.tree@.shape.node_ok(self.index));
        }
        let target = self.tree.links_at(self.index).first_child;
        self.move_to(target)
    }

    /// Move the cursor to the last child.
    ///
    /// # Errors
    ///
    /// If the node has no children, returns the cursor where it was
    pub fn last_child(&mut self) -> (moved: Result<&mut Self, &mut Self>)
        requires
            old(self).wf(),
        ensures
            moved is Ok == old(self).tree().shape.links(old(self).position()).last_child is Some,
            moved is Ok ==> {
                &&& Some(moved->Ok_0.position()) == old(self).tree().shape.links(
                    old(self).position(),
                ).last_child
                &&& moved->Ok_0.wf()
                &&& moved->Ok_0.tree() == old(self).tree()
                &&& *final(moved->Ok_0.borrowed()) == *final(old(self).borrowed())
                &&& *final(self) == *final(moved->Ok_0)
            },
            moved is Err ==> {
                &&& moved->Err_0.position() == old(self).position()
                &&& moved->Err_0.wf()
                &&& moved->Err_0.tree() == old(self).tree()
                &&& *final(moved->Err_0.borrowed()) == *final(old(self).borrowed())
                &&& *final(self) == *final(moved->Err_0)
            },
    {
        proof {
            assert(self.tree@.shape.node_ok(self.index));
        }
        let target = self.tree.links_at(self.index).last_child;
        self.move_to(target)
    }

    /// Move the cursor to the next sibling.
    ///
    /// # Errors
    ///
    /// If the node has no next sibling, returns the cursor where it was
    pub fn next_sibling(&mut self) -> (moved: Result<&mut Self, &mut Self>)
        requires
            old(self).wf(),
        ensures
            moved is Ok == old(self).tree().shape.links(old(self).position()).next_sibling is Some,
            moved is Ok ==> {
                &&& Some(moved->Ok_0.position()) == old(self).tree().shape.links(
                    old(self).position(),
                ).next_sibling
                &&& moved->Ok_0.wf()
                &&& moved->Ok_0.tree() == old(self).tree()
                &&& *final(moved->Ok_0.borrowed()) == *final(old(self).borrowed())
                &&& *final(self) == *final(moved->Ok_0)
            },
            moved is Err ==> {
                &&& moved->Err_0.position() == old(self).position()
                &&& moved->Err_0.wf()
                &&& moved->Err_0.tree() == old(self).tree()
                &&& *final(moved->Err_0.borrowed()) == *final(old(self).borrowed())
                &&& *final(self) == *final(moved->Err_0)
            },
    {
        proof {
            assert(self.tree@.shape.node_ok(self.index));
        }
        let target = self.tree.links_at(self.index).next_sibling;
        self.move_to(target)
    }

    /// Move the cursor to the previous sibling.
    ///
    /// # Errors
    ///
    /// If the node has no previous sibling, returns the cursor where it was
    pub fn prev_sibling(&mut self) -> (moved: Result<&mut Self, &mut Self>)
        requires
            old(self).wf(),
        ensures
            moved is Ok == old(self).tree().shape.links(old(self).position()).prev_sibling is Some,
            moved is Ok ==> {
                &&& Some(moved->Ok_0.position()) == old(self).tree().shape.links(
                    old(self).position(),
                ).prev_sibling
                &&& moved->Ok_0.wf()
                &&& moved->Ok_0.tree() == old(self).tree()
                &&& *final(moved->Ok_0.borrowed()) == *final(old(self).borrowed())
                &&& *final(self) == *final(moved->Ok_0)
            },
            moved is Err ==> {
                &&& moved->Err_0.position() == old(self).position()
                &&& moved->Err_0.wf()
                &&& moved->Err_0.tree() == old(self).tree()
                &&& *final(moved->Err_0.borrowed()) == *final(old(self).borrowed())
                &&& *final(self) == *final(moved->Err_0)
            },
    {
        proof {
            assert(self.tree@.shape.node_ok(self.index));
        }
        let target = self.tree.links_at(self.index).prev_sibling;
        self.move_to(target)
    }

    /// Move the cursor to the next node in preorder: the first child; else
    /// the next sibling; else the next sibling of the nearest ancestor that
    /// has one.
    ///
    /// # Errors
    ///
    /// If there is no next node, returns the cursor where it was
    pub fn move_next(&mut self) -> (moved: Result<&mut Self, &mut Self>)
        requires
            old(self).wf(),
        ensures
            moved is Ok == old(self).tree().shape.next_in_preorder(old(self).position()) is Some,
            moved is Ok ==> {
                &&& Some(moved->Ok_0.position()) == old(self).tree().shape.next_in_preorder(
                    old(self).position(),
                )
                &&& moved->Ok_0.wf()
                &&& moved->Ok_0.tree() == old(self).tree()
                &&& *final(moved->Ok_0.borrowed()) == *final(old(self).borrowed())
                &&& *final(self) == *final(moved->Ok_0)
            },
            moved is Err ==> {
                &&& moved->Err_0.position() == old(self).position()
                &&& moved->Err_0.wf()
                &&& moved->Err_0.tree() == old(self).tree()
                &&& *final(moved->Err_0.borrowed()) == *final(old(self).borrowed())
                &&& *final(self) == *final(moved->Err_0)
            },
    {
        let target = self.tree.next_in_preorder(self.index);
        self.move_to(target)
    }

    /// Adds a node for `value` as the last child of the node at which the
    /// cursor stands. The cursor stays where it is.
    pub fn append_child(&mut self, value: T) -> (id: NodeId)
        requires
            old(self).wf(),
        ensures
            final(self).wf(),
            final(self).position() == old(self).position(),
            id@ == old(self).tree().store.next_index(),
            final(self).tree().shape == old(self).tree().shape.append_child_to(
                old(self).position(),
                id@,
            ),
            final(self).tree().store == old(self).tree().store.allocate(value),
            old(self).tree().shape.is_proper() ==> final(self).tree().shape.is_proper(),
            *final(final(self).borrowed()) == *final(old(self).borrowed()),
    {
        let index = self.tree.insert_child_at(self.index, value);
        NodeId::new(index)
    }

    /// Adds a node for `value` as the next sibling of the node at which the
    /// cursor stands. The cursor stays where it is.
    pub fn append_sibling(&mut self, value: T) -> (id: NodeId)
        requires
            old(self).wf(),
        ensures
            final(self).wf(),
            final(self).position() == old(self).position(),
            id@ == old(self).tree().store.next_index(),
            final(self).tree().shape == old(self).tree().shape.insert_sibling_after(
                old(self).position(),
                id@,
            ),
            final(self).tree().store == old(self).tree().store.allocate(value),
            old(self).tree().shape.is_proper() ==> final(self).tree().shape.is_proper(),
            *final(final(self).borrowed()) == *final(old(self).borrowed()),
    {
        let index = self.tree.insert_sibling_at(self.index, value);
        NodeId::new(index)
    }
}

} // verus!
