//! The shape of a forest: which slots hold nodes, how the nodes are linked,
//! and where the root list starts and appending continues. The operations
//! that relate nodes are defined here on the links alone, and shown to keep
//! the links consistent.

use crate::error::Error;
use crate::error::Role;
use crate::node::Links;
use vstd::prelude::*;

verus! {

/// The links of every slot (`None` for a free slot), and the first and the
/// last root of the root list.
pub struct Forest {
    pub nodes: Seq<Option<Links>>,
    pub first: Option<usize>,
    pub last: Option<usize>,
}

impl Forest {
    /// The slot `index` exists and holds a node.
    pub open spec fn is_node(self, index: usize) -> bool {
        index < self.nodes.len() && self.nodes[index as int] is Some
    }

    /// The links of the node in the slot `index`.
    pub open spec fn links(self, index: usize) -> Links
        recommends
            self.is_node(index),
    {
        self.nodes[index as int].unwrap()
    }

    /// The slot `index` holds a node without children.
    pub open spec fn is_leaf(self, index: usize) -> bool {
        self.is_node(index) && self.links(index).first_child is None
    }

    /// A link is either absent or the slot of a node.
    pub open spec fn is_link(self, link: Option<usize>) -> bool {
        link is Some ==> self.is_node(link.unwrap())
    }

    /// The links of the node `n` agree with those of the nodes it points to.
    pub open spec fn node_ok(self, n: usize) -> bool {
        let l = self.links(n);
        &&& self.is_link(l.parent)
        &&& self.is_link(l.prev_sibling)
        &&& self.is_link(l.next_sibling)
        &&& self.is_link(l.first_child)
        &&& self.is_link(l.last_child)
        &&& l.prev_sibling != Some(n)
        &&& l.next_sibling != Some(n)
        &&& l.next_sibling is Some ==> {
            let m = self.links(l.next_sibling.unwrap());
            m.prev_sibling == Some(n) && m.parent == l.parent
        }
        &&& l.prev_sibling is Some ==> {
            let m = self.links(l.prev_sibling.unwrap());
            m.next_sibling == Some(n) && m.parent == l.parent
        }
        &&& l.first_child is Some ==> {
            let c = self.links(l.first_child.unwrap());
            c.parent == Some(n) && c.prev_sibling is None
        }
        &&& l.last_child is Some ==> {
            let c = self.links(l.last_child.unwrap());
            c.parent == Some(n) && c.next_sibling is None
        }
        &&& l.parent is Some && l.prev_sibling is None ==> self.links(
            l.parent.unwrap(),
        ).first_child == Some(n)
        &&& l.parent is Some && l.next_sibling is None ==> self.links(
            l.parent.unwrap(),
        ).last_child == Some(n)
        &&& l.first_child is None <==> l.last_child is None
    }

    /// Every node's links are consistent.
    pub open spec fn links_ok(self) -> bool {
        forall|n: usize| self.is_node(n) ==> #[trigger] self.node_ok(n)
    }

    /// `rank` grows from each node to its next sibling.
    pub open spec fn rank_ok(self, rank: spec_fn(usize) -> nat, n: usize) -> bool {
        self.links(n).prev_sibling is Some ==> rank(self.links(n).prev_sibling.unwrap()) < rank(n)
    }

    /// `rank` numbers the nodes so that it grows along every chain of siblings.
    pub open spec fn ranked(self, rank: spec_fn(usize) -> nat) -> bool {
        forall|n: usize| self.is_node(n) ==> #[trigger] self.rank_ok(rank, n)
    }

    /// Where `on` holds of the node `x`, `x` is a root whose siblings are roots
    /// that `on` holds of too; it is the first root if it has no previous
    /// sibling, and the last root if it has no next sibling.
    pub open spec fn listed_ok(self, on: spec_fn(usize) -> bool, x: usize) -> bool {
        on(x) ==> {
            let l = self.links(x);
            &&& self.is_node(x)
            &&& l.parent is None
            &&& l.prev_sibling is None ==> self.first == Some(x)
            &&& l.next_sibling is None ==> self.last == Some(x)
            &&& l.prev_sibling is Some ==> on(l.prev_sibling.unwrap())
            &&& l.next_sibling is Some ==> on(l.next_sibling.unwrap())
        }
    }

    /// `on` holds of the nodes of the root list: the chain of siblings without
    /// parent that starts at the first root and ends at the last root.
    pub open spec fn root_list(self, on: spec_fn(usize) -> bool) -> bool {
        &&& forall|x: usize| #[trigger] self.listed_ok(on, x)
        &&& self.first is Some ==> on(self.first.unwrap()) && self.links(
            self.first.unwrap(),
        ).prev_sibling is None
        &&& self.last is Some ==> on(self.last.unwrap()) && self.links(
            self.last.unwrap(),
        ).next_sibling is None
        &&& self.first is None <==> self.last is None
    }

    /// The first root and the last root are the two ends of one chain of
    /// nodes without parent, the root list, and both are absent together.
    pub open spec fn ends_ok(self) -> bool {
        exists|on: spec_fn(usize) -> bool| self.root_list(on)
    }

    /// The first root is a node without parent and without previous sibling,
    /// the last root is a node without parent and without next sibling, and
    /// both are absent together.
    pub proof fn lemma_ends(self)
        requires
            self.ends_ok(),
        ensures
            self.first is None <==> self.last is None,
            self.first is Some ==> self.is_node(self.first.unwrap()) && self.links(
                self.first.unwrap(),
            ).parent is None && self.links(self.first.unwrap()).prev_sibling is None,
            self.last is Some ==> self.is_node(self.last.unwrap()) && self.links(
                self.last.unwrap(),
            ).parent is None && self.links(self.last.unwrap()).next_sibling is None,
    {
        let on = choose|on: spec_fn(usize) -> bool| self.root_list(on);
        if self.first is Some {
            assert(self.listed_ok(on, self.first.unwrap()));
        }
        if self.last is Some {
            assert(self.listed_ok(on, self.last.unwrap()));
        }
    }

    /// A node without parent and siblings that is not the first root is not
    /// on the root list.
    pub proof fn lemma_off_list(self, on: spec_fn(usize) -> bool, n: usize)
        requires
            self.root_list(on),
            !self.is_node(n) || (self.links(n).prev_sibling is None && self.first != Some(n)),
        ensures
            !on(n),
    {
        assert(self.listed_ok(on, n));
    }

    /// The links are consistent, no chain of siblings closes into a ring, and
    /// the two ends are in order.
    pub open spec fn wf(self) -> bool {
        &&& self.links_ok()
        &&& self.ends_ok()
        &&& exists|rank: spec_fn(usize) -> nat| self.ranked(rank)
    }

    /// What an operation on two nodes answers before it changes anything: the
    /// first slot that holds no node is reported with its role, then a node
    /// paired with itself; else the operation goes ahead.
    pub open spec fn check_pair(
        self,
        a: usize,
        role_a: Role,
        b: usize,
        role_b: Role,
    ) -> Result<(), Error> {
        if !self.is_node(a) {
            Err(Error::Invalid(role_a))
        } else if !self.is_node(b) {
            Err(Error::Invalid(role_b))
        } else if a == b {
            Err(Error::SameNode)
        } else {
            Ok(())
        }
    }

    /// Sibling links are mutual: where a node has a next sibling, that sibling
    /// is a node which has the first as its previous sibling, and both have
    /// the same parent.
    pub proof fn lemma_link_symmetry(self, n: usize, m: usize)
        requires
            self.wf(),
            self.is_node(n),
            self.links(n).next_sibling == Some(m),
        ensures
            self.is_node(m),
            self.links(m).prev_sibling == Some(n),
            self.links(m).parent == self.links(n).parent,
    {
        assert(self.node_ok(n));
    }

    /// The children of a node end where the node says: its first child has no
    /// previous sibling, its last child has no next sibling, and both are
    /// children of that node.
    pub proof fn lemma_endpoints(self, p: usize)
        requires
            self.wf(),
            self.is_node(p),
        ensures
            match self.links(p).first_child {
                Some(c) => self.is_node(c) && self.links(c).prev_sibling is None && self.links(
                    c,
                ).parent == Some(p),
                None => self.links(p).last_child is None,
            },
            match self.links(p).last_child {
                Some(c) => self.is_node(c) && self.links(c).next_sibling is None && self.links(
                    c,
                ).parent == Some(p),
                None => self.links(p).first_child is None,
            },
    {
        assert(self.node_ok(p));
    }

    /// The forest with `links` as the links of the slot `index`.
    pub open spec fn with_links(self, index: usize, links: Links) -> Forest {
        Forest { nodes: self.nodes.update(index as int, Some(links)), ..self }
    }

    /// The forest with a new node, related to no other, in the slot `index`:
    /// a free slot, or the slot after the last.
    pub open spec fn with_node(self, index: usize) -> Forest {
        Forest {
            nodes: if index < self.nodes.len() {
                self.nodes.update(index as int, Some(Links::isolated()))
            } else {
                self.nodes.push(Some(Links::isolated()))
            },
            ..self
        }
    }

    /// The forest with the slot `index` free.
    pub open spec fn without_node(self, index: usize) -> Forest {
        Forest { nodes: self.nodes.update(index as int, None), ..self }
    }

    /// The forest with the same nodes and links, and the given first and last
    /// root.
    pub open spec fn with_ends(self, first: Option<usize>, last: Option<usize>) -> Forest {
        Forest { first, last, ..self }
    }

    /// Moving the first and the last root changes no node and no link.
    pub proof fn lemma_with_ends(self, first: Option<usize>, last: Option<usize>)
        requires
            self.links_ok(),
            exists|rank: spec_fn(usize) -> nat| self.ranked(rank),
        ensures
            self.with_ends(first, last).links_ok(),
            exists|rank: spec_fn(usize) -> nat| self.with_ends(first, last).ranked(rank),
            forall|x: usize| #[trigger] self.with_ends(first, last).is_node(x) == self.is_node(x),
            forall|x: usize| #[trigger] self.with_ends(first, last).links(x) == self.links(x),
    {
        let after = self.with_ends(first, last);
        let rank = choose|rank: spec_fn(usize) -> nat| self.ranked(rank);
        assert forall|x: usize| after.is_node(x) implies #[trigger] after.node_ok(x) by {
            assert(self.node_ok(x));
        }
        assert forall|x: usize| after.is_node(x) implies #[trigger] after.rank_ok(rank, x) by {
            assert(self.rank_ok(rank, x));
        }
        assert(after.ranked(rank));
    }

    /// Links the two siblings `prev` and `next` to each other, where they
    /// exist: `next` gets `prev` as previous sibling, `prev` gets `next` as
    /// next sibling.
    pub open spec fn link_siblings(self, next: Option<usize>, prev: Option<usize>) -> Forest {
        let linked = match next {
            Some(m) => self.with_links(m, Links { prev_sibling: prev, ..self.links(m) }),
            None => self,
        };
        match prev {
            Some(m) => linked.with_links(m, Links { next_sibling: next, ..linked.links(m) }),
            None => linked,
        }
    }

    /// The parent `p` gives up its child `n`, whose siblings were `prev` and
    /// `next`: where `n` was the first or last child, its neighbour takes over.
    pub open spec fn disown(
        self,
        p: usize,
        n: usize,
        prev: Option<usize>,
        next: Option<usize>,
    ) -> Forest {
        let l = self.links(p);
        self.with_links(
            p,
            Links {
                first_child: if l.first_child == Some(n) {
                    next
                } else {
                    l.first_child
                },
                last_child: if l.last_child == Some(n) {
                    prev
                } else {
                    l.last_child
                },
                ..l
            },
        )
    }

    /// The forest after the links have been written one node at a time to
    /// detach the node `n`: `n` itself, its parent, its next sibling, its
    /// previous sibling, then the first and the last root.
    pub open spec fn detach_by_steps(self, n: usize) -> Forest {
        let l = self.links(n);
        let cleared = self.with_links(
            n,
            Links { parent: None, prev_sibling: None, next_sibling: None, ..l },
        );
        let disowned = match l.parent {
            Some(p) => cleared.disown(p, n, l.prev_sibling, l.next_sibling),
            None => cleared,
        };
        let linked = disowned.link_siblings(l.next_sibling, l.prev_sibling);
        linked.with_ends(
            if self.first == Some(n) {
                l.next_sibling
            } else {
                self.first
            },
            if self.last == Some(n) {
                l.prev_sibling
            } else {
                self.last
            },
        )
    }

    /// In a well-formed forest a node's two siblings are different nodes.
    pub proof fn lemma_siblings_differ(self, n: usize)
        requires
            self.wf(),
            self.is_node(n),
            self.links(n).prev_sibling is Some,
        ensures
            self.links(n).prev_sibling != self.links(n).next_sibling,
    {
        let rank = choose|rank: spec_fn(usize) -> nat| self.ranked(rank);
        assert(self.node_ok(n));
        assert(self.rank_ok(rank, n));
        if self.links(n).next_sibling is Some {
            let m = self.links(n).next_sibling.unwrap();
            assert(self.rank_ok(rank, m));
        }
    }

    /// The links of the node `x` after the node `n` has been detached.
    pub open spec fn detached_links(self, n: usize, x: usize) -> Links {
        let l = self.links(n);
        let old = self.links(x);
        Links {
            parent: if x == n {
                None
            } else {
                old.parent
            },
            prev_sibling: if x == n {
                None
            } else if l.next_sibling == Some(x) {
                l.prev_sibling
            } else {
                old.prev_sibling
            },
            next_sibling: if x == n {
                None
            } else if l.prev_sibling == Some(x) {
                l.next_sibling
            } else {
                old.next_sibling
            },
            first_child: if l.parent == Some(x) && old.first_child == Some(n) {
                l.next_sibling
            } else {
                old.first_child
            },
            last_child: if l.parent == Some(x) && old.last_child == Some(n) {
                l.prev_sibling
            } else {
                old.last_child
            },
        }
    }

    /// The slots of this forest with `links_of` as the links of each node.
    pub open spec fn retied(self, links_of: spec_fn(usize) -> Links) -> Seq<Option<Links>> {
        Seq::new(
            self.nodes.len(),
            |i: int|
                if 0 <= i <= usize::MAX && self.nodes[i] is Some {
                    Some(links_of(i as usize))
                } else {
                    self.nodes[i]
                },
        )
    }

    /// The forest after the node `n` has been detached: it has neither parent
    /// nor siblings, its former siblings are linked to each other, and its
    /// former parent has lost it as first or last child. The subtree below `n`
    /// stays with it. Where `n` was the first root, its next sibling becomes
    /// the first root; where `n` was the last root, its previous sibling
    /// becomes the last root.
    pub open spec fn detach(self, n: usize) -> Forest {
        Forest {
            nodes: self.retied(|x: usize| self.detached_links(n, x)),
            first: if self.first == Some(n) {
                self.links(n).next_sibling
            } else {
                self.first
            },
            last: if self.last == Some(n) {
                self.links(n).prev_sibling
            } else {
                self.last
            },
        }
    }

    /// `after` has the nodes of this forest, each with the links that
    /// detaching `n` gives it.
    pub open spec fn detached_to(self, n: usize, after: Forest) -> bool {
        &&& after.nodes.len() == self.nodes.len()
        &&& forall|x: usize| #[trigger] after.is_node(x) == self.is_node(x)
        &&& forall|x: usize|
            self.is_node(x) ==> #[trigger] after.links(x) == self.detached_links(n, x)
    }

    /// Writing the links one node at a time detaches the node as `detach`
    /// says.
    pub proof fn lemma_detach_by_steps(self, n: usize)
        requires
            self.wf(),
            self.is_node(n),
        ensures
            self.detach_by_steps(n) == self.detach(n),
    {
        let l = self.links(n);
        assert(self.node_ok(n));
        let cleared = self.with_links(
            n,
            Links { parent: None, prev_sibling: None, next_sibling: None, ..l },
        );
        let disowned = match l.parent {
            Some(p) => cleared.disown(p, n, l.prev_sibling, l.next_sibling),
            None => cleared,
        };
        let stepped = self.detach_by_steps(n);
        assert forall|x: usize| self.is_node(x) implies stepped.links(x) == self.detached_links(
            n,
            x,
        ) by {
            assert(cleared.links(x).first_child == self.links(x).first_child);
            assert(disowned.links(x).parent == cleared.links(x).parent);
        }
        assert forall|i: int| 0 <= i < self.nodes.len() implies stepped.nodes[i] == self.detach(
            n,
        ).nodes[i] by {
            if 0 <= i <= usize::MAX && self.nodes[i] is Some {
                assert(self.is_node(i as usize));
                assert(stepped.links(i as usize) == self.detached_links(n, i as usize));
            }
        }
        assert(stepped.nodes =~= self.detach(n).nodes);
    }

    /// Detaching gives every node the links that `detached_links` describes.
    pub proof fn lemma_detach_links(self, n: usize)
        ensures
            self.detached_to(n, self.detach(n)),
    {
    }

    /// After a node has been detached, the links of any node are consistent.
    proof fn lemma_detach_node_ok(self, n: usize, after: Forest, x: usize)
        requires
            self.links_ok(),
            self.is_node(n),
            self.is_node(x),
            self.links(n).prev_sibling is Some ==> self.links(n).prev_sibling != self.links(
                n,
            ).next_sibling,
            self.detached_to(n, after),
        ensures
            after.node_ok(x),
    {
        let l = self.links(n);
        let lx = self.links(x);
        assert(self.node_ok(n));
        assert(self.node_ok(x));
        if l.parent is Some {
            assert(self.node_ok(l.parent.unwrap()));
        }
        if l.prev_sibling is Some {
            assert(self.node_ok(l.prev_sibling.unwrap()));
        }
        if l.next_sibling is Some {
            assert(self.node_ok(l.next_sibling.unwrap()));
        }
        if lx.parent is Some {
            assert(self.node_ok(lx.parent.unwrap()));
        }
        if lx.prev_sibling is Some {
            assert(self.node_ok(lx.prev_sibling.unwrap()));
        }
        if lx.next_sibling is Some {
            assert(self.node_ok(lx.next_sibling.unwrap()));
        }
        if lx.first_child is Some {
            assert(self.node_ok(lx.first_child.unwrap()));
        }
        if lx.last_child is Some {
            assert(self.node_ok(lx.last_child.unwrap()));
        }
    }

    /// After a node has been detached, the root list is what it was, without
    /// that node.
    pub proof fn lemma_detach_list(self, on: spec_fn(usize) -> bool, n: usize)
        requires
            self.links_ok(),
            self.root_list(on),
            self.is_node(n),
        ensures
            self.detach(n).root_list(|x: usize| on(x) && x != n),
    {
        let after = self.detach(n);
        let l = self.links(n);
        let rest = |x: usize| on(x) && x != n;
        assert(self.node_ok(n));
        assert(self.listed_ok(on, n));
        if l.prev_sibling is Some {
            assert(self.listed_ok(on, l.prev_sibling.unwrap()));
        }
        if l.next_sibling is Some {
            assert(self.listed_ok(on, l.next_sibling.unwrap()));
        }
        if self.first is Some {
            assert(self.listed_ok(on, self.first.unwrap()));
        }
        if self.last is Some {
            assert(self.listed_ok(on, self.last.unwrap()));
        }
        assert forall|x: usize| #[trigger] after.listed_ok(rest, x) by {
            assert(self.listed_ok(on, x));
            if on(x) {
                assert(self.node_ok(x));
                assert(after.links(x) == self.detached_links(n, x));
            }
        }
        if after.first is Some {
            assert(after.links(after.first.unwrap()) == self.detached_links(
                n,
                after.first.unwrap(),
            ));
        }
        if after.last is Some {
            assert(after.links(after.last.unwrap()) == self.detached_links(
                n,
                after.last.unwrap(),
            ));
        }
    }

    /// Detaching a node keeps the forest well formed, keeps every node a node,
    /// and leaves the detached node without parent and siblings, off the
    /// root list.
    pub proof fn lemma_detach(self, n: usize)
        requires
            self.wf(),
            self.is_node(n),
        ensures
            self.detach(n).wf(),
            self.detached_to(n, self.detach(n)),
            self.detach(n).links(n).is_detached(),
            self.detach(n).first != Some(n),
            self.detach(n).last != Some(n),
    {
        let after = self.detach(n);
        let l = self.links(n);
        let rank = choose|rank: spec_fn(usize) -> nat| self.ranked(rank);
        let on = choose|on: spec_fn(usize) -> bool| self.root_list(on);
        self.lemma_detach_links(n);
        assert(self.node_ok(n));
        if l.prev_sibling is Some {
            self.lemma_siblings_differ(n);
        }
        assert forall|x: usize| after.is_node(x) implies #[trigger] after.node_ok(x) by {
            self.lemma_detach_node_ok(n, after, x);
        }
        assert forall|x: usize| after.is_node(x) implies #[trigger] after.rank_ok(rank, x) by {
            assert(self.rank_ok(rank, x));
            assert(self.rank_ok(rank, n));
        }
        assert(after.ranked(rank));
        self.lemma_detach_list(on, n);
    }

    /// The parent `p` takes in the node `n`, which stands between the siblings
    /// `prev` and `next`: where one of them is absent, `n` becomes the first or
    /// the last child.
    pub open spec fn adopt(
        self,
        p: usize,
        n: usize,
        prev: Option<usize>,
        next: Option<usize>,
    ) -> Forest {
        let l = self.links(p);
        self.with_links(
            p,
            Links {
                first_child: if prev is None {
                    Some(n)
                } else {
                    l.first_child
                },
                last_child: if next is None {
                    Some(n)
                } else {
                    l.last_child
                },
                ..l
            },
        )
    }

    /// The forest after the links have been written one node at a time to
    /// place the node `n` below `parent`, between `prev` and `next`: `n`
    /// itself, its parent, its previous sibling, then its next sibling.
    pub open spec fn relate_by_steps(
        self,
        n: usize,
        parent: Option<usize>,
        prev: Option<usize>,
        next: Option<usize>,
    ) -> Forest {
        let placed = self.with_links(
            n,
            Links { parent, prev_sibling: prev, next_sibling: next, ..self.links(n) },
        );
        let adopted = match parent {
            Some(p) => placed.adopt(p, n, prev, next),
            None => placed,
        };
        let after_prev = match prev {
            Some(m) => adopted.with_links(
                m,
                Links { next_sibling: Some(n), ..adopted.links(m) },
            ),
            None => adopted,
        };
        match next {
            Some(m) => after_prev.with_links(
                m,
                Links { prev_sibling: Some(n), ..after_prev.links(m) },
            ),
            None => after_prev,
        }
    }

    /// The node `n` has neither parent nor siblings, and `prev` and `next` are
    /// neighbours in the chain of children of `parent` (or in a chain without
    /// parent), or the end of that chain where one of them is absent.
    pub open spec fn can_relate(
        self,
        n: usize,
        parent: Option<usize>,
        prev: Option<usize>,
        next: Option<usize>,
    ) -> bool {
        &&& self.is_node(n)
        &&& self.links(n).is_detached()
        &&& prev != Some(n)
        &&& next != Some(n)
        &&& self.is_link(parent)
        &&& self.is_link(prev)
        &&& self.is_link(next)
        &&& prev is Some ==> self.links(prev.unwrap()).parent == parent && self.links(
            prev.unwrap(),
        ).next_sibling == next
        &&& next is Some ==> self.links(next.unwrap()).parent == parent && self.links(
            next.unwrap(),
        ).prev_sibling == prev
        &&& parent is Some && prev is None ==> self.links(parent.unwrap()).first_child == next
        &&& parent is Some && next is None ==> self.links(parent.unwrap()).last_child == prev
    }

    /// The links of the node `x` after the node `n` has been placed below
    /// `parent`, between `prev` and `next`.
    pub open spec fn related_links(
        self,
        n: usize,
        parent: Option<usize>,
        prev: Option<usize>,
        next: Option<usize>,
        x: usize,
    ) -> Links {
        let old = self.links(x);
        Links {
            parent: if x == n {
                parent
            } else {
                old.parent
            },
            prev_sibling: if x == n {
                prev
            } else if next == Some(x) {
                Some(n)
            } else {
                old.prev_sibling
            },
            next_sibling: if x == n {
                next
            } else if prev == Some(x) {
                Some(n)
            } else {
                old.next_sibling
            },
            first_child: if parent == Some(x) && prev is None {
                Some(n)
            } else {
                old.first_child
            },
            last_child: if parent == Some(x) && next is None {
                Some(n)
            } else {
                old.last_child
            },
        }
    }

    /// The forest after the node `n` has been placed below `parent`, between
    /// the siblings `prev` and `next`: `n` gets these three links, the parent
    /// gets `n` as first or last child where `n` is at an end of the chain, and
    /// the two siblings get `n` as their neighbour.
    pub open spec fn relate(
        self,
        n: usize,
        parent: Option<usize>,
        prev: Option<usize>,
        next: Option<usize>,
    ) -> Forest {
        Forest {
            nodes: self.retied(|x: usize| self.related_links(n, parent, prev, next, x)),
            ..self
        }
    }

    /// `after` has the nodes of this forest, each with the links that placing
    /// `n` gives it.
    pub open spec fn related_to(
        self,
        n: usize,
        parent: Option<usize>,
        prev: Option<usize>,
        next: Option<usize>,
        after: Forest,
    ) -> bool {
        &&& after.nodes.len() == self.nodes.len()
        &&& after.first == self.first
        &&& after.last == self.last
        &&& forall|x: usize| #[trigger] after.is_node(x) == self.is_node(x)
        &&& forall|x: usize|
            self.is_node(x) ==> #[trigger] after.links(x) == self.related_links(
                n,
                parent,
                prev,
                next,
                x,
            )
    }

    /// Writing the links one node at a time places the node as `relate` says.
    pub proof fn lemma_relate_by_steps(
        self,
        n: usize,
        parent: Option<usize>,
        prev: Option<usize>,
        next: Option<usize>,
    )
        requires
            self.can_relate(n, parent, prev, next),
        ensures
            self.relate_by_steps(n, parent, prev, next) == self.relate(n, parent, prev, next),
    {
        let placed = self.with_links(
            n,
            Links { parent, prev_sibling: prev, next_sibling: next, ..self.links(n) },
        );
        let adopted = match parent {
            Some(p) => placed.adopt(p, n, prev, next),
            None => placed,
        };
        let after_prev = match prev {
            Some(m) => adopted.with_links(
                m,
                Links { next_sibling: Some(n), ..adopted.links(m) },
            ),
            None => adopted,
        };
        let stepped = self.relate_by_steps(n, parent, prev, next);
        let after = self.relate(n, parent, prev, next);
        assert forall|x: usize| self.is_node(x) implies stepped.links(x) == self.related_links(
            n,
            parent,
            prev,
            next,
            x,
        ) by {
            assert(placed.links(x).first_child == self.links(x).first_child);
            assert(adopted.links(x).parent == placed.links(x).parent);
            assert(after_prev.links(x).parent == placed.links(x).parent);
        }
        assert forall|i: int| 0 <= i < self.nodes.len() implies stepped.nodes[i]
            == after.nodes[i] by {
            if 0 <= i <= usize::MAX && self.nodes[i] is Some {
                assert(self.is_node(i as usize));
                assert(stepped.links(i as usize) == self.related_links(
                    n,
                    parent,
                    prev,
                    next,
                    i as usize,
                ));
            }
        }
        assert(stepped.nodes =~= after.nodes);
    }

    /// Placing a node gives every node the links that `related_links` describes.
    pub proof fn lemma_relate_links(
        self,
        n: usize,
        parent: Option<usize>,
        prev: Option<usize>,
        next: Option<usize>,
    )
        ensures
            self.related_to(n, parent, prev, next, self.relate(n, parent, prev, next)),
    {
    }

    /// After a node has been placed, the links of any node are consistent.
    proof fn lemma_relate_node_ok(
        self,
        n: usize,
        parent: Option<usize>,
        prev: Option<usize>,
        next: Option<usize>,
        after: Forest,
        x: usize,
    )
        requires
            self.links_ok(),
            self.can_relate(n, parent, prev, next),
            self.is_node(x),
            self.related_to(n, parent, prev, next, after),
        ensures
            after.node_ok(x),
    {
        let lx = self.links(x);
        assert(self.node_ok(n));
        assert(self.node_ok(x));
        if parent is Some {
            assert(self.node_ok(parent.unwrap()));
        }
        if prev is Some {
            assert(self.node_ok(prev.unwrap()));
        }
        if next is Some {
            assert(self.node_ok(next.unwrap()));
        }
        if lx.parent is Some {
            assert(self.node_ok(lx.parent.unwrap()));
        }
        if lx.prev_sibling is Some {
            assert(self.node_ok(lx.prev_sibling.unwrap()));
        }
        if lx.next_sibling is Some {
            assert(self.node_ok(lx.next_sibling.unwrap()));
        }
        if lx.first_child is Some {
            assert(self.node_ok(lx.first_child.unwrap()));
        }
        if lx.last_child is Some {
            assert(self.node_ok(lx.last_child.unwrap()));
        }
    }

    /// Placing a detached node between two neighbours keeps the links
    /// consistent and the chains of siblings free of rings.
    pub proof fn lemma_relate(
        self,
        n: usize,
        parent: Option<usize>,
        prev: Option<usize>,
        next: Option<usize>,
    )
        requires
            self.links_ok(),
            exists|rank: spec_fn(usize) -> nat| self.ranked(rank),
            self.can_relate(n, parent, prev, next),
        ensures
            self.relate(n, parent, prev, next).links_ok(),
            exists|rank: spec_fn(usize) -> nat| self.relate(n, parent, prev, next).ranked(rank),
            self.related_to(n, parent, prev, next, self.relate(n, parent, prev, next)),
    {
        let after = self.relate(n, parent, prev, next);
        self.lemma_relate_links(n, parent, prev, next);
        assert forall|x: usize| after.is_node(x) implies #[trigger] after.node_ok(x) by {
            self.lemma_relate_node_ok(n, parent, prev, next, after, x);
        }
        let rank = choose|rank: spec_fn(usize) -> nat| self.ranked(rank);
        let spread = |x: usize|
            if x == n {
                if prev is Some {
                    (2 * rank(prev.unwrap()) + 3) as nat
                } else {
                    0nat
                }
            } else {
                (2 * rank(x) + 2) as nat
            };
        assert forall|x: usize| after.is_node(x) implies #[trigger] after.rank_ok(spread, x) by {
            assert(self.rank_ok(rank, x));
            assert(self.node_ok(x));
            assert(self.node_ok(n));
        }
        assert(after.ranked(spread));
    }

    /// The first and the last root after the node `n` has been placed: `n`
    /// where it has been placed before the first root, or after the last.
    pub open spec fn placed_ends(
        self,
        n: usize,
        parent: Option<usize>,
        prev: Option<usize>,
        next: Option<usize>,
    ) -> (Option<usize>, Option<usize>) {
        (
            if parent is None && prev is None && next is Some && self.first == next {
                Some(n)
            } else {
                self.first
            },
            if parent is None && next is None && prev is Some && self.last == prev {
                Some(n)
            } else {
                self.last
            },
        )
    }

    /// After a node off the root list has been placed, the root list is what
    /// it was, with that node where it has been placed beside a root of the
    /// list.
    pub proof fn lemma_relate_list(
        self,
        on: spec_fn(usize) -> bool,
        n: usize,
        parent: Option<usize>,
        prev: Option<usize>,
        next: Option<usize>,
    )
        requires
            self.links_ok(),
            self.root_list(on),
            self.can_relate(n, parent, prev, next),
            !on(n),
        ensures
            self.relate(n, parent, prev, next).with_ends(
                self.placed_ends(n, parent, prev, next).0,
                self.placed_ends(n, parent, prev, next).1,
            ).root_list(
                |x: usize|
                    on(x) || (x == n && parent is None && ((prev is Some && on(prev.unwrap())) || (
                    next is Some && on(next.unwrap())))),
            ),
    {
        let ends = self.placed_ends(n, parent, prev, next);
        let related = self.relate(n, parent, prev, next);
        let after = related.with_ends(ends.0, ends.1);
        let grown = |x: usize|
            on(x) || (x == n && parent is None && ((prev is Some && on(prev.unwrap())) || (
            next is Some && on(next.unwrap()))));
        self.lemma_relate_links(n, parent, prev, next);
        assert(self.node_ok(n));
        if prev is Some {
            assert(self.listed_ok(on, prev.unwrap()));
            assert(self.node_ok(prev.unwrap()));
        }
        if next is Some {
            assert(self.listed_ok(on, next.unwrap()));
            assert(self.node_ok(next.unwrap()));
        }
        if self.first is Some {
            assert(self.listed_ok(on, self.first.unwrap()));
        }
        if self.last is Some {
            assert(self.listed_ok(on, self.last.unwrap()));
        }
        assert forall|x: usize| #[trigger] after.listed_ok(grown, x) by {
            assert(self.listed_ok(on, x));
            if grown(x) {
                assert(related.is_node(x) == self.is_node(x));
                assert(after.links(x) == related.links(x));
                assert(related.links(x) == self.related_links(n, parent, prev, next, x));
                assert(self.node_ok(x));
            }
        }
        if after.first is Some {
            let f = after.first.unwrap();
            assert(related.is_node(f) == self.is_node(f));
            assert(after.links(f) == related.links(f));
            assert(related.links(f) == self.related_links(n, parent, prev, next, f));
        }
        if after.last is Some {
            let l = after.last.unwrap();
            assert(related.is_node(l) == self.is_node(l));
            assert(after.links(l) == related.links(l));
            assert(related.links(l) == self.related_links(n, parent, prev, next, l));
        }
    }

    /// Adding an unrelated node in a slot that holds none keeps the forest
    /// well formed and every other node as it was.
    pub proof fn lemma_with_node(self, index: usize)
        requires
            self.wf(),
            !self.is_node(index),
            index <= self.nodes.len(),
        ensures
            self.with_node(index).wf(),
            self.with_node(index).is_node(index),
            self.with_node(index).links(index) == Links::isolated(),
            forall|x: usize|
                x != index ==> #[trigger] self.with_node(index).is_node(x) == self.is_node(x),
            forall|x: usize|
                self.is_node(x) ==> #[trigger] self.with_node(index).links(x) == self.links(x),
            forall|on: spec_fn(usize) -> bool|
                self.root_list(on) ==> #[trigger] self.with_node(index).root_list(on) && !on(
                    index,
                ),
    {
        let after = self.with_node(index);
        let rank = choose|rank: spec_fn(usize) -> nat| self.ranked(rank);
        assert forall|x: usize| after.is_node(x) implies #[trigger] after.node_ok(x) by {
            if x != index {
                assert(self.node_ok(x));
            }
        }
        assert forall|x: usize| after.is_node(x) implies #[trigger] after.rank_ok(rank, x) by {
            if x != index {
                assert(self.rank_ok(rank, x));
            }
        }
        assert(after.ranked(rank));
        assert forall|on: spec_fn(usize) -> bool| self.root_list(on) implies #[trigger] after.root_list(
            on,
        ) && !on(index) by {
            assert(self.listed_ok(on, index));
            assert forall|x: usize| #[trigger] after.listed_ok(on, x) by {
                assert(self.listed_ok(on, x));
            }
            if self.first is Some {
                assert(self.listed_ok(on, self.first.unwrap()));
            }
            if self.last is Some {
                assert(self.listed_ok(on, self.last.unwrap()));
            }
        }
        let on = choose|on: spec_fn(usize) -> bool| self.root_list(on);
        assert(after.root_list(on));
    }

    /// The next sibling of the nearest ancestor of `i` that has one, looking
    /// at no more than `fuel` ancestors.
    pub open spec fn ascend(self, i: usize, fuel: nat) -> Option<usize>
        decreases fuel,
    {
        if fuel == 0 {
            None
        } else {
            match self.links(i).parent {
                None => None,
                Some(p) => match self.links(p).next_sibling {
                    Some(s) => Some(s),
                    None => self.ascend(p, (fuel - 1) as nat),
                },
            }
        }
    }

    /// The node that follows `i` in preorder: its first child; else its next
    /// sibling; else the next sibling of the nearest ancestor that has one.
    pub open spec fn next_in_preorder(self, i: usize) -> Option<usize> {
        let l = self.links(i);
        if l.first_child is Some {
            l.first_child
        } else if l.next_sibling is Some {
            l.next_sibling
        } else {
            self.ascend(i, self.nodes.len())
        }
    }

    /// Ascending from a node leads to a node or to nothing.
    pub proof fn lemma_ascend_is_link(self, i: usize, fuel: nat)
        requires
            self.links_ok(),
            self.is_node(i),
        ensures
            self.is_link(self.ascend(i, fuel)),
        decreases fuel,
    {
        assert(self.node_ok(i));
        if fuel > 0 && self.links(i).parent is Some {
            let p = self.links(i).parent.unwrap();
            assert(self.node_ok(p));
            if self.links(p).next_sibling is None {
                self.lemma_ascend_is_link(p, (fuel - 1) as nat);
            }
        }
    }

    /// The node after a node in preorder is a node.
    pub proof fn lemma_next_is_link(self, i: usize)
        requires
            self.links_ok(),
            self.is_node(i),
        ensures
            self.is_link(self.next_in_preorder(i)),
    {
        assert(self.node_ok(i));
        self.lemma_ascend_is_link(i, self.nodes.len());
    }

    /// Placing a detached node that is not the first root, and moving the
    /// ends of the root list to it where it extends the list, keeps the forest
    /// well formed and gives every node the links that `related_links`
    /// describes.
    pub proof fn lemma_place(
        self,
        n: usize,
        parent: Option<usize>,
        prev: Option<usize>,
        next: Option<usize>,
        first: Option<usize>,
        last: Option<usize>,
    )
        requires
            self.wf(),
            self.can_relate(n, parent, prev, next),
            self.first != Some(n),
            (first, last) == self.placed_ends(n, parent, prev, next),
        ensures
            self.relate(n, parent, prev, next).with_ends(first, last).wf(),
            self.relate(n, parent, prev, next).with_ends(first, last).nodes.len()
                == self.nodes.len(),
            forall|x: usize|
                #[trigger] self.relate(n, parent, prev, next).with_ends(first, last).is_node(x)
                    == self.is_node(x),
            forall|x: usize|
                self.is_node(x) ==> #[trigger] self.relate(n, parent, prev, next).with_ends(
                    first,
                    last,
                ).links(x) == self.related_links(n, parent, prev, next, x),
    {
        let related = self.relate(n, parent, prev, next);
        let after = related.with_ends(first, last);
        let on = choose|on: spec_fn(usize) -> bool| self.root_list(on);
        self.lemma_off_list(on, n);
        self.lemma_relate(n, parent, prev, next);
        related.lemma_with_ends(first, last);
        self.lemma_relate_list(on, n, parent, prev, next);
        assert forall|x: usize| #[trigger] after.is_node(x) == self.is_node(x) by {
            assert(related.is_node(x) == self.is_node(x));
        }
        assert forall|x: usize| self.is_node(x) implies #[trigger] after.links(x)
            == self.related_links(n, parent, prev, next, x) by {
            assert(after.links(x) == related.links(x));
        }
    }

    /// The forest after the node `c` has become the last child of `p`: `c` is
    /// detached and then placed after the last child that `p` had. The root
    /// list loses `c` where `c` was on it, and changes in nothing else.
    pub open spec fn make_child(self, c: usize, p: usize) -> Forest {
        let detached = self.detach(c);
        detached.relate(c, Some(p), detached.links(p).last_child, None)
    }

    /// The forest after the node `n` has become the next sibling of `s`: `n`
    /// is detached and then placed after `s`, below the parent of `s`. Where
    /// `s` was the last root, `n` becomes the last root.
    pub open spec fn make_next_sibling(self, n: usize, s: usize) -> Forest {
        let detached = self.detach(n);
        let related = detached.relate(
            n,
            detached.links(s).parent,
            Some(s),
            detached.links(s).next_sibling,
        );
        related.with_ends(
            detached.first,
            if detached.last == Some(s) {
                Some(n)
            } else {
                detached.last
            },
        )
    }

    /// The forest after the node `n` has become the previous sibling of `s`:
    /// `n` is detached and then placed before `s`, below the parent of `s`.
    /// Where `s` was the first root, `n` becomes the first root.
    pub open spec fn make_prev_sibling(self, n: usize, s: usize) -> Forest {
        let detached = self.detach(n);
        let related = detached.relate(
            n,
            detached.links(s).parent,
            detached.links(s).prev_sibling,
            Some(s),
        );
        related.with_ends(
            if detached.first == Some(s) {
                Some(n)
            } else {
                detached.first
            },
            detached.last,
        )
    }

    /// Making one node the last child of another keeps the forest well formed.
    pub proof fn lemma_make_child(self, c: usize, p: usize)
        requires
            self.wf(),
            self.is_node(c),
            self.is_node(p),
            c != p,
        ensures
            self.make_child(c, p).wf(),
            self.detach(c).can_relate(c, Some(p), self.detach(c).links(p).last_child, None),
            forall|x: usize| #[trigger] self.make_child(c, p).is_node(x) == self.is_node(x),
            self.make_child(c, p).nodes.len() == self.nodes.len(),
            self.make_child(c, p).links(c).parent == Some(p),
            self.make_child(c, p).links(c).next_sibling is None,
            self.make_child(c, p).links(c).prev_sibling == self.detach(c).links(p).last_child,
            self.make_child(c, p).links(p).last_child == Some(c),
            self.make_child(c, p).first == self.detach(c).first,
            self.make_child(c, p).last == self.detach(c).last,
    {
        let detached = self.detach(c);
        self.lemma_detach(c);
        let prev = detached.links(p).last_child;
        assert(detached.node_ok(p));
        if prev is Some {
            assert(detached.node_ok(prev.unwrap()));
        }
        detached.lemma_place(c, Some(p), prev, None, detached.first, detached.last);
        let after = self.make_child(c, p);
        assert(after == detached.relate(c, Some(p), prev, None).with_ends(
            detached.first,
            detached.last,
        ));
    }

    /// Making one node the next sibling of another keeps the forest well formed.
    pub proof fn lemma_make_next_sibling(self, n: usize, s: usize)
        requires
            self.wf(),
            self.is_node(n),
            self.is_node(s),
            n != s,
        ensures
            self.make_next_sibling(n, s).wf(),
            self.detach(n).can_relate(
                n,
                self.detach(n).links(s).parent,
                Some(s),
                self.detach(n).links(s).next_sibling,
            ),
            forall|x: usize| #[trigger] self.make_next_sibling(n, s).is_node(x) == self.is_node(x),
            self.make_next_sibling(n, s).nodes.len() == self.nodes.len(),
            self.make_next_sibling(n, s).links(n).prev_sibling == Some(s),
            self.make_next_sibling(n, s).links(s).next_sibling == Some(n),
            self.make_next_sibling(n, s).links(n).next_sibling == self.detach(n).links(
                s,
            ).next_sibling,
            self.make_next_sibling(n, s).links(n).parent == self.make_next_sibling(n, s).links(
                s,
            ).parent,
    {
        let detached = self.detach(n);
        self.lemma_detach(n);
        let l = detached.links(s);
        assert(detached.node_ok(s));
        assert(detached.node_ok(n));
        if l.next_sibling is Some {
            assert(detached.node_ok(l.next_sibling.unwrap()));
        }
        detached.lemma_ends();
        let after = self.make_next_sibling(n, s);
        detached.lemma_place(n, l.parent, Some(s), l.next_sibling, after.first, after.last);
    }

    /// Making one node the previous sibling of another keeps the forest well
    /// formed.
    pub proof fn lemma_make_prev_sibling(self, n: usize, s: usize)
        requires
            self.wf(),
            self.is_node(n),
            self.is_node(s),
            n != s,
        ensures
            self.make_prev_sibling(n, s).wf(),
            self.detach(n).can_relate(
                n,
                self.detach(n).links(s).parent,
                self.detach(n).links(s).prev_sibling,
                Some(s),
            ),
            forall|x: usize| #[trigger] self.make_prev_sibling(n, s).is_node(x) == self.is_node(x),
            self.make_prev_sibling(n, s).nodes.len() == self.nodes.len(),
            self.make_prev_sibling(n, s).links(n).next_sibling == Some(s),
            self.make_prev_sibling(n, s).links(s).prev_sibling == Some(n),
            self.make_prev_sibling(n, s).links(n).prev_sibling == self.detach(n).links(
                s,
            ).prev_sibling,
            self.make_prev_sibling(n, s).links(n).parent == self.make_prev_sibling(n, s).links(
                s,
            ).parent,
    {
        let detached = self.detach(n);
        self.lemma_detach(n);
        let l = detached.links(s);
        assert(detached.node_ok(s));
        assert(detached.node_ok(n));
        if l.prev_sibling is Some {
            assert(detached.node_ok(l.prev_sibling.unwrap()));
        }
        detached.lemma_ends();
        let after = self.make_prev_sibling(n, s);
        detached.lemma_place(n, l.parent, l.prev_sibling, Some(s), after.first, after.last);
    }

    /// The forest with a new node in the slot `n` as the last child of `p`.
    /// The root list stays as it is.
    pub open spec fn append_child_to(self, p: usize, n: usize) -> Forest {
        let grown = self.with_node(n);
        grown.relate(n, Some(p), grown.links(p).last_child, None)
    }

    /// The forest with a new node in the slot `n` as the next sibling of `s`.
    /// Where `s` was the last root, the new node becomes the last root.
    pub open spec fn insert_sibling_after(self, s: usize, n: usize) -> Forest {
        let grown = self.with_node(n);
        grown.relate(n, grown.links(s).parent, Some(s), grown.links(s).next_sibling).with_ends(
            self.first,
            if self.last == Some(s) {
                Some(n)
            } else {
                self.last
            },
        )
    }

    /// The forest with a new node in the slot `n` as its only root.
    pub open spec fn push_root(self, n: usize) -> Forest {
        self.with_node(n).with_ends(Some(n), Some(n))
    }

    /// The forest with a new node in the slot `n` as the last child of the
    /// last root, or as the only root of a forest without roots.
    pub open spec fn append_child(self, n: usize) -> Forest {
        match self.last {
            Some(root) => self.append_child_to(root, n),
            None => self.push_root(n),
        }
    }

    /// The forest with a new node in the slot `n` as the root after the last
    /// root, or as the only root of a forest without roots. The new node is the
    /// last root.
    pub open spec fn append_sibling(self, n: usize) -> Forest {
        match self.last {
            Some(root) => self.insert_sibling_after(root, n),
            None => self.push_root(n),
        }
    }

    /// Appending a new last child keeps the forest well formed.
    pub proof fn lemma_append_child_to(self, p: usize, n: usize)
        requires
            self.wf(),
            self.is_node(p),
            !self.is_node(n),
            n <= self.nodes.len(),
        ensures
            self.append_child_to(p, n).wf(),
            self.with_node(n).can_relate(n, Some(p), self.with_node(n).links(p).last_child, None),
            forall|x: usize|
                #[trigger] self.append_child_to(p, n).is_node(x) == (x == n || self.is_node(x)),
            self.append_child_to(p, n).links(n).parent == Some(p),
            self.append_child_to(p, n).links(n).prev_sibling == self.links(p).last_child,
            self.append_child_to(p, n).links(n).next_sibling is None,
            self.append_child_to(p, n).links(n).first_child is None,
            self.append_child_to(p, n).links(p).last_child == Some(n),
            self.append_child_to(p, n).first == self.first,
            self.append_child_to(p, n).last == self.last,
    {
        let grown = self.with_node(n);
        self.lemma_with_node(n);
        self.lemma_ends();
        let prev = grown.links(p).last_child;
        assert(grown.node_ok(p));
        if prev is Some {
            assert(grown.node_ok(prev.unwrap()));
        }
        grown.lemma_place(n, Some(p), prev, None, grown.first, grown.last);
        let after = self.append_child_to(p, n);
        assert(after == grown.relate(n, Some(p), prev, None).with_ends(grown.first, grown.last));
        assert forall|x: usize| #[trigger] after.is_node(x) == (x == n || self.is_node(x)) by {
            assert(grown.is_node(x) == (x == n || self.is_node(x)));
        }
    }

    /// Inserting a new next sibling keeps the forest well formed.
    pub proof fn lemma_insert_sibling_after(self, s: usize, n: usize)
        requires
            self.wf(),
            self.is_node(s),
            !self.is_node(n),
            n <= self.nodes.len(),
        ensures
            self.insert_sibling_after(s, n).wf(),
            self.with_node(n).can_relate(
                n,
                self.with_node(n).links(s).parent,
                Some(s),
                self.with_node(n).links(s).next_sibling,
            ),
            forall|x: usize|
                #[trigger] self.insert_sibling_after(s, n).is_node(x) == (x == n || self.is_node(
                    x,
                )),
            self.insert_sibling_after(s, n).links(n).parent == self.links(s).parent,
            self.insert_sibling_after(s, n).links(n).prev_sibling == Some(s),
            self.insert_sibling_after(s, n).links(n).next_sibling == self.links(s).next_sibling,
            self.insert_sibling_after(s, n).links(n).first_child is None,
            self.insert_sibling_after(s, n).links(s).next_sibling == Some(n),
    {
        let grown = self.with_node(n);
        self.lemma_with_node(n);
        self.lemma_ends();
        grown.lemma_ends();
        let l = grown.links(s);
        assert(grown.node_ok(s));
        if l.next_sibling is Some {
            assert(grown.node_ok(l.next_sibling.unwrap()));
        }
        let after = self.insert_sibling_after(s, n);
        grown.lemma_place(n, l.parent, Some(s), l.next_sibling, after.first, after.last);
        assert forall|x: usize| #[trigger] after.is_node(x) == (x == n || self.is_node(x)) by {
            assert(grown.is_node(x) == (x == n || self.is_node(x)));
        }
    }

    /// A new node as the only root of a forest that had none keeps it well
    /// formed.
    pub proof fn lemma_push_root(self, n: usize)
        requires
            self.wf(),
            self.last is None,
            !self.is_node(n),
            n <= self.nodes.len(),
        ensures
            self.push_root(n).wf(),
            forall|x: usize| #[trigger] self.push_root(n).is_node(x) == (x == n || self.is_node(x)),
    {
        let grown = self.with_node(n);
        self.lemma_with_node(n);
        grown.lemma_with_ends(Some(n), Some(n));
        let after = self.push_root(n);
        assert(after.links(n) == grown.links(n));
        assert(after.is_node(n) == grown.is_node(n));
        assert forall|x: usize| #[trigger] after.is_node(x) == (x == n || self.is_node(x)) by {
            assert(after.is_node(x) == grown.is_node(x));
        }
        let only = |x: usize| x == n;
        assert forall|x: usize| #[trigger] after.listed_ok(only, x) by {}
        assert(after.root_list(only));
    }

    /// A node that is the parent of some node has a first child.
    pub proof fn lemma_parent_has_children(self, c: usize)
        requires
            self.wf(),
            self.is_node(c),
            self.links(c).parent is Some,
        ensures
            self.links(self.links(c).parent.unwrap()).first_child is Some,
    {
        let rank = choose|rank: spec_fn(usize) -> nat| self.ranked(rank);
        self.lemma_parent_has_children_by(rank, c);
    }

    /// A node that is the parent of some node has a first child, shown along
    /// the chain of siblings that `rank` numbers.
    proof fn lemma_parent_has_children_by(self, rank: spec_fn(usize) -> nat, c: usize)
        requires
            self.links_ok(),
            self.ranked(rank),
            self.is_node(c),
            self.links(c).parent is Some,
        ensures
            self.links(self.links(c).parent.unwrap()).first_child is Some,
        decreases rank(c),
    {
        assert(self.node_ok(c));
        assert(self.rank_ok(rank, c));
        if self.links(c).prev_sibling is Some {
            self.lemma_parent_has_children_by(rank, self.links(c).prev_sibling.unwrap());
        }
    }

    /// The forest after the childless node `n` has been removed: `n` is
    /// detached and its slot freed. The root list loses `n` as in detaching.
    pub open spec fn remove(self, n: usize) -> Forest {
        self.detach(n).without_node(n)
    }

    /// Removing a childless node keeps the forest well formed, and every other
    /// node a node.
    pub proof fn lemma_remove(self, n: usize)
        requires
            self.wf(),
            self.is_node(n),
            self.links(n).first_child is None,
        ensures
            self.remove(n).wf(),
            self.remove(n).nodes.len() == self.nodes.len(),
            forall|x: usize| #[trigger] self.remove(n).is_node(x) == (x != n && self.is_node(x)),
            forall|x: usize|
                x != n && self.is_node(x) ==> #[trigger] self.remove(n).links(x)
                    == self.detached_links(n, x),
    {
        let l = self.links(n);
        let detached = self.detach(n);
        self.lemma_detach(n);
        assert(self.node_ok(n));
        if l.parent == Some(n) {
            self.lemma_parent_has_children(n);
        }
        let freed = detached.without_node(n);
        let rank = choose|rank: spec_fn(usize) -> nat| detached.ranked(rank);
        let on = choose|on: spec_fn(usize) -> bool| self.root_list(on);
        self.lemma_detach_list(on, n);
        let rest = |x: usize| on(x) && x != n;
        assert(detached.node_ok(n));
        assert forall|x: usize| freed.is_node(x) implies #[trigger] freed.node_ok(x) by {
            assert(detached.node_ok(x));
            if detached.links(x).parent == Some(n) {
                detached.lemma_parent_has_children(x);
            }
        }
        assert forall|x: usize| freed.is_node(x) implies #[trigger] freed.rank_ok(rank, x) by {
            assert(detached.rank_ok(rank, x));
        }
        assert(freed.ranked(rank));
        assert forall|x: usize| #[trigger] freed.listed_ok(rest, x) by {
            assert(detached.listed_ok(rest, x));
        }
        if freed.first is Some {
            assert(detached.listed_ok(rest, freed.first.unwrap()));
        }
        if freed.last is Some {
            assert(detached.listed_ok(rest, freed.last.unwrap()));
        }
        assert(freed.root_list(rest));
        assert forall|x: usize| #[trigger] freed.is_node(x) == (x != n && self.is_node(x)) by {
            assert(detached.is_node(x) == self.is_node(x));
        }
        assert forall|x: usize| x != n && self.is_node(x) implies #[trigger] freed.links(x)
            == self.detached_links(n, x) by {
            assert(detached.links(x) == self.detached_links(n, x));
        }
    }
}

} // verus!
