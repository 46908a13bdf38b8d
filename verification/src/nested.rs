//! The nested form of a tree: each node as its value with the list of its
//! children, the roots as a list. This is the structure that a tree is
//! written out in.

use crate::id::NodeId;
use crate::tree::Tree;
use crate::tree::TreeView;
use vstd::prelude::*;

verus! {

/// A node in nested form: its value, and its children in order, each in
/// nested form.
#[derive(Debug, PartialEq, Eq)]
pub struct Nested<T> {
    pub value: T,
    pub children: Vec<Nested<T>>,
}

impl<T> Nested<T> {
    /// The number of nodes in the nested form of a node: the node and all
    /// that stand below it.
    pub open spec fn size(self) -> nat
        decreases self,
    {
        1 + sizes(self.children@)
    }
}

/// The number of nodes in a list of nested forms, counted depth first.
pub open spec fn sizes<T>(items: Seq<Nested<T>>) -> nat
    decreases items,
{
    if items.len() == 0 {
        0
    } else {
        items[0].size() + sizes(items.drop_first())
    }
}

/// The values in a list of nested forms, read depth first: the value of each
/// node, then the values below it, then those of the nodes after it.
pub open spec fn flat<T>(items: Seq<Nested<T>>) -> Seq<T>
    decreases items,
{
    if items.len() == 0 {
        Seq::empty()
    } else {
        seq![items[0].value] + flat(items[0].children@) + flat(items.drop_first())
    }
}

impl<T> TreeView<T> {
    /// `items` is the nested form of the chain of siblings that starts at
    /// `start`: one item for each sibling, in order, with the value of the
    /// sibling and the nested form of its children.
    pub open spec fn nests(self, items: Seq<Nested<&T>>, start: Option<usize>) -> bool
        decreases items,
    {
        if items.len() == 0 {
            start is None
        } else {
            &&& start is Some
            &&& *items[0].value == self.value(start.unwrap())
            &&& self.nests(items[0].children@, self.shape.links(start.unwrap()).first_child)
            &&& self.nests(items.drop_first(), self.shape.links(start.unwrap()).next_sibling)
        }
    }

    /// `values` are the values of the nodes in the slots `slots`, one for one.
    pub open spec fn reads_as(self, values: Seq<&T>, slots: Seq<usize>) -> bool {
        &&& values.len() == slots.len()
        &&& forall|k: int| 0 <= k < values.len() ==> *(#[trigger] values[k]) == self.value(slots[k])
    }

    /// `items` is the nested form of the siblings from `start` up to, and
    /// without, `stop`.
    pub open spec fn nests_until(
        self,
        items: Seq<Nested<&T>>,
        start: Option<usize>,
        stop: Option<usize>,
    ) -> bool
        decreases items,
    {
        if items.len() == 0 {
            start == stop
        } else {
            &&& start is Some
            &&& *items[0].value == self.value(start.unwrap())
            &&& self.nests(items[0].children@, self.shape.links(start.unwrap()).first_child)
            &&& self.nests_until(
                items.drop_first(),
                self.shape.links(start.unwrap()).next_sibling,
                stop,
            )
        }
    }

    /// The nested form of the siblings up to a node, with the nested form of
    /// that node, is the nested form of the siblings up to the next.
    proof fn lemma_nests_push(
        self,
        items: Seq<Nested<&T>>,
        start: Option<usize>,
        i: usize,
        item: Nested<&T>,
    )
        requires
            self.nests_until(items, start, Some(i)),
            *item.value == self.value(i),
            self.nests(item.children@, self.shape.links(i).first_child),
        ensures
            self.nests_until(items.push(item), start, self.shape.links(i).next_sibling),
        decreases items.len(),
    {
        let grown = items.push(item);
        if items.len() == 0 {
            let next = self.shape.links(i).next_sibling;
            assert(grown.drop_first() =~= Seq::empty());
            assert(self.nests_until(Seq::empty(), next, next));
            assert(grown[0] == item);
        } else {
            assert(grown[0] == items[0]);
            self.lemma_nests_push(
                items.drop_first(),
                self.shape.links(start.unwrap()).next_sibling,
                i,
                item,
            );
            assert(grown.drop_first() =~= items.drop_first().push(item));
        }
    }

    /// The nested form of the siblings up to the end of the chain is the
    /// nested form of the chain.
    proof fn lemma_nests_all(self, items: Seq<Nested<&T>>, start: Option<usize>)
        requires
            self.nests_until(items, start, None),
        ensures
            self.nests(items, start),
        decreases items.len(),
    {
        if items.len() > 0 {
            self.lemma_nests_all(
                items.drop_first(),
                self.shape.links(start.unwrap()).next_sibling,
            );
        }
    }
}

/// Each member of `path` has the member before it as `pred`, and the first
/// member has none.
spec fn follows(pred: spec_fn(usize) -> Option<usize>, path: Seq<usize>) -> bool {
    forall|k: int|
        0 <= k < path.len() ==> pred(#[trigger] path[k]) == if k == 0 {
            None
        } else {
            Some(path[k - 1])
        }
}

/// The node that comes after the last member of `path`, if there is one, has
/// that member as `pred`, or none where the path is empty.
spec fn continues(
    pred: spec_fn(usize) -> Option<usize>,
    path: Seq<usize>,
    next: Option<usize>,
) -> bool {
    next is Some ==> pred(next.unwrap()) == if path.len() == 0 {
        None
    } else {
        Some(path.last())
    }
}

/// No node occurs twice on a path that starts at a node without `pred`.
proof fn lemma_follows_distinct(
    pred: spec_fn(usize) -> Option<usize>,
    path: Seq<usize>,
    a: int,
    b: int,
)
    requires
        follows(pred, path),
        0 <= a < b < path.len(),
    ensures
        path[a] != path[b],
    decreases a,
{
    if path[a] == path[b] {
        assert(pred(path[a]) == pred(path[b]));
        if a > 0 {
            lemma_follows_distinct(pred, path, a - 1, b - 1);
        }
    }
}

/// A path of numbers below `bound` that starts at a node without `pred` has
/// no more than `bound` members.
proof fn lemma_follows_short(pred: spec_fn(usize) -> Option<usize>, path: Seq<usize>, bound: nat)
    requires
        follows(pred, path),
        forall|k: int| 0 <= k < path.len() ==> path[k] < bound,
    ensures
        path.len() <= bound,
{
    assert forall|a: int, b: int|
        0 <= a < path.len() && 0 <= b < path.len() && a != b implies path[a] != path[b] by {
        if a < b {
            lemma_follows_distinct(pred, path, a, b);
        } else {
            lemma_follows_distinct(pred, path, b, a);
        }
    }
    crate::preorder::lemma_distinct_bounded(path, bound);
}

/// A path that is continued by a node stays a path with that node added.
proof fn lemma_follows_push(
    pred: spec_fn(usize) -> Option<usize>,
    path: Seq<usize>,
    next: usize,
)
    requires
        follows(pred, path),
        continues(pred, path, Some(next)),
    ensures
        follows(pred, path.push(next)),
{
    let grown = path.push(next);
    assert forall|k: int| 0 <= k < grown.len() implies pred(#[trigger] grown[k]) == if k == 0 {
        None
    } else {
        Some(grown[k - 1])
    } by {
        if k < path.len() {
            assert(grown[k] == path[k]);
        }
    }
}

impl<T> Tree<T> {
    /// The tree in nested form: the roots of the root list, in order, each
    /// with its value and its children.
    pub fn to_nested(&self) -> (nested: Vec<Nested<&T>>)
        requires
            self.wf(),
        ensures
            self@.nests(nested@, self@.shape.first),
            self@.shape.is_proper() ==> sizes(nested@) == self@.shape.node_set().len(),
            self@.shape.is_acyclic() ==> self@.reads_as(
                flat(nested@),
                self@.shape.walk(self@.shape.first, self@.shape.nodes.len()),
            ),
    {
        proof {
            self@.shape.lemma_ends();
        }
        let nested = self.nested_row(self.first_node, Ghost(Seq::empty()));
        proof {
            if self@.shape.is_proper() {
                self@.shape.lemma_nested_counts_nodes(self@, nested@);
            }
            if self@.shape.is_acyclic() {
                self@.shape.lemma_nested_reads_as_walk(self@, nested@);
            }
        }
        nested
    }

    /// The nested form of the chain of siblings that starts at its head
    /// `start`. `above` holds the ancestors of the chain, from the root down.
    fn nested_row(&self, start: Option<usize>, Ghost(above): Ghost<Seq<usize>>) -> (nested: Vec<
        Nested<&T>,
    >)
        requires
            self.wf(),
            self@.shape.is_link(start),
            start is Some ==> self@.shape.links(start.unwrap()).prev_sibling is None,
            forall|k: int| 0 <= k < above.len() ==> self@.shape.is_node(#[trigger] above[k]),
            follows(|x: usize| self@.shape.links(x).parent, above),
            continues(|x: usize| self@.shape.links(x).parent, above, start),
        ensures
            self@.nests(nested@, start),
        decreases self@.shape.nodes.len() - above.len(),
    {
        let ghost shape = self@.shape;
        let ghost parent_of = |x: usize| shape.links(x).parent;
        let ghost prev_of = |x: usize| shape.links(x).prev_sibling;
        let mut items: Vec<Nested<&T>> = Vec::new();
        let mut current = start;
        let ghost done = Seq::<usize>::empty();
        while current.is_some()
            invariant
                self.wf(),
                shape == self@.shape,
                parent_of == |x: usize| shape.links(x).parent,
                prev_of == |x: usize| shape.links(x).prev_sibling,
                shape.is_link(current),
                self@.nests_until(items@, start, current),
                forall|k: int| 0 <= k < above.len() ==> shape.is_node(#[trigger] above[k]),
                follows(parent_of, above),
                continues(parent_of, above, current),
                forall|k: int| 0 <= k < done.len() ==> shape.is_node(#[trigger] done[k]),
                follows(prev_of, done),
                continues(prev_of, done, current),
            decreases shape.nodes.len() - done.len(),
        {
            let index = current.unwrap();
            let links = self.links_at(index);
            proof {
                assert(shape.node_ok(index));
                lemma_follows_push(parent_of, above, index);
                lemma_follows_push(prev_of, done, index);
                assert forall|k: int| 0 <= k < above.push(index).len() implies above.push(
                    index,
                )[k] < shape.nodes.len() by {
                    if k < above.len() {
                        assert(shape.is_node(above[k]));
                    }
                }
                lemma_follows_short(parent_of, above.push(index), shape.nodes.len());
                assert forall|k: int| 0 <= k < done.push(index).len() implies done.push(
                    index,
                )[k] < shape.nodes.len() by {
                    if k < done.len() {
                        assert(shape.is_node(done[k]));
                    }
                }
                lemma_follows_short(prev_of, done.push(index), shape.nodes.len());
            }
            let children = self.nested_row(links.first_child, Ghost(above.push(index)));
            let value = self.get(&NodeId::new(index)).unwrap();
            let item = Nested { value, children };
            proof {
                self@.lemma_nests_push(items@, start, index, item);
                done = done.push(index);
            }
            items.push(item);
            current = links.next_sibling;
        }
        proof {
            self@.lemma_nests_all(items@, start);
        }
        items
    }
}

} // verus!
