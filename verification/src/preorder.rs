//! The order in which a forest is traversed: what the stepping from node to
//! node visits, and why it visits every node of a forest without cycles
//! exactly once, parents before their children and siblings from first to
//! last.

use crate::forest::Forest;
use crate::nested::flat;
use crate::nested::sizes;
use crate::nested::Nested;
use crate::tree::TreeView;
use vstd::prelude::*;

verus! {

impl Forest {
    /// The slots that a traversal visits which starts at `start` and steps to
    /// the next node in preorder until there is none, for no more than `fuel`
    /// steps.
    pub open spec fn walk(self, start: Option<usize>, fuel: nat) -> Seq<usize>
        decreases fuel,
    {
        if start is Some && fuel > 0 {
            seq![start.unwrap()] + self.walk(
                self.next_in_preorder(start.unwrap()),
                (fuel - 1) as nat,
            )
        } else {
            Seq::empty()
        }
    }

    /// `rank` falls from the node `n` to its first child and to its next
    /// sibling.
    pub open spec fn descent_ok(self, rank: spec_fn(usize) -> nat, n: usize) -> bool {
        let l = self.links(n);
        &&& l.first_child is Some ==> rank(l.first_child.unwrap()) < rank(n)
        &&& l.next_sibling is Some ==> rank(l.next_sibling.unwrap()) < rank(n)
    }

    /// `rank` numbers the nodes so that it falls from every node to its first
    /// child and to its next sibling. Such a numbering exists exactly where no
    /// node stands below itself.
    pub open spec fn descends(self, rank: spec_fn(usize) -> nat) -> bool {
        forall|n: usize| self.is_node(n) ==> #[trigger] self.descent_ok(rank, n)
    }

    /// The node `n` has neither parent nor previous sibling: it heads a chain
    /// of roots.
    pub open spec fn is_top(self, n: usize) -> bool {
        self.is_node(n) && self.links(n).parent is None && self.links(n).prev_sibling is None
    }

    /// The only chain of roots is the root list: no node but the first root is
    /// without parent and previous sibling.
    pub open spec fn is_rooted(self) -> bool {
        forall|n: usize| #[trigger] self.is_top(n) ==> self.first == Some(n)
    }

    /// The forest is free of cycles: no node stands below itself.
    pub open spec fn is_acyclic(self) -> bool {
        exists|rank: spec_fn(usize) -> nat| self.descends(rank)
    }

    /// The forest is well formed and free of cycles, and every node hangs off
    /// the root list.
    pub open spec fn is_proper(self) -> bool {
        &&& self.wf()
        &&& self.is_acyclic()
        &&& self.is_rooted()
    }

    /// A numbering that falls along first children and next siblings, where
    /// there is one.
    pub open spec fn some_rank(self) -> spec_fn(usize) -> nat {
        choose|rank: spec_fn(usize) -> nat| self.descends(rank)
    }

    /// The slots that hold a node.
    pub open spec fn node_set(self) -> Set<usize> {
        Set::new(|n: usize| self.is_node(n))
    }

    /// `rank` stays below `big` on the nodes.
    spec fn rank_le(self, rank: spec_fn(usize) -> nat, big: nat, n: usize) -> bool {
        rank(n) <= big
    }

    /// The links are consistent, `rank` falls along first children and next
    /// siblings, and `big` bounds it.
    spec fn graded(self, rank: spec_fn(usize) -> nat, big: nat) -> bool {
        &&& self.links_ok()
        &&& self.descends(rank)
        &&& forall|n: usize| self.is_node(n) ==> #[trigger] self.rank_le(rank, big, n)
    }

    /// A numbering of finitely many nodes has a bound.
    proof fn lemma_rank_bound(self, rank: spec_fn(usize) -> nat, count: nat) -> (big: nat)
        requires
            count <= self.nodes.len(),
        ensures
            forall|n: usize| n < count && self.is_node(n) ==> rank(n) <= big,
        decreases count,
    {
        if count == 0 {
            0
        } else {
            let below = self.lemma_rank_bound(rank, (count - 1) as nat);
            let here = rank((count - 1) as usize);
            if here > below {
                here
            } else {
                below
            }
        }
    }

    /// The node before `x` on the way to the root list: its previous sibling,
    /// or its parent where it has no previous sibling.
    spec fn before(self, x: usize) -> Option<usize> {
        if self.links(x).prev_sibling is Some {
            self.links(x).prev_sibling
        } else {
            self.links(x).parent
        }
    }

    /// The node before a node is a node, of which the first is the first child
    /// or the next sibling, and has a higher rank.
    proof fn lemma_before(self, rank: spec_fn(usize) -> nat, big: nat, x: usize)
        requires
            self.graded(rank, big),
            self.is_node(x),
            self.before(x) is Some,
        ensures
            self.is_node(self.before(x).unwrap()),
            rank(x) < rank(self.before(x).unwrap()),
            rank(self.before(x).unwrap()) <= big,
            self.links(self.before(x).unwrap()).first_child == Some(x) || self.links(
                self.before(x).unwrap(),
            ).next_sibling == Some(x),
    {
        let y = self.before(x).unwrap();
        assert(self.node_ok(x));
        assert(self.descent_ok(rank, y));
        assert(self.rank_le(rank, big, y));
    }

    /// The rank of a node is below that of its parent.
    proof fn lemma_parent_rank(self, rank: spec_fn(usize) -> nat, big: nat, x: usize)
        requires
            self.graded(rank, big),
            self.is_node(x),
            self.links(x).parent is Some,
        ensures
            self.is_node(self.links(x).parent.unwrap()),
            rank(x) < rank(self.links(x).parent.unwrap()),
            rank(self.links(x).parent.unwrap()) <= big,
        decreases big - rank(x),
    {
        assert(self.node_ok(x));
        assert(self.rank_le(rank, big, self.links(x).parent.unwrap()));
        self.lemma_before(rank, big, x);
        if self.links(x).prev_sibling is Some {
            self.lemma_parent_rank(rank, big, self.links(x).prev_sibling.unwrap());
        }
    }

    /// The preorder of the list of trees that starts at the node `i`: `i`,
    /// the nodes below it, then its later siblings, each with the nodes below.
    spec fn pre(self, rank: spec_fn(usize) -> nat, i: usize) -> Seq<usize>
        decreases rank(i),
    {
        let l = self.links(i);
        let below = if l.first_child is Some && rank(l.first_child.unwrap()) < rank(i) {
            self.pre(rank, l.first_child.unwrap())
        } else {
            Seq::empty()
        };
        let after = if l.next_sibling is Some && rank(l.next_sibling.unwrap()) < rank(i) {
            self.pre(rank, l.next_sibling.unwrap())
        } else {
            Seq::empty()
        };
        seq![i] + below + after
    }

    /// The preorder of the list of trees that starts at `j`, empty without `j`.
    spec fn pre_opt(self, rank: spec_fn(usize) -> nat, j: Option<usize>) -> Seq<usize> {
        match j {
            Some(i) => self.pre(rank, i),
            None => Seq::empty(),
        }
    }

    /// What the preorder holds after the list of trees in which `i` stands:
    /// the later siblings of its parent, then those of its grandparent, and so
    /// on, each with the nodes below.
    spec fn tail(self, rank: spec_fn(usize) -> nat, big: nat, i: usize) -> Seq<usize>
        decreases big - rank(i),
    {
        let parent = self.links(i).parent;
        if parent is Some && rank(i) < rank(parent.unwrap()) <= big {
            self.pre_opt(rank, self.links(parent.unwrap()).next_sibling) + self.tail(
                rank,
                big,
                parent.unwrap(),
            )
        } else {
            Seq::empty()
        }
    }

    /// The next sibling of the nearest ancestor of `i` that has one.
    spec fn up(self, rank: spec_fn(usize) -> nat, big: nat, i: usize) -> Option<usize>
        decreases big - rank(i),
    {
        let parent = self.links(i).parent;
        if parent is Some && rank(i) < rank(parent.unwrap()) <= big {
            if self.links(parent.unwrap()).next_sibling is Some {
                self.links(parent.unwrap()).next_sibling
            } else {
                self.up(rank, big, parent.unwrap())
            }
        } else {
            None
        }
    }

    /// The ancestors of `i`, the nearest first.
    spec fn chain(self, rank: spec_fn(usize) -> nat, big: nat, i: usize) -> Seq<usize>
        decreases big - rank(i),
    {
        let parent = self.links(i).parent;
        if parent is Some && rank(i) < rank(parent.unwrap()) <= big {
            seq![parent.unwrap()] + self.chain(rank, big, parent.unwrap())
        } else {
            Seq::empty()
        }
    }

    /// What the preorder holds from `j` on.
    spec fn rest(self, rank: spec_fn(usize) -> nat, big: nat, j: Option<usize>) -> Seq<usize> {
        match j {
            Some(i) => self.pre(rank, i) + self.tail(rank, big, i),
            None => Seq::empty(),
        }
    }

    /// The preorder from a node is the node, the preorder from its first
    /// child, and the preorder from its next sibling.
    proof fn lemma_pre_unfold(self, rank: spec_fn(usize) -> nat, big: nat, i: usize)
        requires
            self.graded(rank, big),
            self.is_node(i),
        ensures
            self.pre(rank, i) == seq![i] + self.pre_opt(rank, self.links(i).first_child)
                + self.pre_opt(rank, self.links(i).next_sibling),
            self.is_link(self.links(i).first_child),
            self.is_link(self.links(i).next_sibling),
    {
        assert(self.descent_ok(rank, i));
        assert(self.node_ok(i));
    }

    /// The ancestors of a node are nodes of higher rank.
    proof fn lemma_chain_members(self, rank: spec_fn(usize) -> nat, big: nat, i: usize, k: int)
        requires
            self.graded(rank, big),
            self.is_node(i),
            0 <= k < self.chain(rank, big, i).len(),
        ensures
            self.is_node(self.chain(rank, big, i)[k]),
            rank(i) < rank(self.chain(rank, big, i)[k]),
        decreases big - rank(i),
    {
        let parent = self.links(i).parent;
        self.lemma_parent_rank(rank, big, i);
        if k > 0 {
            self.lemma_chain_members(rank, big, parent.unwrap(), k - 1);
        }
    }

    /// No node occurs twice among the ancestors of a node.
    proof fn lemma_chain_distinct(self, rank: spec_fn(usize) -> nat, big: nat, i: usize)
        requires
            self.graded(rank, big),
            self.is_node(i),
        ensures
            self.chain(rank, big, i).no_duplicates(),
        decreases big - rank(i),
    {
        let parent = self.links(i).parent;
        if parent is Some {
            self.lemma_parent_rank(rank, big, i);
            let p = parent.unwrap();
            self.lemma_chain_distinct(rank, big, p);
            let above = self.chain(rank, big, p);
            let all = self.chain(rank, big, i);
            assert forall|a: int, b: int| 0 <= a < all.len() && 0 <= b < all.len() && a != b implies all[a]
                != all[b] by {
                if a == 0 {
                    self.lemma_chain_members(rank, big, p, b - 1);
                } else if b == 0 {
                    self.lemma_chain_members(rank, big, p, a - 1);
                } else {
                    assert(all[a] == above[a - 1]);
                    assert(all[b] == above[b - 1]);
                }
            }
        }
    }

    /// A node has fewer ancestors than the forest has slots.
    proof fn lemma_chain_short(self, rank: spec_fn(usize) -> nat, big: nat, i: usize)
        requires
            self.graded(rank, big),
            self.is_node(i),
        ensures
            self.chain(rank, big, i).len() <= self.nodes.len(),
    {
        let all = self.chain(rank, big, i);
        self.lemma_chain_distinct(rank, big, i);
        assert forall|k: int| 0 <= k < all.len() implies all[k] < self.nodes.len() by {
            self.lemma_chain_members(rank, big, i, k);
        }
        lemma_distinct_bounded(all, self.nodes.len());
    }

    /// With fuel for every ancestor, ascending finds the next sibling of the
    /// nearest ancestor that has one.
    proof fn lemma_ascend_is_up(
        self,
        rank: spec_fn(usize) -> nat,
        big: nat,
        i: usize,
        fuel: nat,
    )
        requires
            self.graded(rank, big),
            self.is_node(i),
            self.chain(rank, big, i).len() <= fuel,
        ensures
            self.ascend(i, fuel) == self.up(rank, big, i),
        decreases fuel,
    {
        let parent = self.links(i).parent;
        if parent is Some {
            self.lemma_parent_rank(rank, big, i);
            let p = parent.unwrap();
            if self.links(p).next_sibling is None {
                self.lemma_ascend_is_up(rank, big, p, (fuel - 1) as nat);
            }
        }
    }

    /// What follows the list of trees of a node starts at the next sibling of
    /// the nearest ancestor that has one.
    proof fn lemma_rest_up(self, rank: spec_fn(usize) -> nat, big: nat, i: usize)
        requires
            self.graded(rank, big),
            self.is_node(i),
        ensures
            self.rest(rank, big, self.up(rank, big, i)) == self.tail(rank, big, i),
            self.is_link(self.up(rank, big, i)),
        decreases big - rank(i),
    {
        let parent = self.links(i).parent;
        if parent is Some {
            self.lemma_parent_rank(rank, big, i);
            let p = parent.unwrap();
            assert(self.node_ok(p));
            match self.links(p).next_sibling {
                Some(s) => {
                    if self.links(s).parent is Some {
                        self.lemma_parent_rank(rank, big, s);
                        self.lemma_parent_rank(rank, big, p);
                    }
                    assert(self.tail(rank, big, s) == self.tail(rank, big, p));
                },
                None => {
                    self.lemma_rest_up(rank, big, p);
                    assert(self.tail(rank, big, i) =~= self.tail(rank, big, p));
                },
            }
        }
    }

    /// The preorder from a node on is that node and the preorder from the next
    /// node on.
    proof fn lemma_rest_step(self, rank: spec_fn(usize) -> nat, big: nat, i: usize)
        requires
            self.graded(rank, big),
            self.is_node(i),
        ensures
            self.rest(rank, big, Some(i)) == seq![i] + self.rest(
                rank,
                big,
                self.next_in_preorder(i),
            ),
            self.is_link(self.next_in_preorder(i)),
    {
        let l = self.links(i);
        self.lemma_pre_unfold(rank, big, i);
        self.lemma_next_is_link(i);
        assert(self.node_ok(i));
        if l.first_child is Some {
            let c = l.first_child.unwrap();
            self.lemma_parent_rank(rank, big, c);
            assert(self.tail(rank, big, c) == self.pre_opt(rank, l.next_sibling) + self.tail(
                rank,
                big,
                i,
            ));
            assert(self.rest(rank, big, Some(i)) =~= seq![i] + self.rest(rank, big, Some(c)));
        } else if l.next_sibling is Some {
            let s = l.next_sibling.unwrap();
            if l.parent is Some {
                self.lemma_parent_rank(rank, big, s);
                self.lemma_parent_rank(rank, big, i);
            }
            assert(self.tail(rank, big, s) == self.tail(rank, big, i));
            assert(self.rest(rank, big, Some(i)) =~= seq![i] + self.rest(rank, big, Some(s)));
        } else {
            self.lemma_chain_short(rank, big, i);
            self.lemma_ascend_is_up(rank, big, i, self.nodes.len());
            self.lemma_rest_up(rank, big, i);
            assert(self.rest(rank, big, Some(i)) =~= seq![i] + self.tail(rank, big, i));
        }
    }

    /// With fuel for every node that is left, the traversal visits the
    /// preorder from its start on.
    proof fn lemma_walk_is_rest(
        self,
        rank: spec_fn(usize) -> nat,
        big: nat,
        start: Option<usize>,
        fuel: nat,
    )
        requires
            self.graded(rank, big),
            self.is_link(start),
            self.rest(rank, big, start).len() <= fuel,
        ensures
            self.walk(start, fuel) == self.rest(rank, big, start),
        decreases fuel,
    {
        if start is Some {
            let i = start.unwrap();
            self.lemma_rest_step(rank, big, i);
            self.lemma_walk_is_rest(rank, big, self.next_in_preorder(i), (fuel - 1) as nat);
        }
    }

    /// Every member of the preorder from a node is a node of no higher rank.
    proof fn lemma_pre_members(self, rank: spec_fn(usize) -> nat, big: nat, i: usize, k: int)
        requires
            self.graded(rank, big),
            self.is_node(i),
            0 <= k < self.pre(rank, i).len(),
        ensures
            self.is_node(self.pre(rank, i)[k]),
            rank(self.pre(rank, i)[k]) <= rank(i),
            k > 0 ==> rank(self.pre(rank, i)[k]) < rank(i),
            k == 0 ==> self.pre(rank, i)[k] == i,
        decreases rank(i),
    {
        let l = self.links(i);
        self.lemma_pre_unfold(rank, big, i);
        assert(self.descent_ok(rank, i));
        let below = self.pre_opt(rank, l.first_child);
        let after = self.pre_opt(rank, l.next_sibling);
        if k > 0 {
            if k - 1 < below.len() {
                self.lemma_pre_members(rank, big, l.first_child.unwrap(), k - 1);
            } else {
                self.lemma_pre_members(rank, big, l.next_sibling.unwrap(), k - 1 - below.len());
            }
        }
    }

    /// `x` leads to `j` in `steps` steps, each to the node before.
    spec fn climbs(self, x: usize, j: usize, steps: nat) -> bool
        decreases steps,
    {
        if steps == 0 {
            x == j
        } else {
            self.before(x) is Some && self.climbs(self.before(x).unwrap(), j, (steps - 1) as nat)
        }
    }

    /// A way that leads to the node before `j` leads on to `j`.
    proof fn lemma_climbs_on(self, x: usize, y: usize, j: usize, steps: nat)
        requires
            self.climbs(x, y, steps),
            self.before(y) == Some(j),
        ensures
            self.climbs(x, j, steps + 1),
        decreases steps,
    {
        if steps > 0 {
            self.lemma_climbs_on(self.before(x).unwrap(), y, j, (steps - 1) as nat);
            assert(self.climbs(self.before(x).unwrap(), j, ((steps + 1) - 1) as nat));
        } else {
            assert(self.climbs(j, j, 0));
            assert(self.climbs(self.before(x).unwrap(), j, ((steps + 1) - 1) as nat));
        }
    }

    /// The rank grows with every step to the node before.
    proof fn lemma_climbs_rank(
        self,
        rank: spec_fn(usize) -> nat,
        big: nat,
        x: usize,
        j: usize,
        steps: nat,
    )
        requires
            self.graded(rank, big),
            self.is_node(x),
            self.climbs(x, j, steps),
        ensures
            rank(x) + steps <= rank(j),
        decreases steps,
    {
        if steps > 0 {
            self.lemma_before(rank, big, x);
            self.lemma_climbs_rank(rank, big, self.before(x).unwrap(), j, (steps - 1) as nat);
        }
    }

    /// Of two ways from one node, the longer passes through the end of the
    /// shorter.
    proof fn lemma_climbs_split(self, x: usize, a: usize, n: nat, b: usize, m: nat)
        requires
            self.climbs(x, a, n),
            self.climbs(x, b, m),
            n <= m,
        ensures
            self.climbs(a, b, (m - n) as nat),
        decreases n,
    {
        if n > 0 {
            self.lemma_climbs_split(
                self.before(x).unwrap(),
                a,
                (n - 1) as nat,
                b,
                (m - 1) as nat,
            );
        }
    }

    /// Every member of the preorder from a node leads to that node.
    proof fn lemma_pre_climbs(
        self,
        rank: spec_fn(usize) -> nat,
        big: nat,
        i: usize,
        k: int,
    ) -> (steps: nat)
        requires
            self.graded(rank, big),
            self.is_node(i),
            0 <= k < self.pre(rank, i).len(),
        ensures
            self.climbs(self.pre(rank, i)[k], i, steps),
        decreases rank(i),
    {
        let l = self.links(i);
        self.lemma_pre_unfold(rank, big, i);
        assert(self.descent_ok(rank, i));
        assert(self.node_ok(i));
        let below = self.pre_opt(rank, l.first_child);
        if k == 0 {
            0
        } else if k - 1 < below.len() {
            let c = l.first_child.unwrap();
            let steps = self.lemma_pre_climbs(rank, big, c, k - 1);
            self.lemma_climbs_on(self.pre(rank, i)[k], c, i, steps);
            steps + 1
        } else {
            let s = l.next_sibling.unwrap();
            let steps = self.lemma_pre_climbs(rank, big, s, k - 1 - below.len());
            self.lemma_climbs_on(self.pre(rank, i)[k], s, i, steps);
            steps + 1
        }
    }

    /// No node is both in the preorder from the first child of a node and in
    /// the preorder from its next sibling.
    proof fn lemma_pre_apart(
        self,
        rank: spec_fn(usize) -> nat,
        big: nat,
        i: usize,
        a: int,
        b: int,
    )
        requires
            self.graded(rank, big),
            self.is_node(i),
            0 <= a < self.pre_opt(rank, self.links(i).first_child).len(),
            0 <= b < self.pre_opt(rank, self.links(i).next_sibling).len(),
        ensures
            self.pre_opt(rank, self.links(i).first_child)[a] != self.pre_opt(
                rank,
                self.links(i).next_sibling,
            )[b],
    {
        let c = self.links(i).first_child.unwrap();
        let s = self.links(i).next_sibling.unwrap();
        let x = self.pre(rank, c)[a];
        assert(self.node_ok(i));
        assert(self.descent_ok(rank, i));
        if x == self.pre(rank, s)[b] {
            let n = self.lemma_pre_climbs(rank, big, c, a);
            let m = self.lemma_pre_climbs(rank, big, s, b);
            self.lemma_pre_members(rank, big, c, a);
            if n <= m {
                self.lemma_climbs_split(x, c, n, s, m);
                if m > n {
                    self.lemma_climbs_rank(rank, big, i, s, (m - n - 1) as nat);
                }
            } else {
                self.lemma_climbs_split(x, s, m, c, n);
                self.lemma_climbs_rank(rank, big, i, c, (n - m - 1) as nat);
            }
        }
    }

    /// No node occurs twice in the preorder from a node.
    proof fn lemma_pre_distinct(self, rank: spec_fn(usize) -> nat, big: nat, i: usize)
        requires
            self.graded(rank, big),
            self.is_node(i),
        ensures
            self.pre(rank, i).no_duplicates(),
        decreases rank(i),
    {
        let l = self.links(i);
        self.lemma_pre_unfold(rank, big, i);
        assert(self.descent_ok(rank, i));
        let below = self.pre_opt(rank, l.first_child);
        let after = self.pre_opt(rank, l.next_sibling);
        let all = self.pre(rank, i);
        if l.first_child is Some {
            self.lemma_pre_distinct(rank, big, l.first_child.unwrap());
        }
        if l.next_sibling is Some {
            self.lemma_pre_distinct(rank, big, l.next_sibling.unwrap());
        }
        assert forall|a: int, b: int| 0 <= a < b < all.len() implies all[a] != all[b] by {
            self.lemma_pre_members(rank, big, i, b);
            if a == 0 {
            } else if b - 1 < below.len() {
                assert(all[a] == below[a - 1]);
                assert(all[b] == below[b - 1]);
            } else if a - 1 < below.len() {
                assert(all[a] == below[a - 1]);
                assert(all[b] == after[b - 1 - below.len()]);
                self.lemma_pre_apart(rank, big, i, a - 1, b - 1 - below.len());
            } else {
                assert(all[a] == after[a - 1 - below.len()]);
                assert(all[b] == after[b - 1 - below.len()]);
            }
        }
    }

    /// The preorder from a node holds, with each of its members, the first
    /// child and the next sibling of that member.
    proof fn lemma_pre_closed(
        self,
        rank: spec_fn(usize) -> nat,
        big: nat,
        j: usize,
        y: usize,
        x: usize,
    )
        requires
            self.graded(rank, big),
            self.is_node(j),
            self.pre(rank, j).contains(y),
            self.links(y).first_child == Some(x) || self.links(y).next_sibling == Some(x),
        ensures
            self.pre(rank, j).contains(x),
        decreases rank(j),
    {
        let l = self.links(j);
        self.lemma_pre_unfold(rank, big, j);
        assert(self.descent_ok(rank, j));
        let below = self.pre_opt(rank, l.first_child);
        let after = self.pre_opt(rank, l.next_sibling);
        let all = self.pre(rank, j);
        let k = choose|k: int| 0 <= k < all.len() && all[k] == y;
        if k == 0 {
            if self.links(y).first_child == Some(x) {
                self.lemma_pre_members(rank, big, x, 0);
                assert(below[0] == x);
                assert(all[1] == x);
            } else {
                self.lemma_pre_members(rank, big, x, 0);
                assert(after[0] == x);
                assert(all[below.len() as int + 1] == x);
            }
        } else if k - 1 < below.len() {
            assert(below[k - 1] == y);
            self.lemma_pre_closed(rank, big, l.first_child.unwrap(), y, x);
            let m = choose|m: int| 0 <= m < below.len() && below[m] == x;
            assert(all[m + 1] == x);
        } else {
            assert(after[k - 1 - below.len()] == y);
            self.lemma_pre_closed(rank, big, l.next_sibling.unwrap(), y, x);
            let m = choose|m: int| 0 <= m < after.len() && after[m] == x;
            assert(all[m + 1 + below.len()] == x);
        }
    }

    /// In a rooted forest the preorder from the first root holds
    /// every node.
    proof fn lemma_pre_complete(self, rank: spec_fn(usize) -> nat, big: nat, x: usize)
        requires
            self.graded(rank, big),
            self.is_rooted(),
            self.first is Some,
            self.is_node(self.first.unwrap()),
            self.is_node(x),
        ensures
            self.pre(rank, self.first.unwrap()).contains(x),
        decreases big - rank(x),
    {
        let first = self.first.unwrap();
        assert(self.node_ok(x));
        if self.before(x) is Some {
            let y = self.before(x).unwrap();
            self.lemma_before(rank, big, x);
            self.lemma_pre_complete(rank, big, y);
            self.lemma_pre_closed(rank, big, first, y, x);
        } else {
            assert(self.is_top(x));
            self.lemma_pre_members(rank, big, first, 0);
            assert(self.pre(rank, first)[0] == x);
        }
    }

    /// In the preorder from a node, each member comes before its first child
    /// and before its next sibling.
    proof fn lemma_pre_order(
        self,
        rank: spec_fn(usize) -> nat,
        big: nat,
        j: usize,
        a: int,
        b: int,
    )
        requires
            self.graded(rank, big),
            self.is_node(j),
            0 <= a < self.pre(rank, j).len(),
            0 <= b < self.pre(rank, j).len(),
            self.links(self.pre(rank, j)[a]).first_child == Some(self.pre(rank, j)[b])
                || self.links(self.pre(rank, j)[a]).next_sibling == Some(self.pre(rank, j)[b]),
        ensures
            a < b,
        decreases rank(j),
    {
        let l = self.links(j);
        self.lemma_pre_unfold(rank, big, j);
        self.lemma_pre_distinct(rank, big, j);
        let below = self.pre_opt(rank, l.first_child);
        let after = self.pre_opt(rank, l.next_sibling);
        let all = self.pre(rank, j);
        let y = all[a];
        let x = all[b];
        self.lemma_pre_members(rank, big, j, a);
        assert(self.descent_ok(rank, y));
        if a == 0 {
        } else if a - 1 < below.len() {
            let c = l.first_child.unwrap();
            assert(below[a - 1] == y);
            self.lemma_pre_closed(rank, big, c, y, x);
            let m = choose|m: int| 0 <= m < below.len() && below[m] == x;
            assert(all[m + 1] == x);
            self.lemma_pre_order(rank, big, c, a - 1, m);
        } else {
            let s = l.next_sibling.unwrap();
            assert(after[a - 1 - below.len()] == y);
            self.lemma_pre_closed(rank, big, s, y, x);
            let m = choose|m: int| 0 <= m < after.len() && after[m] == x;
            assert(all[m + 1 + below.len()] == x);
            self.lemma_pre_order(rank, big, s, a - 1 - below.len(), m);
        }
    }

    /// In the preorder from the first root of a rooted forest, each
    /// node comes after its parent.
    proof fn lemma_pre_parent_first(
        self,
        rank: spec_fn(usize) -> nat,
        big: nat,
        a: int,
        b: int,
    )
        requires
            self.graded(rank, big),
            self.is_rooted(),
            self.first is Some,
            self.is_node(self.first.unwrap()),
            0 <= a < self.pre(rank, self.first.unwrap()).len(),
            0 <= b < self.pre(rank, self.first.unwrap()).len(),
            self.links(self.pre(rank, self.first.unwrap())[b]).parent == Some(
                self.pre(rank, self.first.unwrap())[a],
            ),
        ensures
            a < b,
        decreases big - rank(self.pre(rank, self.first.unwrap())[b]),
    {
        let first = self.first.unwrap();
        let all = self.pre(rank, first);
        let c = all[b];
        self.lemma_pre_members(rank, big, first, b);
        self.lemma_pre_distinct(rank, big, first);
        assert(self.node_ok(c));
        let y = self.before(c).unwrap();
        self.lemma_before(rank, big, c);
        self.lemma_pre_complete(rank, big, y);
        let q = choose|q: int| 0 <= q < all.len() && all[q] == y;
        self.lemma_pre_order(rank, big, first, q, b);
        if self.links(c).prev_sibling is Some {
            self.lemma_pre_parent_first(rank, big, a, q);
        }
    }

    /// A forest with a node has a node without parent and previous sibling.
    proof fn lemma_has_top(self, rank: spec_fn(usize) -> nat, big: nat, x: usize) -> (top: usize)
        requires
            self.graded(rank, big),
            self.is_node(x),
        ensures
            self.is_top(top),
        decreases big - rank(x),
    {
        assert(self.node_ok(x));
        if self.before(x) is Some {
            self.lemma_before(rank, big, x);
            self.lemma_has_top(rank, big, self.before(x).unwrap())
        } else {
            x
        }
    }

    /// In a forest without cycles the numbering `some_rank` falls along first
    /// children and next siblings, below some bound.
    proof fn lemma_graded(self) -> (big: nat)
        requires
            self.links_ok(),
            self.is_acyclic(),
        ensures
            self.graded(self.some_rank(), big),
    {
        let rank = self.some_rank();
        let big = self.lemma_rank_bound(rank, self.nodes.len());
        assert forall|n: usize| self.is_node(n) implies #[trigger] self.rank_le(rank, big, n) by {}
        big
    }

    /// The traversal from the first root visits the preorder of
    /// the root list.
    proof fn lemma_walk_is_pre(self, rank: spec_fn(usize) -> nat, big: nat)
        requires
            self.graded(rank, big),
            self.ends_ok(),
        ensures
            self.walk(self.first, self.nodes.len()) == self.pre_opt(rank, self.first),
    {
        self.lemma_ends();
        if self.first is Some {
            let first = self.first.unwrap();
            let all = self.pre(rank, first);
            self.lemma_pre_distinct(rank, big, first);
            assert forall|k: int| 0 <= k < all.len() implies all[k] < self.nodes.len() by {
                self.lemma_pre_members(rank, big, first, k);
            }
            lemma_distinct_bounded(all, self.nodes.len());
            assert(self.rest(rank, big, self.first) =~= all);
            self.lemma_walk_is_rest(rank, big, self.first, self.nodes.len());
        }
    }

    /// The nested form of a chain of siblings has as many nodes as the
    /// preorder from the head of that chain.
    proof fn lemma_nested_size<T>(
        self,
        rank: spec_fn(usize) -> nat,
        big: nat,
        view: TreeView<T>,
        items: Seq<Nested<&T>>,
        start: Option<usize>,
    )
        requires
            self.graded(rank, big),
            view.shape == self,
            self.is_link(start),
            view.nests(items, start),
        ensures
            sizes(items) == self.pre_opt(rank, start).len(),
        decreases items,
    {
        if items.len() > 0 {
            let i = start.unwrap();
            self.lemma_pre_unfold(rank, big, i);
            self.lemma_nested_size(rank, big, view, items[0].children@, self.links(i).first_child);
            self.lemma_nested_size(rank, big, view, items.drop_first(), self.links(i).next_sibling);
            assert(items[0].size() == 1 + sizes(items[0].children@));
            assert(sizes(items) == items[0].size() + sizes(items.drop_first()));
        }
    }

    /// The values in the nested form of a chain of siblings, read depth first,
    /// are the values of the nodes in the preorder from the head of that
    /// chain.
    proof fn lemma_nested_flat<T>(
        self,
        rank: spec_fn(usize) -> nat,
        big: nat,
        view: TreeView<T>,
        items: Seq<Nested<&T>>,
        start: Option<usize>,
    )
        requires
            self.graded(rank, big),
            view.shape == self,
            self.is_link(start),
            view.nests(items, start),
        ensures
            view.reads_as(flat(items), self.pre_opt(rank, start)),
        decreases items,
    {
        if items.len() > 0 {
            let i = start.unwrap();
            let l = self.links(i);
            self.lemma_pre_unfold(rank, big, i);
            self.lemma_nested_flat(rank, big, view, items[0].children@, l.first_child);
            self.lemma_nested_flat(rank, big, view, items.drop_first(), l.next_sibling);
            let below = flat(items[0].children@);
            let after = flat(items.drop_first());
            let all = flat(items);
            let slots = self.pre_opt(rank, start);
            let slots_below = self.pre_opt(rank, l.first_child);
            let slots_after = self.pre_opt(rank, l.next_sibling);
            assert(all == seq![items[0].value] + below + after);
            assert forall|k: int| 0 <= k < all.len() implies *(#[trigger] all[k]) == view.value(
                slots[k],
            ) by {
                if k == 0 {
                } else if k - 1 < below.len() {
                    assert(all[k] == below[k - 1]);
                    assert(slots[k] == slots_below[k - 1]);
                } else {
                    assert(all[k] == after[k - 1 - below.len()]);
                    assert(slots[k] == slots_after[k - 1 - below.len()]);
                }
            }
        }
    }

    /// The values in the nested form of a forest without cycles, read depth
    /// first, are the values that the traversal from the first root visits,
    /// in the same order.
    pub proof fn lemma_nested_reads_as_walk<T>(
        self,
        view: TreeView<T>,
        items: Seq<Nested<&T>>,
    )
        requires
            self.wf(),
            self.is_acyclic(),
            view.shape == self,
            view.nests(items, self.first),
        ensures
            view.reads_as(flat(items), self.walk(self.first, self.nodes.len())),
    {
        let rank = self.some_rank();
        let big = self.lemma_graded();
        self.lemma_ends();
        self.lemma_walk_is_pre(rank, big);
        self.lemma_nested_flat(rank, big, view, items, self.first);
    }

    /// The nested form of a forest without cycles, all of whose nodes hang off
    /// the root list, holds as many nodes, counted depth first, as the forest
    /// has.
    pub proof fn lemma_nested_counts_nodes<T>(self, view: TreeView<T>, items: Seq<Nested<&T>>)
        requires
            self.is_proper(),
            view.shape == self,
            view.nests(items, self.first),
        ensures
            self.node_set().finite(),
            sizes(items) == self.node_set().len(),
    {
        let rank = self.some_rank();
        let big = self.lemma_graded();
        self.lemma_ends();
        self.lemma_walk_is_pre(rank, big);
        self.lemma_nested_size(rank, big, view, items, self.first);
        self.lemma_preorder_complete();
    }

    /// The traversal of a forest without cycles, all of whose nodes hang off
    /// the root list, is complete: it visits every node exactly once
    /// and nothing else, so as many slots as there are nodes; it visits each
    /// node after its parent and after its previous sibling.
    pub proof fn lemma_preorder_complete(self)
        requires
            self.is_proper(),
        ensures
            self.walk(self.first, self.nodes.len()).no_duplicates(),
            self.walk(self.first, self.nodes.len()).to_set() == self.node_set(),
            self.node_set().finite(),
            self.walk(self.first, self.nodes.len()).len() == self.node_set().len(),
            forall|a: int, b: int|
                #![trigger self.walk(self.first, self.nodes.len())[a], self.walk(self.first, self.nodes.len())[b]]
                0 <= a < self.walk(self.first, self.nodes.len()).len() && 0 <= b < self.walk(
                    self.first,
                    self.nodes.len(),
                ).len() && (self.links(self.walk(self.first, self.nodes.len())[b]).parent == Some(
                    self.walk(self.first, self.nodes.len())[a],
                ) || self.links(self.walk(self.first, self.nodes.len())[b]).prev_sibling == Some(
                    self.walk(self.first, self.nodes.len())[a],
                )) ==> a < b,
    {
        let rank = self.some_rank();
        let big = self.lemma_graded();
        self.lemma_ends();
        self.lemma_walk_is_pre(rank, big);
        let w = self.walk(self.first, self.nodes.len());
        if self.first is Some {
            let first = self.first.unwrap();
            let all = self.pre(rank, first);
            self.lemma_pre_distinct(rank, big, first);
            assert forall|x: usize| w.to_set().contains(x) == self.node_set().contains(x) by {
                if w.contains(x) {
                    let k = choose|k: int| 0 <= k < all.len() && all[k] == x;
                    self.lemma_pre_members(rank, big, first, k);
                }
                if self.is_node(x) {
                    self.lemma_pre_complete(rank, big, x);
                }
            }
            assert forall|a: int, b: int|
                0 <= a < w.len() && 0 <= b < w.len() && (self.links(w[b]).parent == Some(w[a])
                    || self.links(w[b]).prev_sibling == Some(w[a])) implies a < b by {
                self.lemma_pre_members(rank, big, first, b);
                assert(self.node_ok(w[b]));
                if self.links(w[b]).prev_sibling == Some(w[a]) {
                    self.lemma_pre_order(rank, big, first, a, b);
                } else {
                    self.lemma_pre_parent_first(rank, big, a, b);
                }
            }
        } else {
            assert forall|x: usize| w.to_set().contains(x) == self.node_set().contains(x) by {
                if self.is_node(x) {
                    let top = self.lemma_has_top(rank, big, x);
                }
            }
        }
        assert(w.to_set() =~= self.node_set());
        w.unique_seq_to_set();
        vstd::seq_lib::seq_to_set_is_finite(w);
    }

    /// A forest without nodes is proper.
    pub proof fn lemma_empty_is_proper(self)
        requires
            self.nodes.len() == 0,
            self.first is None,
            self.last is None,
        ensures
            self.is_proper(),
    {
        let rank = |x: usize| 0nat;
        assert(self.ranked(rank));
        assert(self.descends(rank));
        let none = |x: usize| false;
        assert(self.root_list(none));
    }

    /// A proper forest without roots stays proper when a first root is added.
    pub proof fn lemma_push_root_proper(self, n: usize)
        requires
            self.is_proper(),
            self.last is None,
            !self.is_node(n),
            n <= self.nodes.len(),
        ensures
            self.push_root(n).is_proper(),
    {
        let after = self.push_root(n);
        let grown = self.with_node(n);
        self.lemma_push_root(n);
        self.lemma_with_node(n);
        grown.lemma_with_ends(Some(n), Some(n));
        let rank = choose|rank: spec_fn(usize) -> nat| self.descends(rank);
        assert forall|x: usize| after.is_node(x) implies #[trigger] after.descent_ok(rank, x) by {
            assert(after.links(x) == grown.links(x));
            if x != n {
                assert(self.descent_ok(rank, x));
            }
        }
        assert(after.descends(rank));
        assert forall|x: usize| #[trigger] after.is_top(x) implies after.first == Some(x) by {
            assert(after.links(x) == grown.links(x));
            if x != n {
                assert(self.is_top(x));
            }
        }
    }

    /// A proper forest stays proper when a new last child is appended to one
    /// of its nodes.
    pub proof fn lemma_append_child_to_proper(self, p: usize, n: usize)
        requires
            self.is_proper(),
            self.is_node(p),
            !self.is_node(n),
            n <= self.nodes.len(),
        ensures
            self.append_child_to(p, n).is_proper(),
    {
        let after = self.append_child_to(p, n);
        let grown = self.with_node(n);
        let prev = grown.links(p).last_child;
        let related = grown.relate(n, Some(p), prev, None);
        self.lemma_append_child_to(p, n);
        self.lemma_with_node(n);
        grown.lemma_relate(n, Some(p), prev, None);
        related.lemma_with_ends(after.first, after.last);
        let rank = choose|rank: spec_fn(usize) -> nat| self.descends(rank);
        let lifted = |x: usize|
            if x == n {
                0nat
            } else {
                rank(x) + 1
            };
        assert forall|x: usize| after.is_node(x) implies #[trigger] after.descent_ok(lifted, x) by {
            assert(after.links(x) == related.links(x));
            assert(grown.node_ok(x));
            if x != n {
                assert(self.descent_ok(rank, x));
            }
        }
        assert(after.descends(lifted));
        assert forall|x: usize| #[trigger] after.is_top(x) implies after.first == Some(x) by {
            assert(after.links(x) == related.links(x));
            if x != n {
                assert(self.is_top(x));
            }
        }
    }

    /// A proper forest stays proper when a new next sibling is inserted after
    /// one of its nodes.
    pub proof fn lemma_insert_sibling_after_proper(self, s: usize, n: usize)
        requires
            self.is_proper(),
            self.is_node(s),
            !self.is_node(n),
            n <= self.nodes.len(),
        ensures
            self.insert_sibling_after(s, n).is_proper(),
    {
        let after = self.insert_sibling_after(s, n);
        let grown = self.with_node(n);
        let l = grown.links(s);
        let related = grown.relate(n, l.parent, Some(s), l.next_sibling);
        self.lemma_insert_sibling_after(s, n);
        self.lemma_with_node(n);
        grown.lemma_relate(n, l.parent, Some(s), l.next_sibling);
        related.lemma_with_ends(after.first, after.last);
        let rank = choose|rank: spec_fn(usize) -> nat| self.descends(rank);
        let spread = |x: usize|
            if x == n {
                2 * rank(s) + 1
            } else {
                2 * rank(x) + 2
            };
        assert(self.descent_ok(rank, s));
        assert forall|x: usize| after.is_node(x) implies #[trigger] after.descent_ok(spread, x) by {
            assert(after.links(x) == related.links(x));
            assert(grown.node_ok(x));
            if x != n {
                assert(self.descent_ok(rank, x));
            }
        }
        assert(after.descends(spread));
        assert forall|x: usize| #[trigger] after.is_top(x) implies after.first == Some(x) by {
            assert(after.links(x) == related.links(x));
            if x != n {
                assert(self.is_top(x));
            }
        }
    }

    /// A proper forest stays proper when a node without children is removed.
    pub proof fn lemma_remove_proper(self, n: usize)
        requires
            self.is_proper(),
            self.is_leaf(n),
        ensures
            self.remove(n).is_proper(),
    {
        let after = self.remove(n);
        let l = self.links(n);
        self.lemma_remove(n);
        let rank = self.some_rank();
        assert(self.node_ok(n));
        assert(self.descent_ok(rank, n));
        assert forall|x: usize| after.is_node(x) implies #[trigger] after.descent_ok(rank, x) by {
            assert(after.links(x) == self.detached_links(n, x));
            assert(self.descent_ok(rank, x));
        }
        assert(after.descends(rank));
        assert forall|x: usize| #[trigger] after.is_top(x) implies after.first == Some(x) by {
            assert(after.links(x) == self.detached_links(n, x));
            assert(self.node_ok(x));
            if l.next_sibling == Some(x) {
                assert(self.is_top(n));
            } else {
                assert(self.is_top(x));
            }
        }
    }

    /// A proper forest stays proper when a node is appended below its last
    /// root.
    pub proof fn lemma_append_child_proper(self, n: usize)
        requires
            self.is_proper(),
            !self.is_node(n),
            n <= self.nodes.len(),
        ensures
            self.append_child(n).is_proper(),
    {
        self.lemma_ends();
        match self.last {
            Some(root) => self.lemma_append_child_to_proper(root, n),
            None => self.lemma_push_root_proper(n),
        }
    }

    /// A proper forest stays proper when a node is appended after its last
    /// root.
    pub proof fn lemma_append_sibling_proper(self, n: usize)
        requires
            self.is_proper(),
            !self.is_node(n),
            n <= self.nodes.len(),
        ensures
            self.append_sibling(n).is_proper(),
    {
        self.lemma_ends();
        match self.last {
            Some(root) => self.lemma_insert_sibling_after_proper(root, n),
            None => self.lemma_push_root_proper(n),
        }
    }

    /// The node reached from `x` by going to the parent `steps` times.
    pub open spec fn ancestor(self, x: usize, steps: nat) -> Option<usize>
        decreases steps,
    {
        if steps == 0 {
            Some(x)
        } else {
            match self.links(x).parent {
                Some(parent) => self.ancestor(parent, (steps - 1) as nat),
                None => None,
            }
        }
    }

    /// The node `x` is `c` or stands below `c`: going from parent to parent
    /// from `x` leads to `c`.
    pub open spec fn is_below(self, x: usize, c: usize) -> bool {
        exists|steps: nat| #[trigger] self.ancestor(x, steps) == Some(c)
    }

    /// Every node without parent and previous sibling is the first root or
    /// `c`.
    pub open spec fn hangs_but(self, c: usize) -> bool {
        forall|x: usize| #[trigger] self.is_top(x) ==> self.first == Some(x) || x == c
    }

    /// The forest is proper but for the node `c`, which is a tree of its own
    /// off the root list: it is well formed and free of cycles, `c` has
    /// neither parent nor siblings, and every other node hangs off the root
    /// list.
    pub open spec fn is_proper_but(self, c: usize) -> bool {
        &&& self.wf()
        &&& self.is_acyclic()
        &&& self.is_node(c)
        &&& self.links(c).is_detached()
        &&& self.first != Some(c)
        &&& self.hangs_but(c)
    }

    /// A node other than `c` stands below `c` just when its parent is `c` or
    /// stands below `c`.
    pub proof fn lemma_below_step(self, x: usize, c: usize)
        requires
            x != c,
        ensures
            self.is_below(x, c) <==> (self.links(x).parent is Some && self.is_below(
                self.links(x).parent.unwrap(),
                c,
            )),
    {
        if self.is_below(x, c) {
            let steps = choose|steps: nat| #[trigger] self.ancestor(x, steps) == Some(c);
            assert(steps > 0);
            assert(self.ancestor(self.links(x).parent.unwrap(), (steps - 1) as nat) == Some(c));
        }
        if self.links(x).parent is Some && self.is_below(self.links(x).parent.unwrap(), c) {
            let parent = self.links(x).parent.unwrap();
            let steps = choose|steps: nat| #[trigger] self.ancestor(parent, steps) == Some(c);
            assert(self.ancestor(x, steps + 1) == self.ancestor(parent, steps));
        }
    }

    /// Detaching a node changes nothing in which nodes stand below it.
    pub proof fn lemma_below_detached(self, x: usize, c: usize, steps: nat)
        requires
            self.wf(),
            self.is_node(c),
            self.is_node(x),
            self.detach(c).ancestor(x, steps) == Some(c),
        ensures
            self.is_below(x, c),
        decreases steps,
    {
        if x == c {
            assert(self.ancestor(x, 0) == Some(c));
        } else {
            self.lemma_detach_links(c);
            let parent = self.detach(c).links(x).parent;
            assert(self.detach(c).links(x) == self.detached_links(c, x));
            assert(parent == self.links(x).parent);
            assert(self.node_ok(x));
            self.lemma_below_detached(parent.unwrap(), c, (steps - 1) as nat);
            self.lemma_below_step(x, c);
        }
    }

    /// Detaching a node from a forest that is proper, or proper but for that
    /// node, leaves the forest proper but for that node.
    pub proof fn lemma_detach_proper_but(self, c: usize)
        requires
            self.is_node(c),
            self.is_proper() || self.is_proper_but(c),
        ensures
            self.detach(c).is_proper_but(c),
    {
        let after = self.detach(c);
        let l = self.links(c);
        self.lemma_detach(c);
        let rank = self.some_rank();
        assert(self.node_ok(c));
        assert(self.descent_ok(rank, c));
        assert forall|x: usize| after.is_node(x) implies #[trigger] after.descent_ok(rank, x) by {
            assert(after.links(x) == self.detached_links(c, x));
            assert(self.descent_ok(rank, x));
        }
        assert(after.descends(rank));
        assert forall|x: usize| #[trigger] after.is_top(x) implies after.first == Some(x) || x
            == c by {
            if x != c {
                assert(after.links(x) == self.detached_links(c, x));
                assert(self.node_ok(x));
                if l.next_sibling == Some(x) {
                    assert(self.is_top(c));
                } else {
                    assert(self.is_top(x));
                }
            }
        }
    }

    /// Placing a node keeps a forest free of cycles, unless the node is placed
    /// below itself.
    pub proof fn lemma_relate_acyclic(
        self,
        n: usize,
        parent: Option<usize>,
        prev: Option<usize>,
        next: Option<usize>,
    )
        requires
            self.links_ok(),
            self.is_acyclic(),
            self.can_relate(n, parent, prev, next),
            parent is Some ==> !self.is_below(parent.unwrap(), n),
        ensures
            self.relate(n, parent, prev, next).is_acyclic(),
    {
        let after = self.relate(n, parent, prev, next);
        let rank = self.some_rank();
        let big = self.lemma_rank_bound(rank, self.nodes.len());
        let spread = |x: usize|
            if x == n {
                if next is Some {
                    2 * rank(next.unwrap()) + 2 * big + 5
                } else {
                    2 * big + 3
                }
            } else if self.is_below(x, n) {
                rank(x)
            } else {
                2 * rank(x) + 2 * big + 4
            };
        self.lemma_relate_links(n, parent, prev, next);
        assert(self.node_ok(n));
        assert(self.ancestor(n, 0) == Some(n));
        if prev is Some {
            assert(self.node_ok(prev.unwrap()));
            assert(self.descent_ok(rank, prev.unwrap()));
            self.lemma_below_step(prev.unwrap(), n);
        }
        if next is Some {
            assert(self.node_ok(next.unwrap()));
            self.lemma_below_step(next.unwrap(), n);
        }
        if parent is Some {
            assert(self.node_ok(parent.unwrap()));
            assert(self.descent_ok(rank, parent.unwrap()));
        }
        assert forall|x: usize| after.is_node(x) implies #[trigger] after.descent_ok(spread, x) by {
            let l = self.links(x);
            assert(after.links(x) == self.related_links(n, parent, prev, next, x));
            assert(self.node_ok(x));
            assert(self.descent_ok(rank, x));
            if l.first_child is Some {
                let y = l.first_child.unwrap();
                assert(self.node_ok(y));
                if y != n {
                    self.lemma_below_step(y, n);
                }
            }
            if l.next_sibling is Some {
                let y = l.next_sibling.unwrap();
                assert(self.node_ok(y));
                if y != n {
                    self.lemma_below_step(y, n);
                }
                if x != n {
                    self.lemma_below_step(x, n);
                }
            }
        }
        assert(after.descends(spread));
    }

    /// Placing the one node that stands apart, anywhere but below itself,
    /// makes a forest proper.
    pub proof fn lemma_place_proper(
        self,
        n: usize,
        parent: Option<usize>,
        prev: Option<usize>,
        next: Option<usize>,
        first: Option<usize>,
        last: Option<usize>,
    )
        requires
            self.is_proper_but(n),
            self.can_relate(n, parent, prev, next),
            parent is Some || prev is Some || next is Some,
            parent is Some ==> !self.is_below(parent.unwrap(), n),
            (first, last) == self.placed_ends(n, parent, prev, next),
        ensures
            self.relate(n, parent, prev, next).with_ends(first, last).is_proper(),
    {
        let related = self.relate(n, parent, prev, next);
        let after = related.with_ends(first, last);
        self.lemma_place(n, parent, prev, next, first, last);
        self.lemma_relate_acyclic(n, parent, prev, next);
        let rank = related.some_rank();
        assert forall|x: usize| after.is_node(x) implies #[trigger] after.descent_ok(rank, x) by {
            assert(related.is_node(x) == after.is_node(x));
            assert(after.links(x) == related.links(x));
            assert(related.descent_ok(rank, x));
        }
        assert(after.descends(rank));
        self.lemma_ends();
        if next is Some {
            assert(self.node_ok(next.unwrap()));
        }
        assert forall|x: usize| #[trigger] after.is_top(x) implies after.first == Some(x) by {
            assert(after.links(x) == self.related_links(n, parent, prev, next, x));
            if x == n {
                assert(self.is_top(next.unwrap()));
            } else {
                assert(self.is_top(x));
            }
        }
    }

    /// A node does not stand below `c` in the forest from which `c` has been
    /// detached unless it stood below `c` before.
    pub proof fn lemma_not_below_detached(self, x: usize, c: usize)
        requires
            self.wf(),
            self.is_node(c),
            self.is_node(x),
            !self.is_below(x, c),
        ensures
            !self.detach(c).is_below(x, c),
    {
        if self.detach(c).is_below(x, c) {
            let steps = choose|steps: nat| #[trigger]
                self.detach(c).ancestor(x, steps) == Some(c);
            self.lemma_below_detached(x, c, steps);
        }
    }

    /// A proper forest with a new node that is related to no other is proper
    /// but for that node.
    pub proof fn lemma_with_node_proper_but(self, n: usize)
        requires
            self.is_proper(),
            !self.is_node(n),
            n <= self.nodes.len(),
        ensures
            self.with_node(n).is_proper_but(n),
    {
        let after = self.with_node(n);
        self.lemma_with_node(n);
        self.lemma_ends();
        let rank = self.some_rank();
        assert forall|x: usize| after.is_node(x) implies #[trigger] after.descent_ok(rank, x) by {
            if x != n {
                assert(self.descent_ok(rank, x));
            }
        }
        assert(after.descends(rank));
        assert forall|x: usize| #[trigger] after.is_top(x) implies after.first == Some(x) || x
            == n by {
            if x != n {
                assert(self.is_top(x));
            }
        }
    }

    /// Making a node the last child of a node that does not stand below it
    /// makes a forest proper that was proper, or proper but for the moved node.
    pub proof fn lemma_make_child_proper(self, c: usize, p: usize)
        requires
            self.is_node(c),
            self.is_node(p),
            c != p,
            self.is_proper() || self.is_proper_but(c),
            !self.is_below(p, c),
        ensures
            self.make_child(c, p).is_proper(),
    {
        let detached = self.detach(c);
        self.lemma_detach_proper_but(c);
        self.lemma_make_child(c, p);
        self.lemma_detach(c);
        self.lemma_not_below_detached(p, c);
        let prev = detached.links(p).last_child;
        detached.lemma_place_proper(c, Some(p), prev, None, detached.first, detached.last);
        assert(self.make_child(c, p) == detached.relate(c, Some(p), prev, None).with_ends(
            detached.first,
            detached.last,
        ));
    }

    /// Making a node the next sibling of a node that does not stand below it
    /// makes a forest proper that was proper, or proper but for the moved node.
    pub proof fn lemma_make_next_sibling_proper(self, n: usize, s: usize)
        requires
            self.is_node(n),
            self.is_node(s),
            n != s,
            self.is_proper() || self.is_proper_but(n),
            !self.is_below(s, n),
        ensures
            self.make_next_sibling(n, s).is_proper(),
    {
        let detached = self.detach(n);
        self.lemma_detach_proper_but(n);
        self.lemma_make_next_sibling(n, s);
        self.lemma_detach(n);
        self.lemma_not_below_detached(s, n);
        let l = detached.links(s);
        assert(detached.node_ok(s));
        detached.lemma_below_step(s, n);
        detached.lemma_ends();
        let after = self.make_next_sibling(n, s);
        detached.lemma_place_proper(n, l.parent, Some(s), l.next_sibling, after.first, after.last);
    }

    /// Making a node the previous sibling of a node that does not stand below
    /// it makes a forest proper that was proper, or proper but for the moved
    /// node.
    pub proof fn lemma_make_prev_sibling_proper(self, n: usize, s: usize)
        requires
            self.is_node(n),
            self.is_node(s),
            n != s,
            self.is_proper() || self.is_proper_but(n),
            !self.is_below(s, n),
        ensures
            self.make_prev_sibling(n, s).is_proper(),
    {
        let detached = self.detach(n);
        self.lemma_detach_proper_but(n);
        self.lemma_make_prev_sibling(n, s);
        self.lemma_detach(n);
        self.lemma_not_below_detached(s, n);
        let l = detached.links(s);
        assert(detached.node_ok(s));
        detached.lemma_below_step(s, n);
        detached.lemma_ends();
        let after = self.make_prev_sibling(n, s);
        detached.lemma_place_proper(n, l.parent, l.prev_sibling, Some(s), after.first, after.last);
    }

    /// The preorder of the node `n` and of the nodes below it.
    spec fn under(self, rank: spec_fn(usize) -> nat, n: usize) -> Seq<usize> {
        seq![n] + self.pre_opt(rank, self.links(n).first_child)
    }

    /// In the preorder from a node, the preorder from each of its members
    /// stands as one block.
    proof fn lemma_pre_block(self, rank: spec_fn(usize) -> nat, big: nat, j: usize, q: int)
        requires
            self.graded(rank, big),
            self.is_node(j),
            0 <= q < self.pre(rank, j).len(),
        ensures
            q + self.pre(rank, self.pre(rank, j)[q]).len() <= self.pre(rank, j).len(),
            self.pre(rank, j).subrange(q, q + self.pre(rank, self.pre(rank, j)[q]).len())
                == self.pre(rank, self.pre(rank, j)[q]),
        decreases rank(j),
    {
        let l = self.links(j);
        self.lemma_pre_unfold(rank, big, j);
        assert(self.descent_ok(rank, j));
        let below = self.pre_opt(rank, l.first_child);
        let after = self.pre_opt(rank, l.next_sibling);
        let all = self.pre(rank, j);
        let y = all[q];
        let part = self.pre(rank, y);
        if q == 0 {
            assert(all.subrange(0, all.len() as int) =~= all);
        } else if q - 1 < below.len() {
            self.lemma_pre_block(rank, big, l.first_child.unwrap(), q - 1);
            assert(all[q] == below[q - 1]);
            assert(all.subrange(q, q + part.len()) =~= below.subrange(q - 1, q - 1 + part.len()));
        } else {
            let shift = 1 + below.len();
            self.lemma_pre_block(rank, big, l.next_sibling.unwrap(), q - shift);
            assert(all[q] == after[q - shift]);
            assert(all.subrange(q, q + part.len()) =~= after.subrange(
                q - shift,
                q - shift + part.len(),
            ));
        }
    }

    /// What stands below a node that stands below another stands below the
    /// other.
    proof fn lemma_below_trans(self, z: usize, c: usize, p: usize, steps: nat)
        requires
            self.ancestor(z, steps) == Some(c),
            self.is_below(c, p),
        ensures
            self.is_below(z, p),
        decreases steps,
    {
        if steps > 0 {
            let parent = self.links(z).parent.unwrap();
            self.lemma_below_trans(parent, c, p, (steps - 1) as nat);
            if z == p {
                assert(self.ancestor(z, 0) == Some(p));
            } else {
                self.lemma_below_step(z, p);
            }
        }
    }

    /// Every member of the preorder from a child of `p` stands below `p`.
    proof fn lemma_pre_below(
        self,
        rank: spec_fn(usize) -> nat,
        big: nat,
        c: usize,
        p: usize,
        k: int,
    )
        requires
            self.graded(rank, big),
            self.is_node(c),
            self.links(c).parent == Some(p),
            0 <= k < self.pre(rank, c).len(),
        ensures
            self.is_below(self.pre(rank, c)[k], p),
        decreases rank(c),
    {
        let l = self.links(c);
        self.lemma_pre_unfold(rank, big, c);
        assert(self.descent_ok(rank, c));
        assert(self.node_ok(c));
        let below = self.pre_opt(rank, l.first_child);
        assert(self.ancestor(p, 0) == Some(p));
        assert(self.ancestor(c, 1) == self.ancestor(p, 0));
        if k == 0 {
        } else if k - 1 < below.len() {
            let first_child = l.first_child.unwrap();
            self.lemma_pre_below(rank, big, first_child, c, k - 1);
            let z = self.pre(rank, first_child)[k - 1];
            let steps = choose|steps: nat| #[trigger] self.ancestor(z, steps) == Some(c);
            self.lemma_below_trans(z, c, p, steps);
        } else {
            let next = l.next_sibling.unwrap();
            assert(self.node_ok(next));
            self.lemma_pre_below(rank, big, next, p, k - 1 - below.len());
        }
    }

    /// A node with a parent is a member of the preorder from the first child
    /// of its parent.
    proof fn lemma_child_in_pre(self, rank: spec_fn(usize) -> nat, big: nat, z: usize)
        requires
            self.graded(rank, big),
            self.is_node(z),
            self.links(z).parent is Some,
        ensures
            self.is_node(self.links(z).parent.unwrap()),
            self.links(self.links(z).parent.unwrap()).first_child is Some,
            self.pre(
                rank,
                self.links(self.links(z).parent.unwrap()).first_child.unwrap(),
            ).contains(z),
        decreases big - rank(z),
    {
        let parent = self.links(z).parent.unwrap();
        assert(self.node_ok(z));
        assert(self.node_ok(parent));
        self.lemma_before(rank, big, z);
        if self.links(z).prev_sibling is Some {
            let m = self.links(z).prev_sibling.unwrap();
            self.lemma_child_in_pre(rank, big, m);
            let head = self.links(parent).first_child.unwrap();
            self.lemma_pre_closed(rank, big, head, m, z);
        } else {
            self.lemma_pre_members(rank, big, z, 0);
            assert(self.pre(rank, z)[0] == z);
        }
    }

    /// Every node that stands below `n` is a member of the preorder of `n`
    /// and the nodes below it.
    proof fn lemma_below_in_under(
        self,
        rank: spec_fn(usize) -> nat,
        big: nat,
        n: usize,
        z: usize,
        steps: nat,
    )
        requires
            self.graded(rank, big),
            self.is_node(n),
            self.is_node(z),
            self.ancestor(z, steps) == Some(n),
        ensures
            self.under(rank, n).contains(z),
        decreases steps,
    {
        let all = self.under(rank, n);
        if steps == 0 {
            assert(all[0] == z);
        } else {
            let q = self.links(z).parent.unwrap();
            assert(self.node_ok(z));
            self.lemma_below_in_under(rank, big, n, q, (steps - 1) as nat);
            self.lemma_child_in_pre(rank, big, z);
            let head = self.links(q).first_child.unwrap();
            assert(self.node_ok(q));
            let inner = self.pre(rank, head);
            let m = choose|m: int| 0 <= m < inner.len() && inner[m] == z;
            if q == n {
                assert(all[m + 1] == z);
            } else {
                assert(self.node_ok(n));
                let a = choose|a: int| 0 <= a < all.len() && all[a] == q;
                let outer = self.pre_opt(rank, self.links(n).first_child);
                assert(outer[a - 1] == q);
                let top = self.links(n).first_child.unwrap();
                self.lemma_pre_closed(rank, big, top, q, head);
                let b = choose|b: int| 0 <= b < outer.len() && outer[b] == head;
                self.lemma_pre_block(rank, big, top, b);
                assert(outer.subrange(b, b + inner.len())[m] == outer[b + m]);
                assert(all[b + m + 1] == z);
            }
        }
    }

    /// In the traversal of a proper forest a node is followed by the nodes
    /// that stand below it, and by nothing else before its next sibling: the
    /// node and the nodes below it fill the places from `at` up to some place
    /// `end`, no node below it has another place, and its next sibling, if it
    /// has one, has the place `end`.
    pub proof fn lemma_preorder_contiguous(self, at: int) -> (end: int)
        requires
            self.is_proper(),
            0 <= at < self.walk(self.first, self.nodes.len()).len(),
        ensures
            at < end <= self.walk(self.first, self.nodes.len()).len(),
            forall|k: int|
                0 <= k < self.walk(self.first, self.nodes.len()).len() ==> (at <= k < end
                    <==> self.is_below(
                    #[trigger] self.walk(self.first, self.nodes.len())[k],
                    self.walk(self.first, self.nodes.len())[at],
                )),
            self.links(self.walk(self.first, self.nodes.len())[at]).next_sibling is Some ==> end
                < self.walk(self.first, self.nodes.len()).len() && Some(
                self.walk(self.first, self.nodes.len())[end],
            ) == self.links(self.walk(self.first, self.nodes.len())[at]).next_sibling,
    {
        let rank = self.some_rank();
        let big = self.lemma_graded();
        self.lemma_ends();
        self.lemma_walk_is_pre(rank, big);
        let w = self.walk(self.first, self.nodes.len());
        let first = self.first.unwrap();
        let n = w[at];
        self.lemma_pre_members(rank, big, first, at);
        self.lemma_pre_distinct(rank, big, first);
        self.lemma_pre_block(rank, big, first, at);
        self.lemma_pre_unfold(rank, big, n);
        assert(self.node_ok(n));
        let all = self.under(rank, n);
        let below = self.pre_opt(rank, self.links(n).first_child);
        let end = at + all.len();
        let whole = self.pre(rank, n);
        assert(whole == all + self.pre_opt(rank, self.links(n).next_sibling));
        assert forall|k: int| at <= k < end implies w[k] == all[k - at] by {
            assert(w.subrange(at, at + whole.len())[k - at] == w[k]);
            assert(whole[k - at] == all[k - at]);
        }
        assert forall|k: int| 0 <= k < w.len() implies (at <= k < end <==> self.is_below(
            #[trigger] w[k],
            n,
        )) by {
            if at <= k < end {
                if k == at {
                    assert(self.ancestor(n, 0) == Some(n));
                } else {
                    assert(w[k] == below[k - at - 1]);
                    self.lemma_pre_below(
                        rank,
                        big,
                        self.links(n).first_child.unwrap(),
                        n,
                        k - at - 1,
                    );
                }
            }
            if self.is_below(w[k], n) {
                let steps = choose|steps: nat| #[trigger] self.ancestor(w[k], steps) == Some(n);
                self.lemma_pre_members(rank, big, first, k);
                self.lemma_below_in_under(rank, big, n, w[k], steps);
                let m = choose|m: int| 0 <= m < all.len() && all[m] == w[k];
                assert(w[at + m] == all[m]);
            }
        }
        if self.links(n).next_sibling is Some {
            let b = self.links(n).next_sibling.unwrap();
            self.lemma_pre_members(rank, big, b, 0);
            assert(whole[all.len() as int] == self.pre(rank, b)[0]);
            assert(w.subrange(at, at + whole.len())[all.len() as int] == w[end]);
        }
        end
    }
}

/// A sequence of different numbers below `bound` has no more than `bound`
/// members.
pub proof fn lemma_distinct_bounded(s: Seq<usize>, bound: nat)
    requires
        s.no_duplicates(),
        forall|k: int| 0 <= k < s.len() ==> s[k] < bound,
    ensures
        s.len() <= bound,
    decreases bound,
{
    if s.len() > 0 {
        if bound == 0 {
            assert(s[0] < bound);
        } else if exists|k: int| 0 <= k < s.len() && s[k] == bound - 1 {
            let k = choose|k: int| 0 <= k < s.len() && s[k] == bound - 1;
            let others = s.remove(k);
            assert forall|j: int| 0 <= j < others.len() implies others[j] < bound - 1 by {
                if j < k {
                    assert(others[j] == s[j]);
                } else {
                    assert(others[j] == s[j + 1]);
                }
            }
            assert forall|a: int, b: int|
                0 <= a < others.len() && 0 <= b < others.len() && a != b implies others[a]
                != others[b] by {
                let a0 = if a < k {
                    a
                } else {
                    a + 1
                };
                let b0 = if b < k {
                    b
                } else {
                    b + 1
                };
                assert(others[a] == s[a0]);
                assert(others[b] == s[b0]);
            }
            lemma_distinct_bounded(others, (bound - 1) as nat);
        } else {
            lemma_distinct_bounded(s, (bound - 1) as nat);
        }
    }
}

} // verus!
