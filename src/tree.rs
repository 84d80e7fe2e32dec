//! The node store and the operations on it: nodes live in the slots of an
//! [`Arena`], and parent, child and sibling links are handles into it.
use vstd::prelude::*;

use crate::arena::{Arena, Handle};

verus! {

/// A node of the tree: its value and its links to other nodes.
pub struct Node<T> {
    pub data: T,
    pub parent: Option<Handle>,
    pub previous_sibling: Option<Handle>,
    pub next_sibling: Option<Handle>,
    pub first_child: Option<Handle>,
    pub last_child: Option<Handle>,
}

/// The order of a depth-first walk: a node before its descendants (`Pre`) or
/// after them (`Post`).
#[derive(Clone, Copy, Debug, PartialEq, Eq, Structural)]
pub enum TraversalOrder {
    Pre,
    Post,
}

/// Any number of trees whose nodes share one arena.
pub struct Tree<T> {
    arena: Arena<Node<T>>,
    /// The children of each node, in order.
    children: Ghost<Map<usize, Seq<usize>>>,
    /// A rank that grows from a parent to each of its children.
    level: Ghost<Map<usize, nat>>,
    /// A bound on every rank.
    top: Ghost<nat>,
}

/// The handle that `s[k]` names, or `None` out of range.
pub open spec fn handle_at(s: Seq<usize>, k: int) -> Option<Handle> {
    if 0 <= k < s.len() {
        Some(Handle(s[k]))
    } else {
        None
    }
}

/// `n` with its value replaced by `d`.
pub open spec fn with_value<T>(n: Node<T>, d: T) -> Node<T> {
    Node { data: d, ..n }
}

impl<T> Tree<T> {
    /// What each slot holds: a node, or `None` for a free slot.
    pub closed spec fn view(&self) -> Seq<Option<Node<T>>> {
        self.arena@
    }

    /// Whether `i` is the position of a node.
    pub open spec fn has(&self, i: usize) -> bool {
        (i as int) < self@.len() && self@[i as int] is Some
    }

    /// The node at position `i`.
    pub open spec fn node(&self, i: usize) -> Node<T> {
        self@[i as int].unwrap()
    }

    /// The positions of the children of node `p`, first to last.
    pub closed spec fn child_list(&self, p: usize) -> Seq<usize> {
        self.children@[p]
    }

    /// The number of nodes.
    pub closed spec fn spec_len(&self) -> nat {
        self.arena.spec_len()
    }

    /// The free slots, in the order in which new nodes take them.
    pub closed spec fn free_list(&self) -> Seq<usize> {
        self.arena.free_list()
    }

    #[verifier::opaque]
    closed spec fn children_ok(&self, p: usize) -> bool {
        let cs = self.children@[p];
        let n = self.node(p);
        &&& cs.no_duplicates()
        &&& n.first_child == handle_at(cs, 0)
        &&& n.last_child == handle_at(cs, cs.len() - 1)
        &&& forall|k: int|
            #![trigger cs[k]]
            0 <= k < cs.len() ==> {
                &&& self.has(cs[k])
                &&& self.node(cs[k]).parent == Some(Handle(p))
                &&& self.level@[cs[k]] > self.level@[p]
                &&& self.node(cs[k]).previous_sibling == handle_at(cs, k - 1)
                &&& self.node(cs[k]).next_sibling == handle_at(cs, k + 1)
            }
    }

    #[verifier::opaque]
    closed spec fn parent_ok(&self, c: usize) -> bool {
        let n = self.node(c);
        &&& self.level@[c] <= self.top@
        &&& match n.parent {
            Some(p) => self.has(p.0) && self.children@[p.0].contains(c),
            None => n.previous_sibling is None && n.next_sibling is None,
        }
    }

    /// Every link names a node and agrees with the links that point back:
    /// a node with a parent stands once in that parent's child chain, and the
    /// sibling links and the first and last child links bound that chain.
    pub closed spec fn wf(&self) -> bool {
        &&& self.arena.wf()
        &&& forall|i: usize| #[trigger] self.children@.contains_key(i) <==> self.has(i)
        &&& forall|i: usize| #[trigger] self.level@.contains_key(i) <==> self.has(i)
        &&& forall|i: usize| self.has(i) ==> #[trigger] self.children_ok(i)
        &&& forall|i: usize| self.has(i) ==> #[trigger] self.parent_ok(i)
    }

    /// Two views of the store with the same nodes in the same slots, linked
    /// in the same way; the values may differ.
    pub open spec fn same_links(a: Seq<Option<Node<T>>>, b: Seq<Option<Node<T>>>) -> bool {
        &&& a.len() == b.len()
        &&& forall|i: int|
            0 <= i < a.len() ==> {
                &&& (#[trigger] a[i] is Some) == (b[i] is Some)
                &&& a[i] is Some ==> {
                    let (x, y) = (a[i].unwrap(), b[i].unwrap());
                    &&& x.parent == y.parent
                    &&& x.previous_sibling == y.previous_sibling
                    &&& x.next_sibling == y.next_sibling
                    &&& x.first_child == y.first_child
                    &&& x.last_child == y.last_child
                }
            }
    }

    proof fn lemma_values_free(&self)
        requires
            self.wf(),
        ensures
            forall|t: Self|
                t.arena.wf() && Self::same_links(t.arena@, self.arena@) && t.children == self.children
                    && t.level == self.level && t.top == self.top ==> #[trigger] t.wf(),
            forall|i: usize, d: T|
                self.has(i) ==> #[trigger] Self::same_links(
                    self.arena@.update(i as int, Some(with_value(self.node(i), d))),
                    self.arena@,
                ),
    {
        assert forall|t: Self|
            t.arena.wf() && Self::same_links(t.arena@, self.arena@) && t.children == self.children
                && t.level == self.level && t.top == self.top implies #[trigger] t.wf() by {
            reveal(Tree::children_ok);
            reveal(Tree::parent_ok);
            assert forall|i: usize| #[trigger] t.has(i) implies t.children_ok(i) && t.parent_ok(i) by {
                assert(self.has(i));
                assert(self.children_ok(i));
                let cs = self.children@[i];
                assert forall|k: int| 0 <= k < cs.len() implies t.has(#[trigger] cs[k]) by {
                    assert(self.has(cs[k]));
                }
                assert(self.parent_ok(i));
                if let Some(p) = self.node(i).parent {
                    assert(self.has(p.0));
                }
            }
            assert forall|i: usize| #[trigger] t.children@.contains_key(i) <==> t.has(i) by {
                assert(self.children@.contains_key(i) <==> self.has(i));
            }
            assert forall|i: usize| #[trigger] t.level@.contains_key(i) <==> t.has(i) by {
                assert(self.level@.contains_key(i) <==> self.has(i));
            }
        }
    }

    /// A tree with no nodes.
    pub fn new() -> (t: Self)
        ensures
            t.wf(),
            t@.len() == 0,
            t.spec_len() == 0,
    {
        let t = Tree {
            arena: Arena::new(),
            children: Ghost(Map::empty()),
            level: Ghost(Map::empty()),
            top: Ghost(0),
        };
        assert forall|i: usize| !t.has(i) by {}
        t
    }

    /// The number of nodes.
    pub fn len(&self) -> (r: usize)
        requires
            self.wf(),
        ensures
            r == self.spec_len(),
    {
        self.arena.len()
    }

    /// Whether the tree has no nodes.
    pub fn is_empty(&self) -> (r: bool)
        requires
            self.wf(),
        ensures
            r == (self.spec_len() == 0),
    {
        self.arena.is_empty()
    }

    /// The number of slots, used or free.
    pub fn capacity(&self) -> (r: usize)
        ensures
            r == self@.len(),
    {
        self.arena.capacity()
    }

    /// The node of `h`; `None` when `h` names no node.
    pub fn get(&self, h: Handle) -> (r: Option<&Node<T>>)
        ensures
            (r is Some) == self.has(h.0),
            r is Some ==> *r.unwrap() == self.node(h.0),
    {
        self.arena.get(h)
    }

    /// The node of `h`, which must name one.
    pub fn node_ref(&self, h: Handle) -> (r: &Node<T>)
        requires
            self.has(h.0),
        ensures
            *r == self.node(h.0),
    {
        self.arena.get(h).unwrap()
    }

    /// Mutable access to the value of the node of `h`; `None` when `h` names
    /// no node. The links cannot change through it.
    pub fn get_mut(&mut self, h: Handle) -> (r: Option<&mut T>)
        requires
            old(self).wf(),
        ensures
            (r is Some) == old(self).has(h.0),
            r is Some ==> *r.unwrap() == old(self).node(h.0).data,
            r is Some ==> final(self)@ == old(self)@.update(
                h.0 as int,
                Some(with_value(old(self).node(h.0), *final(r.unwrap()))),
            ),
            r is Some ==> final(self).wf(),
            r is Some ==> final(self).spec_len() == old(self).spec_len(),
            r is Some ==> forall|p: usize| #[trigger] final(self).child_list(p) == old(self).child_list(p),
            r is None ==> *final(self) == *old(self),
    {
        proof {
            self.lemma_values_free();
        }
        match self.arena.get_mut(h) {
            Some(n) => Some(&mut n.data),
            None => None,
        }
    }

    /// Sets the five links of the node of `h`, keeping its value.
    fn set_links(
        arena: &mut Arena<Node<T>>,
        h: Handle,
        parent: Option<Handle>,
        previous_sibling: Option<Handle>,
        next_sibling: Option<Handle>,
        first_child: Option<Handle>,
        last_child: Option<Handle>,
    )
        requires
            old(arena).wf(),
            h.0 < old(arena)@.len(),
            old(arena)@[h.0 as int] is Some,
        ensures
            final(arena).wf(),
            final(arena)@ == old(arena)@.update(
                h.0 as int,
                Some(
                    Node {
                        data: old(arena)@[h.0 as int].unwrap().data,
                        parent,
                        previous_sibling,
                        next_sibling,
                        first_child,
                        last_child,
                    },
                ),
            ),
            final(arena).spec_len() == old(arena).spec_len(),
            final(arena).free_list() == old(arena).free_list(),
    {
        let n = arena.get_mut(h).unwrap();
        n.parent = parent;
        n.previous_sibling = previous_sibling;
        n.next_sibling = next_sibling;
        n.first_child = first_child;
        n.last_child = last_child;
    }

    /// Sets the next-sibling link of the node of `h`.
    fn set_next(arena: &mut Arena<Node<T>>, h: Handle, next_sibling: Option<Handle>)
        requires
            old(arena).wf(),
            h.0 < old(arena)@.len(),
            old(arena)@[h.0 as int] is Some,
        ensures
            final(arena).wf(),
            final(arena)@ == old(arena)@.update(
                h.0 as int,
                Some(Node { next_sibling, ..old(arena)@[h.0 as int].unwrap() }),
            ),
            final(arena).spec_len() == old(arena).spec_len(),
            final(arena).free_list() == old(arena).free_list(),
    {
        let n = arena.get_mut(h).unwrap();
        n.next_sibling = next_sibling;
    }

    /// Sets the previous-sibling link of the node of `h`.
    fn set_previous(arena: &mut Arena<Node<T>>, h: Handle, previous_sibling: Option<Handle>)
        requires
            old(arena).wf(),
            h.0 < old(arena)@.len(),
            old(arena)@[h.0 as int] is Some,
        ensures
            final(arena).wf(),
            final(arena)@ == old(arena)@.update(
                h.0 as int,
                Some(Node { previous_sibling, ..old(arena)@[h.0 as int].unwrap() }),
            ),
            final(arena).spec_len() == old(arena).spec_len(),
            final(arena).free_list() == old(arena).free_list(),
    {
        let n = arena.get_mut(h).unwrap();
        n.previous_sibling = previous_sibling;
    }

    /// Sets the first- and last-child links of the node of `h`.
    fn set_ends(
        arena: &mut Arena<Node<T>>,
        h: Handle,
        first_child: Option<Handle>,
        last_child: Option<Handle>,
    )
        requires
            old(arena).wf(),
            h.0 < old(arena)@.len(),
            old(arena)@[h.0 as int] is Some,
        ensures
            final(arena).wf(),
            final(arena)@ == old(arena)@.update(
                h.0 as int,
                Some(Node { first_child, last_child, ..old(arena)@[h.0 as int].unwrap() }),
            ),
            final(arena).spec_len() == old(arena).spec_len(),
            final(arena).free_list() == old(arena).free_list(),
    {
        let n = arena.get_mut(h).unwrap();
        n.first_child = first_child;
        n.last_child = last_child;
    }

    /// Adds `data` as a new node with no links: the root of a new tree.
    pub fn new_node(&mut self, data: T) -> (h: Handle)
        requires
            old(self).wf(),
            old(self).spec_len() <= usize::MAX / 2,
        ensures
            final(self).wf(),
            !old(self).has(h.0),
            final(self).has(h.0),
            final(self).node(h.0) == (Node {
                data,
                parent: None,
                previous_sibling: None,
                next_sibling: None,
                first_child: None,
                last_child: None,
            }),
            final(self).child_list(h.0) == Seq::<usize>::empty(),
            forall|i: usize| i != h.0 ==> #[trigger] final(self).has(i) == old(self).has(i),
            forall|i: usize|
                i != h.0 && old(self).has(i) ==> #[trigger] final(self).node(i) == old(self).node(i)
                    && final(self).child_list(i) == old(self).child_list(i),
            final(self).spec_len() == old(self).spec_len() + 1,
            old(self).free_list().len() > 0 ==> final(self)@.len() == old(self)@.len(),
    {
        let ghost prev = *self;
        let h = self.arena.insert(
            Node {
                data,
                parent: None,
                previous_sibling: None,
                next_sibling: None,
                first_child: None,
                last_child: None,
            },
        );
        self.children = Ghost(self.children@.insert(h.0, Seq::empty()));
        self.level = Ghost(self.level@.insert(h.0, 0));
        proof {
            reveal(Tree::children_ok);
            reveal(Tree::parent_ok);
            assert(!prev.has(h.0));
            assert forall|i: usize| i != h.0 implies #[trigger] self.has(i) == prev.has(i) by {
                if (i as int) < self@.len() {
                    assert(self@[i as int] == (if (i as int) < prev@.len() {
                        prev@[i as int]
                    } else {
                        None
                    }));
                }
            }
            assert forall|i: usize| #[trigger] self.has(i) implies self.children_ok(i) && self.parent_ok(i) by {
                if i != h.0 {
                    assert(prev.has(i));
                    assert(prev.children_ok(i));
                    assert(prev.parent_ok(i));
                    let cs = prev.children@[i];
                    assert forall|k: int| 0 <= k < cs.len() implies #[trigger] cs[k] != h.0 by {
                        assert(prev.has(cs[k]));
                    }
                    if let Some(p) = prev.node(i).parent {
                        assert(prev.has(p.0));
                    }
                }
            }
            assert forall|i: usize| #[trigger] self.children@.contains_key(i) <==> self.has(i) by {
                if i != h.0 {
                    assert(prev.children@.contains_key(i) <==> prev.has(i));
                }
            }
            assert forall|i: usize| #[trigger] self.level@.contains_key(i) <==> self.has(i) by {
                if i != h.0 {
                    assert(prev.level@.contains_key(i) <==> prev.has(i));
                }
            }
        }
        h
    }

    /// Adds `data` as the last child of the node of `parent` and returns the
    /// new node's handle.
    pub fn append(&mut self, parent: Handle, data: T) -> (h: Handle)
        requires
            old(self).wf(),
            old(self).has(parent.0),
            old(self).spec_len() <= usize::MAX / 2,
        ensures
            final(self).wf(),
            !old(self).has(h.0),
            final(self).has(h.0),
            final(self).node(h.0) == (Node {
                data,
                parent: Some(parent),
                previous_sibling: old(self).node(parent.0).last_child,
                next_sibling: None,
                first_child: None,
                last_child: None,
            }),
            final(self).child_list(h.0) == Seq::<usize>::empty(),
            final(self).child_list(parent.0) == old(self).child_list(parent.0).push(h.0),
            forall|i: usize| i != h.0 ==> #[trigger] final(self).has(i) == old(self).has(i),
            forall|i: usize|
                i != h.0 && old(self).has(i) ==> (#[trigger] final(self).node(i)).data == old(self).node(i).data && final(self).node(i).parent == old(self).node(i).parent,
            forall|i: usize|
                i != h.0 && i != parent.0 ==> #[trigger] final(self).child_list(i) == old(self).child_list(i),
            final(self).spec_len() == old(self).spec_len() + 1,
            old(self).free_list().len() > 0 ==> final(self)@.len() == old(self)@.len(),
    {
        let ghost prev = *self;
        let ghost cs = self.children@[parent.0];
        proof {
            reveal(Tree::children_ok);
            reveal(Tree::parent_ok);
            assert(prev.children_ok(parent.0));
            assert(prev.parent_ok(parent.0));
        }
        let pn = self.arena.get(parent).unwrap();
        let first = pn.first_child;
        let last = pn.last_child;
        let h = self.arena.insert(
            Node {
                data,
                parent: Some(parent),
                previous_sibling: last,
                next_sibling: None,
                first_child: None,
                last_child: None,
            },
        );
        let ghost mid = self.arena@;
        proof {
            assert(!prev.has(h.0));
            assert(mid[parent.0 as int] == prev@[parent.0 as int]);
            if cs.len() > 0 {
                assert(prev.has(cs[cs.len() - 1]));
                assert(mid[cs[cs.len() - 1] as int] == prev@[cs[cs.len() - 1] as int]);
            }
        }
        match last {
            Some(l) => {
                Self::set_next(&mut self.arena, l, Some(h));
                Self::set_ends(&mut self.arena, parent, first, Some(h));
            },
            None => {
                Self::set_ends(&mut self.arena, parent, Some(h), Some(h));
            },
        }
        self.children = Ghost(self.children@.insert(h.0, Seq::empty()).insert(parent.0, cs.push(h.0)));
        self.level = Ghost(self.level@.insert(h.0, self.level@[parent.0] + 1));
        self.top = Ghost(
            if self.top@ >= self.level@[parent.0] + 1 {
                self.top@
            } else {
                (self.level@[parent.0] + 1) as nat
            },
        );
        proof {
            Self::lemma_append_frame(prev, *self, parent.0, h.0, mid);
            Self::lemma_append(prev, *self, parent.0, h.0);
        }
        h
    }

    /// How the store looks after a node `h` is added as the last child of `p`.
    closed spec fn appended(prev: Self, t: Self, p: usize, h: usize) -> bool {
        let cs = prev.children@[p];
        let l = cs[cs.len() - 1];
        &&& prev.wf()
        &&& prev.has(p)
        &&& !prev.has(h)
        &&& t.arena.wf()
        &&& t.has(h)
        &&& forall|i: usize| i != h ==> #[trigger] t.has(i) == prev.has(i)
        &&& forall|i: usize|
            i != h && i != p && (cs.len() == 0 || i != l) && prev.has(i) ==> #[trigger] t.node(i)
                == prev.node(i)
        &&& t.node(p) == Node {
            first_child: handle_at(cs.push(h), 0),
            last_child: Some(Handle(h)),
            ..prev.node(p)
        }
        &&& cs.len() > 0 ==> t.node(l) == Node { next_sibling: Some(Handle(h)), ..prev.node(l) }
        &&& t.node(h).parent == Some(Handle(p))
        &&& t.node(h).previous_sibling == handle_at(cs, cs.len() - 1)
        &&& t.node(h).next_sibling is None
        &&& t.node(h).first_child is None
        &&& t.node(h).last_child is None
        &&& t.children@ == prev.children@.insert(h, Seq::empty()).insert(p, cs.push(h))
        &&& t.level@ == prev.level@.insert(h, prev.level@[p] + 1)
        &&& t.top@ >= prev.top@
        &&& t.top@ >= prev.level@[p] + 1
    }

    proof fn lemma_append_frame(prev: Self, t: Self, p: usize, h: usize, mid: Seq<Option<Node<T>>>)
        requires
            prev.wf(),
            prev.has(p),
            !prev.has(h),
            t.arena.wf(),
            mid.len() == t@.len(),
            mid.len() >= prev@.len(),
            h < mid.len(),
            forall|i: int|
                0 <= i < mid.len() && i != h ==> #[trigger] mid[i] == (if i < prev@.len() {
                    prev@[i]
                } else {
                    None
                }),
            mid[h as int] is Some,
            mid[h as int].unwrap().parent == Some(Handle(p)),
            mid[h as int].unwrap().previous_sibling == prev.node(p).last_child,
            mid[h as int].unwrap().next_sibling is None,
            mid[h as int].unwrap().first_child is None,
            mid[h as int].unwrap().last_child is None,
            ({
                let cs = prev.children@[p];
                if cs.len() > 0 {
                    let l = cs[cs.len() - 1];
                    let m2 = mid.update(
                        l as int,
                        Some(Node { next_sibling: Some(Handle(h)), ..mid[l as int].unwrap() }),
                    );
                    t@ == m2.update(
                        p as int,
                        Some(
                            Node {
                                first_child: prev.node(p).first_child,
                                last_child: Some(Handle(h)),
                                ..m2[p as int].unwrap()
                            },
                        ),
                    )
                } else {
                    t@ == mid.update(
                        p as int,
                        Some(
                            Node {
                                first_child: Some(Handle(h)),
                                last_child: Some(Handle(h)),
                                ..mid[p as int].unwrap()
                            },
                        ),
                    )
                }
            }),
            t.children@ == prev.children@.insert(h, Seq::empty()).insert(
                p,
                prev.children@[p].push(h),
            ),
            t.level@ == prev.level@.insert(h, prev.level@[p] + 1),
            t.top@ >= prev.top@,
            t.top@ >= prev.level@[p] + 1,
        ensures
            Self::appended(prev, t, p, h),
    {
        let cs = prev.children@[p];
        assert(prev.has(p));
        assert(prev.children_ok(p) && prev.parent_ok(p));
        reveal(Tree::children_ok);
        if cs.len() > 0 {
            let l = cs[cs.len() - 1];
            assert(prev.has(l));
            assert(prev.node(l).parent == Some(Handle(p)));
            assert(prev.level@[l] > prev.level@[p]);
            assert(l != p);
            assert(mid[l as int] == prev@[l as int]);
        }
        assert(mid[p as int] == prev@[p as int]);
        assert forall|i: usize| i != h implies #[trigger] t.has(i) == prev.has(i) by {
            if (i as int) < t@.len() && (i as int) < prev@.len() {
                assert(mid[i as int] == prev@[i as int]);
            }
            if (i as int) < t@.len() && (i as int) >= prev@.len() {
                assert(mid[i as int] is None);
            }
        }
        assert forall|i: usize|
            i != h && i != p && (cs.len() == 0 || i != cs[cs.len() - 1]) && prev.has(i)
            implies #[trigger] t.node(i) == prev.node(i) by {
            assert(mid[i as int] == prev@[i as int]);
        }
    }

    #[verifier::spinoff_prover]
    proof fn lemma_append_children_ok(prev: Self, t: Self, p: usize, h: usize, i: usize)
        requires
            Self::appended(prev, t, p, h),
            t.has(i),
        ensures
            t.children_ok(i),
    {
        reveal(Tree::children_ok);
        let cs = prev.children@[p];
        assert(prev.children_ok(p));
        assert(!cs.contains(h)) by {
            if cs.contains(h) {
                let k = choose|k: int| 0 <= k < cs.len() && cs[k] == h;
                assert(prev.has(cs[k]));
            }
        }
        if i == h {
        } else if i == p {
            assert(prev.children_ok(p));
            let ncs = cs.push(h);
            assert forall|k: int| 0 <= k < ncs.len() implies {
                &&& t.has(#[trigger] ncs[k])
                &&& t.node(ncs[k]).parent == Some(Handle(p))
                &&& t.level@[ncs[k]] > t.level@[p]
                &&& t.node(ncs[k]).previous_sibling == handle_at(ncs, k - 1)
                &&& t.node(ncs[k]).next_sibling == handle_at(ncs, k + 1)
            } by {
                if k < cs.len() {
                    assert(ncs[k] == cs[k]);
                    assert(prev.has(cs[k]));
                    assert(cs[k] != p);
                    if k < cs.len() - 1 {
                        assert(cs[k] != cs[cs.len() - 1]);
                    }
                }
            }
        } else {
            assert(prev.has(i));
            assert(prev.children_ok(i));
            let ics = prev.children@[i];
            assert(t.children@[i] == ics);
            assert forall|k: int| 0 <= k < ics.len() implies {
                &&& t.has(#[trigger] ics[k])
                &&& t.node(ics[k]).parent == Some(Handle(i))
                &&& t.level@[ics[k]] > t.level@[i]
                &&& t.node(ics[k]).previous_sibling == handle_at(ics, k - 1)
                &&& t.node(ics[k]).next_sibling == handle_at(ics, k + 1)
            } by {
                assert(prev.has(ics[k]));
                assert(ics[k] != h);
                if cs.len() > 0 && ics[k] == cs[cs.len() - 1] {
                    assert(prev.node(cs[cs.len() - 1]).parent == Some(Handle(p)));
                }
            }
        }
    }

    #[verifier::spinoff_prover]
    proof fn lemma_append_parent_ok(prev: Self, t: Self, p: usize, h: usize, i: usize)
        requires
            Self::appended(prev, t, p, h),
            t.has(i),
        ensures
            t.parent_ok(i),
    {
        reveal(Tree::parent_ok);
        let cs = prev.children@[p];
        assert(t.children@[p] == cs.push(h));
        assert(cs.push(h)[cs.len() as int] == h);
        if i == h {
            assert(t.has(p));
            assert(t.children@[p].contains(h));
        } else {
            assert(prev.has(i));
            assert(prev.parent_ok(i));
            if cs.len() > 0 && i == cs[cs.len() - 1] {
                reveal(Tree::children_ok);
                assert(prev.children_ok(p));
            }
            assert(t.node(i).parent == prev.node(i).parent);
            if let Some(q) = prev.node(i).parent {
                assert(prev.has(q.0));
                assert(q.0 != h);
                if q.0 == p {
                    let k = choose|k: int| 0 <= k < cs.len() && cs[k] == i;
                    assert(cs.push(h)[k] == i);
                }
            } else {
                assert(t.node(i).previous_sibling == prev.node(i).previous_sibling);
                assert(t.node(i).next_sibling == prev.node(i).next_sibling);
            }
        }
    }

    proof fn lemma_append(prev: Self, t: Self, p: usize, h: usize)
        requires
            Self::appended(prev, t, p, h),
        ensures
            t.wf(),
    {
        assert forall|i: usize| t.has(i) implies #[trigger] t.children_ok(i) by {
            Self::lemma_append_children_ok(prev, t, p, h, i);
        }
        assert forall|i: usize| t.has(i) implies #[trigger] t.parent_ok(i) by {
            Self::lemma_append_parent_ok(prev, t, p, h, i);
        }
        assert forall|i: usize| #[trigger] t.children@.contains_key(i) <==> t.has(i) by {
            if i != h {
                assert(prev.children@.contains_key(i) <==> prev.has(i));
            }
        }
        assert forall|i: usize| #[trigger] t.level@.contains_key(i) <==> t.has(i) by {
            if i != h {
                assert(prev.level@.contains_key(i) <==> prev.has(i));
            }
        }
    }

    /// The position of `x` in `s`, where it stands.
    pub open spec fn position(s: Seq<usize>, x: usize) -> int {
        choose|k: int| 0 <= k < s.len() && s[k] == x
    }

    /// Unlinks the node of `h` from its parent and siblings; it becomes a
    /// root and keeps its own children. A root is left as it is.
    pub fn detach(&mut self, h: Handle)
        requires
            old(self).wf(),
            old(self).has(h.0),
        ensures
            final(self).wf(),
            forall|i: usize| #[trigger] final(self).has(i) == old(self).has(i),
            forall|i: usize|
                old(self).has(i) ==> (#[trigger] final(self).node(i)).data == old(self).node(i).data,
            final(self).node(h.0).parent is None,
            final(self).node(h.0).first_child == old(self).node(h.0).first_child,
            final(self).node(h.0).last_child == old(self).node(h.0).last_child,
            forall|i: usize|
                old(self).has(i) && i != h.0 ==> (#[trigger] final(self).node(i)).parent == old(self).node(i).parent,
            match old(self).node(h.0).parent {
                Some(p) => final(self).child_list(p.0) == old(self).child_list(p.0).remove(
                    Self::position(old(self).child_list(p.0), h.0),
                ),
                None => *final(self) == *old(self),
            },
            forall|q: usize|
                Some(Handle(q)) != old(self).node(h.0).parent ==> #[trigger] final(self).child_list(q)
                    == old(self).child_list(q),
            final(self).spec_len() == old(self).spec_len(),
            final(self).free_list() == old(self).free_list(),
            final(self)@.len() == old(self)@.len(),
    {
        let ghost prev = *self;
        proof {
            assert(prev.parent_ok(h.0));
            reveal(Tree::parent_ok);
        }
        let n = self.arena.get(h).unwrap();
        let parent = n.parent;
        let before = n.previous_sibling;
        let after = n.next_sibling;
        let first = n.first_child;
        let last = n.last_child;
        match parent {
            None => {},
            Some(p) => {
                let ghost cs = prev.children@[p.0];
                let ghost idx = Self::position(cs, h.0);
                proof {
                    assert(prev.has(p.0));
                    assert(prev.children_ok(p.0));
                    assert(cs.contains(h.0));
                    assert(cs[idx] == h.0);
                    assert({
                        &&& cs.no_duplicates()
                        &&& idx > 0 ==> prev.has(cs[idx - 1]) && prev.node(cs[idx - 1]).parent == Some(p)
                            && prev.level@[cs[idx - 1]] > prev.level@[p.0]
                        &&& idx + 1 < cs.len() ==> prev.has(cs[idx + 1]) && prev.node(cs[idx + 1]).parent
                            == Some(p) && prev.level@[cs[idx + 1]] > prev.level@[p.0]
                        &&& prev.node(h.0).previous_sibling == handle_at(cs, idx - 1)
                        &&& prev.node(h.0).next_sibling == handle_at(cs, idx + 1)
                        &&& prev.node(p.0).first_child == handle_at(cs, 0)
                        &&& prev.node(p.0).last_child == handle_at(cs, cs.len() - 1)
                    }) by {
                        reveal(Tree::children_ok);
                    }
                }
                let pn = self.arena.get(p).unwrap();
                let p_first = pn.first_child;
                let p_last = pn.last_child;
                match before {
                    Some(a) => Self::set_next(&mut self.arena, a, after),
                    None => {},
                }
                let ghost m1 = self.arena@;
                match after {
                    Some(b) => Self::set_previous(&mut self.arena, b, before),
                    None => {},
                }
                let ghost m2 = self.arena@;
                let new_first = if before.is_none() {
                    after
                } else {
                    p_first
                };
                let new_last = if after.is_none() {
                    before
                } else {
                    p_last
                };
                Self::set_ends(&mut self.arena, p, new_first, new_last);
                let ghost m3 = self.arena@;
                Self::set_links(&mut self.arena, h, None, None, None, first, last);
                self.children = Ghost(self.children@.insert(p.0, cs.remove(idx)));
                proof {
                    let t = *self;
                    let a = cs[idx - 1];
                    let b = cs[idx + 1];
                    assert(p.0 != h.0) by {
                        reveal(Tree::children_ok);
                        assert(prev.children_ok(p.0));
                    }
                    assert(idx > 0 ==> a != p.0 && a != h.0);
                    assert(idx + 1 < cs.len() ==> b != p.0 && b != h.0);
                    assert(idx > 0 && idx + 1 < cs.len() ==> a != b);
                    assert forall|i: usize| #[trigger] t.has(i) == prev.has(i) by {
                        if (i as int) < t@.len() {
                            assert(t@[i as int] is Some == prev@[i as int] is Some);
                        }
                    }
                    assert forall|i: usize|
                        i != h.0 && i != p.0 && (idx == 0 || i != cs[idx - 1]) && (idx + 1 >= cs.len() || i != cs[idx
                            + 1]) && prev.has(i) implies #[trigger] t.node(i) == prev.node(i) by {
                        assert(t@[i as int] == prev@[i as int]);
                    }
                    let ncs = cs.remove(idx);
                    assert(handle_at(ncs, 0) == new_first);
                    assert(handle_at(ncs, ncs.len() - 1) == new_last);
                    assert(t.node(p.0) == Node {
                        first_child: handle_at(ncs, 0),
                        last_child: handle_at(ncs, ncs.len() - 1),
                        ..prev.node(p.0)
                    });
                    assert(Self::detached(prev, t, h.0, p.0, idx));
                    Self::lemma_detach(prev, t, h.0, p.0, idx);
                }
            },
        }
    }

    /// How the store looks after the node `h`, at position `idx` among the
    /// children of `p`, is unlinked.
    closed spec fn detached(prev: Self, t: Self, h: usize, p: usize, idx: int) -> bool {
        let cs = prev.children@[p];
        let ncs = cs.remove(idx);
        &&& prev.wf()
        &&& prev.has(h)
        &&& prev.node(h).parent == Some(Handle(p))
        &&& prev.has(p)
        &&& 0 <= idx < cs.len()
        &&& cs[idx] == h
        &&& t.arena.wf()
        &&& forall|i: usize| #[trigger] t.has(i) == prev.has(i)
        &&& forall|i: usize|
            i != h && i != p && (idx == 0 || i != cs[idx - 1]) && (idx + 1 >= cs.len() || i != cs[idx
                + 1]) && prev.has(i) ==> #[trigger] t.node(i) == prev.node(i)
        &&& t.node(h) == Node {
            parent: None,
            previous_sibling: None,
            next_sibling: None,
            ..prev.node(h)
        }
        &&& t.node(p) == Node {
            first_child: handle_at(ncs, 0),
            last_child: handle_at(ncs, ncs.len() - 1),
            ..prev.node(p)
        }
        &&& idx > 0 ==> t.node(cs[idx - 1]) == Node {
            next_sibling: handle_at(cs, idx + 1),
            ..prev.node(cs[idx - 1])
        }
        &&& idx + 1 < cs.len() ==> t.node(cs[idx + 1]) == Node {
            previous_sibling: handle_at(cs, idx - 1),
            ..prev.node(cs[idx + 1])
        }
        &&& t.children@ == prev.children@.insert(p, ncs)
        &&& t.level == prev.level
        &&& t.top == prev.top
    }

    #[verifier::spinoff_prover]
    proof fn lemma_detach_parent_children(prev: Self, t: Self, h: usize, p: usize, idx: int)
        requires
            Self::detached(prev, t, h, p, idx),
        ensures
            t.children_ok(p),
    {
        reveal(Tree::children_ok);
        let cs = prev.children@[p];
        assert(prev.has(p));
        assert(prev.children_ok(p));
        let ncs = cs.remove(idx);
        assert(ncs.no_duplicates()) by {
            assert forall|x: int, y: int| 0 <= x < y < ncs.len() implies ncs[x] != ncs[y] by {
                let xx = if x < idx { x } else { x + 1 };
                let yy = if y < idx { y } else { y + 1 };
                assert(ncs[x] == cs[xx] && ncs[y] == cs[yy]);
            }
        }
        assert forall|k: int| 0 <= k < ncs.len() implies {
            &&& t.has(#[trigger] ncs[k])
            &&& t.node(ncs[k]).parent == Some(Handle(p))
            &&& t.level@[ncs[k]] > t.level@[p]
            &&& t.node(ncs[k]).previous_sibling == handle_at(ncs, k - 1)
            &&& t.node(ncs[k]).next_sibling == handle_at(ncs, k + 1)
        } by {
            let kk = if k < idx { k } else { k + 1 };
            assert(ncs[k] == cs[kk]);
            assert(prev.has(cs[kk]));
            assert(cs[kk] != h);
            assert(cs[kk] != p);
            if k < idx - 1 {
                assert(cs[kk] != cs[idx - 1]);
            }
            if k != idx - 1 && idx + 1 < cs.len() {
                assert(cs[kk] != cs[idx + 1] || k == idx);
            }
            if k > idx {
                assert(cs[kk] != cs[idx + 1]);
            }
            if 0 < k < idx {
                assert(ncs[k - 1] == cs[k - 1]);
            }
            if k + 1 < idx {
                assert(ncs[k + 1] == cs[k + 1]);
            }
            if k >= idx && k + 1 < ncs.len() {
                assert(ncs[k + 1] == cs[k + 2]);
            }
            if k > idx {
                assert(ncs[k - 1] == cs[k]);
            }
        }
    }

    #[verifier::spinoff_prover]
    proof fn lemma_detach_children_ok(prev: Self, t: Self, h: usize, p: usize, idx: int, i: usize)
        requires
            Self::detached(prev, t, h, p, idx),
            t.has(i),
            i != p,
        ensures
            t.children_ok(i),
    {
        reveal(Tree::children_ok);
        let cs = prev.children@[p];
        assert(prev.has(p));
        assert(prev.children_ok(p));
        assert(prev.has(i));
        assert(prev.children_ok(i));
        let ics = prev.children@[i];
        assert(t.children@[i] == ics);
        assert forall|k: int| 0 <= k < ics.len() implies {
            &&& t.has(#[trigger] ics[k])
            &&& t.node(ics[k]).parent == Some(Handle(i))
            &&& t.level@[ics[k]] > t.level@[i]
            &&& t.node(ics[k]).previous_sibling == handle_at(ics, k - 1)
            &&& t.node(ics[k]).next_sibling == handle_at(ics, k + 1)
        } by {
            assert(prev.has(ics[k]));
            assert(prev.node(ics[k]).parent == Some(Handle(i)));
            if ics[k] == h {
                assert(prev.node(h).parent == Some(Handle(p)));
            }
            if idx > 0 && ics[k] == cs[idx - 1] {
                assert(prev.node(cs[idx - 1]).parent == Some(Handle(p)));
            }
            if idx + 1 < cs.len() && ics[k] == cs[idx + 1] {
                assert(prev.node(cs[idx + 1]).parent == Some(Handle(p)));
            }
        }
    }

    #[verifier::spinoff_prover]
    proof fn lemma_detach_parent_ok(prev: Self, t: Self, h: usize, p: usize, idx: int, i: usize)
        requires
            Self::detached(prev, t, h, p, idx),
            t.has(i),
        ensures
            t.parent_ok(i),
    {
        reveal(Tree::children_ok);
        reveal(Tree::parent_ok);
        let cs = prev.children@[p];
        assert(prev.has(i));
        assert(prev.parent_ok(i));
        assert(prev.has(p));
        assert(prev.children_ok(p));
        if i != h {
            assert(t.node(i).parent == prev.node(i).parent);
            if let Some(q) = prev.node(i).parent {
                assert(prev.has(q.0));
                if q.0 == p {
                    let k = choose|k: int| 0 <= k < cs.len() && cs[k] == i;
                    assert(k != idx);
                    let kk = if k < idx { k } else { k - 1 };
                    assert(cs.remove(idx)[kk] == i);
                }
            } else {
                if idx > 0 {
                    assert(i != cs[idx - 1]);
                }
                if idx + 1 < cs.len() {
                    assert(i != cs[idx + 1]);
                }
            }
        }
    }

    proof fn lemma_detach(prev: Self, t: Self, h: usize, p: usize, idx: int)
        requires
            Self::detached(prev, t, h, p, idx),
        ensures
            t.wf(),
    {
        assert forall|i: usize| t.has(i) implies #[trigger] t.children_ok(i) by {
            if i == p {
                Self::lemma_detach_parent_children(prev, t, h, p, idx);
            } else {
                Self::lemma_detach_children_ok(prev, t, h, p, idx, i);
            }
        }
        assert forall|i: usize| t.has(i) implies #[trigger] t.parent_ok(i) by {
            Self::lemma_detach_parent_ok(prev, t, h, p, idx, i);
        }
        assert forall|i: usize| #[trigger] t.children@.contains_key(i) <==> t.has(i) by {
            assert(prev.children@.contains_key(i) <==> prev.has(i));
            assert(prev.has(p));
        }
        assert forall|i: usize| #[trigger] t.level@.contains_key(i) <==> t.has(i) by {
            assert(prev.level@.contains_key(i) <==> prev.has(i));
        }
    }

    /// The links around a node: its children stand once each in its child
    /// list, each names it as parent, sibling links follow the list, and the
    /// first and last child links bound it; a parent lists the node, and a root
    /// has no siblings.
    pub proof fn lemma_links(&self, p: usize)
        requires
            self.wf(),
            self.has(p),
        ensures
            self.child_list(p).no_duplicates(),
            self.node(p).first_child == handle_at(self.child_list(p), 0),
            self.node(p).last_child == handle_at(self.child_list(p), self.child_list(p).len() - 1),
            forall|k: int|
                #![trigger self.child_list(p)[k]]
                0 <= k < self.child_list(p).len() ==> {
                    let c = self.child_list(p)[k];
                    &&& self.has(c)
                    &&& self.node(c).parent == Some(Handle(p))
                    &&& self.node(c).previous_sibling == handle_at(self.child_list(p), k - 1)
                    &&& self.node(c).next_sibling == handle_at(self.child_list(p), k + 1)
                },
            match self.node(p).parent {
                Some(q) => self.has(q.0) && self.child_list(q.0).contains(p),
                None => self.node(p).previous_sibling is None && self.node(p).next_sibling is None,
            },
            self.node(p).parent != Some(Handle(p)),
            forall|q: usize| Some(Handle(q)) == self.node(p).parent ==> !#[trigger] self.child_list(p).contains(q),
    {
        assert(self.children_ok(p));
        assert(self.parent_ok(p));
        reveal(Tree::children_ok);
        reveal(Tree::parent_ok);
        if self.node(p).parent == Some(Handle(p)) {
            let k = choose|k: int| 0 <= k < self.children@[p].len() && self.children@[p][k] == p;
            assert(self.level@[self.children@[p][k]] > self.level@[p]);
        }
        assert forall|q: usize| Some(Handle(q)) == self.node(p).parent implies !#[trigger] self.child_list(p).contains(q) by {
            assert(self.has(q));
            assert(self.children_ok(q));
            if self.child_list(p).contains(q) {
                let k = choose|k: int| 0 <= k < self.children@[p].len() && self.children@[p][k] == q;
                assert(self.level@[self.children@[p][k]] > self.level@[p]);
                let j = choose|j: int| 0 <= j < self.children@[q].len() && self.children@[q][j] == p;
                assert(self.level@[self.children@[q][j]] > self.level@[q]);
            }
        }
    }

    proof fn lemma_release(prev: Self, t: Self, h: usize)
        requires
            prev.wf(),
            prev.has(h),
            prev.node(h).parent is None,
            prev.children@[h].len() == 0,
            t.arena.wf(),
            t@ == prev@.update(h as int, None),
            t.children@ == prev.children@.remove(h),
            t.level@ == prev.level@.remove(h),
            t.top == prev.top,
        ensures
            t.wf(),
    {
        assert forall|i: usize| #[trigger] t.has(i) == (prev.has(i) && i != h) by {}
        assert forall|i: usize| t.has(i) implies #[trigger] t.children_ok(i) by {
            assert(prev.children_ok(i));
            reveal(Tree::children_ok);
            let ics = prev.children@[i];
            assert forall|k: int| 0 <= k < ics.len() implies #[trigger] ics[k] != h by {
                if ics[k] == h {
                    assert(prev.node(h).parent == Some(Handle(i)));
                }
            }
        }
        assert forall|i: usize| t.has(i) implies #[trigger] t.parent_ok(i) by {
            assert(prev.parent_ok(i));
            reveal(Tree::parent_ok);
            if let Some(q) = prev.node(i).parent {
                if q.0 == h {
                    assert(prev.children@[h].contains(i));
                }
            }
        }
        assert forall|i: usize| #[trigger] t.children@.contains_key(i) <==> t.has(i) by {
            assert(prev.children@.contains_key(i) <==> prev.has(i));
        }
        assert forall|i: usize| #[trigger] t.level@.contains_key(i) <==> t.has(i) by {
            assert(prev.level@.contains_key(i) <==> prev.has(i));
        }
    }

    /// Removes the node of `h` alone: it is unlinked and its slot freed, and
    /// its children become roots, each keeping its own subtree. Returns the
    /// handles of those children in order; `None` when `h` names no node.
    pub fn remove(&mut self, h: Handle) -> (r: Option<Vec<Handle>>)
        requires
            old(self).wf(),
        ensures
            final(self).wf(),
            !old(self).has(h.0) ==> r is None && *final(self) == *old(self),
            old(self).has(h.0) ==> r is Some,
            r is Some ==> {
                let out = r.unwrap()@;
                let cs = old(self).child_list(h.0);
                &&& out.len() == cs.len()
                &&& forall|k: int| 0 <= k < cs.len() ==> #[trigger] out[k] == Handle(cs[k])
                &&& forall|k: int|
                    0 <= k < cs.len() ==> {
                        &&& final(self).has(#[trigger] cs[k])
                        &&& final(self).node(cs[k]).parent is None
                        &&& final(self).child_list(cs[k]) == old(self).child_list(cs[k])
                    }
                &&& !final(self).has(h.0)
                &&& final(self).spec_len() + 1 == old(self).spec_len()
                &&& forall|i: usize| i != h.0 ==> #[trigger] final(self).has(i) == old(self).has(i)
                &&& forall|i: usize|
                    i != h.0 && old(self).has(i) ==> (#[trigger] final(self).node(i)).data == old(self).node(i).data
                &&& forall|i: usize|
                    i != h.0 && old(self).has(i) && !cs.contains(i) ==> (#[trigger] final(self).node(i)).parent == old(self).node(i).parent
                &&& forall|q: usize|
                    q != h.0 && Some(Handle(q)) != old(self).node(h.0).parent ==> #[trigger] final(self).child_list(q) == old(self).child_list(q)
                &&& match old(self).node(h.0).parent {
                    Some(p) => final(self).child_list(p.0) == old(self).child_list(p.0).remove(
                        Self::position(old(self).child_list(p.0), h.0),
                    ),
                    None => true,
                }
            },
    {
        if self.arena.get(h).is_none() {
            return None;
        }
        let ghost start = *self;
        proof {
            start.lemma_links(h.0);
        }
        self.detach(h);
        let ghost cs = self.children@[h.0];
        assert(Some(Handle(h.0)) != start.node(h.0).parent);
        assert(self.child_list(h.0) == start.child_list(h.0));
        assert(cs == start.child_list(h.0));
        let mut out: Vec<Handle> = Vec::new();
        loop
            invariant
                self.wf(),
                self.has(h.0),
                self.node(h.0).parent is None,
                0 <= out.len() <= cs.len(),
                self.child_list(h.0) == cs.subrange(out.len() as int, cs.len() as int),
                forall|k: int| 0 <= k < out.len() ==> #[trigger] out@[k] == Handle(cs[k]),
                cs.no_duplicates(),
                !cs.contains(h.0),
                cs == start.child_list(h.0),
                start.node(h.0).parent != Some(h),
                forall|q: usize| Some(Handle(q)) == start.node(h.0).parent ==> !#[trigger] cs.contains(q),
                forall|k: int|
                    0 <= k < out.len() ==> #[trigger] self.child_list(cs[k]) == start.child_list(cs[k]),
                forall|k: int|
                    0 <= k < out.len() ==> {
                        &&& self.has(#[trigger] cs[k])
                        &&& self.node(cs[k]).parent is None
                    },
                forall|i: usize| #[trigger] self.has(i) == start.has(i),
                forall|i: usize|
                    start.has(i) ==> #[trigger] self.node(i).data == start.node(i).data,
                forall|i: usize|
                    start.has(i) && i != h.0 && !cs.contains(i) ==> #[trigger] self.node(i).parent
                        == start.node(i).parent,
                forall|q: usize|
                    q != h.0 && Some(Handle(q)) != start.node(h.0).parent ==> #[trigger] self.child_list(q)
                        == start.child_list(q),
                match start.node(h.0).parent {
                    Some(p) => self.child_list(p.0) == start.child_list(p.0).remove(
                        Self::position(start.child_list(p.0), h.0),
                    ),
                    None => true,
                },
                self.spec_len() == start.spec_len(),
            ensures
                self.child_list(h.0).len() == 0,
            decreases cs.len() - out.len(),
        {
            proof {
                self.lemma_links(h.0);
            }
            let first = self.arena.get(h).unwrap().first_child;
            match first {
                None => {
                    break;
                },
                Some(c) => {
                    let ghost before = *self;
                    let ghost k = out.len() as int;
                    proof {
                        assert(c.0 == cs[k]);
                        assert(self.child_list(h.0)[0] == c.0);
                        assert(Self::position(self.child_list(h.0), c.0) == 0);
                    }
                    self.detach(c);
                    out.push(c);
                    proof {
                        assert(self.child_list(h.0) =~= cs.subrange(out.len() as int, cs.len() as int));
                        assert forall|j: int| 0 <= j < out.len() implies {
                            &&& self.has(#[trigger] cs[j])
                            &&& self.node(cs[j]).parent is None
                        } by {
                            if j < k {
                                assert(cs[j] != c.0);
                            }
                        }
                        assert forall|q: usize|
                            q != h.0 && Some(Handle(q)) != start.node(h.0).parent implies #[trigger] self.child_list(q)
                                == start.child_list(q) by {
                            assert(before.child_list(q) == start.child_list(q));
                        }
                        assert forall|j: int| 0 <= j < out.len() implies #[trigger] self.child_list(cs[j])
                            == start.child_list(cs[j]) by {
                            assert(cs[j] != h.0);
                            if let Some(p) = start.node(h.0).parent {
                                assert(!cs.contains(p.0));
                                assert(cs[j] != p.0);
                            }
                        }
                        if let Some(p) = start.node(h.0).parent {
                            assert(p.0 != h.0);
                            assert(self.child_list(p.0) == before.child_list(p.0));
                        }
                        assert forall|i: usize|
                            start.has(i) && i != h.0 && !cs.contains(i) implies #[trigger] self.node(i).parent
                                == start.node(i).parent by {
                            assert(i != c.0);
                        }
                    }
                },
            }
        }
        proof {
            self.lemma_links(h.0);
            assert(cs.subrange(out.len() as int, cs.len() as int).len() == 0);
            assert(out.len() == cs.len());
        }
        let ghost prev = *self;
        let _ = self.arena.remove(h);
        self.children = Ghost(self.children@.remove(h.0));
        self.level = Ghost(self.level@.remove(h.0));
        proof {
            Self::lemma_release(prev, *self, h.0);
            assert forall|k: int| 0 <= k < cs.len() implies {
                &&& self.has(#[trigger] cs[k])
                &&& self.node(cs[k]).parent is None
                &&& self.child_list(cs[k]) == start.child_list(cs[k])
            } by {
                assert(cs[k] != h.0);
                assert(prev.has(cs[k]));
                assert(prev.child_list(cs[k]) == start.child_list(cs[k]));
                assert(self@[cs[k] as int] == prev@[cs[k] as int]);
                assert(self.children@[cs[k]] == prev.children@[cs[k]]);
            }
            assert forall|i: usize| i != h.0 implies #[trigger] self.has(i) == start.has(i) by {
                assert(prev.has(i) == start.has(i));
            }
            assert forall|i: usize| i != h.0 && start.has(i) implies #[trigger] self.node(i) == prev.node(i)
                && self.child_list(i) == prev.child_list(i) by {
                assert(prev.has(i));
                assert(self@[i as int] == prev@[i as int]);
            }
            assert(!self.has(h.0));
            assert(self.spec_len() + 1 == start.spec_len());
            assert forall|i: usize|
                i != h.0 && start.has(i) && !cs.contains(i) implies #[trigger] self.node(i).parent
                    == start.node(i).parent by {
                assert(self.node(i) == prev.node(i));
            }
            assert forall|q: usize|
                q != h.0 && Some(Handle(q)) != start.node(h.0).parent implies #[trigger] self.child_list(q)
                    == start.child_list(q) by {
                assert(self.children@[q] == prev.children@[q]);
                assert(prev.child_list(q) == start.child_list(q));
            }
            if let Some(p) = start.node(h.0).parent {
                assert(self.children@[p.0] == prev.children@[p.0]);
            }
        }
        Some(out)
    }

    /// The positions named by a sequence of handles.
    pub open spec fn ids(s: Seq<Handle>) -> Seq<usize> {
        s.map_values(|x: Handle| x.0)
    }

    /// Depth-first walk from `n` that lists a node before its descendants,
    /// going `fuel` levels deep.
    closed spec fn pre(&self, n: usize, fuel: nat) -> Seq<usize>
        decreases fuel, 0nat, 0nat,
    {
        if fuel == 0 {
            Seq::empty()
        } else {
            seq![n] + self.pre_list(self.children@[n], (fuel - 1) as nat)
        }
    }

    closed spec fn pre_list(&self, cs: Seq<usize>, fuel: nat) -> Seq<usize>
        decreases fuel, 1nat, cs.len(),
    {
        if cs.len() == 0 {
            Seq::empty()
        } else {
            self.pre_list(cs.drop_last(), fuel) + self.pre(cs.last(), fuel)
        }
    }

    /// Depth-first walk from `n` that lists a node after its descendants.
    closed spec fn post(&self, n: usize, fuel: nat) -> Seq<usize>
        decreases fuel, 0nat, 0nat,
    {
        if fuel == 0 {
            Seq::empty()
        } else {
            self.post_list(self.children@[n], (fuel - 1) as nat) + seq![n]
        }
    }

    closed spec fn post_list(&self, cs: Seq<usize>, fuel: nat) -> Seq<usize>
        decreases fuel, 1nat, cs.len(),
    {
        if cs.len() == 0 {
            Seq::empty()
        } else {
            self.post_list(cs.drop_last(), fuel) + self.post(cs.last(), fuel)
        }
    }

    /// Enough depth to reach every descendant of `n`.
    closed spec fn depth_bound(&self, n: usize) -> nat {
        (self.top@ + 1 - self.level@[n]) as nat
    }

    /// The subtree of `n` in pre-order: `n`, then the subtree of each child
    /// in turn, left to right.
    pub closed spec fn subtree_pre(&self, n: usize) -> Seq<usize> {
        self.pre(n, self.depth_bound(n))
    }

    /// The subtree of `n` in post-order: the subtree of each child in turn,
    /// left to right, then `n`.
    pub closed spec fn subtree_post(&self, n: usize) -> Seq<usize> {
        self.post(n, self.depth_bound(n))
    }

    /// The children of the node of `h`, left to right.
    pub fn children(&self, h: Handle) -> (r: Vec<Handle>)
        requires
            self.wf(),
            self.has(h.0),
        ensures
            Self::ids(r@) == self.child_list(h.0),
    {
        proof {
            self.lemma_links(h.0);
        }
        let ghost cs = self.child_list(h.0);
        let mut out: Vec<Handle> = Vec::new();
        let mut cur = self.arena.get(h).unwrap().first_child;
        loop
            invariant
                self.wf(),
                self.has(h.0),
                cs == self.child_list(h.0),
                out.len() <= cs.len(),
                cur == handle_at(cs, out.len() as int),
                Self::ids(out@) == cs.take(out.len() as int),
                forall|k: int|
                    #![trigger cs[k]]
                    0 <= k < cs.len() ==> {
                        &&& self.has(cs[k])
                        &&& self.node(cs[k]).next_sibling == handle_at(cs, k + 1)
                    },
            ensures
                Self::ids(out@) == cs,
            decreases cs.len() - out.len(),
        {
            match cur {
                None => {
                    assert(cs.take(out.len() as int) =~= cs);
                    break;
                },
                Some(c) => {
                    let ghost k = out.len() as int;
                    assert(cs[k] == c.0);
                    out.push(c);
                    cur = self.arena.get(c).unwrap().next_sibling;
                    assert(Self::ids(out@) =~= cs.take(out.len() as int));
                },
            }
        }
        out
    }

    /// Appends the walk of depth `fuel` from `n` to `out`.
    fn walk(&self, n: Handle, order: TraversalOrder, fuel: Ghost<nat>, out: &mut Vec<Handle>)
        requires
            self.wf(),
            self.has(n.0),
            fuel@ >= self.depth_bound(n.0),
        ensures
            Self::ids(final(out)@) == Self::ids(old(out)@) + match order {
                TraversalOrder::Pre => self.pre(n.0, fuel@),
                TraversalOrder::Post => self.post(n.0, fuel@),
            },
        decreases fuel@,
    {
        proof {
            self.lemma_links(n.0);
            assert(self.parent_ok(n.0));
            assert(self.children_ok(n.0));
            reveal(Tree::parent_ok);
            reveal(Tree::children_ok);
        }
        let ghost start = Self::ids(out@);
        let ghost f = (fuel@ - 1) as nat;
        let ghost cs = self.child_list(n.0);
        if let TraversalOrder::Pre = order {
            out.push(n);
            assert(Self::ids(out@) =~= start + seq![n.0]);
        }
        let ghost mid = Self::ids(out@);
        assert(self.level@[n.0] <= self.top@);
        assert(fuel@ >= self.top@ + 1 - self.level@[n.0]);
        assert forall|j: int| 0 <= j < cs.len() implies f >= self.depth_bound(#[trigger] cs[j]) by {
            assert(cs == self.children@[n.0]);
            assert(self.level@[cs[j]] > self.level@[n.0]);
            assert(f >= self.top@ - self.level@[n.0]);
            assert(self.has(cs[j]));
            assert(self.parent_ok(cs[j]));
            assert(self.level@[cs[j]] <= self.top@);
        }
        let mut cur = self.arena.get(n).unwrap().first_child;
        let ghost mut k: int = 0;
        loop
            invariant
                self.wf(),
                self.has(n.0),
                cs == self.child_list(n.0),
                0 <= k <= cs.len(),
                cur == handle_at(cs, k),
                fuel@ >= 1,
                f == fuel@ - 1,
                forall|j: int|
                    #![trigger cs[j]]
                    0 <= j < cs.len() ==> {
                        &&& self.has(cs[j])
                        &&& self.node(cs[j]).next_sibling == handle_at(cs, j + 1)
                        &&& f >= self.depth_bound(cs[j])
                    },
                Self::ids(out@) == mid + match order {
                    TraversalOrder::Pre => self.pre_list(cs.take(k), f),
                    TraversalOrder::Post => self.post_list(cs.take(k), f),
                },
            ensures
                k == cs.len(),
                Self::ids(out@) == mid + match order {
                    TraversalOrder::Pre => self.pre_list(cs, f),
                    TraversalOrder::Post => self.post_list(cs, f),
                },
            decreases cs.len() - k,
        {
            match cur {
                None => {
                    assert(cs.take(k) =~= cs);
                    break;
                },
                Some(c) => {
                    assert(cs[k] == c.0);
                    assert(cs.take(k + 1).drop_last() =~= cs.take(k));
                    assert(cs.take(k + 1).last() == c.0);
                    self.walk(c, order, Ghost(f), out);
                    cur = self.arena.get(c).unwrap().next_sibling;
                    proof {
                        k = k + 1;
                    }
                },
            }
        }
        if let TraversalOrder::Post = order {
            let ghost before = Self::ids(out@);
            out.push(n);
            assert(Self::ids(out@) =~= before + seq![n.0]);
        }
        assert(Self::ids(out@) =~= Self::ids(old(out)@) + match order {
            TraversalOrder::Pre => self.pre(n.0, fuel@),
            TraversalOrder::Post => self.post(n.0, fuel@),
        });
    }

    /// The nodes of the subtree of `h` in the given order, `h` included.
    pub fn subtree(&self, h: Handle, order: TraversalOrder) -> (r: Vec<Handle>)
        requires
            self.wf(),
            self.has(h.0),
        ensures
            Self::ids(r@) == match order {
                TraversalOrder::Pre => self.subtree_pre(h.0),
                TraversalOrder::Post => self.subtree_post(h.0),
            },
    {
        let mut out: Vec<Handle> = Vec::new();
        self.walk(h, order, Ghost(self.depth_bound(h.0)), &mut out);
        assert(Self::ids(out@) =~= Self::ids(Seq::<Handle>::empty()) + match order {
            TraversalOrder::Pre => self.subtree_pre(h.0),
            TraversalOrder::Post => self.subtree_post(h.0),
        });
        out
    }

    /// The descendants of `h` in the given order: its subtree without `h`.
    pub fn descendants(&self, h: Handle, order: TraversalOrder) -> (r: Vec<Handle>)
        requires
            self.wf(),
            self.has(h.0),
        ensures
            Self::ids(r@) == match order {
                TraversalOrder::Pre => self.subtree_pre(h.0).drop_first(),
                TraversalOrder::Post => self.subtree_post(h.0).drop_last(),
            },
    {
        proof {
            assert(self.parent_ok(h.0));
            reveal(Tree::parent_ok);
            let d = self.depth_bound(h.0);
            assert(d >= 1);
            assert(self.pre(h.0, d) == seq![h.0] + self.pre_list(self.children@[h.0], (d - 1) as nat));
            assert(self.post(h.0, d) == self.post_list(self.children@[h.0], (d - 1) as nat) + seq![h.0]);
        }
        let mut out = self.subtree(h, order);
        match order {
            TraversalOrder::Pre => {
                let ghost all = out@;
                assert(Self::ids(all).len() >= 1);
                out.remove(0);
                assert(Self::ids(out@) =~= Self::ids(all).drop_first());
            },
            TraversalOrder::Post => {
                let ghost all = out@;
                assert(Self::ids(all).len() >= 1);
                out.pop();
                assert(Self::ids(out@) =~= Self::ids(all).drop_last());
            },
        }
        out
    }

    /// The chain of parents from `n`, going `fuel` steps up at most.
    closed spec fn up(&self, n: usize, fuel: nat) -> Seq<usize>
        decreases fuel,
    {
        if fuel == 0 {
            Seq::empty()
        } else {
            match self.node(n).parent {
                Some(p) => seq![p.0] + self.up(p.0, (fuel - 1) as nat),
                None => Seq::empty(),
            }
        }
    }

    /// The ancestors of `n`, from its parent up to the root of its tree.
    pub closed spec fn ancestors_of(&self, n: usize) -> Seq<usize> {
        self.up(n, self.level@[n] + 1)
    }

    /// The ancestors of the node of `h`, from its parent up to its root.
    pub fn ancestors(&self, h: Handle) -> (r: Vec<Handle>)
        requires
            self.wf(),
            self.has(h.0),
        ensures
            Self::ids(r@) == self.ancestors_of(h.0),
    {
        let mut out: Vec<Handle> = Vec::new();
        let mut cur = h;
        let ghost mut f: nat = self.level@[h.0] + 1;
        loop
            invariant
                self.wf(),
                self.has(cur.0),
                f >= self.level@[cur.0] + 1,
                Self::ids(out@) + self.up(cur.0, f) == self.ancestors_of(h.0),
            decreases f,
        {
            proof {
                self.lemma_links(cur.0);
            }
            match self.arena.get(cur).unwrap().parent {
                None => {
                    assert(self.up(cur.0, f) == Seq::<usize>::empty());
                    assert(Self::ids(out@) =~= Self::ids(out@) + Seq::<usize>::empty());
                    return out;
                },
                Some(p) => {
                    proof {
                        assert(self.children_ok(p.0));
                        reveal(Tree::children_ok);
                        let k = choose|k: int| 0 <= k < self.children@[p.0].len() && self.children@[p.0][k] == cur.0;
                        assert(self.level@[self.children@[p.0][k]] > self.level@[p.0]);
                    }
                    let ghost before = Self::ids(out@);
                    out.push(p);
                    assert(Self::ids(out@) =~= before + seq![p.0]);
                    assert(before + self.up(cur.0, f) =~= Self::ids(out@) + self.up(p.0, (f - 1) as nat));
                    cur = p;
                    proof {
                        f = (f - 1) as nat;
                    }
                },
            }
        }
    }

    /// A tree holding one node, the root, with `data`.
    pub fn with_data(data: T) -> (r: (Self, Handle))
        ensures
            r.0.wf(),
            r.0.has(r.1.0),
            r.0.spec_len() == 1,
            r.0.node(r.1.0).data == data,
            r.0.node(r.1.0).parent is None,
            r.0.child_list(r.1.0) == Seq::<usize>::empty(),
    {
        let mut t = Tree::new();
        let h = t.new_node(data);
        (t, h)
    }

    proof fn lemma_pre_has(&self, n: usize, f: nat)
        requires
            self.wf(),
            self.has(n),
        ensures
            forall|i: int| 0 <= i < self.pre(n, f).len() ==> self.has(#[trigger] self.pre(n, f)[i]),
        decreases f, 0nat, 0nat,
    {
        if f > 0 {
            self.lemma_links(n);
            let b = self.pre_list(self.children@[n], (f - 1) as nat);
            self.lemma_pre_list_has(self.children@[n], (f - 1) as nat);
            assert(self.pre(n, f) == seq![n] + b);
            assert forall|i: int| 0 <= i < (seq![n] + b).len() implies self.has(#[trigger] (seq![n] + b)[i]) by {
                if i > 0 {
                    assert((seq![n] + b)[i] == b[i - 1]);
                }
            }
        }
    }

    proof fn lemma_pre_list_has(&self, cs: Seq<usize>, f: nat)
        requires
            self.wf(),
            forall|k: int| 0 <= k < cs.len() ==> self.has(#[trigger] cs[k]),
        ensures
            forall|i: int|
                0 <= i < self.pre_list(cs, f).len() ==> self.has(#[trigger] self.pre_list(cs, f)[i]),
        decreases f, 1nat, cs.len(),
    {
        if cs.len() > 0 {
            let a = self.pre_list(cs.drop_last(), f);
            let b = self.pre(cs.last(), f);
            self.lemma_pre_list_has(cs.drop_last(), f);
            self.lemma_pre_has(cs.last(), f);
            assert(self.pre_list(cs, f) == a + b);
            assert forall|i: int| 0 <= i < (a + b).len() implies self.has(#[trigger] (a + b)[i]) by {
                if i < a.len() {
                    assert((a + b)[i] == a[i]);
                } else {
                    assert((a + b)[i] == b[i - a.len()]);
                }
            }
        }
    }

    /// Removes the node of `h` together with all its descendants and frees
    /// their slots; `false`, with nothing changed, when `h` names no node.
    pub fn uproot(&mut self, h: Handle) -> (r: bool)
        requires
            old(self).wf(),
        ensures
            final(self).wf(),
            r == old(self).has(h.0),
            !r ==> *final(self) == *old(self),
            r ==> {
                let gone = old(self).subtree_pre(h.0).to_set();
                &&& forall|x: usize| gone.contains(x) ==> !#[trigger] final(self).has(x)
                &&& forall|x: usize|
                    !gone.contains(x) ==> #[trigger] final(self).has(x) == old(self).has(x)
                &&& forall|x: usize|
                    !gone.contains(x) && old(self).has(x) ==> (#[trigger] final(self).node(x)).data
                        == old(self).node(x).data
                &&& final(self).spec_len() + gone.len() == old(self).spec_len()
            },
    {
        if self.arena.get(h).is_none() {
            return false;
        }
        let ghost start = *self;
        let list = self.subtree(h, TraversalOrder::Pre);
        let ghost ids = Self::ids(list@);
        proof {
            self.lemma_pre_has(h.0, self.depth_bound(h.0));
        }
        let mut k: usize = 0;
        assert(ids.take(0).to_set() =~= Set::<usize>::empty());
        while k < list.len()
            invariant
                self.wf(),
                0 <= k <= list.len(),
                ids == Self::ids(list@),
                ids == start.subtree_pre(h.0),
                forall|i: int| 0 <= i < ids.len() ==> start.has(#[trigger] ids[i]),
                forall|x: usize|
                    #[trigger] self.has(x) == (start.has(x) && !ids.take(k as int).to_set().contains(x)),
                forall|x: usize|
                    self.has(x) ==> #[trigger] self.node(x).data == start.node(x).data,
                self.spec_len() + ids.take(k as int).to_set().len() == start.spec_len(),
            decreases list.len() - k,
        {
            let x = list[k];
            let ghost before = *self;
            let ghost done = ids.take(k as int).to_set();
            assert(ids[k as int] == x.0);
            assert(ids.take(k as int + 1).to_set() =~= done.insert(x.0)) by {
                assert(ids.take(k as int + 1) =~= ids.take(k as int).push(x.0));
                ids.take(k as int).lemma_push_to_set_commute(x.0);
            }
            let _ = self.remove(x);
            proof {
                vstd::seq_lib::seq_to_set_is_finite(ids.take(k as int));
                if before.has(x.0) {
                    assert(!done.contains(x.0));
                } else {
                    assert(start.has(x.0));
                    assert(done.contains(x.0));
                    assert(done.insert(x.0) =~= done);
                }
            }
            k = k + 1;
        }
        proof {
            assert(ids.take(ids.len() as int) =~= ids);
        }
        true
    }

    /// The siblings after the node of `h`, nearest first; none for a root.
    pub fn following_siblings(&self, h: Handle) -> (r: Vec<Handle>)
        requires
            self.wf(),
            self.has(h.0),
        ensures
            match self.node(h.0).parent {
                Some(p) => Self::ids(r@) == self.child_list(p.0).subrange(
                    Self::position(self.child_list(p.0), h.0) + 1,
                    self.child_list(p.0).len() as int,
                ),
                None => r@.len() == 0,
            },
    {
        proof {
            self.lemma_links(h.0);
        }
        let mut out: Vec<Handle> = Vec::new();
        let parent = self.arena.get(h).unwrap().parent;
        match parent {
            None => out,
            Some(p) => {
                let ghost cs = self.child_list(p.0);
                let ghost pos = Self::position(cs, h.0);
                proof {
                    self.lemma_links(p.0);
                    assert(cs.contains(h.0));
                }
                let mut cur = self.arena.get(h).unwrap().next_sibling;
                loop
                    invariant
                        self.wf(),
                        cs == self.child_list(p.0),
                        0 <= pos < cs.len(),
                        pos + 1 + out.len() <= cs.len(),
                        cur == handle_at(cs, pos + 1 + out.len()),
                        Self::ids(out@) == cs.subrange(pos + 1, pos + 1 + out.len()),
                        forall|k: int|
                            #![trigger cs[k]]
                            0 <= k < cs.len() ==> {
                                &&& self.has(cs[k])
                                &&& self.node(cs[k]).next_sibling == handle_at(cs, k + 1)
                            },
                    ensures
                        Self::ids(out@) == cs.subrange(pos + 1, cs.len() as int),
                    decreases cs.len() - out.len(),
                {
                    match cur {
                        None => {
                            break;
                        },
                        Some(c) => {
                            let ghost k = pos + 1 + out.len();
                            assert(cs[k] == c.0);
                            out.push(c);
                            cur = self.arena.get(c).unwrap().next_sibling;
                            assert(Self::ids(out@) =~= cs.subrange(pos + 1, pos + 1 + out.len()));
                        },
                    }
                }
                out
            },
        }
    }

    /// The siblings before the node of `h`, nearest first; none for a root.
    pub fn preceding_siblings(&self, h: Handle) -> (r: Vec<Handle>)
        requires
            self.wf(),
            self.has(h.0),
        ensures
            match self.node(h.0).parent {
                Some(p) => {
                    let cs = self.child_list(p.0);
                    let pos = Self::position(cs, h.0);
                    &&& r@.len() == pos
                    &&& forall|j: int| 0 <= j < pos ==> #[trigger] r@[j] == Handle(cs[pos - 1 - j])
                },
                None => r@.len() == 0,
            },
    {
        proof {
            self.lemma_links(h.0);
        }
        let mut out: Vec<Handle> = Vec::new();
        let parent = self.arena.get(h).unwrap().parent;
        match parent {
            None => out,
            Some(p) => {
                let ghost cs = self.child_list(p.0);
                let ghost pos = Self::position(cs, h.0);
                proof {
                    self.lemma_links(p.0);
                    assert(cs.contains(h.0));
                }
                let mut cur = self.arena.get(h).unwrap().previous_sibling;
                loop
                    invariant
                        self.wf(),
                        cs == self.child_list(p.0),
                        0 <= pos < cs.len(),
                        out.len() <= pos,
                        cur == handle_at(cs, pos - 1 - out.len()),
                        forall|j: int| 0 <= j < out.len() ==> #[trigger] out@[j] == Handle(cs[pos - 1 - j]),
                        forall|k: int|
                            #![trigger cs[k]]
                            0 <= k < cs.len() ==> {
                                &&& self.has(cs[k])
                                &&& self.node(cs[k]).previous_sibling == handle_at(cs, k - 1)
                            },
                    ensures
                        out.len() == pos,
                        forall|j: int| 0 <= j < pos ==> #[trigger] out@[j] == Handle(cs[pos - 1 - j]),
                    decreases pos - out.len(),
                {
                    match cur {
                        None => {
                            break;
                        },
                        Some(c) => {
                            let ghost k = pos - 1 - out.len();
                            assert(cs[k] == c.0);
                            out.push(c);
                            cur = self.arena.get(c).unwrap().previous_sibling;
                        },
                    }
                }
                out
            },
        }
    }
}

} // verus!
