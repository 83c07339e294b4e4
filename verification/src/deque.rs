//! A doubly-linked deque over a node arena.
//!
//! Each node holds an element and index handles to its two neighbors. The
//! nodes live in a growable arena (`Vec`), replacing shared reference-counted
//! cells with a single owning store, so all aliasing is checked by ordinary
//! borrows. The defining invariant is prev/next symmetry: for any two
//! adjacent live nodes A (earlier) and B (later), A's `next` designates B and
//! B's `prev` designates A; the first node has no `prev` and the last has no
//! `next`. Every operation is proved to preserve it.

use vstd::prelude::*;

verus! {

/// A deque of owned elements with O(1) access to both ends.
pub struct List<T> {
    nodes: Vec<Option<Node<T>>>,
    head: Option<usize>,
    tail: Option<usize>,
    order: Ghost<Seq<usize>>,
}

/// A chain node: one element plus handles to the two neighbors.
pub struct Node<T> {
    elem: T,
    prev: Option<usize>,
    next: Option<usize>,
}

impl<T> View for Node<T> {
    type V = T;

    closed spec fn view(&self) -> T {
        self.elem
    }
}

impl<T> Node<T> {
    /// True of a node with no neighbors on either side.
    pub closed spec fn detached(&self) -> bool {
        self.prev is None && self.next is None
    }

    /// Creates a fresh node holding `elem`, with both neighbor links absent.
    pub fn new(elem: T) -> (r: Node<T>)
        ensures
            r@ == elem,
            r.detached(),
    {
        Node { elem, prev: None, next: None }
    }
}

impl<T> View for List<T> {
    type V = Seq<T>;

    closed spec fn view(&self) -> Seq<T> {
        Seq::new(self.order@.len(), |i: int| self.nodes@[self.order@[i] as int].unwrap().elem)
    }
}

impl<T> List<T> {
    /// The structural invariant: `order` lists the handles of the live chain
    /// front to back; adjacent nodes designate each other symmetrically
    /// through `next` and `prev`; the first node has no `prev`, the last no
    /// `next`; and the head and tail handles designate the two ends, or both
    /// are absent on an empty deque.
    pub closed spec fn wf(&self) -> bool {
        let ord = self.order@;
        let nodes = self.nodes@;
        &&& forall|i: int|
            0 <= i < ord.len() ==> (#[trigger] ord[i]) < nodes.len() && nodes[ord[i] as int] is Some
        &&& forall|i: int, j: int|
            0 <= i < ord.len() && 0 <= j < ord.len() && i != j ==> #[trigger] ord[i] != #[trigger] ord[j]
        &&& forall|i: int|
            0 <= i < ord.len() - 1 ==> (#[trigger] nodes[ord[i] as int]).unwrap().next == Some(
                ord[i + 1],
            )
        &&& forall|i: int|
            1 <= i < ord.len() ==> (#[trigger] nodes[ord[i] as int]).unwrap().prev == Some(
                ord[i - 1],
            )
        &&& ord.len() > 0 ==> nodes[ord[0] as int].unwrap().prev is None
        &&& ord.len() > 0 ==> nodes[ord.last() as int].unwrap().next is None
        &&& self.head == (if ord.len() == 0 {
            None::<usize>
        } else {
            Some(ord[0])
        })
        &&& self.tail == (if ord.len() == 0 {
            None::<usize>
        } else {
            Some(ord.last())
        })
    }

    /// Creates an empty deque: no nodes, and both access points absent.
    pub fn new() -> (r: Self)
        ensures
            r.wf(),
            r@ == Seq::<T>::empty(),
    {
        List { nodes: Vec::new(), head: None, tail: None, order: Ghost(Seq::empty()) }
    }

    /// Pushes an element at the front, in O(1): the fresh node is linked
    /// before the current first node and the head handle moves to it. On an
    /// empty deque the new node becomes both head and tail.
    pub fn push_front(&mut self, elem: T)
        requires
            old(self).wf(),
        ensures
            final(self).wf(),
            final(self)@ == seq![elem] + old(self)@,
    {
        let idx: usize = self.nodes.len();
        match self.head {
            Some(old_head) => {
                self.nodes.push(Some(Node { elem, prev: None, next: Some(old_head) }));
                match &mut self.nodes[old_head] {
                    Some(node) => {
                        node.prev = Some(idx);
                    },
                    None => {},
                }
                self.head = Some(idx);
            },
            None => {
                self.nodes.push(Some(Node { elem, prev: None, next: None }));
                self.head = Some(idx);
                self.tail = Some(idx);
            },
        }
        proof {
            self.order@ = seq![idx] + self.order@;
            assert(self@ =~= seq![elem] + old(self)@);
        }
    }

    /// Pushes an element at the back, in O(1): the fresh node is linked
    /// behind the current last node and the tail handle moves to it. On an
    /// empty deque the new node becomes both head and tail.
    pub fn push_back(&mut self, elem: T)
        requires
            old(self).wf(),
        ensures
            final(self).wf(),
            final(self)@ == old(self)@ + seq![elem],
    {
        let idx: usize = self.nodes.len();
        match self.tail {
            Some(old_tail) => {
                self.nodes.push(Some(Node { elem, prev: Some(old_tail), next: None }));
                match &mut self.nodes[old_tail] {
                    Some(node) => {
                        node.next = Some(idx);
                    },
                    None => {},
                }
                self.tail = Some(idx);
            },
            None => {
                self.nodes.push(Some(Node { elem, prev: None, next: None }));
                self.head = Some(idx);
                self.tail = Some(idx);
            },
        }
        proof {
            self.order@ = self.order@.push(idx);
            assert(self@ =~= old(self)@ + seq![elem]);
        }
    }

    /// Removes and returns the front element, or `None` on an empty deque.
    /// The second node, if any, is promoted to the front and its `prev` link
    /// back to the removed node is cleared; if the removed node was the sole
    /// element, both access points are cleared.
    pub fn pop_front(&mut self) -> (r: Option<T>)
        requires
            old(self).wf(),
        ensures
            final(self).wf(),
            old(self)@.len() == 0 ==> r is None && final(self)@ == old(self)@,
            old(self)@.len() > 0 ==> r == Some(old(self)@[0]) && final(self)@ == old(self)@.skip(
                1,
            ),
    {
        match self.head {
            None => None,
            Some(h) => {
                proof {
                    assert(self.order@.len() > 0);
                    assert(h == self.order@[0]);
                    assert(self.nodes@[h as int] is Some);
                }
                let slot = &mut self.nodes[h];
                let node = slot.take().unwrap();
                match node.next {
                    Some(nx) => {
                        proof {
                            assert(self.order@.len() > 1);
                            assert(nx == self.order@[1]);
                            assert(self.nodes@[nx as int] is Some);
                        }
                        match &mut self.nodes[nx] {
                            Some(n2) => {
                                n2.prev = None;
                            },
                            None => {},
                        }
                        self.head = Some(nx);
                    },
                    None => {
                        self.head = None;
                        self.tail = None;
                    },
                }
                proof {
                    self.order@ = self.order@.skip(1);
                    assert(self@ =~= old(self)@.skip(1));
                }
                Some(node.elem)
            },
        }
    }

    /// Removes and returns the back element, or `None` on an empty deque.
    /// The next-to-last node, if any, is promoted to the back and its `next`
    /// link to the removed node is cleared; if the removed node was the sole
    /// element, both access points are cleared.
    pub fn pop_back(&mut self) -> (r: Option<T>)
        requires
            old(self).wf(),
        ensures
            final(self).wf(),
            old(self)@.len() == 0 ==> r is None && final(self)@ == old(self)@,
            old(self)@.len() > 0 ==> r == Some(old(self)@.last()) && final(self)@ == old(
                self,
            )@.drop_last(),
    {
        match self.tail {
            None => None,
            Some(t) => {
                proof {
                    assert(self.order@.len() > 0);
                    assert(t == self.order@.last());
                    assert(self.nodes@[t as int] is Some);
                }
                let slot = &mut self.nodes[t];
                let node = slot.take().unwrap();
                match node.prev {
                    Some(pv) => {
                        proof {
                            assert(self.order@.len() > 1);
                            assert(pv == self.order@[self.order@.len() - 2]);
                            assert(self.nodes@[pv as int] is Some);
                        }
                        match &mut self.nodes[pv] {
                            Some(n2) => {
                                n2.next = None;
                            },
                            None => {},
                        }
                        self.tail = Some(pv);
                    },
                    None => {
                        self.head = None;
                        self.tail = None;
                    },
                }
                proof {
                    self.order@ = self.order@.drop_last();
                    assert(self@ =~= old(self)@.drop_last());
                }
                Some(node.elem)
            },
        }
    }

    /// Empties the deque by detaching and dropping nodes front-first, one
    /// at a time, through the same pop loop an explicit teardown would use.
    /// Afterwards both access points are absent again.
    pub fn clear(&mut self)
        requires
            old(self).wf(),
        ensures
            final(self).wf(),
            final(self)@ == Seq::<T>::empty(),
    {
        loop
            invariant
                self.wf(),
            ensures
                self.wf(),
                self@.len() == 0,
            decreases self@.len(),
        {
            if self.pop_front().is_none() {
                break ;
            }
        }
        proof {
            assert(self@ =~= Seq::<T>::empty());
        }
    }

    /// Returns a reference to the front element without removing it.
    pub fn peek_front(&self) -> (r: Option<&T>)
        requires
            self.wf(),
        ensures
            self@.len() == 0 ==> r is None,
            self@.len() > 0 ==> (r matches Some(v) && *v == self@[0]),
    {
        match self.head {
            None => None,
            Some(h) => {
                proof {
                    assert(self.order@.len() > 0);
                    assert(h == self.order@[0]);
                    assert(self.nodes@[h as int] is Some);
                }
                match &self.nodes[h] {
                    Some(node) => Some(&node.elem),
                    None => {
                        proof {
                            assert(false);
                        }
                        None
                    },
                }
            },
        }
    }

    /// Returns a reference to the back element without removing it.
    pub fn peek_back(&self) -> (r: Option<&T>)
        requires
            self.wf(),
        ensures
            self@.len() == 0 ==> r is None,
            self@.len() > 0 ==> (r matches Some(v) && *v == self@.last()),
    {
        match self.tail {
            None => None,
            Some(t) => {
                proof {
                    assert(self.order@.len() > 0);
                    assert(t == self.order@.last());
                    assert(self.nodes@[t as int] is Some);
                }
                match &self.nodes[t] {
                    Some(node) => Some(&node.elem),
                    None => {
                        proof {
                            assert(false);
                        }
                        None
                    },
                }
            },
        }
    }

    /// Returns a mutable reference to the front element without removing it.
    /// A write through the returned reference replaces the front element and
    /// leaves the rest of the deque unchanged.
    pub fn peek_front_mut(&mut self) -> (r: Option<&mut T>)
        requires
            old(self).wf(),
        ensures
            final(self).wf(),
            old(self)@.len() == 0 ==> r is None && final(self)@ == old(self)@,
            old(self)@.len() > 0 ==> (r matches Some(v) && *v == old(self)@[0] && final(self)@
                == old(self)@.update(0, *final(v))),
    {
        match self.head {
            None => None,
            Some(h) => {
                proof {
                    assert(self.order@.len() > 0);
                    assert(h == self.order@[0]);
                    assert(self.nodes@[h as int] is Some);
                }
                match &mut self.nodes[h] {
                    Some(node) => {
                        let r = &mut node.elem;
                        proof {
                            assert(after_borrow(*self).wf());
                            assert(after_borrow(*self)@ =~= old(self)@.update(0, *final(r)));
                        }
                        Some(r)
                    },
                    None => None,
                }
            },
        }
    }

    /// Returns a mutable reference to the back element without removing it.
    /// A write through the returned reference replaces the back element and
    /// leaves the rest of the deque unchanged.
    pub fn peek_back_mut(&mut self) -> (r: Option<&mut T>)
        requires
            old(self).wf(),
        ensures
            final(self).wf(),
            old(self)@.len() == 0 ==> r is None && final(self)@ == old(self)@,
            old(self)@.len() > 0 ==> (r matches Some(v) && *v == old(self)@.last()
                && final(self)@ == old(self)@.update(old(self)@.len() - 1, *final(v))),
    {
        match self.tail {
            None => None,
            Some(t) => {
                proof {
                    assert(self.order@.len() > 0);
                    assert(t == self.order@.last());
                    assert(self.nodes@[t as int] is Some);
                }
                match &mut self.nodes[t] {
                    Some(node) => {
                        let r = &mut node.elem;
                        proof {
                            assert(after_borrow(*self).wf());
                            assert(after_borrow(*self)@ =~= old(self)@.update(
                                old(self)@.len() - 1,
                                *final(r),
                            ));
                        }
                        Some(r)
                    },
                    None => None,
                }
            },
        }
    }
}

/// Writing an element through a mutable peek accessor is visible to every
/// later read of the same position: replacing position `i` of the contents
/// with `v` yields contents whose element at `i` is `v`, with every other
/// element unchanged.
pub proof fn lemma_write_then_read<T>(s: Seq<T>, i: int, v: T)
    requires
        0 <= i < s.len(),
    ensures
        s.update(i, v)[i] == v,
        s.update(i, v).len() == s.len(),
        forall|j: int| 0 <= j < s.len() && j != i ==> s.update(i, v)[j] == s[j],
{
}

} // verus!
