//! An owned singly-linked queue with an O(1) tail access point.
//!
//! The queue needs a second access point at the back of the chain so that
//! `push` can append without re-traversing from the head. Instead of an
//! untracked address into the owned chain, the nodes live in a growable
//! arena (`Vec`) and every link is an index-or-none handle, so a stale tail
//! can never dangle. The invariant such a second access point demands is
//! stated and proved here: the tail handle always designates the last node
//! of the chain rooted at the head handle, or both are absent.
//!
//! A popped slot is cleared and never reused, so the handles of the live
//! chain are strictly increasing from head to tail.

use vstd::prelude::*;

verus! {

/// A FIFO queue of owned elements, kept as a chain of nodes in an arena.
pub struct List<T> {
    nodes: Vec<Option<Node<T>>>,
    head: Option<usize>,
    tail: Option<usize>,
    order: Ghost<Seq<usize>>,
}

struct Node<T> {
    elem: T,
    next: Option<usize>,
}

impl<T> View for List<T> {
    type V = Seq<T>;

    closed spec fn view(&self) -> Seq<T> {
        Seq::new(self.order@.len(), |i: int| self.nodes@[self.order@[i] as int].unwrap().elem)
    }
}

impl<T> List<T> {
    /// The structural invariant: `order` lists the handles of the live
    /// chain front to back; consecutive handles are linked by `next`; the
    /// head handle designates the first node and the tail handle the last,
    /// or both are absent on an empty queue.
    pub closed spec fn wf(&self) -> bool {
        let ord = self.order@;
        let nodes = self.nodes@;
        &&& forall|i: int|
            0 <= i < ord.len() ==> (#[trigger] ord[i]) < nodes.len() && nodes[ord[i] as int] is Some
        &&& forall|i: int, j: int| 0 <= i < j < ord.len() ==> #[trigger] ord[i] < #[trigger] ord[j]
        &&& forall|k: usize|
            k < nodes.len() && (#[trigger] nodes[k as int]) is Some ==> ord.contains(k)
        &&& forall|i: int|
            0 <= i < ord.len() - 1 ==> (#[trigger] nodes[ord[i] as int]).unwrap().next == Some(
                ord[i + 1],
            )
        &&& ord.len() > 0 ==> nodes[ord.last() as int].unwrap().next is None
        &&& self.head == (if ord.len() == 0 {
            None::<usize>
        } else {
            Some(ord[0])
        })
        &&& self.tail == (if ord.len() == 0 {
            None::<usize>
        } else {
            Some(ord.last())
        })
    }

    /// Creates an empty queue: no nodes, and both access points absent.
    pub fn new() -> (r: Self)
        ensures
            r.wf(),
            r@ == Seq::<T>::empty(),
    {
        List { nodes: Vec::new(), head: None, tail: None, order: Ghost(Seq::empty()) }
    }

    /// Appends an element at the back of the queue, in O(1): the fresh node
    /// is linked behind the node the tail handle designates, and the tail
    /// handle moves to the fresh node. On an empty queue the head handle is
    /// re-established as well.
    pub fn push(&mut self, elem: T)
        requires
            old(self).wf(),
        ensures
            final(self).wf(),
            final(self)@ == old(self)@ + seq![elem],
    {
        let idx: usize = self.nodes.len();
        self.nodes.push(Some(Node { elem, next: None }));
        match self.tail {
            Some(t) => {
                match &mut self.nodes[t] {
                    Some(node) => {
                        node.next = Some(idx);
                    },
                    None => {},
                }
            },
            None => {
                self.head = Some(idx);
            },
        }
        self.tail = Some(idx);
        proof {
            self.order@ = self.order@.push(idx);
            assert forall|k: usize|
                k < self.nodes@.len() && (#[trigger] self.nodes@[k as int]) is Some
                    implies self.order@.contains(k) by {
                if k == idx {
                    assert(self.order@[self.order@.len() - 1] == idx);
                } else {
                    assert(old(self).nodes@[k as int] is Some);
                    assert(old(self).order@.contains(k));
                    let i = choose|i: int|
                        0 <= i < old(self).order@.len() && old(self).order@[i] == k;
                    assert(self.order@[i] == k);
                }
            }
            assert(self@ =~= old(self)@ + seq![elem]);
        }
    }

    /// Removes and returns the front element, or `None` on an empty queue.
    /// When the popped node was also the tail, the tail handle is cleared,
    /// so an emptied queue has both access points absent again.
    pub fn pop(&mut self) -> (r: Option<T>)
        requires
            old(self).wf(),
        ensures
            final(self).wf(),
            old(self)@.len() == 0 ==> r is None && final(self)@ == old(self)@,
            old(self)@.len() > 0 ==> r == Some(old(self)@[0]) && final(self)@ == old(self)@.skip(
                1,
            ),
    {
        match self.head {
            None => None,
            Some(h) => {
                proof {
                    assert(self.order@.len() > 0);
                    assert(h == self.order@[0]);
                    assert(self.nodes@[h as int] is Some);
                }
                let slot = &mut self.nodes[h];
                let node = slot.take().unwrap();
                self.head = node.next;
                if self.head.is_none() {
                    self.tail = None;
                }
                proof {
                    self.order@ = self.order@.skip(1);
                    assert(self.nodes@[h as int] is None);
                    assert forall|k: usize|
                        k < self.nodes@.len() && (#[trigger] self.nodes@[k as int]) is Some
                            implies self.order@.contains(k) by {
                        assert(k != h);
                        assert(old(self).nodes@[k as int] is Some);
                        assert(old(self).order@.contains(k));
                        let i = choose|i: int|
                            0 <= i < old(self).order@.len() && old(self).order@[i] == k;
                        assert(i != 0);
                        assert(self.order@[i - 1] == k);
                    }
                    assert(self@ =~= old(self)@.skip(1));
                }
                Some(node.elem)
            },
        }
    }

    /// Returns a reference to the front element without removing it.
    pub fn peek(&self) -> (r: Option<&T>)
        requires
            self.wf(),
        ensures
            self@.len() == 0 ==> r is None,
            self@.len() > 0 ==> (r matches Some(v) && *v == self@[0]),
    {
        match self.head {
            None => None,
            Some(h) => {
                proof {
                    assert(self.order@.len() > 0);
                    assert(h == self.order@[0]);
                    assert(self.nodes@[h as int] is Some);
                }
                match &self.nodes[h] {
                    Some(node) => Some(&node.elem),
                    None => {
                        proof {
                            assert(false);
                        }
                        None
                    },
                }
            },
        }
    }

    /// Returns a mutable reference to the front element without removing it.
    /// A write through the returned reference replaces the front element and
    /// leaves the rest of the queue unchanged.
    pub fn peek_mut(&mut self) -> (r: Option<&mut T>)
        requires
            old(self).wf(),
        ensures
            final(self).wf(),
            old(self)@.len() == 0 ==> r is None && final(self)@ == old(self)@,
            old(self)@.len() > 0 ==> (r matches Some(v) && *v == old(self)@[0] && final(self)@
                == old(self)@.update(0, *final(v))),
    {
        match self.head {
            None => None,
            Some(h) => {
                proof {
                    assert(self.order@.len() > 0);
                    assert(h == self.order@[0]);
                    assert(self.nodes@[h as int] is Some);
                }
                match &mut self.nodes[h] {
                    Some(node) => {
                        let r = &mut node.elem;
                        proof {
                            assert(after_borrow(*self).wf());
                            assert(after_borrow(*self)@ =~= old(self)@.update(0, *final(r)));
                        }
                        Some(r)
                    },
                    None => None,
                }
            },
        }
    }

    /// Hands the queue over to a consuming traversal; each step of the
    /// traversal pops the next element, front first.
    pub fn into_iter(self) -> (r: IntoIter<T>)
        requires
            self.wf(),
        ensures
            r.wf(),
            r@ == self@,
    {
        IntoIter { list: self }
    }

    /// Starts a read-only traversal over the elements, front first. The
    /// queue itself is left untouched and the traversal can be restarted by
    /// calling this again.
    pub fn iter(&self) -> (r: Iter<'_, T>)
        requires
            self.wf(),
        ensures
            r.wf(),
            r@ == self@,
    {
        Iter { nodes: &self.nodes, cur: self.head, rest: Ghost(self.order@) }
    }

    /// Empties the queue by detaching and dropping nodes head-first, one at
    /// a time, through the same pop loop an explicit teardown would use.
    /// Afterwards both access points are absent again.
    pub fn clear(&mut self)
        requires
            old(self).wf(),
        ensures
            final(self).wf(),
            final(self)@ == Seq::<T>::empty(),
    {
        loop
            invariant
                self.wf(),
            ensures
                self.wf(),
                self@.len() == 0,
            decreases self@.len(),
        {
            if self.pop().is_none() {
                break ;
            }
        }
        proof {
            assert(self@ =~= Seq::<T>::empty());
        }
    }

    /// Starts a mutable traversal over the elements, front first: each
    /// element is yielded exactly once, as a mutable reference, in
    /// structural order. The queue is mutably borrowed for as long as the
    /// traversal lives, so it cannot be otherwise accessed meanwhile. The
    /// references reach element values only, never the links, so once the
    /// traversal's borrow ends the queue is well-formed again and holds,
    /// position by position, whatever was last written through each
    /// reference (or the old element where nothing was written).
    pub fn iter_mut(&mut self) -> (it: IterMut<'_, T>)
        requires
            old(self).wf(),
        ensures
            it.refs().len() == old(self)@.len(),
            forall|i: int| 0 <= i < it.refs().len() ==> *(#[trigger] it.refs()[i]) == old(
                self,
            )@[i],
            final(self)@ == Seq::new(it.refs().len(), |i: int| *final(it.refs()[i])),
            final(self).wf(),
    {
        let arena_len: usize = self.nodes.len();
        proof {
            assert(self.nodes@.len() == arena_len);
            lemma_live_elems_indexed(self.nodes@, self.order@);
            assert(live_elems(self.nodes@) =~= self@);
        }
        let refs = collect_live(self.nodes.as_mut_slice());
        proof {
            let ghost fut = after_borrow(*self);
            lemma_live_elems_indexed(fut.nodes@, fut.order@);
            assert(fut@ =~= live_elems(fut.nodes@));
            assert(fut@ =~= Seq::new(refs@.len(), |i: int| *final(refs@[i])));
        }
        IterMut { refs }
    }
}

/// Gathers one mutable reference to each element in a live slot of `rest`,
/// in slot order. The returned references are pairwise disjoint and cover
/// the element values only: afterwards every slot keeps its liveness and its
/// link, and each live slot holds exactly the final value written through
/// its reference.
fn collect_live<'a, T>(rest: &'a mut [Option<Node<T>>]) -> (refs: Vec<&'a mut T>)
    ensures
        refs@.len() == live_elems(old(rest)@).len(),
        forall|i: int| 0 <= i < refs@.len()
            ==> *(#[trigger] refs@[i]) == live_elems(old(rest)@)[i],
        live_elems(final(rest)@) == Seq::new(refs@.len(), |i: int| *final(refs@[i])),
        final(rest)@.len() == old(rest)@.len(),
        forall|k: int|
            0 <= k < old(rest)@.len()
                ==> ((#[trigger] final(rest)@[k]) is Some <==> old(rest)@[k] is Some),
        forall|k: int|
            0 <= k < old(rest)@.len() && old(rest)@[k] is Some
                ==> (#[trigger] final(rest)@[k]).unwrap().next == old(rest)@[k].unwrap().next,
    decreases old(rest)@.len(),
{
    if rest.len() == 0 {
        Vec::new()
    } else {
        let ghost rest_future = final(rest)@;
        let (one, tail) = rest.split_at_mut(1);
        let ghost tail_now = tail@;
        let ghost tail_future = final(tail)@;
        let ghost one_future = final(one)@;
        let mut refs = collect_live(tail);
        proof {
            assert(old(rest)@.skip(1) =~= tail_now);
        }
        match one.first_mut() {
            Some(slot) => {
                proof {
                    assert(one_future.len() == 1);
                    assert(rest_future.skip(1) =~= tail_future);
                }
                match slot {
                    Some(node) => {
                        let first = &mut node.elem;
                        let ghost first_future = *final(first);
                        proof {
                            assert(live_elems(old(rest)@) =~= seq![*first] + live_elems(
                                tail_now,
                            ));
                            assert(live_elems(rest_future) =~= seq![first_future]
                                + live_elems(tail_future));
                        }
                        refs.insert(0, first);
                    },
                    None => {
                        proof {
                            assert(live_elems(old(rest)@) =~= live_elems(tail_now));
                            assert(live_elems(rest_future) =~= live_elems(tail_future));
                        }
                    },
                }
            },
            None => {
                proof {
                    assert(false);
                }
            },
        }
        refs
    }
}

/// A consuming traversal over a queue: yields owned elements, front first,
/// draining the queue as it goes.
pub struct IntoIter<T> {
    list: List<T>,
}

impl<T> View for IntoIter<T> {
    type V = Seq<T>;

    closed spec fn view(&self) -> Seq<T> {
        self.list@
    }
}

impl<T> IntoIter<T> {
    /// The underlying queue is still well-formed.
    pub closed spec fn wf(&self) -> bool {
        self.list.wf()
    }

    /// Takes the next element, or `None` once the queue is drained. After
    /// exhaustion every further call keeps returning `None`.
    pub fn next(&mut self) -> (r: Option<T>)
        requires
            old(self).wf(),
        ensures
            final(self).wf(),
            old(self)@.len() == 0 ==> r is None && final(self)@ == old(self)@,
            old(self)@.len() > 0 ==> r == Some(old(self)@[0]) && final(self)@ == old(self)@.skip(
                1,
            ),
    {
        self.list.pop()
    }
}

/// A read-only traversal over a queue: yields references to the elements in
/// structural order, front first, without consuming them.
pub struct Iter<'a, T> {
    nodes: &'a Vec<Option<Node<T>>>,
    cur: Option<usize>,
    rest: Ghost<Seq<usize>>,
}

impl<'a, T> View for Iter<'a, T> {
    type V = Seq<T>;

    closed spec fn view(&self) -> Seq<T> {
        Seq::new(self.rest@.len(), |i: int| self.nodes@[self.rest@[i] as int].unwrap().elem)
    }
}

impl<'a, T> Iter<'a, T> {
    /// The remaining handles form a live chain whose first node the cursor
    /// designates.
    pub closed spec fn wf(&self) -> bool {
        let rest = self.rest@;
        let nodes = self.nodes@;
        &&& forall|i: int|
            0 <= i < rest.len() ==> (#[trigger] rest[i]) < nodes.len() && nodes[rest[i] as int]
                is Some
        &&& forall|i: int|
            0 <= i < rest.len() - 1 ==> (#[trigger] nodes[rest[i] as int]).unwrap().next == Some(
                rest[i + 1],
            )
        &&& rest.len() > 0 ==> nodes[rest.last() as int].unwrap().next is None
        &&& self.cur == (if rest.len() == 0 {
            None::<usize>
        } else {
            Some(rest[0])
        })
    }

    /// Yields a reference to the next element, or `None` once exhausted.
    /// After exhaustion every further call keeps returning `None`.
    pub fn next(&mut self) -> (r: Option<&'a T>)
        requires
            old(self).wf(),
        ensures
            final(self).wf(),
            old(self)@.len() == 0 ==> r is None && final(self)@ == old(self)@,
            old(self)@.len() > 0 ==> (r matches Some(v) && *v == old(self)@[0] && final(self)@
                == old(self)@.skip(1)),
    {
        match self.cur {
            None => None,
            Some(h) => {
                proof {
                    assert(self.rest@.len() > 0);
                    assert(h == self.rest@[0]);
                    assert(self.nodes@[h as int] is Some);
                }
                let nodes_ref = self.nodes;
                match &nodes_ref[h] {
                    Some(node) => {
                        self.cur = node.next;
                        proof {
                            self.rest@ = self.rest@.skip(1);
                            assert(self@ =~= old(self)@.skip(1));
                        }
                        Some(&node.elem)
                    },
                    None => {
                        proof {
                            assert(false);
                        }
                        None
                    },
                }
            },
        }
    }
}

/// A mutable traversal over a queue: yields one mutable reference to each
/// element, in structural order, front first. Every yielded reference is
/// disjoint from every later one, so writes through them never conflict.
pub struct IterMut<'a, T> {
    refs: Vec<&'a mut T>,
}

impl<'a, T> View for IterMut<'a, T> {
    type V = Seq<T>;

    closed spec fn view(&self) -> Seq<T> {
        Seq::new(self.refs@.len(), |i: int| *self.refs@[i])
    }
}

impl<'a, T> IterMut<'a, T> {
    /// The mutable references the traversal has not yielded yet, in yield
    /// order. Contracts speak of them so that a caller can connect what it
    /// writes through each yielded reference with the queue's contents once
    /// the traversal is over.
    pub closed spec fn refs(&self) -> Seq<&'a mut T> {
        self.refs@
    }

    /// Yields a mutable reference to the next element, or `None` once
    /// exhausted. After exhaustion every further call keeps returning
    /// `None`. The yielded reference carries the next one of `refs()`, so
    /// writes through it reach the queue itself.
    pub fn next(&mut self) -> (r: Option<&'a mut T>)
        ensures
            old(self).refs().len() == 0 ==> r is None && final(self).refs() == old(self).refs(),
            old(self).refs().len() > 0 ==> (r matches Some(v) && *v == *old(self).refs()[0]
                && *final(v) == *final(old(self).refs()[0]) && final(self).refs() == old(
                self,
            ).refs().skip(1)),
    {
        if self.refs.len() == 0 {
            None
        } else {
            let r = self.refs.remove(0);
            proof {
                assert(old(self).refs().skip(1) =~= self.refs@);
            }
            Some(r)
        }
    }
}

/// The elements of the live (`Some`) slots of an arena segment, in slot
/// order, skipping cleared slots.
spec fn live_elems<T>(s: Seq<Option<Node<T>>>) -> Seq<T>
    decreases s.len(),
{
    if s.len() == 0 {
        Seq::empty()
    } else {
        match s[0] {
            None => live_elems(s.skip(1)),
            Some(node) => seq![node.elem] + live_elems(s.skip(1)),
        }
    }
}

proof fn lemma_live_elems_all_none<T>(s: Seq<Option<Node<T>>>)
    requires
        forall|k: int| 0 <= k < s.len() ==> (#[trigger] s[k]) is None,
    ensures
        live_elems(s) == Seq::<T>::empty(),
    decreases s.len(),
{
    if s.len() > 0 {
        lemma_live_elems_all_none(s.skip(1));
    }
}

proof fn lemma_live_elems_none_prefix<T>(s: Seq<Option<Node<T>>>, f: int)
    requires
        0 <= f < s.len(),
        forall|k: int| 0 <= k < f ==> (#[trigger] s[k]) is None,
        s[f] is Some,
    ensures
        live_elems(s) == seq![s[f].unwrap().elem] + live_elems(s.skip(f + 1)),
    decreases f,
{
    if f == 0 {
    } else {
        lemma_live_elems_none_prefix(s.skip(1), f - 1);
        assert(s.skip(1).skip(f) =~= s.skip(f + 1));
    }
}

/// Slot-order traversal agrees with chain order: when `ord` is a strictly
/// increasing enumeration of exactly the live slots of `s`, reading the live
/// slots in slot order yields the same elements as reading them through
/// `ord`.
proof fn lemma_live_elems_indexed<T>(s: Seq<Option<Node<T>>>, ord: Seq<usize>)
    requires
        s.len() <= usize::MAX,
        forall|i: int|
            0 <= i < ord.len() ==> (#[trigger] ord[i]) < s.len() && s[ord[i] as int] is Some,
        forall|i: int, j: int| 0 <= i < j < ord.len() ==> #[trigger] ord[i] < #[trigger] ord[j],
        forall|k: usize| k < s.len() && (#[trigger] s[k as int]) is Some ==> ord.contains(k),
    ensures
        live_elems(s) == Seq::new(ord.len(), |i: int| s[ord[i] as int].unwrap().elem),
    decreases ord.len(),
{
    if ord.len() == 0 {
        assert forall|k: int| 0 <= k < s.len() implies (#[trigger] s[k]) is None by {
            if s[k] is Some {
                assert(ord.contains(k as usize));
            }
        }
        lemma_live_elems_all_none(s);
        assert(Seq::new(ord.len(), |i: int| s[ord[i] as int].unwrap().elem) =~= Seq::<
            T,
        >::empty());
    } else {
        let f = ord[0] as int;
        assert forall|k: int| 0 <= k < f implies (#[trigger] s[k]) is None by {
            if s[k] is Some {
                assert(ord.contains(k as usize));
                let i = choose|i: int| 0 <= i < ord.len() && ord[i] == k as usize;
                if i > 0 {
                    assert(ord[0] < ord[i]);
                }
            }
        }
        lemma_live_elems_none_prefix(s, f);
        let s2 = s.skip(f + 1);
        let ord2 = Seq::new((ord.len() - 1) as nat, |i: int| (ord[i + 1] - (f + 1)) as usize);
        assert forall|i: int| 0 <= i < ord2.len() implies (#[trigger] ord2[i]) < s2.len()
            && s2[ord2[i] as int] is Some by {
            assert(ord[0] < ord[i + 1]);
            assert(s[ord[i + 1] as int] is Some);
        }
        assert forall|i: int, j: int| 0 <= i < j < ord2.len() implies #[trigger] ord2[i]
            < #[trigger] ord2[j] by {
            assert(ord[0] < ord[i + 1]);
            assert(ord[i + 1] < ord[j + 1]);
        }
        assert forall|k: usize| k < s2.len() && (#[trigger] s2[k as int]) is Some
            implies ord2.contains(k) by {
            let orig: usize = (k + f + 1) as usize;
            assert(s[orig as int] is Some);
            assert(ord.contains(orig));
            let i = choose|i: int| 0 <= i < ord.len() && ord[i] == orig;
            if i == 0 {
                assert(ord[0] == orig);
            }
            assert(i != 0);
            assert(ord2[i - 1] == k);
        }
        lemma_live_elems_indexed(s2, ord2);
        let lhs = seq![s[f].unwrap().elem] + Seq::new(
            ord2.len(),
            |i: int| s2[ord2[i] as int].unwrap().elem,
        );
        let rhs = Seq::new(ord.len(), |i: int| s[ord[i] as int].unwrap().elem);
        assert forall|i: int| 0 <= i < ord.len() implies lhs[i] == #[trigger] rhs[i] by {
            if i > 0 {
                assert(ord[0] < ord[i]);
                assert(s2[ord2[i - 1] as int] == s[ord[i] as int]);
            }
        }
        assert(lhs =~= rhs);
    }
}

/// The contents of a queue holding `s` after pushing the elements of `xs`
/// onto it one by one, in order.
pub open spec fn push_all<T>(s: Seq<T>, xs: Seq<T>) -> Seq<T>
    decreases xs.len(),
{
    if xs.len() == 0 {
        s
    } else {
        push_all(s + seq![xs[0]], xs.skip(1))
    }
}

/// The queue is FIFO: after pushing any sequence of elements, the contents
/// (and hence the order in which `pop` hands the elements back, front first)
/// are the push order, behind whatever was there before.
pub proof fn lemma_queue_fifo<T>(s: Seq<T>, xs: Seq<T>)
    ensures
        push_all(s, xs) == s + xs,
    decreases xs.len(),
{
    if xs.len() == 0 {
        assert(push_all(s, xs) =~= s + xs);
    } else {
        lemma_queue_fifo(s + seq![xs[0]], xs.skip(1));
        assert((s + seq![xs[0]]) + xs.skip(1) =~= s + xs);
    }
}

} // verus!
