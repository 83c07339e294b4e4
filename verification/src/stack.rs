//! An owned singly-linked stack.
//!
//! Each node is exclusively owned by its predecessor (or by the list head),
//! so the chain forms a simple forward-only ownership path. The list is
//! modelled by the sequence of its elements from the head down; `push` and
//! `pop` work on the front of that sequence, which makes the discipline LIFO.

use vstd::prelude::*;

verus! {

/// A LIFO stack of owned elements, kept as a chain of heap nodes.
pub struct List<T> {
    head: Option<Box<Node<T>>>,
}

struct Node<T> {
    elem: T,
    next: Option<Box<Node<T>>>,
}

/// The sequence of elements reachable from a link, nearest first.
spec fn link_view<T>(link: Option<Box<Node<T>>>) -> Seq<T>
    decreases link,
{
    match link {
        None => Seq::empty(),
        Some(node) => seq![node.elem] + link_view(node.next),
    }
}

impl<T> View for List<T> {
    type V = Seq<T>;

    closed spec fn view(&self) -> Seq<T> {
        link_view(self.head)
    }
}

impl<T> List<T> {
    /// Creates an empty stack.
    pub fn new() -> (r: Self)
        ensures
            r@ == Seq::<T>::empty(),
    {
        List { head: None }
    }

    /// Pushes an element on top of the stack.
    pub fn push(&mut self, elem: T)
        ensures
            final(self)@ == seq![elem] + old(self)@,
    {
        let new_node = Box::new(Node { elem, next: self.head.take() });
        self.head = Some(new_node);
    }

    /// Removes and returns the top element, or `None` on an empty stack.
    pub fn pop(&mut self) -> (r: Option<T>)
        ensures
            old(self)@.len() == 0 ==> r is None && final(self)@ == old(self)@,
            old(self)@.len() > 0 ==> r == Some(old(self)@[0]) && final(self)@ == old(self)@.skip(
                1,
            ),
    {
        match self.head.take() {
            None => None,
            Some(node) => {
                let Node { elem, next } = *node;
                self.head = next;
                proof {
                    assert(old(self)@.skip(1) =~= self@);
                }
                Some(elem)
            },
        }
    }

    /// Returns a reference to the top element without removing it.
    pub fn peek(&self) -> (r: Option<&T>)
        ensures
            self@.len() == 0 ==> r is None,
            self@.len() > 0 ==> (r matches Some(v) && *v == self@[0]),
    {
        match &self.head {
            None => None,
            Some(node) => Some(&node.elem),
        }
    }

    /// Returns a mutable reference to the top element without removing it.
    /// A write through the returned reference replaces the top element and
    /// leaves the rest of the stack unchanged.
    pub fn peek_mut(&mut self) -> (r: Option<&mut T>)
        ensures
            old(self)@.len() == 0 ==> r is None && final(self)@ == old(self)@,
            old(self)@.len() > 0 ==> (r matches Some(v) && *v == old(self)@[0] && final(self)@
                == old(self)@.update(0, *final(v))),
    {
        match &mut self.head {
            None => None,
            Some(node) => {
                let r = &mut node.elem;
                proof {
                    assert(after_borrow(*self)@ =~= old(self)@.update(0, *final(r)));
                }
                Some(r)
            },
        }
    }

    /// Hands the stack over to a consuming traversal; each step of the
    /// traversal pops the next element.
    pub fn into_iter(self) -> (r: IntoIter<T>)
        ensures
            r@ == self@,
    {
        IntoIter { list: self }
    }

    /// Starts a read-only traversal over the elements, top first. The stack
    /// itself is left untouched and the traversal can be restarted by calling
    /// this again.
    pub fn iter(&self) -> (r: Iter<'_, T>)
        ensures
            r@ == self@,
    {
        Iter { next: match &self.head {
            None => None,
            Some(node) => Some(&**node),
        } }
    }

    /// Empties the stack by detaching and dropping nodes head-first, one at
    /// a time. An explicit loop keeps the teardown of a long chain from
    /// growing the call stack the way delegating to nested destructors
    /// would.
    pub fn clear(&mut self)
        ensures
            final(self)@ == Seq::<T>::empty(),
    {
        loop
            invariant
                true,
            ensures
                self@.len() == 0,
            decreases self@.len(),
        {
            if self.pop().is_none() {
                break ;
            }
        }
        proof {
            assert(self@ =~= Seq::<T>::empty());
        }
    }

    /// Starts a mutable traversal over the elements, top first: each element
    /// is yielded exactly once, as a mutable reference, in structural order.
    /// The stack is mutably borrowed for as long as the traversal lives, so
    /// it cannot be otherwise accessed meanwhile. The references reach
    /// element values only, never the links, and once the traversal's borrow
    /// ends the stack holds, position by position, whatever was last written
    /// through each reference (or the old element where nothing was
    /// written).
    pub fn iter_mut(&mut self) -> (it: IterMut<'_, T>)
        ensures
            it.refs().len() == old(self)@.len(),
            forall|i: int| 0 <= i < it.refs().len() ==> *(#[trigger] it.refs()[i]) == old(
                self,
            )@[i],
            final(self)@ == Seq::new(it.refs().len(), |i: int| *final(it.refs()[i])),
    {
        IterMut { refs: collect_chain(&mut self.head) }
    }
}

/// Gathers one mutable reference to each element reachable from `link`, in
/// structural order. The returned references are pairwise disjoint and cover
/// the element values only, so the chain afterwards holds exactly the final
/// values written through them, in place.
fn collect_chain<'a, T>(link: &'a mut Option<Box<Node<T>>>) -> (refs: Vec<&'a mut T>)
    ensures
        refs@.len() == link_view(*old(link)).len(),
        forall|i: int| 0 <= i < refs@.len() ==> *(#[trigger] refs@[i]) == link_view(
            *old(link),
        )[i],
        link_view(*final(link)) == Seq::new(refs@.len(), |i: int| *final(refs@[i])),
    decreases link_view(*old(link)).len(),
{
    match link {
        None => Vec::new(),
        Some(node) => {
            let first = &mut node.elem;
            let mut refs = collect_chain(&mut node.next);
            refs.insert(0, first);
            refs
        },
    }
}

/// A mutable traversal over a stack: yields one mutable reference to each
/// element, in structural order, top first. Every yielded reference is
/// disjoint from every later one, so writes through them never conflict.
pub struct IterMut<'a, T> {
    refs: Vec<&'a mut T>,
}

impl<'a, T> View for IterMut<'a, T> {
    type V = Seq<T>;

    closed spec fn view(&self) -> Seq<T> {
        Seq::new(self.refs@.len(), |i: int| *self.refs@[i])
    }
}

impl<'a, T> IterMut<'a, T> {
    /// The mutable references the traversal has not yielded yet, in yield
    /// order. Contracts speak of them so that a caller can connect what it
    /// writes through each yielded reference with the stack's contents once
    /// the traversal is over.
    pub closed spec fn refs(&self) -> Seq<&'a mut T> {
        self.refs@
    }

    /// Yields a mutable reference to the next element, or `None` once
    /// exhausted. After exhaustion every further call keeps returning
    /// `None`. The yielded reference is the next one of `refs()`, so writes
    /// through it reach the stack itself.
    pub fn next(&mut self) -> (r: Option<&'a mut T>)
        ensures
            old(self).refs().len() == 0 ==> r is None && final(self).refs() == old(self).refs(),
            old(self).refs().len() > 0 ==> (r matches Some(v) && *v == *old(self).refs()[0]
                && *final(v) == *final(old(self).refs()[0]) && final(self).refs() == old(
                self,
            ).refs().skip(1)),
    {
        if self.refs.len() == 0 {
            None
        } else {
            let r = self.refs.remove(0);
            proof {
                assert(old(self).refs().skip(1) =~= self.refs@);
            }
            Some(r)
        }
    }
}

/// A consuming traversal over a stack: yields owned elements, top first,
/// draining the stack as it goes.
pub struct IntoIter<T> {
    list: List<T>,
}

impl<T> View for IntoIter<T> {
    type V = Seq<T>;

    closed spec fn view(&self) -> Seq<T> {
        self.list@
    }
}

impl<T> IntoIter<T> {
    /// Takes the next element, or `None` once the stack is drained. After
    /// exhaustion every further call keeps returning `None`.
    pub fn next(&mut self) -> (r: Option<T>)
        ensures
            old(self)@.len() == 0 ==> r is None && final(self)@ == old(self)@,
            old(self)@.len() > 0 ==> r == Some(old(self)@[0]) && final(self)@ == old(self)@.skip(
                1,
            ),
    {
        self.list.pop()
    }
}

/// A read-only traversal over a stack: yields references to the elements in
/// structural order, top first, without consuming them.
pub struct Iter<'a, T> {
    next: Option<&'a Node<T>>,
}

impl<'a, T> View for Iter<'a, T> {
    type V = Seq<T>;

    closed spec fn view(&self) -> Seq<T> {
        match self.next {
            None => Seq::empty(),
            Some(node) => seq![node.elem] + link_view(node.next),
        }
    }
}

impl<'a, T> Iter<'a, T> {
    /// Yields a reference to the next element, or `None` once exhausted.
    /// After exhaustion every further call keeps returning `None`.
    pub fn next(&mut self) -> (r: Option<&'a T>)
        ensures
            old(self)@.len() == 0 ==> r is None && final(self)@ == old(self)@,
            old(self)@.len() > 0 ==> (r matches Some(v) && *v == old(self)@[0] && final(self)@
                == old(self)@.skip(1)),
    {
        match self.next {
            None => None,
            Some(node) => {
                proof {
                    assert(old(self)@.skip(1) =~= link_view(node.next));
                }
                self.next = match &node.next {
                    None => None,
                    Some(next_node) => Some(&**next_node),
                };
                proof {
                    assert(self@ =~= link_view(node.next));
                }
                Some(&node.elem)
            },
        }
    }
}

/// The contents of a stack holding `s` after pushing the elements of `xs`
/// onto it one by one, in order.
pub open spec fn push_all<T>(s: Seq<T>, xs: Seq<T>) -> Seq<T>
    decreases xs.len(),
{
    if xs.len() == 0 {
        s
    } else {
        push_all(seq![xs[0]] + s, xs.skip(1))
    }
}

/// The stack is LIFO: after pushing any sequence of elements, the contents
/// (and hence the order in which `pop` hands the elements back, front first)
/// are the reverse of the push order, on top of whatever was there before.
pub proof fn lemma_stack_lifo<T>(s: Seq<T>, xs: Seq<T>)
    ensures
        push_all(s, xs) == xs.reverse() + s,
    decreases xs.len(),
{
    if xs.len() == 0 {
        assert(push_all(s, xs) =~= xs.reverse() + s);
    } else {
        lemma_stack_lifo(seq![xs[0]] + s, xs.skip(1));
        assert(xs.skip(1).reverse() + (seq![xs[0]] + s) =~= xs.reverse() + s);
    }
}

} // verus!
