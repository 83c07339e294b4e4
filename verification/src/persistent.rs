//! A persistent immutable singly-linked list with structural sharing.
//!
//! Nodes are reference-counted and never change after construction, so any
//! number of lists may share the same suffix chain. `prepend` and `tail`
//! build a new list in O(1) without touching the receiver; a shared node is
//! freed only when the last list referring to it goes away, which the
//! reference count takes care of.

use std::rc::Rc;
use vstd::prelude::*;

verus! {

/// A persistent list of elements. Cloning the head pointer shares the whole
/// chain; no operation ever mutates an existing node.
pub struct List<T> {
    head: Option<Rc<Node<T>>>,
}

struct Node<T> {
    elem: T,
    next: Option<Rc<Node<T>>>,
}

/// The sequence of elements reachable from a link, nearest first.
spec fn link_view<T>(link: Option<Rc<Node<T>>>) -> Seq<T>
    decreases link,
{
    match link {
        None => Seq::empty(),
        Some(node) => seq![node.elem] + link_view(node.next),
    }
}

impl<T> View for List<T> {
    type V = Seq<T>;

    closed spec fn view(&self) -> Seq<T> {
        link_view(self.head)
    }
}

/// Relies on `Rc::clone`: the returned pointer refers to the same node, so
/// both values are equal; only the reference count changes.
#[verifier::external_body]
fn rc_clone<T>(rc: &Rc<Node<T>>) -> (r: Rc<Node<T>>)
    ensures
        r == *rc,
{
    Rc::clone(rc)
}

impl<T> List<T> {
    /// Creates an empty list.
    pub fn new() -> (r: Self)
        ensures
            r@ == Seq::<T>::empty(),
    {
        List { head: None }
    }

    /// Returns a new list with `elem` in front of the receiver's elements.
    /// The receiver is not modified: the new list's fresh head node points at
    /// the same shared rest-chain, so no element is copied.
    pub fn prepend(&self, elem: T) -> (r: List<T>)
        ensures
            r@ == seq![elem] + self@,
    {
        let next = match &self.head {
            None => None,
            Some(rc) => Some(rc_clone(rc)),
        };
        List { head: Some(Rc::new(Node { elem, next })) }
    }

    /// Returns a new list holding the receiver's second and later elements,
    /// sharing them with the receiver. On an empty list the result is empty
    /// again, so taking the tail is idempotent at exhaustion.
    pub fn tail(&self) -> (r: List<T>)
        ensures
            self@.len() == 0 ==> r@ == Seq::<T>::empty(),
            self@.len() > 0 ==> r@ == self@.skip(1),
    {
        let head = match &self.head {
            None => None,
            Some(rc) => match &rc.next {
                None => None,
                Some(next_rc) => Some(rc_clone(next_rc)),
            },
        };
        let r = List { head };
        proof {
            if self@.len() > 0 {
                assert(r@ =~= self@.skip(1));
            }
        }
        r
    }

    /// Returns a reference to the first element, or `None` on an empty list.
    pub fn head(&self) -> (r: Option<&T>)
        ensures
            self@.len() == 0 ==> r is None,
            self@.len() > 0 ==> (r matches Some(v) && *v == self@[0]),
    {
        match &self.head {
            None => None,
            Some(rc) => Some(&rc.elem),
        }
    }

    /// Empties this list, walking its chain iteratively and releasing one
    /// share per node. The walk stops at the first node that another list
    /// still shares: that node and everything after it stay alive for the
    /// other sharers, while this list itself becomes empty either way.
    pub fn clear(&mut self)
        ensures
            final(self)@ == Seq::<T>::empty(),
    {
        let mut cur = self.head.take();
        loop
            invariant
                true,
            decreases link_view(cur).len(),
        {
            match cur {
                None => {
                    break ;
                },
                Some(rc) => {
                    match Rc::try_unwrap(rc) {
                        Ok(node) => {
                            cur = node.next;
                        },
                        Err(_) => {
                            break ;
                        },
                    }
                },
            }
        }
    }

    /// Starts a read-only traversal over the elements, front first. The list
    /// is left untouched and the traversal can be restarted by calling this
    /// again.
    pub fn iter(&self) -> (r: Iter<'_, T>)
        ensures
            r@ == self@,
    {
        Iter { next: match &self.head {
            None => None,
            Some(rc) => Some(&**rc),
        } }
    }
}

/// A read-only traversal over a persistent list: yields references to the
/// elements in structural order, front first.
pub struct Iter<'a, T> {
    next: Option<&'a Node<T>>,
}

impl<'a, T> View for Iter<'a, T> {
    type V = Seq<T>;

    closed spec fn view(&self) -> Seq<T> {
        match self.next {
            None => Seq::empty(),
            Some(node) => seq![node.elem] + link_view(node.next),
        }
    }
}

impl<'a, T> Iter<'a, T> {
    /// Yields a reference to the next element, or `None` once exhausted.
    /// After exhaustion every further call keeps returning `None`.
    pub fn next(&mut self) -> (r: Option<&'a T>)
        ensures
            old(self)@.len() == 0 ==> r is None && final(self)@ == old(self)@,
            old(self)@.len() > 0 ==> (r matches Some(v) && *v == old(self)@[0] && final(self)@
                == old(self)@.skip(1)),
    {
        match self.next {
            None => None,
            Some(node) => {
                proof {
                    assert(old(self)@.skip(1) =~= link_view(node.next));
                }
                self.next = match &node.next {
                    None => None,
                    Some(next_rc) => Some(&**next_rc),
                };
                proof {
                    assert(self@ =~= link_view(node.next));
                }
                Some(&node.elem)
            },
        }
    }
}

/// Prepending an element and then stepping back with `tail` restores the
/// contents the receiver had, and `head` of the longer list is the element
/// that was prepended: building a list never disturbs what it was built from.
pub proof fn lemma_prepend_round_trip<T>(s: Seq<T>, elem: T)
    ensures
        (seq![elem] + s)[0] == elem,
        (seq![elem] + s).skip(1) == s,
{
    assert((seq![elem] + s).skip(1) =~= s);
}

} // verus!
