//! A collection of small, self-contained linked-list data structures, each
//! exploring a different ownership strategy for a chain of nodes:
//!
//! - [`stack`]: an owned singly-linked stack (LIFO, exclusive ownership).
//! - [`queue`]: an owned singly-linked queue (FIFO) with an O(1) tail access
//!   point, kept as an index into a node arena.
//! - [`persistent`]: a persistent immutable list with structural sharing
//!   through reference-counted nodes.
//! - [`deque`]: a doubly-linked deque over a node arena, with prev/next
//!   symmetry maintained as a verified invariant.
//!
//! Every structure is modelled by a sequence of its elements, and every
//! operation carries a contract that pins down the resulting sequence.

pub mod deque;
pub mod persistent;
pub mod queue;
pub mod stack;
