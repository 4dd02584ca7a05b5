//! A doubly linked list kept in one contiguous, growable arena.
//!
//! Nodes are linked through arena indices instead of pointers. Pushing and
//! popping at either end is O(1), a cursor inserts in O(1) at any position,
//! and removal keeps the arena packed by moving its last slot into the hole.
//!
//! Every operation is specified and proved with Verus. The model of a list
//! is the sequence of its elements from head to tail, `list@`. Beside it
//! stands `list.slot(k)`, the arena slot that holds the element at position
//! `k`: slots are what the links and a cursor hold, and they are not stable,
//! since a removal relocates the node of the last slot. `list.wf()` says that
//! the links of the arena spell out exactly that sequence in both directions;
//! every operation asks for it and keeps it.
//!
//! - [`list`] holds the arena and the operations at the two ends, with
//!   iteration in [`list::iter`] and the cursor in [`list::cursor`].
//! - [`laws`] proves what holds when calls are combined.

pub mod laws;
pub mod list;

pub use list::cursor::{Cursor, Seek};
pub use list::iter::{Iter, IterMut};
pub use list::{List, Node, Terminal, END};
