//! Lists, verified. Each list is described by the sequence of elements it
//! holds, and each operation by what it does to that sequence.
//!
//! - [`interface`]: the interfaces that the lists implement.
//! - [`array_stack`]: a growable array, one buffer that doubles and halves.
//! - [`double_array_deque`]: a two-ended array, two growable arrays back to
//!   back that are kept in proportion.
//! - [`rootish_array_stack`]: a block array, whose empty slots grow only
//!   with the square root of its size.
//! - [`doubly_linked_list`]: a doubly linked list, which walks to an index
//!   from the nearer end.
//! - [`singly_linked_list`]: a singly linked list, a stack and a queue.
//! - [`laws`]: what follows for every list from the way its operations are
//!   described.

pub mod interface;
pub mod array_stack;
pub mod double_array_deque;
pub mod rootish_array_stack;
pub mod doubly_linked_list;
pub mod singly_linked_list;
pub mod laws;
