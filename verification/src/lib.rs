//! Data structures: a binary space partitioning tree over integer
//! rectangles, a gap buffer for line editing, and a singly linked list.

pub mod bsptree;
pub mod gap_buffer;
pub mod linked_list;
