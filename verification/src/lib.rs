//! Classic data structures, each implemented from scratch and verified:
//! growable ring-buffer deques and queues, array-backed and linked
//! stacks, a rootish stack, binary search trees, a binary min-heap, a
//! bloom filter, and an open-addressing hash map with linear probing and
//! incremental growth.

pub mod array_deque;
pub mod array_dequeue;
pub mod array_queue;
pub mod array_stack;
pub mod array_stack_simple;
pub mod auxiliary_stack;
pub mod bloom_filter;
pub mod bstree;
pub mod bstree_box;
pub mod circular_buffer;
pub mod hash_map;
pub mod heap;
pub mod key;
pub mod linked_list_simple;
pub mod linked_list_tuple;
pub mod order;
pub mod rootish_array_stack;
pub mod singly_linked_stack;
pub mod unsafe_singly_linked_queue;
