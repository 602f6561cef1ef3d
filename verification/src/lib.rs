//! Singly linked containers with machine-checked contracts.
//!
//! [`linked_list::LinkedList`] owns a chain of heap nodes and a cached
//! length. [`queue::Queue`] and [`stack::Stack`] are the two capability
//! views over it, and [`hash_table::HashTable`] chains lists into a
//! fixed number of buckets. [`simple_list::List`] is the small
//! value-only variant of the list.
//!
//! Every container is described by a mathematical sequence (its view),
//! and every operation states how it changes that sequence.

pub mod linked_list;
pub mod queue;
pub mod stack;
pub mod simple_list;
pub mod hash_table;
