//! A fixed-capacity memory-cache simulator.
//!
//! The cache keeps one entry per resident address and coordinates two
//! structures over the same logical entries: an ordered index (an unbalanced
//! binary search tree) for lookup by address, and an eviction-order queue.
//! When a new address arrives at capacity, the parity of the incoming address
//! selects which end of the queue loses its entry.

pub mod addr;
pub mod bst;
pub mod cache;
pub mod data;
pub mod elem;
