//! Weighted graphs with traversals and shortest paths, heaps with keys that
//! can be lowered in place, and classical sorting algorithms, each with a
//! contract that is proved of it.

pub mod graph;
pub mod heap;
pub mod order;
pub mod slices;
pub mod sort;
