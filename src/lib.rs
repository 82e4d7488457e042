//! Range-sum trees over a fixed-length sequence of `i32`: a plain tree with
//! point updates and a lazy tree that also adds a delta over a whole range.
//! Stored aggregates use 32-bit two's-complement arithmetic; every read is
//! specified by the exact mathematical sum, wrapped to `i32`.
pub mod lazy_segment_tree;
pub mod laws;
pub mod model;
pub mod segment_tree;

pub use lazy_segment_tree::LazySegmentTree;
pub use segment_tree::SegmentTree;
