//! A write-once B+ tree index: a static, ordered, multi-level structure
//! built in bulk from a sorted key/value sequence and never rebalanced
//! afterward. The library covers construction only: computing the tree
//! depth required for a given input size, partitioning the sorted keys
//! into chunks, and ordered insertion into pre-sized node storage.

pub mod node;
pub mod tree;
