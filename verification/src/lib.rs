//! A small graph-traversal library: directed graphs of identity-bearing
//! nodes, stored behind an abstract representation contract, and a lazy,
//! non-recursive depth-first traversal engine over that contract.

pub mod algorithms;
pub mod graph;
