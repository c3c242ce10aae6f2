//! Traversal algorithms over the graph representation contract.

pub mod dfs;
pub mod walk;

pub use dfs::Dfs;
pub use dfs::DfsIntoIterator;
