//! Verified core of git-sprout: the parsers and decisions behind growing a new git
//! worktree out of block clones of an existing checkout.
pub mod bytes;
pub mod pathmap;
pub mod tree;
pub mod attributes;
pub mod scratch_index;
pub mod paths;
pub mod source;
pub mod plan;
pub mod stats;
pub mod clone;
pub mod request;
pub mod delegate;
