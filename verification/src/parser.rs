//! From targets to the tree of what is linked where.

pub mod node;
pub mod tree;
