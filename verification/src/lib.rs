//! Planning core of a configuration-linking tool: a tree of targets whose
//! leaves say which source path is linked from where.

pub mod config;
pub mod order;
pub mod parser;
pub mod lookup;
pub mod laws;
