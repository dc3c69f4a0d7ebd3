//! Source text to instruction tree, and rewrites of that tree.

pub mod ast;
pub mod opcodes;
pub mod optimizer;
