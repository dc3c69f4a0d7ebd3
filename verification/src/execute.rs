//! The tape machine, the interpreter and the code generator.

pub mod agreement;
pub mod compile;
pub mod equivalence;
pub mod interpret;
pub mod ir;
pub mod machine;
pub mod names;
pub mod session;
