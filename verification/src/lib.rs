//! A Brainfuck toolchain: parser, tree optimizer, tape machine, interpreter
//! and a generator of QBE intermediate language.

pub mod args;
pub mod execute;
pub mod parse;
pub mod text;
