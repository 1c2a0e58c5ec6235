//! The alpha language: a parser from source text to a syntax tree, a tree-walking
//! interpreter with lexically scoped closures, and a compiler that lowers the integer
//! subset of the language to steps that build SSA functions.

pub mod ast;
pub mod comp;
pub mod eval;
pub mod laws;
pub mod num;
pub mod parser;
pub mod trans;
