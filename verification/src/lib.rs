//! A verified front end for the qurts quantum programming language.
pub mod block;
pub mod compile;
pub mod cst_to_qauc;
pub mod cst_to_qduc;
pub mod env;
pub mod error;
pub mod examples;
pub mod expr;
pub mod format;
pub mod function;
pub mod grammar;
pub mod ir;
pub mod laws;
pub mod lowering;
pub mod parser;
pub mod program;
pub mod signature;
pub mod spans;
pub mod tree;
pub mod ty;
pub mod value;
