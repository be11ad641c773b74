//! A small expression language: a parser from parenthesised text to an
//! expression tree, and an evaluator that reduces a tree to a value under a
//! chain of lexically scoped frames.

pub mod syntax;
pub mod env;
pub mod arith;
pub mod error;
pub mod eval;
pub mod grammar;
pub mod parser;
pub mod session;
