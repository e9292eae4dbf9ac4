//! A small regular-expression engine.
//!
//! The engine is a three-stage pipeline: a parser turns the surface syntax
//! into an abstract syntax tree, a compiler turns the tree into addressable
//! bytecode, and a backtracking virtual machine runs the bytecode against a
//! line of text.

pub mod engine;
pub mod helpers;

pub use engine::do_matching;
