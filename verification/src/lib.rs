//! A small expression language: a parser, a compiler to bytecode and a
//! stack machine that runs the bytecode, with the runtime values and the
//! registry of builtins that they share.
//!
//! Floating-point arithmetic and the builtins come from the embedder, behind
//! the traits [`values::FloatUnit`] and [`bytecodevm::Builtin`]. Everything
//! else is verified: each function states in its contract what it returns,
//! over the mathematical content of its arguments.

pub mod builtins;
pub mod bytecodevm;
pub mod compiler;
pub mod grammar;
pub mod names;
pub mod parser;
pub mod values;
