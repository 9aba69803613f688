//! Compiler core for the eight-command tape language: parsing, lowering to a
//! signed-delta tree, peephole optimisation and lowering to backend operations.

pub mod ast;
pub mod codegen;
pub mod config;
pub mod optimiser;
pub mod semantics;
