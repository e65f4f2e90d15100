//! Middle end of a compiler for a small imperative language: semantic
//! analysis (name resolution, type checking, constant folding of globals,
//! frame-relative storage layout) and code generation for a stack machine.

pub mod types;
pub mod nodes;
pub mod context;
pub mod analyzer;
pub mod code;
pub mod codegen;
pub mod laws;
