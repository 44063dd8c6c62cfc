//! Core of a unit-aware expression language: the dimensional type algebra
//! (exponent vectors over user-declared base dimensions, with exact rational
//! exponents), the registry of dimensions and units, the scoped name
//! resolver, the statement/expression type checker that produces a fully
//! typed syntax tree, the interactive command grammar, and the diagnostic
//! reporter.

pub mod ast;
pub mod command;
pub mod config;
pub mod error;
pub mod rational;
pub mod registry;
pub mod report;
pub mod resolver;
pub mod span;
pub mod typechecker;
pub mod typed_ast;
