//! Interaction nets: a graph-rewriting engine, the registry of its rewrite
//! rules, and the relational checks that are run through the engine itself.

pub mod builder;
pub mod checker;
pub mod checks;
pub mod compile;
pub mod conservation;
pub mod effects;
pub mod grammar;
pub mod laws;
pub mod lexer;
pub mod net;
pub mod renaming;
pub mod report;
pub mod rules;
pub mod show;
pub mod stuck;
pub mod syntax;
pub mod tables;
pub mod term;
