//! Minibuild: a small declarative build system. The library holds the
//! Buildfile parser, the dependency graph, the scheduler state machine,
//! the incremental-build cache format, the command-line parser and the
//! did-you-mean suggestion engine.
pub mod cache;
pub mod cli;
pub mod env;
pub mod executor;
pub mod graph;
pub mod parser;
pub mod suggest;
pub mod text;
