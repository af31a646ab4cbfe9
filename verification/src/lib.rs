//! A small task-scripting language and its execution engine.
//!
//! A script is a sequence of function-call statements.  The pipeline
//! tokenizes the source text, parses the tokens into task statements,
//! and executes the statements in order against an optional in-memory
//! network of named nodes, dispatching each call through a registry of
//! named functions.

pub mod token;
pub mod ast;
pub mod parser;
pub mod registry;
pub mod network;
pub mod context;
pub mod laws;
