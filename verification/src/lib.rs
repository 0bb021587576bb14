//! AuraShell: the parts of a command-line shell that compute.
//!
//! Lexing, parsing, the order in which pipelines, processes and file
//! descriptors are handled, the job table, the builtins and the wording of the
//! agent's requests are all functions on plain values here. Whatever touches
//! the operating system is left to the program that drives this library.

pub mod agent;
pub mod builtins;
pub mod descriptors;
pub mod environment;
pub mod executor;
pub mod jobs;
pub mod number;
pub mod output;
pub mod parser;
pub mod repl;
pub mod text;
pub mod tokenizer;
