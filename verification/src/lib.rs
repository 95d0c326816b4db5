//! A single-pass compiler for a small imperative language — variable
//! assignment, prefix arithmetic expressions, function declarations,
//! function calls and raw system calls — translated into textual assembly
//! for a register-based target.
//!
//! The pipeline has three stages, run in sequence: [`lexer::tokenize`]
//! turns source text into tokens, [`parser::parse`] turns the token
//! sequence into a list of functions (resolving identifiers to storage
//! slots as it goes), and [`emitter::emit`] renders the parsed functions
//! as assembly text. Every stage is total: a rejected input is reported
//! as a [`error::CompileError`] value, and an error at any stage yields
//! no output at all.

pub mod ast;
pub mod emitter;
pub mod error;
pub mod lexer;
pub mod parser;
pub mod token;
