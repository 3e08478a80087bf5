//! Front end of the Rock language: lexer, indentation-aware parser and the
//! abstract syntax tree it produces.

pub mod ast;
pub mod config;
pub mod debug_text;
pub mod diagnostic;
pub mod fmt;
pub mod lexer;
pub mod macro_expansion;
pub mod parser;

pub use config::Config;
