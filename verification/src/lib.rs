//! VelaRi language front end: lexing, parsing, static analysis, typed IR
//! lowering, diagnostics rendering, source formatting and manifest
//! validation.
pub mod text;
pub mod lexer;
pub mod ast;
pub mod semantic;
pub mod ir;
pub mod diagnostics;
pub mod parser;
pub mod format;
pub mod manifest;
pub mod driver;
pub mod listing;
pub mod interpreter;
pub mod grammar;
pub mod numbering;
