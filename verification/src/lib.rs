//! Styx: a lexer, pull parsers and a schema validator for the Styx
//! configuration language.
pub mod ascii;
pub mod emit;
pub mod escape;
pub mod event;
pub mod lexer;
pub mod lines;
pub mod nesting;
pub mod parser;
pub mod parser2;
pub mod parser3;
pub mod parser4;
pub mod schema;
pub mod span;
pub mod text;
pub mod token;
pub mod written;
