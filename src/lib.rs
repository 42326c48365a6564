//! A front end for a small schema-definition language: a lexer, a
//! backtracking recursive-descent parser with a symbol table, and a validator.

pub mod text;
pub mod decimal;
pub mod schema;
pub mod lex;
pub mod parse;
pub mod validate;
pub mod roundtrip;
