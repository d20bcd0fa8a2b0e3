//! A lexer for Lua source text, written as a verified state machine.
pub mod error;
pub mod token;
pub mod numeral;
pub mod unicode;
pub mod grammar;
pub mod lexer;
