//! The textual circuit format.
pub mod lexer;
pub mod parser;
pub mod round_trip;
