//! The OpenQASM 2.0 front-end.
pub mod lexer;
pub mod parser;
