//! The character and token layer of a C preprocessor: nested source files
//! read as one normalized character stream, line splicing, and the scanner
//! that turns the stream into preprocessing tokens.
pub mod ccerror;
pub mod source;
pub mod splice;
pub mod lexer;
pub mod punct;
