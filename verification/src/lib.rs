//! Lexical front end for a minimal statically-typed language: it turns raw
//! source text into an ordered sequence of classified, position-annotated
//! tokens, or reports the first lexical error.

pub mod chars;
pub mod laws;
pub mod lexer;
pub mod model;
pub mod token;
