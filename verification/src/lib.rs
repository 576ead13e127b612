//! Front and back end of a small markup-to-HTML converter.
//!
//! [`lexer`] turns a stream of bytes into tokens, keeping track of the line and
//! column it has reached. [`gen`] turns a document tree into a tree of HTML
//! elements and writes that tree out as text. The two halves share no state;
//! a parser, which is not part of this crate, stands between them.
pub mod error;
pub mod gen;
pub mod grammar;
pub mod lexer;
pub mod node;
pub mod position;
pub mod source;
pub mod token;
