//! A compiler for a small language that describes memory-mapped device
//! interfaces: it parses the text into a syntax tree, resolves it into a
//! fully defaulted model, and computes the bit-exact layout of every object.

pub mod ast;
pub mod bits;
pub mod casing;
pub mod convert;
pub mod interface;
pub mod layout;
pub mod lexer;
pub mod mir;
pub mod parser;
pub mod resolve;
