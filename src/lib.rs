//! A small jq-style query engine: a parser from query text to a filter
//! program, and an evaluator that runs such a program over a JSON value.
//!
//! - `value`, `decimal`: JSON values and exact decimal numbers.
//! - `filter`: the operators of a program.
//! - `parser`, `program`: query text to a checked program.
//! - `engine`: running a program over a value, and the laws it obeys.
//! - `printer`, `grammar`: program text, and the proofs that the parser reads
//!   back printed programs and every text that the grammar derives.
pub mod decimal;
pub mod engine;
pub mod filter;
pub mod grammar;
pub mod parser;
pub mod printer;
pub mod program;
pub mod value;
