//! A parser-combinator engine over text: small parsers that read symbols,
//! and functions that compose parsers into larger ones. Every parser takes a
//! state (a cursor into the text with the caller's accumulator) and returns
//! the state behind what it matched, or a failure that says where it began,
//! how far it got and what it expected.

pub mod chain;
pub mod chars;
pub mod generic_parsers;
pub mod leaf;
pub mod number;
pub mod parser;
pub mod tally;
pub mod trace;
pub mod types;
