//! A byte-pair-encoding tokenizer whose merge, counting and training logic
//! is verified with Verus.

pub mod merge;
pub mod counting;
pub mod training;
pub mod text;
pub mod tokenizer;
pub mod corpus;
pub mod pair_search;
pub mod json;
pub mod numerals;
pub mod cli;
