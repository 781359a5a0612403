//! Local knowledge-base search: tokenisation, inverted index, ranking inputs
//! and snippet extraction, verified with Verus.

pub mod error;
pub mod indexer;
pub mod parser;
pub mod paths;
pub mod scanner;
pub mod searcher;
pub mod snippet;
pub mod storage;
pub mod text;
pub mod tokenizer;
