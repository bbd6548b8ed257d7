//! A boolean retrieval engine: an inverted index over tokenized documents,
//! a parser and evaluator for `AND` / `OR` / `NOT` queries, and the ordered
//! skip list meant to back an in-memory write buffer.

pub mod inverted_index;
pub mod json;
pub mod order;
pub mod postings;
pub mod query_parser;
pub mod skiplist;
pub mod text;
pub mod wiki;
