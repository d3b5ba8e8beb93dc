//! Streaming, non-validating XML tokenizing and querying on raw bytes.

pub mod search;
pub mod tokenizer;
pub mod scratch;
pub mod element_stack;
pub mod attributes;
pub mod source;
pub mod input_buffer;
pub mod simd_scanner;
pub mod chunk;
pub mod parser;
pub mod slice_parser;
pub mod reader;
pub mod filter;
pub mod query;
pub mod event;
pub mod arena_parser;
pub mod writer;
pub mod parallel;
pub mod id_match;
pub mod plain_doc;
