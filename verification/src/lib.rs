//! A lexer, parser and canonical serializer for an indentation-based,
//! key/value configuration text format.
//!
//! The pipeline has two stages: [`lexer::lex`] turns raw text lines into a
//! flat token sequence, and [`parser::parse`] turns that sequence into a tree
//! of nested maps, arrays and scalars.  [`parser::BsonValue::to_string`]
//! renders a document back out in a canonical, lexicographically ordered form.
pub mod error;
pub mod laws;
pub mod lexer;
pub mod numbers;
pub mod parser;
pub mod text;
