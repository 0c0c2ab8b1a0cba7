//! A small document database: a query lexer and parser, a JSON document
//! model, path-value extraction for the index, and the index bookkeeping
//! that decides which documents a query selects.

pub mod text;
pub mod json;
pub mod lexer;
pub mod parser;
pub mod paths;
pub mod matching;
pub mod index;
pub mod db;
pub mod service;
pub mod search;
pub mod stored;
