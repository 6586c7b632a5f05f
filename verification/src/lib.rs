//! PDx: a PDF structural and forensic analysis library.
//!
//! The library parses the low-level PDF container format (header,
//! indirect objects, streams, cross-reference structures, trailer)
//! into an addressable object graph, and runs classification, hashing
//! and anomaly passes over that graph.

pub mod analyzer;
pub mod cache;
pub mod decode;
pub mod errors;
pub mod lexer;
pub mod parser;
pub mod xref;
pub mod report;
pub mod utils;
pub mod value;
