//! The decisions behind a semantic search over C and C++ sources: which query
//! patterns are accepted, which files are searched, which matches of a query
//! are reported, and how the matches of several queries are combined.

pub mod combine;
pub mod constraints;
pub mod engine;
pub mod files;
pub mod laws;
pub mod operations;
pub mod order;
pub mod pattern;
pub mod report;
pub mod syntax;
pub mod table;
pub mod text;
