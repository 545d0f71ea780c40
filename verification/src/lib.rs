//! Incremental build support for C projects: configuration parsing, change
//! detection over file hashes, include-dependency tracking, and a small lexer.

pub mod compilation;
pub mod config;
pub mod dep;
pub mod file;
pub mod header_locater;
pub mod lexer;
pub mod text;
