//! Streaming filter for newline-delimited JSON.
//!
//! The input is cut into lines, each line is parsed as JSON, and the string
//! found at a chosen key decides what happens to the line: in filter mode the
//! line is kept when the string equals a target, in unique mode the string is
//! collected once. Contracts are stated over the sequence of lines of the
//! input, so they hold for every input and not only for the ones tried.

pub mod lines;
pub mod json;
pub mod archive;
pub mod filter;
pub mod unique;
pub mod config;
