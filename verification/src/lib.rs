//! Structured search results from the colorized output of a line search tool.
//!
//! The library decodes terminal color-escape sequences into plain text plus
//! match-highlight spans, segments the tool's flat line stream into per-file
//! snippet blocks, groups those blocks by file, and bounds the size of the
//! final response while keeping aggregate match counts intact.

pub mod base;
pub mod bytes;
pub mod config;
pub mod decode;
pub mod hash;
pub mod respond;
pub mod ripgrep;
pub mod segment;
