//! Core logic of a local full-text document search engine.
pub mod text;
pub mod config;
pub mod watch;
pub mod search;
pub mod snippet;
pub mod extract;
pub mod tika;
pub mod indexing;
pub mod mcp;
pub mod api;
