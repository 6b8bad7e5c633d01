//! Source-code dependency graph and comment filtering.
pub mod extract;
pub mod filter;
pub mod graph;
pub mod paths;
pub mod syntax;
pub mod text;
pub mod resolve;
pub mod order;
pub mod parse;
pub mod laws;
