//! A YAML 1.2.2 toolkit: scanner, parser, representation tree, emitter,
//! lossless concrete syntax tree, schema validation and editor protocols.
pub mod answers;
pub mod composer;
pub mod cst;
pub mod emitter;
pub mod error;
pub mod fixtures;
pub mod fmt;
pub mod json;
pub mod limits;
pub mod lsp;
pub mod mcp;
pub mod node;
pub mod order;
pub mod parser;
pub mod readback;
pub mod scanner;
pub mod schema;
pub mod text;
pub mod types;
