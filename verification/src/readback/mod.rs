//! What is written is read back: the text of a node, scanned, parsed and composed, gives
//! the node again.
pub mod blocks;
pub mod compose;
pub mod eager;
pub mod literal;
pub mod parse;
pub mod scan;
pub mod shape;
pub mod tokens;
