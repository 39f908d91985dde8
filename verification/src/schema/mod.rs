//! Span-anchored JSON-Schema validation over the [`Node`](crate::node::Node) tree
//! (subset of draft 2020-12), and schema-driven edits of a
//! [`Document`](crate::cst::document::Document).
pub mod coerce;
pub mod edits;
pub mod laws;
pub mod model;
pub mod number;
pub mod reading;
pub mod validate;
