//! Lossless concrete syntax tree (CST): a red/green tree, a trivia-preserving
//! builder, and the [`document::Document`] editing API.
pub mod builder;
pub mod document;
pub mod edited;
pub mod format;
pub mod green;
pub mod kind;
pub mod lookup;
pub mod path;
pub mod place;
pub mod red;
pub mod tape;
pub mod trim;
