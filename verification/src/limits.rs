//! Resource limits that bound the work done on untrusted input.
use vstd::prelude::*;

verus! {

/// Configurable limits on what the scanner, parser and composer accept.
#[derive(Debug, Clone, Copy, PartialEq, Eq, Structural)]
pub struct ResourceLimits {
    /// Maximum nesting depth for collections. Default: 128.
    pub max_depth: usize,
    /// Maximum number of alias expansions allowed. Default: 1,024.
    pub max_alias_expansions: usize,
    /// Maximum document size in bytes. Default: 256 MiB.
    pub max_document_size: usize,
    /// Maximum length of a mapping key in bytes. Default: 1,024. For callers that bound
    /// their keys: the scanner, parser and composer do not read it.
    pub max_key_length: usize,
    /// Maximum number of nodes in the representation graph. Default: 1,000,000.
    pub max_node_count: usize,
}

/// The limits used where none are given.
pub open spec fn default_limits() -> ResourceLimits {
    ResourceLimits {
        max_depth: 128,
        max_alias_expansions: 1_024,
        max_document_size: 268_435_456,
        max_key_length: 1_024,
        max_node_count: 1_000_000,
    }
}

impl Default for ResourceLimits {
    fn default() -> (r: Self)
        ensures
            r == default_limits(),
    {
        Self {
            max_depth: 128,
            max_alias_expansions: 1_024,
            max_document_size: 256 * 1024 * 1024,
            max_key_length: 1_024,
            max_node_count: 1_000_000,
        }
    }
}

impl ResourceLimits {
    /// Creates limits with no restrictions. Use with caution — only for trusted inputs.
    pub fn unlimited() -> (r: Self)
        ensures
            r.max_depth == usize::MAX,
            r.max_alias_expansions == usize::MAX,
            r.max_document_size == usize::MAX,
            r.max_key_length == usize::MAX,
            r.max_node_count == usize::MAX,
    {
        Self {
            max_depth: usize::MAX,
            max_alias_expansions: usize::MAX,
            max_document_size: usize::MAX,
            max_key_length: usize::MAX,
            max_node_count: usize::MAX,
        }
    }
}

} // verus!
