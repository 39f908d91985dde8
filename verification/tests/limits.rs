use skald::limits::ResourceLimits;

#[test]
fn default_limits_are_safe() {
    let limits = ResourceLimits::default();
    assert_eq!(limits.max_depth, 128);
    assert_eq!(limits.max_alias_expansions, 1_024);
    assert_eq!(limits.max_document_size, 256 * 1024 * 1024);
    assert_eq!(limits.max_key_length, 1_024);
    assert_eq!(limits.max_node_count, 1_000_000);
}

#[test]
fn unlimited_is_unrestricted() {
    let limits = ResourceLimits::unlimited();
    assert_eq!(limits.max_depth, usize::MAX);
    assert_eq!(limits.max_alias_expansions, usize::MAX);
}
