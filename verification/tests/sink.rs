use skald::emitter::{Emitter, EmitterConfig};
use skald::types::{CollectionStyle, ScalarStyle};

fn emit_with<F: FnOnce(&mut Emitter<'_>)>(f: F) -> String {
    let cfg = EmitterConfig::default();
    let mut e = Emitter::new(String::new(), &cfg);
    f(&mut e);
    e.finish()
}

#[test]
fn top_level_plain_scalar() {
    let s = emit_with(|e| e.scalar("hello", ScalarStyle::Plain));
    assert_eq!(s, "hello\n");
}

#[test]
fn block_seq_of_scalars() {
    let s = emit_with(|e| {
        e.begin_seq(CollectionStyle::Block, Some(2));
        e.before_elem();
        e.scalar("a", ScalarStyle::Plain);
        e.before_elem();
        e.scalar("b", ScalarStyle::Plain);
        e.end_seq();
    });
    assert_eq!(s, "- a\n- b\n");
}

#[test]
fn empty_block_seq_is_flow_brackets() {
    let s = emit_with(|e| {
        e.begin_seq(CollectionStyle::Block, Some(0));
        e.end_seq();
    });
    assert_eq!(s, "[]\n");
}

#[test]
fn block_map_scalar_values() {
    let s = emit_with(|e| {
        e.begin_map(CollectionStyle::Block, Some(2));
        e.before_key();
        e.scalar("k1", ScalarStyle::Plain);
        e.before_value();
        e.scalar("v1", ScalarStyle::Plain);
        e.before_key();
        e.scalar("k2", ScalarStyle::Plain);
        e.before_value();
        e.scalar("v2", ScalarStyle::Plain);
        e.end_map();
    });
    assert_eq!(s, "k1: v1\nk2: v2\n");
}

#[test]
fn block_map_nested_map_value() {
    let s = emit_with(|e| {
        e.begin_map(CollectionStyle::Block, Some(1));
        e.before_key();
        e.scalar("outer", ScalarStyle::Plain);
        e.before_value();
        e.begin_map(CollectionStyle::Block, Some(1));
        e.before_key();
        e.scalar("inner", ScalarStyle::Plain);
        e.before_value();
        e.scalar("x", ScalarStyle::Plain);
        e.end_map();
        e.end_map();
    });
    assert_eq!(s, "outer:\n  inner: x\n");
}

#[test]
fn block_map_seq_value() {
    let s = emit_with(|e| {
        e.begin_map(CollectionStyle::Block, Some(1));
        e.before_key();
        e.scalar("items", ScalarStyle::Plain);
        e.before_value();
        e.begin_seq(CollectionStyle::Block, Some(2));
        e.before_elem();
        e.scalar("a", ScalarStyle::Plain);
        e.before_elem();
        e.scalar("b", ScalarStyle::Plain);
        e.end_seq();
        e.end_map();
    });
    assert_eq!(s, "items:\n  - a\n  - b\n");
}

#[test]
fn flow_seq() {
    let s = emit_with(|e| {
        e.begin_seq(CollectionStyle::Flow, Some(2));
        e.before_elem();
        e.scalar("a", ScalarStyle::Plain);
        e.before_elem();
        e.scalar("b", ScalarStyle::Plain);
        e.end_seq();
    });
    assert_eq!(s, "[a, b]\n");
}

#[test]
fn flow_map() {
    let s = emit_with(|e| {
        e.begin_map(CollectionStyle::Flow, Some(2));
        e.before_key();
        e.scalar("a", ScalarStyle::Plain);
        e.before_value();
        e.scalar("1", ScalarStyle::Plain);
        e.before_key();
        e.scalar("b", ScalarStyle::Plain);
        e.before_value();
        e.scalar("2", ScalarStyle::Plain);
        e.end_map();
    });
    assert_eq!(s, "{a: 1, b: 2}\n");
}

#[test]
fn block_map_flow_seq_value() {
    let s = emit_with(|e| {
        e.begin_map(CollectionStyle::Block, Some(1));
        e.before_key();
        e.scalar("k", ScalarStyle::Plain);
        e.before_value();
        e.begin_seq(CollectionStyle::Flow, Some(2));
        e.before_elem();
        e.scalar("a", ScalarStyle::Plain);
        e.before_elem();
        e.scalar("b", ScalarStyle::Plain);
        e.end_seq();
        e.end_map();
    });
    assert_eq!(s, "k: [a, b]\n");
}

#[test]
fn block_seq_of_maps_inline_first() {
    let s = emit_with(|e| {
        e.begin_seq(CollectionStyle::Block, Some(1));
        e.before_elem();
        e.begin_map(CollectionStyle::Block, Some(2));
        e.before_key();
        e.scalar("a", ScalarStyle::Plain);
        e.before_value();
        e.scalar("1", ScalarStyle::Plain);
        e.before_key();
        e.scalar("b", ScalarStyle::Plain);
        e.before_value();
        e.scalar("2", ScalarStyle::Plain);
        e.end_map();
        e.end_seq();
    });
    assert_eq!(s, "- a: 1\n  b: 2\n");
}

#[test]
fn block_seq_of_seqs_inline_first() {
    let s = emit_with(|e| {
        e.begin_seq(CollectionStyle::Block, Some(1));
        e.before_elem();
        e.begin_seq(CollectionStyle::Block, Some(2));
        e.before_elem();
        e.scalar("x", ScalarStyle::Plain);
        e.before_elem();
        e.scalar("y", ScalarStyle::Plain);
        e.end_seq();
        e.end_seq();
    });
    assert_eq!(s, "- - x\n  - y\n");
}

#[test]
fn block_map_empty_seq_value() {
    let s = emit_with(|e| {
        e.begin_map(CollectionStyle::Block, Some(1));
        e.before_key();
        e.scalar("k", ScalarStyle::Plain);
        e.before_value();
        e.begin_seq(CollectionStyle::Block, Some(0));
        e.end_seq();
        e.end_map();
    });
    assert_eq!(s, "k: []\n");
}

#[test]
fn unknown_len_empty_seq_as_map_value_renders_brackets() {
    let s = emit_with(|e| {
        e.begin_map(CollectionStyle::Block, Some(1));
        e.before_key();
        e.scalar("k", ScalarStyle::Plain);
        e.before_value();
        e.begin_seq(CollectionStyle::Block, None); // unknown len
        e.end_seq(); // zero elements
        e.end_map();
    });
    assert_eq!(s, "k: []\n");
}

#[test]
fn unknown_len_nonempty_seq_as_map_value_is_block() {
    let s = emit_with(|e| {
        e.begin_map(CollectionStyle::Block, Some(1));
        e.before_key();
        e.scalar("k", ScalarStyle::Plain);
        e.before_value();
        e.begin_seq(CollectionStyle::Block, None);
        e.before_elem();
        e.scalar("a", ScalarStyle::Plain);
        e.before_elem();
        e.scalar("b", ScalarStyle::Plain);
        e.end_seq();
        e.end_map();
    });
    assert_eq!(s, "k:\n  - a\n  - b\n");
}

#[test]
fn unknown_len_top_level_empty_seq() {
    let s = emit_with(|e| {
        e.begin_seq(CollectionStyle::Block, None);
        e.end_seq();
    });
    assert_eq!(s, "[]\n");
}

#[test]
fn unknown_len_top_level_empty_map() {
    let s = emit_with(|e| {
        e.begin_map(CollectionStyle::Block, None);
        e.end_map();
    });
    assert_eq!(s, "{}\n");
}

#[test]
fn unknown_len_empty_map_as_map_value_renders_braces() {
    let s = emit_with(|e| {
        e.begin_map(CollectionStyle::Block, Some(1));
        e.before_key();
        e.scalar("k", ScalarStyle::Plain);
        e.before_value();
        e.begin_map(CollectionStyle::Block, None); // unknown len
        e.end_map(); // zero entries
        e.end_map();
    });
    assert_eq!(s, "k: {}\n");
}

#[test]
fn unknown_len_nonempty_map_as_map_value_is_block() {
    let s = emit_with(|e| {
        e.begin_map(CollectionStyle::Block, Some(1));
        e.before_key();
        e.scalar("outer", ScalarStyle::Plain);
        e.before_value();
        e.begin_map(CollectionStyle::Block, None);
        e.before_key();
        e.scalar("a", ScalarStyle::Plain);
        e.before_value();
        e.scalar("1", ScalarStyle::Plain);
        e.before_key();
        e.scalar("b", ScalarStyle::Plain);
        e.before_value();
        e.scalar("2", ScalarStyle::Plain);
        e.end_map();
        e.end_map();
    });
    assert_eq!(s, "outer:\n  a: 1\n  b: 2\n");
}

#[test]
fn unknown_len_block_map_as_seq_element_inline_first() {
    let s = emit_with(|e| {
        e.begin_seq(CollectionStyle::Block, Some(1));
        e.before_elem();
        e.begin_map(CollectionStyle::Block, None);
        e.before_key();
        e.scalar("a", ScalarStyle::Plain);
        e.before_value();
        e.scalar("1", ScalarStyle::Plain);
        e.before_key();
        e.scalar("b", ScalarStyle::Plain);
        e.before_value();
        e.scalar("2", ScalarStyle::Plain);
        e.end_map();
        e.end_seq();
    });
    assert_eq!(s, "- a: 1\n  b: 2\n");
}

#[test]
fn unknown_len_flow_seq_nonempty() {
    let s = emit_with(|e| {
        e.begin_seq(CollectionStyle::Flow, None);
        e.before_elem();
        e.scalar("a", ScalarStyle::Plain);
        e.before_elem();
        e.scalar("b", ScalarStyle::Plain);
        e.end_seq();
    });
    assert_eq!(s, "[a, b]\n");
}

#[test]
fn unknown_len_flow_seq_empty() {
    let s = emit_with(|e| {
        e.begin_seq(CollectionStyle::Flow, None);
        e.end_seq();
    });
    assert_eq!(s, "[]\n");
}

#[test]
fn unknown_len_flow_map_nonempty() {
    let s = emit_with(|e| {
        e.begin_map(CollectionStyle::Flow, None);
        e.before_key();
        e.scalar("a", ScalarStyle::Plain);
        e.before_value();
        e.scalar("1", ScalarStyle::Plain);
        e.before_key();
        e.scalar("b", ScalarStyle::Plain);
        e.before_value();
        e.scalar("2", ScalarStyle::Plain);
        e.end_map();
    });
    assert_eq!(s, "{a: 1, b: 2}\n");
}

#[test]
fn unknown_len_flow_map_empty() {
    let s = emit_with(|e| {
        e.begin_map(CollectionStyle::Flow, None);
        e.end_map();
    });
    assert_eq!(s, "{}\n");
}
