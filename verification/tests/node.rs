use skald::node::{Mapping, Node, Scalar, Sequence};
use skald::types::{CollectionStyle, Position, ScalarStyle, Span, Tag};
use std::borrow::Cow;

#[test]
fn node_span_collections() {
    let span = Span {
        start: Position {
            offset: 1,
            line: 1,
            column: 2,
        },
        end: Position {
            offset: 4,
            line: 1,
            column: 5,
        },
    };
    let seq = Node::Sequence(Sequence {
        items: vec![],
        tag: None,
        style: CollectionStyle::Block,
        span,
    });
    assert_eq!(seq.span(), span);

    let map = Node::Mapping(Mapping {
        entries: vec![],
        tag: None,
        style: CollectionStyle::Block,
        span,
    });
    assert_eq!(map.span(), span);
}

#[test]
fn as_str_on_non_scalar() {
    let seq = Node::Sequence(Sequence {
        items: vec![],
        tag: None,
        style: CollectionStyle::Block,
        span: Span::point(Position::start()),
    });
    assert!(seq.as_str().is_none());
}

#[test]
fn node_accessors() {
    let scalar = Node::Scalar(Scalar {
        value: Cow::Borrowed("hello"),
        tag: None,
        style: ScalarStyle::Plain,
        span: Span::point(Position::start()),
    });
    assert!(scalar.is_scalar());
    assert!(!scalar.is_sequence());
    assert!(!scalar.is_mapping());
    assert_eq!(scalar.as_str(), Some("hello"));
    assert!(scalar.as_sequence().is_none());
    assert!(scalar.as_mapping().is_none());
}

#[test]
fn node_sequence_accessor() {
    let seq = Node::Sequence(Sequence {
        items: vec![Node::Scalar(Scalar {
            value: Cow::Borrowed("item"),
            tag: None,
            style: ScalarStyle::Plain,
            span: Span::point(Position::start()),
        })],
        tag: None,
        style: CollectionStyle::Block,
        span: Span::point(Position::start()),
    });
    assert!(seq.is_sequence());
    assert_eq!(seq.as_sequence().unwrap().len(), 1);
}

#[test]
fn scalar_into_owned() {
    let scalar = Scalar {
        value: Cow::Borrowed("hello"),
        tag: Some(Tag {
            value: Cow::Borrowed("!!str"),
            span: Span::point(Position::start()),
        }),
        style: ScalarStyle::Plain,
        span: Span::point(Position::start()),
    };
    let owned: Scalar<'static> = scalar.into_owned();
    assert_eq!(&*owned.value, "hello");
    assert_eq!(&*owned.tag.unwrap().value, "!!str");
}

#[test]
fn node_into_owned_scalar() {
    let node = Node::Scalar(Scalar {
        value: Cow::Borrowed("test"),
        tag: None,
        style: ScalarStyle::Plain,
        span: Span::point(Position::start()),
    });
    let owned: Node<'static> = node.into_owned();
    assert_eq!(owned.as_str(), Some("test"));
}

#[test]
fn node_into_owned_sequence() {
    let node = Node::Sequence(Sequence {
        items: vec![Node::Scalar(Scalar {
            value: Cow::Borrowed("item"),
            tag: None,
            style: ScalarStyle::Plain,
            span: Span::point(Position::start()),
        })],
        tag: None,
        style: CollectionStyle::Block,
        span: Span::point(Position::start()),
    });
    let owned: Node<'static> = node.into_owned();
    assert_eq!(owned.as_sequence().unwrap().len(), 1);
    assert_eq!(owned.as_sequence().unwrap()[0].as_str(), Some("item"));
}

#[test]
fn node_into_owned_mapping() {
    let node = Node::Mapping(Mapping {
        entries: vec![(
            Node::Scalar(Scalar {
                value: Cow::Borrowed("key"),
                tag: None,
                style: ScalarStyle::Plain,
                span: Span::point(Position::start()),
            }),
            Node::Scalar(Scalar {
                value: Cow::Borrowed("val"),
                tag: None,
                style: ScalarStyle::Plain,
                span: Span::point(Position::start()),
            }),
        )],
        tag: None,
        style: CollectionStyle::Block,
        span: Span::point(Position::start()),
    });
    let owned: Node<'static> = node.into_owned();
    let entries = owned.as_mapping().unwrap();
    assert_eq!(entries.len(), 1);
    assert_eq!(entries[0].0.as_str(), Some("key"));
    assert_eq!(entries[0].1.as_str(), Some("val"));
}

#[test]
fn node_mapping_accessor() {
    let map = Node::Mapping(Mapping {
        entries: vec![(
            Node::Scalar(Scalar {
                value: Cow::Borrowed("key"),
                tag: None,
                style: ScalarStyle::Plain,
                span: Span::point(Position::start()),
            }),
            Node::Scalar(Scalar {
                value: Cow::Borrowed("value"),
                tag: None,
                style: ScalarStyle::Plain,
                span: Span::point(Position::start()),
            }),
        )],
        tag: None,
        style: CollectionStyle::Block,
        span: Span::point(Position::start()),
    });
    assert!(map.is_mapping());
    assert_eq!(map.as_mapping().unwrap().len(), 1);
}
