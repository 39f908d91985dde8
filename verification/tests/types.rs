use skald::types::{Position, Span, Tag};
use std::borrow::Cow;

#[test]
fn position_start() {
    let pos = Position::start();
    assert_eq!(pos.offset, 0);
    assert_eq!(pos.line, 1);
    assert_eq!(pos.column, 1);
}

#[test]
fn position_display() {
    let pos = Position {
        offset: 42,
        line: 3,
        column: 7,
    };
    assert_eq!(pos.to_string(), "3:7");
}

#[test]
fn span_point() {
    let pos = Position::start();
    let span = Span::point(pos);
    assert_eq!(span.start, span.end);
}

#[test]
fn span_merge() {
    let a = Span {
        start: Position {
            offset: 0,
            line: 1,
            column: 1,
        },
        end: Position {
            offset: 5,
            line: 1,
            column: 6,
        },
    };
    let b = Span {
        start: Position {
            offset: 3,
            line: 1,
            column: 4,
        },
        end: Position {
            offset: 10,
            line: 2,
            column: 3,
        },
    };
    let merged = a.merge(b);
    assert_eq!(merged.start.offset, 0);
    assert_eq!(merged.end.offset, 10);
}

#[test]
fn span_merge_reversed() {
    let a = Span {
        start: Position {
            offset: 8,
            line: 2,
            column: 1,
        },
        end: Position {
            offset: 20,
            line: 3,
            column: 5,
        },
    };
    let b = Span {
        start: Position {
            offset: 2,
            line: 1,
            column: 3,
        },
        end: Position {
            offset: 12,
            line: 2,
            column: 5,
        },
    };
    let merged = a.merge(b);
    assert_eq!(merged.start.offset, 2);
    assert_eq!(merged.end.offset, 20);
}

#[test]
fn span_display() {
    let span = Span {
        start: Position {
            offset: 0,
            line: 1,
            column: 1,
        },
        end: Position {
            offset: 5,
            line: 1,
            column: 6,
        },
    };
    assert_eq!(span.to_string(), "1:1..1:6");
}

#[test]
fn tag_into_owned() {
    let tag = Tag {
        value: Cow::Borrowed("!!str"),
        span: Span::point(Position::start()),
    };
    let owned: Tag<'static> = tag.into_owned();
    assert!(matches!(owned.value, Cow::Owned(_)));
    assert_eq!(&*owned.value, "!!str");
}
