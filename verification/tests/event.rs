use skald::parser::event::EventKind;
use skald::types::ScalarStyle;
use std::borrow::Cow;

#[test]
fn event_kind_names() {
    assert_eq!(EventKind::StreamStart.name(), "stream-start");
    assert_eq!(
        EventKind::DocumentStart { explicit: true }.name(),
        "document-start"
    );
    assert_eq!(
        EventKind::Scalar {
            value: Cow::Borrowed("test"),
            style: ScalarStyle::Plain,
            anchor: None,
            tag: None,
        }
        .name(),
        "scalar"
    );
    assert_eq!(
        EventKind::Alias {
            name: Cow::Borrowed("a")
        }
        .name(),
        "alias"
    );
}
