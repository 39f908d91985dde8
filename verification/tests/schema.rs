use skald::composer::Composer;
use skald::node::Node;
use skald::schema::model::{parse_json_type, JsonType, Schema};

fn node(s: &str) -> Node<'static> {
    Composer::new(s).next().unwrap().unwrap().into_owned()
}

#[test]
fn parses_object_schema() {
    let n = node(
        "type: object\nrequired: [name]\nproperties:\n  name: {type: string}\n  age: {type: integer}\n",
    );
    let s = Schema::from_node(&n);
    assert!(
        s.types
            .as_ref()
            .is_some_and(|t| t.contains(&JsonType::Object))
    );
    assert_eq!(s.required, vec!["name".to_string()]);
    assert!(s.property("name").is_some());
    assert!(s.property("age").is_some());
}

/// The value of a bound.
fn value(bound: &Option<String>) -> Option<f64> {
    bound.as_ref().and_then(|s| s.parse().ok())
}

#[test]
fn parses_bounds_and_enum() {
    let n = node("type: integer\nminimum: 1\nmaximum: 10\n");
    let s = Schema::from_node(&n);
    assert_eq!(value(&s.minimum), Some(1.0));
    assert_eq!(value(&s.maximum), Some(10.0));
    let e = Schema::from_node(&node("enum: [a, b, c]\n"));
    assert_eq!(e.enum_values.as_ref().unwrap().len(), 3);
}

#[test]
fn unknown_type_string_yields_none() {
    let s = Schema::from_node(&node("type: bogus\n"));
    assert!(s.types.is_none());
    assert_eq!(parse_json_type("bogus"), None);
}

#[test]
fn non_mapping_node_is_accept_all_schema() {
    let s = Schema::from_node(&node("just a scalar\n"));
    assert!(s.types.is_none());
    assert!(s.properties.is_empty());
}

#[test]
fn parses_property_count_bounds() {
    let s = Schema::from_node(&node("type: object\nminProperties: 1\nmaxProperties: 5\n"));
    assert_eq!(s.min_properties, Some(1));
    assert_eq!(s.max_properties, Some(5));
}

#[test]
fn unknown_keyword_is_ignored() {
    let s = Schema::from_node(&node("type: integer\n$comment: hello\nfoo: bar\n"));
    assert!(
        s.types
            .as_ref()
            .is_some_and(|t| t.contains(&JsonType::Integer))
    );
}
