use skald::composer::Composer;
use skald::cst::document::Document;
use skald::schema::coerce::{apply_defaults, coerce_to_schema};
use skald::schema::model::Schema;

fn schema(s: &str) -> Schema {
    Schema::from_node(&Composer::new(s).next().unwrap().unwrap().into_owned())
}

#[test]
fn coerces_quoted_integer_and_preserves_comment() {
    let sc = schema("type: object\nproperties:\n  port: {type: integer}\n");
    let mut doc = Document::parse("port: \"8080\"  # the port\n");
    let changes = coerce_to_schema(&mut doc, &sc);
    assert_eq!(doc.to_string(), "port: 8080  # the port\n");
    assert_eq!(changes.len(), 1);
    assert_eq!(changes[0].path, "port");
}

#[test]
fn coerces_boolean_case() {
    let sc = schema("type: object\nproperties:\n  flag: {type: boolean}\n");
    let mut doc = Document::parse("flag: True\n");
    let _ = coerce_to_schema(&mut doc, &sc);
    assert_eq!(doc.to_string(), "flag: true\n");
}

#[test]
fn coerces_number_to_string_by_quoting() {
    let sc = schema("type: object\nproperties:\n  id: {type: string}\n");
    let mut doc = Document::parse("id: 123\n");
    let _ = coerce_to_schema(&mut doc, &sc);
    assert_eq!(doc.to_string(), "id: \"123\"\n");
}

#[test]
fn no_change_when_already_canonical() {
    let sc =
        schema("type: object\nproperties:\n  port: {type: integer}\n  name: {type: string}\n");
    let mut doc = Document::parse("port: 8080\nname: \"alice\"\n");
    let changes = coerce_to_schema(&mut doc, &sc);
    assert!(changes.is_empty());
    assert_eq!(doc.to_string(), "port: 8080\nname: \"alice\"\n");
}

#[test]
fn recurses_into_nested_objects() {
    let sc = schema(
        "type: object\nproperties:\n  server: {type: object, properties: {port: {type: integer}}}\n",
    );
    let mut doc = Document::parse("server:\n  port: \"9090\"  # keep\n");
    let _ = coerce_to_schema(&mut doc, &sc);
    assert_eq!(doc.to_string(), "server:\n  port: 9090  # keep\n");
}

#[test]
fn apply_defaults_inserts_missing_property() {
    let sc = schema(
        "type: object\nproperties:\n  port: {type: integer, default: 8080}\n  host: {type: string, default: localhost}\n",
    );
    let mut doc = Document::parse("host: example.com  # explicit\n");
    let inserted = apply_defaults(&mut doc, &sc);
    assert_eq!(
        doc.to_string(),
        "host: example.com  # explicit\nport: 8080\n"
    );
    assert_eq!(inserted.len(), 1);
    assert_eq!(inserted[0].path, "port");
}

#[test]
fn apply_defaults_no_op_when_all_present() {
    let sc = schema("type: object\nproperties:\n  a: {default: 1}\n");
    let mut doc = Document::parse("a: 5\n");
    assert!(apply_defaults(&mut doc, &sc).is_empty());
    assert_eq!(doc.to_string(), "a: 5\n");
}

#[test]
fn apply_defaults_into_empty_doc() {
    let sc = schema("type: object\nproperties:\n  x: {default: hello}\n");
    let mut doc = Document::parse("");
    let _ = apply_defaults(&mut doc, &sc);
    assert_eq!(doc.to_string(), "x: hello\n");
}

#[test]
fn coerces_array_of_quoted_integers() {
    let sc =
        schema("type: object\nproperties:\n  ports: {type: array, items: {type: integer}}\n");
    let mut doc = Document::parse("ports:\n  - \"80\"  # http\n  - \"443\"\n");
    let changes = coerce_to_schema(&mut doc, &sc);
    assert_eq!(doc.to_string(), "ports:\n  - 80  # http\n  - 443\n");
    assert_eq!(changes.len(), 2);
}

#[test]
fn coerces_array_of_objects() {
    let sc = schema(
        "type: object\nproperties:\n  servers: {type: array, items: {type: object, properties: {port: {type: integer}}}}\n",
    );
    let mut doc =
        Document::parse("servers:\n  - port: \"8080\"\n  - port: \"9090\"  # alt\n");
    let _ = coerce_to_schema(&mut doc, &sc);
    assert_eq!(
        doc.to_string(),
        "servers:\n  - port: 8080\n  - port: 9090  # alt\n"
    );
}

#[test]
fn multi_type_coerces_to_first_matching() {
    let sc = schema("type: object\nproperties:\n  v: {type: [integer, string]}\n");
    let mut doc = Document::parse("v: \"42\"\n");
    let _ = coerce_to_schema(&mut doc, &sc);
    assert_eq!(doc.to_string(), "v: 42\n");
}

#[test]
fn multi_type_leaves_non_numeric_string_alone() {
    let sc = schema("type: object\nproperties:\n  v: {type: [integer, string]}\n");
    let mut doc = Document::parse("v: hello\n");
    assert!(coerce_to_schema(&mut doc, &sc).is_empty());
    assert_eq!(doc.to_string(), "v: hello\n");
}

#[test]
fn top_level_array_coerced() {
    let sc = schema("type: array\nitems: {type: integer}\n");
    let mut doc = Document::parse("- \"1\"\n- \"2\"\n");
    let _ = coerce_to_schema(&mut doc, &sc);
    assert_eq!(doc.to_string(), "- 1\n- 2\n");
}

#[test]
fn apply_defaults_nested() {
    let sc = schema(
        "type: object\nproperties:\n  server: {type: object, properties: {host: {default: localhost}, port: {type: integer, default: 8080}}}\n",
    );
    let mut doc = Document::parse("server:\n  host: example.com  # explicit\n");
    let inserted = apply_defaults(&mut doc, &sc);
    assert_eq!(
        doc.to_string(),
        "server:\n  host: example.com  # explicit\n  port: 8080\n"
    );
    assert_eq!(
        inserted.iter().map(|i| i.path.as_str()).collect::<Vec<_>>(),
        vec!["server.port"]
    );
}

#[test]
fn apply_defaults_skips_missing_parent() {
    let sc = schema(
        "type: object\nproperties:\n  server: {type: object, properties: {port: {default: 8080}}}\n  name: {default: app}\n",
    );
    let mut doc = Document::parse("name: x\n");
    let inserted = apply_defaults(&mut doc, &sc);
    assert!(inserted.is_empty());
    assert_eq!(doc.to_string(), "name: x\n");
}

#[test]
fn apply_defaults_top_level_still_works() {
    let sc = schema("type: object\nproperties:\n  port: {default: 8080}\n");
    let mut doc = Document::parse("name: x\n");
    let _ = apply_defaults(&mut doc, &sc);
    assert_eq!(doc.to_string(), "name: x\nport: 8080\n");
}

#[test]
fn root_scalar_leaf_is_left_alone() {
    let sc = schema("type: integer\n");
    let mut doc = Document::parse("\"5\"\n");
    assert!(coerce_to_schema(&mut doc, &sc).is_empty());
    assert_eq!(doc.to_string(), "\"5\"\n");
}

#[test]
fn property_without_declared_type_is_skipped() {
    let sc = schema("type: object\nproperties:\n  v: {description: free}\n");
    let mut doc = Document::parse("v: \"7\"\n");
    assert!(coerce_to_schema(&mut doc, &sc).is_empty());
    assert_eq!(doc.to_string(), "v: \"7\"\n");
}

#[test]
fn coerces_quoted_number_unquotes_it() {
    let sc = schema("type: object\nproperties:\n  ratio: {type: number}\n");
    let mut doc = Document::parse("ratio: \"1.5\"\n");
    let changes = coerce_to_schema(&mut doc, &sc);
    assert_eq!(doc.to_string(), "ratio: 1.5\n");
    assert_eq!(changes.len(), 1);
}

#[test]
fn coerces_quoted_false_boolean() {
    let sc = schema("type: object\nproperties:\n  flag: {type: boolean}\n");
    let mut doc = Document::parse("flag: \"FALSE\"\n");
    let _ = coerce_to_schema(&mut doc, &sc);
    assert_eq!(doc.to_string(), "flag: false\n");
}

#[test]
fn boolean_non_bool_value_is_not_coerced() {
    let sc = schema("type: object\nproperties:\n  flag: {type: boolean}\n");
    let mut doc = Document::parse("flag: maybe\n");
    assert!(coerce_to_schema(&mut doc, &sc).is_empty());
    assert_eq!(doc.to_string(), "flag: maybe\n");
}

#[test]
fn string_type_quotes_bareword_booleans_and_null() {
    let sc = schema("type: object\nproperties:\n  a: {type: string}\n  b: {type: string}\n");
    let mut doc = Document::parse("a: true\nb: null\n");
    let _ = coerce_to_schema(&mut doc, &sc);
    assert_eq!(doc.to_string(), "a: \"true\"\nb: \"null\"\n");
}

#[test]
fn typed_property_absent_from_doc_is_skipped() {
    let sc = schema("type: object\nproperties:\n  missing: {type: integer}\n");
    let mut doc = Document::parse("present: 1\n");
    assert!(coerce_to_schema(&mut doc, &sc).is_empty());
    assert_eq!(doc.to_string(), "present: 1\n");
}

#[test]
fn null_typed_value_is_not_coercible() {
    let sc = schema("type: object\nproperties:\n  v: {type: 'null'}\n");
    let mut doc = Document::parse("v: anything\n");
    assert!(coerce_to_schema(&mut doc, &sc).is_empty());
    assert_eq!(doc.to_string(), "v: anything\n");
}
