use skald::composer::Composer;
use skald::node::Node;
use skald::schema::model::Schema;
use skald::schema::validate::{bound_texts, scalar_texts, Number, SchemaError};

fn node(s: &str) -> Node<'static> {
    Composer::new(s).next().unwrap().unwrap().into_owned()
}

fn schema(s: &str) -> Schema {
    Schema::from_node(&node(s))
}

/// What the scalars of the data and the bounds of the schema denote as numbers.
fn numbers(data: &Node<'_>, schema: &Schema) -> Vec<Number> {
    let mut texts = Vec::new();
    scalar_texts(data, &mut texts);
    bound_texts(schema, &mut texts);
    let mut out = Vec::new();
    for text in texts {
        if let Ok(value) = text.parse::<f64>() {
            if !value.is_nan() {
                // Adding zero turns a negative zero into zero.
                let bits = (value + 0.0).to_bits() as i64;
                let order = if bits < 0 { i64::MIN - bits } else { bits };
                out.push(Number {
                    text,
                    order,
                    shown: format!("{value}"),
                });
            }
        }
    }
    out
}

fn validate(data: &Node<'_>, schema: &Schema) -> Result<(), Vec<SchemaError>> {
    skald::schema::validate::validate(data, schema, &numbers(data, schema))
}

#[test]
fn valid_object_passes() {
    let sc = schema(
        "type: object\nrequired: [name]\nproperties:\n  name: {type: string}\n  age: {type: integer}\n",
    );
    assert!(validate(&node("name: alice\nage: 30\n"), &sc).is_ok());
}

#[test]
fn missing_required_fails_with_span() {
    let sc = schema("type: object\nrequired: [name]\n");
    let data = node("age: 30\n");
    let errs = validate(&data, &sc).unwrap_err();
    assert!(
        errs.iter()
            .any(|e| e.message.contains("name") && e.message.contains("required"))
    );
}

#[test]
fn wrong_type_fails() {
    let sc = schema("type: object\nproperties:\n  age: {type: integer}\n");
    let errs = validate(&node("age: not_a_number\n"), &sc).unwrap_err();
    assert!(
        errs.iter()
            .any(|e| e.message.to_lowercase().contains("integer")
                || e.message.to_lowercase().contains("type"))
    );
}

#[test]
fn enum_and_numeric_bounds() {
    let sc = schema(
        "type: object\nproperties:\n  color: {enum: [red, green, blue]}\n  n: {type: integer, minimum: 1, maximum: 10}\n",
    );
    assert!(validate(&node("color: red\nn: 5\n"), &sc).is_ok());
    assert!(validate(&node("color: purple\nn: 5\n"), &sc).is_err());
    assert!(validate(&node("color: red\nn: 99\n"), &sc).is_err());
}

#[test]
fn additional_properties_false_rejects_extras() {
    let sc = schema(
        "type: object\nadditionalProperties: false\nproperties:\n  a: {type: integer}\n",
    );
    assert!(validate(&node("a: 1\n"), &sc).is_ok());
    assert!(validate(&node("a: 1\nb: 2\n"), &sc).is_err());
}

#[test]
fn array_items_and_length() {
    let sc = schema("type: array\nminItems: 1\nmaxItems: 3\nitems: {type: integer}\n");
    assert!(validate(&node("[1, 2, 3]\n"), &sc).is_ok());
    assert!(validate(&node("[]\n"), &sc).is_err());
    assert!(validate(&node("[1, 2, 3, 4]\n"), &sc).is_err());
    assert!(validate(&node("[1, two, 3]\n"), &sc).is_err()); // wrong item type
}

#[test]
fn integer_satisfies_number_type() {
    let sc = schema("type: number\n");
    assert!(validate(&node("42\n"), &sc).is_ok());
}

#[test]
fn string_length_bounds() {
    let sc = schema("type: string\nminLength: 2\nmaxLength: 4\n");
    assert!(validate(&node("abc\n"), &sc).is_ok());
    assert!(validate(&node("a\n"), &sc).is_err());
    assert!(validate(&node("abcde\n"), &sc).is_err());
}

#[test]
fn float_scalar_classified_as_number() {
    let sc = schema("type: number\n");
    assert!(validate(&node("1.5\n"), &sc).is_ok());
    let strict = schema("type: integer\n");
    let errs = validate(&node("1.5\n"), &strict).unwrap_err();
    assert!(errs[0].message.contains("number"));
}

#[test]
fn const_mismatch_reports_error() {
    let sc = schema("const: fixed\n");
    assert!(validate(&node("fixed\n"), &sc).is_ok());
    let errs = validate(&node("other\n"), &sc).unwrap_err();
    assert!(errs.iter().any(|e| e.message.contains("const")));
}

#[test]
fn minimum_violation_reported() {
    let sc = schema("type: integer\nminimum: 10\n");
    let errs = validate(&node("3\n"), &sc).unwrap_err();
    assert!(errs.iter().any(|e| e.message.contains("less than minimum")));
}

#[test]
fn min_and_max_properties_violations() {
    let too_few = schema("type: object\nminProperties: 2\n");
    let errs = validate(&node("a: 1\n"), &too_few).unwrap_err();
    assert!(errs.iter().any(|e| e.message.contains("minimum is 2")));

    let too_many = schema("type: object\nmaxProperties: 1\n");
    let errs = validate(&node("a: 1\nb: 2\n"), &too_many).unwrap_err();
    assert!(errs.iter().any(|e| e.message.contains("maximum is 1")));
}

#[test]
fn json_type_name_covers_all_variants() {
    let e = validate(&node("true\n"), &schema("type: 'null'\n")).unwrap_err();
    assert!(e[0].message.contains("null") && e[0].message.contains("boolean"));
    let e = validate(&node("hello\n"), &schema("type: integer\n")).unwrap_err();
    assert!(e[0].message.contains("integer") && e[0].message.contains("string"));
    let e = validate(&node("a: 1\n"), &schema("type: array\n")).unwrap_err();
    assert!(e[0].message.contains("array") && e[0].message.contains("object"));
    let e = validate(&node("[1]\n"), &schema("type: object\n")).unwrap_err();
    assert!(e[0].message.contains("object") && e[0].message.contains("array"));
}
