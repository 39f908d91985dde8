use skald::json::Json;
use skald::mcp::{frame, texts_needed, tools_list, Outgoing, Server};
use skald::schema::validate::Number;

fn obj(members: Vec<(&str, Json)>) -> Json {
    Json::Object(members.into_iter().map(|(k, v)| (k.to_string(), v)).collect())
}

fn text(s: &str) -> Json {
    Json::text(s)
}

fn num(n: u64) -> Json {
    Json::number(n)
}

/// What some texts denote as numbers.
fn numbers(texts: Vec<String>) -> Vec<Number> {
    let mut out = Vec::new();
    for text in texts {
        if let Ok(value) = text.parse::<f64>() {
            if !value.is_nan() {
                let bits = (value + 0.0).to_bits() as i64;
                let order = if bits < 0 { i64::MIN - bits } else { bits };
                out.push(Number {
                    text,
                    order,
                    shown: format!("{value}"),
                });
            }
        }
    }
    out
}

fn handle(s: &mut Server, method: &str, id: Option<Json>, params: Json) -> Vec<Outgoing> {
    let numbers = numbers(texts_needed(method, &params));
    s.handle(method, id, params, &numbers)
}

/// The member at a path; null if there is none.
fn at<'a>(j: &'a Json, path: &[&str]) -> &'a Json {
    let mut j = j;
    for name in path {
        match j.get(name) {
            Some(m) => j = m,
            None => return &Json::Null,
        }
    }
    j
}

/// The text of a tool's answer.
fn answer(result: &Json) -> &str {
    let items = at(result, &["content"]).as_array().unwrap();
    at(&items[0], &["text"]).as_str().unwrap()
}

#[test]
fn frame_appends_newline() {
    let body = r#"{"jsonrpc":"2.0","id":1,"result":{}}"#;
    let framed = frame(body);
    assert_eq!(framed, format!("{body}\n"));
    assert!(framed.ends_with('\n'));
}

#[test]
fn initialize_returns_protocol_version_and_capabilities() {
    let mut s = Server::new();
    let out = handle(&mut s, "initialize", Some(num(1)), obj(vec![]));
    let result = out
        .iter()
        .find_map(|o| match o {
            Outgoing::Response { id, result } if *id == num(1) => Some(result),
            _ => None,
        })
        .expect("initialize response");
    assert_eq!(*at(result, &["protocolVersion"]), text("2024-11-05"));
    assert!(matches!(
        at(result, &["capabilities", "tools"]),
        Json::Object(_)
    ));
    assert_eq!(*at(result, &["serverInfo", "name"]), text("skald-mcp"));
}

#[test]
fn ping_returns_empty_object() {
    let mut s = Server::new();
    let out = handle(&mut s, "ping", Some(num(2)), Json::Null);
    assert!(out.iter().any(
        |o| matches!(o, Outgoing::Response { id, result } if *id == num(2) && *result == obj(vec![]))
    ));
}

#[test]
fn tools_list_response_contains_four_tools() {
    let mut s = Server::new();
    let out = handle(&mut s, "tools/list", Some(num(3)), obj(vec![]));
    let result = out
        .iter()
        .find_map(|o| match o {
            Outgoing::Response { id, result } if *id == num(3) => Some(result),
            _ => None,
        })
        .expect("tools/list response");
    let tools = at(result, &["tools"]).as_array().expect("tools array");
    assert_eq!(tools.len(), 4);
    let names: Vec<&str> = tools
        .iter()
        .filter_map(|t| at(t, &["name"]).as_str())
        .collect();
    assert!(names.contains(&"yaml_parse"));
    assert!(names.contains(&"yaml_validate"));
    assert!(names.contains(&"yaml_format"));
    assert!(names.contains(&"yaml_edit"));
}

#[test]
fn unknown_method_returns_error() {
    let mut s = Server::new();
    let out = handle(&mut s, "nonexistent/method", Some(num(4)), obj(vec![]));
    assert!(out.iter().any(
        |o| matches!(o, Outgoing::Error { id, code, .. } if *id == num(4) && *code == -32601)
    ));
}

#[test]
fn lib_unknown_notification_is_silent() {
    let mut s = Server::new();
    let out = handle(&mut s, "$/something", None, obj(vec![]));
    assert!(out.is_empty());
}

fn call(s: &mut Server, name: &str, args: Json) -> Json {
    let out = handle(
        s,
        "tools/call",
        Some(num(7)),
        obj(vec![("name", text(name)), ("arguments", args)]),
    );
    out.into_iter()
        .find_map(|o| match o {
            Outgoing::Response { result, .. } => Some(result),
            _ => None,
        })
        .unwrap()
}

#[test]
fn parse_valid_is_ok() {
    let mut s = Server::new();
    let r = call(&mut s, "yaml_parse", obj(vec![("text", text("a: 1\n"))]));
    assert_eq!(*at(&r, &["isError"]), Json::Bool(false));
}

#[test]
fn parse_invalid_is_error_with_location() {
    let mut s = Server::new();
    let r = call(&mut s, "yaml_parse", obj(vec![("text", text("a: [1, 2\n"))]));
    assert_eq!(*at(&r, &["isError"]), Json::Bool(true));
    assert!(answer(&r).contains(':'));
}

#[test]
fn validate_reports_type_error() {
    let mut s = Server::new();
    let r = call(
        &mut s,
        "yaml_validate",
        obj(vec![
            ("text", text("age: notnum\n")),
            (
                "schema",
                text("type: object\nproperties:\n  age: {type: integer}\n"),
            ),
        ]),
    );
    let diags: serde_json::Value = serde_json::from_str(answer(&r)).unwrap();
    assert_eq!(diags.as_array().unwrap().len(), 1);
    assert!(diags[0]["message"].is_string());
    assert!(diags[0]["line"].is_number());
}

#[test]
fn validate_ok_is_empty_array() {
    let mut s = Server::new();
    let r = call(
        &mut s,
        "yaml_validate",
        obj(vec![
            ("text", text("name: skald\n")),
            (
                "schema",
                text("type: object\nrequired: [name]\nproperties:\n  name: {type: string}\n"),
            ),
        ]),
    );
    let diags: serde_json::Value = serde_json::from_str(answer(&r)).unwrap();
    assert_eq!(diags.as_array().unwrap().len(), 0);
    assert_eq!(*at(&r, &["isError"]), Json::Bool(false));
}

#[test]
fn format_trims_trailing_ws_and_preserves_comment() {
    let mut s = Server::new();
    let r = call(
        &mut s,
        "yaml_format",
        obj(vec![("text", text("a: 1   # c\n"))]),
    );
    assert_eq!(*at(&r, &["isError"]), Json::Bool(false));
    // Trailing spaces before a comment belong to the token before it; inline
    // comments are kept verbatim.
    let formatted = answer(&r);
    assert!(formatted.contains("# c"));
    assert!(!formatted.ends_with("  \n"));
}

#[test]
fn format_invalid_is_error() {
    let mut s = Server::new();
    let r = call(&mut s, "yaml_format", obj(vec![("text", text("a: [1, 2"))]));
    assert_eq!(*at(&r, &["isError"]), Json::Bool(true));
}

/// The arguments of `yaml_edit`.
fn edit(source: &str, path: &str, value: &str) -> Json {
    obj(vec![
        ("text", text(source)),
        ("path", text(path)),
        ("value", text(value)),
    ])
}

#[test]
fn edit_sets_existing_value_preserving_comment() {
    let mut s = Server::new();
    let r = call(
        &mut s,
        "yaml_edit",
        edit("a: 1  # keep\nb: 2\n", "a", "9"),
    );
    assert_eq!(*at(&r, &["isError"]), Json::Bool(false));
    assert_eq!(answer(&r), "a: 9  # keep\nb: 2\n");
}

#[test]
fn edit_inserts_absent_toplevel_key() {
    let mut s = Server::new();
    let r = call(&mut s, "yaml_edit", edit("a: 1\n", "b", "2"));
    assert_eq!(*at(&r, &["isError"]), Json::Bool(false));
    assert!(answer(&r).contains("b: 2"));
}

#[test]
fn unknown_tool_is_error() {
    let mut s = Server::new();
    let r = call(&mut s, "nope", obj(vec![]));
    assert_eq!(*at(&r, &["isError"]), Json::Bool(true));
}

#[test]
fn validate_invalid_schema_is_error() {
    // A malformed schema document.
    let mut s = Server::new();
    let r = call(
        &mut s,
        "yaml_validate",
        obj(vec![
            ("text", text("a: 1\n")),
            ("schema", text("schema: [1, 2\n")),
        ]),
    );
    assert_eq!(*at(&r, &["isError"]), Json::Bool(true));
    assert!(answer(&r).contains("schema parse error"));
}

#[test]
fn validate_invalid_data_is_error() {
    // A valid schema but malformed data.
    let mut s = Server::new();
    let r = call(
        &mut s,
        "yaml_validate",
        obj(vec![
            ("text", text("a: [1, 2\n")),
            ("schema", text("type: object\n")),
        ]),
    );
    assert_eq!(*at(&r, &["isError"]), Json::Bool(true));
    assert!(answer(&r).contains("parse error"));
}

#[test]
fn edit_insert_into_non_mapping_root_is_error() {
    // The path is absent and has no dot, but the root is a scalar.
    let mut s = Server::new();
    let r = call(
        &mut s,
        "yaml_edit",
        edit("just a scalar\n", "newkey", "v"),
    );
    assert_eq!(*at(&r, &["isError"]), Json::Bool(true));
}

#[test]
fn edit_unresolved_dotted_path_is_error() {
    // A dotted path that does not resolve is not inserted.
    let mut s = Server::new();
    let r = call(&mut s, "yaml_edit", edit("a: 1\n", "a.b.c", "v"));
    assert_eq!(*at(&r, &["isError"]), Json::Bool(true));
}

#[test]
fn edit_errors_have_their_messages() {
    let mut s = Server::new();
    let r = call(&mut s, "yaml_edit", edit("a: 1\n", "a.b", "v"));
    assert_eq!(answer(&r), "path not found");
    let r = call(&mut s, "yaml_edit", edit("- a\n", "k", "v"));
    assert_eq!(answer(&r), "root is not a block mapping");
}

#[test]
fn validate_checks_numeric_bounds() {
    let mut s = Server::new();
    let r = call(
        &mut s,
        "yaml_validate",
        obj(vec![
            ("text", text("n: 99\n")),
            ("schema", text("properties: {n: {maximum: 10}}\n")),
        ]),
    );
    assert_eq!(
        answer(&r),
        "[{\"column\":4,\"line\":1,\"message\":\"value 99 exceeds maximum 10\",\"path\":\"/n\"}]"
    );
}

#[test]
fn unknown_method_names_the_method() {
    let mut s = Server::new();
    let out = handle(&mut s, "no/such", Some(num(5)), Json::Null);
    assert_eq!(
        out,
        vec![Outgoing::Error {
            id: num(5),
            code: -32601,
            message: "method not found: no/such".to_string(),
        }]
    );
}

#[test]
fn tool_schemas_name_their_required_input() {
    let tools = tools_list();
    assert_eq!(
        *at(&tools[3], &["inputSchema", "required"]),
        Json::Array(vec![text("text"), text("path"), text("value")])
    );
    assert_eq!(
        *at(&tools[0], &["inputSchema", "properties", "text", "type"]),
        text("string")
    );
}
