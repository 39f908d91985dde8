use skald::json::Json;
use skald::lsp::{frame, Outgoing, Server};

fn obj(members: Vec<(&str, Json)>) -> Json {
    Json::Object(members.into_iter().map(|(k, v)| (k.to_string(), v)).collect())
}

fn text(s: &str) -> Json {
    Json::text(s)
}

fn num(n: u64) -> Json {
    Json::number(n)
}

/// The member at a path; null if there is none.
fn at<'a>(j: &'a Json, path: &[&str]) -> &'a Json {
    let mut j = j;
    for name in path {
        match j.get(name) {
            Some(m) => j = m,
            None => return &Json::Null,
        }
    }
    j
}

#[test]
fn frames_roundtrip() {
    let body = r#"{"jsonrpc":"2.0","id":1,"method":"x"}"#;
    let framed = frame(body);
    assert!(framed.starts_with("Content-Length: "));
    assert!(framed.ends_with(body));
}

#[test]
fn initialize_advertises_capabilities() {
    let mut s = Server::new();
    let out = s.handle("initialize", Some(num(1)), obj(vec![]));
    let resp = out
        .iter()
        .find_map(|o| match o {
            Outgoing::Response { id, result } if *id == num(1) => Some(result),
            _ => None,
        })
        .unwrap();
    assert_eq!(
        *at(resp, &["capabilities", "documentFormattingProvider"]),
        Json::Bool(true)
    );
    assert_eq!(*at(resp, &["capabilities", "textDocumentSync"]), num(1));
}

#[test]
fn shutdown_returns_null_result() {
    let mut s = Server::new();
    let out = s.handle("shutdown", Some(num(2)), Json::Null);
    assert!(out.iter().any(
        |o| matches!(o, Outgoing::Response { id, result } if *id == num(2) && *result == Json::Null)
    ));
}

#[test]
fn unknown_notification_is_silent() {
    let mut s = Server::new();
    assert!(s.handle("$/cancelRequest", None, obj(vec![])).is_empty());
}

#[test]
fn unknown_request_returns_null_result() {
    // An unrecognized method WITH an id is a request: reply with a null
    // result echoing the id.
    let mut s = Server::new();
    let out = s.handle("textDocument/hover", Some(num(42)), obj(vec![]));
    assert!(out.iter().any(
        |o| matches!(o, Outgoing::Response { id, result } if *id == num(42) && *result == Json::Null)
    ));
}

/// The params of a `didOpen` notification.
fn opened(uri: &str, source: &str) -> Json {
    obj(vec![(
        "textDocument",
        obj(vec![("uri", text(uri)), ("text", text(source))]),
    )])
}

/// The params of a request about a document.
fn about(uri: &str) -> Json {
    obj(vec![("textDocument", obj(vec![("uri", text(uri))]))])
}

#[test]
fn did_open_invalid_yaml_publishes_diagnostic() {
    let mut s = Server::new();
    let out = s.handle(
        "textDocument/didOpen",
        None,
        opened("file:///t.yaml", "a: [1, 2\n"),
    );
    let note = out
        .iter()
        .find_map(|o| match o {
            Outgoing::Notification { method, params }
                if method == "textDocument/publishDiagnostics" =>
            {
                Some(params)
            }
            _ => None,
        })
        .expect("publishDiagnostics");
    assert_eq!(*at(note, &["uri"]), text("file:///t.yaml"));
    let diags = at(note, &["diagnostics"]).as_array().unwrap();
    assert_eq!(diags.len(), 1);
    assert!(matches!(
        at(&diags[0], &["range", "start", "line"]),
        Json::Number(_)
    ));
    assert!(at(&diags[0], &["message"]).as_str().is_some());
}

#[test]
fn did_open_valid_yaml_publishes_empty_diagnostics() {
    let mut s = Server::new();
    let out = s.handle(
        "textDocument/didOpen",
        None,
        opened("file:///ok.yaml", "a: 1\n"),
    );
    let note = out
        .iter()
        .find_map(|o| match o {
            Outgoing::Notification { params, .. } => Some(params),
            _ => None,
        })
        .unwrap();
    assert_eq!(at(note, &["diagnostics"]).as_array().unwrap().len(), 0);
}

#[test]
fn did_change_updates_and_rediagnoses() {
    let mut s = Server::new();
    s.handle(
        "textDocument/didOpen",
        None,
        opened("file:///c.yaml", "a: 1\n"),
    );
    let out = s.handle(
        "textDocument/didChange",
        None,
        obj(vec![
            ("textDocument", obj(vec![("uri", text("file:///c.yaml"))])),
            (
                "contentChanges",
                Json::Array(vec![obj(vec![("text", text("a: [1, 2\n"))])]),
            ),
        ]),
    );
    let note = out
        .iter()
        .find_map(|o| match o {
            Outgoing::Notification { params, .. } => Some(params),
            _ => None,
        })
        .unwrap();
    assert_eq!(at(note, &["diagnostics"]).as_array().unwrap().len(), 1);
}

#[test]
fn formatting_returns_text_edit() {
    let mut s = Server::new();
    s.handle(
        "textDocument/didOpen",
        None,
        opened("file:///f.yaml", "a: 1   \n"),
    );
    let out = s.handle(
        "textDocument/formatting",
        Some(num(9)),
        about("file:///f.yaml"),
    );
    let edits = out
        .iter()
        .find_map(|o| match o {
            Outgoing::Response { id, result } if *id == num(9) => Some(result),
            _ => None,
        })
        .unwrap();
    let arr = edits.as_array().unwrap();
    assert_eq!(arr.len(), 1);
    assert_eq!(*at(&arr[0], &["newText"]), text("a: 1\n"));
}

#[test]
fn formatting_unknown_doc_returns_empty() {
    let mut s = Server::new();
    let out = s.handle(
        "textDocument/formatting",
        Some(num(1)),
        about("file:///nope.yaml"),
    );
    let edits = out
        .iter()
        .find_map(|o| match o {
            Outgoing::Response { result, .. } => Some(result),
            _ => None,
        })
        .unwrap();
    assert_eq!(edits.as_array().unwrap().len(), 0);
}

#[test]
fn diagnostic_positions_count_from_zero() {
    let mut s = Server::new();
    let out = s.handle(
        "textDocument/didOpen",
        None,
        opened("file:///p.yaml", "ok: 1\nx: \"\\z\"\n"),
    );
    let note = match &out[0] {
        Outgoing::Notification { params, .. } => params,
        other => panic!("unexpected: {other:?}"),
    };
    let diags = at(note, &["diagnostics"]).as_array().unwrap();
    assert_eq!(*at(&diags[0], &["range", "start", "line"]), num(1));
    assert_eq!(*at(&diags[0], &["severity"]), num(1));
    assert_eq!(*at(&diags[0], &["source"]), text("skald"));
}

#[test]
fn formatting_replaces_the_whole_document() {
    let mut s = Server::new();
    s.handle(
        "textDocument/didOpen",
        None,
        opened("file:///w.yaml", "a: 1  \nb: 2\n\n"),
    );
    let out = s.handle(
        "textDocument/formatting",
        Some(num(3)),
        about("file:///w.yaml"),
    );
    let edits = match &out[0] {
        Outgoing::Response { result, .. } => result,
        other => panic!("unexpected: {other:?}"),
    };
    let edit = &edits.as_array().unwrap()[0];
    assert_eq!(*at(edit, &["range", "start", "line"]), num(0));
    assert_eq!(*at(edit, &["range", "end", "line"]), num(4));
    assert_eq!(*at(edit, &["newText"]), text("a: 1\nb: 2\n"));
}

#[test]
fn change_of_one_document_leaves_the_others() {
    let mut s = Server::new();
    s.handle("textDocument/didOpen", None, opened("file:///1", "a: 1\n"));
    s.handle("textDocument/didOpen", None, opened("file:///2", "b: 2 \n"));
    s.handle("textDocument/didOpen", None, opened("file:///1", "c: 3 \n"));
    for (uri, expected) in [("file:///1", "c: 3\n"), ("file:///2", "b: 2\n")] {
        let out = s.handle("textDocument/formatting", Some(num(1)), about(uri));
        let edits = match &out[0] {
            Outgoing::Response { result, .. } => result,
            other => panic!("unexpected: {other:?}"),
        };
        assert_eq!(
            *at(&edits.as_array().unwrap()[0], &["newText"]),
            text(expected)
        );
    }
}

#[test]
fn frame_counts_bytes() {
    assert_eq!(frame("{}"), "Content-Length: 2\r\n\r\n{}");
    assert_eq!(frame("\"é\""), "Content-Length: 4\r\n\r\n\"é\"");
}
