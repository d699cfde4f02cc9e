use medit::json::Json;
use medit::lsp::{
    classify, init_step, initialize, initialized, parse_definition_result, parse_diagnostic,
    path_to_uri, read_body, uri_to_path, DiagnosticSeverity, InitStep, LspClient, LspEvent,
    Message, INIT_ID,
};
use medit::protocol::{frame, header_line, notification, request, CompletionTrigger, HeaderStep};

/// The body of one framed message, parsed by the outside crate.
fn body(bytes: &[u8]) -> serde_json::Value {
    let text = std::str::from_utf8(bytes).unwrap();
    let (head, rest) = text.split_once("\r\n\r\n").unwrap();
    assert_eq!(head, format!("Content-Length: {}", rest.len()));
    serde_json::from_str(rest).unwrap()
}

fn at(line: u64, character: u64) -> Json {
    Json::object()
        .with("line", Json::Unsigned(line))
        .with("character", Json::Unsigned(character))
}

fn range(a: (u64, u64), b: (u64, u64)) -> Json {
    Json::object().with("start", at(a.0, a.1)).with("end", at(b.0, b.1))
}

#[test]
fn messages_are_framed() {
    assert_eq!(frame(b"{}"), b"Content-Length: 2\r\n\r\n{}");
    let v = body(&request(7, "m", Json::singleton(Json::string("a\"b"))));
    assert_eq!(v["jsonrpc"], "2.0");
    assert_eq!(v["id"], 7);
    assert_eq!(v["method"], "m");
    assert_eq!(v["params"][0], "a\"b");
    let v = body(&notification("exit", Json::Null));
    assert!(v.get("id").is_none());
    assert!(v["params"].is_null());
}

#[test]
fn headers_are_read() {
    assert!(matches!(header_line("Content-Length: 12\r\n", None), HeaderStep::More(Some(12))));
    assert!(matches!(header_line("Content-Type: x\r\n", Some(3)), HeaderStep::More(Some(3))));
    assert!(matches!(header_line("\r\n", Some(12)), HeaderStep::Body(12)));
    assert!(matches!(header_line("\n", None), HeaderStep::MissingLength));
    // A length that is no number forgets the one before.
    assert!(matches!(header_line("Content-Length: x\r\n", Some(3)), HeaderStep::More(None)));
}

#[test]
fn a_written_header_is_read_back() {
    let bytes = frame(b"12345");
    let text = std::str::from_utf8(&bytes).unwrap();
    let mut known = None;
    for line in text.split_inclusive('\n') {
        match header_line(line, known) {
            HeaderStep::More(k) => known = k,
            HeaderStep::Body(n) => {
                assert_eq!(n, 5);
                return;
            }
            HeaderStep::MissingLength => panic!("no length"),
        }
    }
    panic!("no end of the header");
}

#[test]
fn bodies_are_told_apart() {
    match read_body(b"{\"id\":3,\"result\":{\"a\":-1}}") {
        Ok(Some(Message::Response { id: 3, result: Ok(v) })) => {
            assert_eq!(v.get("a").and_then(|a| a.as_i64()), Some(-1));
        }
        _ => panic!("a response"),
    }
    match read_body(b"{\"id\":3,\"error\":{\"code\":-5,\"message\":\"no\"}}") {
        Ok(Some(Message::Response { id: 3, result: Err(e) })) => {
            assert_eq!((e.code, e.message.as_str()), (-5, "no"));
        }
        _ => panic!("an error"),
    }
    match read_body(b"{\"method\":\"m\"}") {
        Ok(Some(Message::Notification { method, params })) => {
            assert_eq!(method, "m");
            assert!(matches!(params, Json::Null));
        }
        _ => panic!("a notification"),
    }
    assert!(matches!(read_body(b"{}"), Ok(None)));
    match read_body(b"{") {
        Err(e) => assert_eq!(e, "EOF while parsing an object at line 1 column 1"),
        Ok(_) => panic!("no JSON"),
    }
    // An answer without a result is an answer with nothing.
    let v = Json::object().with("id", Json::Unsigned(1));
    assert!(matches!(
        classify(&v),
        Some(Message::Response { id: 1, result: Ok(Json::Null) })
    ));
}

#[test]
fn the_handshake() {
    let v = body(&initialize(42, "file:///w"));
    assert_eq!(v["id"], INIT_ID);
    assert_eq!(v["method"], "initialize");
    assert_eq!(v["params"]["processId"], 42);
    assert_eq!(v["params"]["rootUri"], "file:///w");
    assert_eq!(v["params"]["workspaceFolders"][0]["name"], "workspace");
    assert_eq!(v["params"]["capabilities"]["general"]["positionEncodings"][0], "utf-8");
    assert_eq!(
        v["params"]["capabilities"]["textDocument"]["completion"]["completionItem"]
            ["snippetSupport"],
        false
    );
    assert_eq!(v["params"]["clientInfo"]["name"], "medit");
    assert_eq!(body(&initialized())["method"], "initialized");

    assert!(matches!(init_step(None), InitStep::Closed));
    let other = Message::Response { id: 9, result: Ok(Json::Null) };
    assert!(matches!(init_step(Some(other)), InitStep::Wait));
    let note = Message::Notification { method: "x".to_string(), params: Json::Null };
    assert!(matches!(init_step(Some(note)), InitStep::Wait));
    let ready = Message::Response { id: INIT_ID, result: Ok(Json::object()) };
    assert!(matches!(init_step(Some(ready)), InitStep::Ready(c) if c.is_empty()));
    let refused = Message::Response {
        id: INIT_ID,
        result: Err(medit::lsp::LspError { code: 1, message: "bad".to_string() }),
    };
    match init_step(Some(refused)) {
        InitStep::Refused(m) => assert_eq!(m, "LSP init error: bad"),
        _ => panic!("a refusal"),
    }
}

#[test]
fn answers_settle_requests() {
    let mut c = LspClient::new(vec!['.']);
    assert_eq!(c.completion_trigger_chars(), &['.']);
    assert!(!c.has_outstanding());
    let out = c.hover_async("file:///a", 2, 5);
    let v = body(&out.bytes);
    assert_eq!(v["id"], INIT_ID + 1);
    assert_eq!(v["method"], "textDocument/hover");
    assert_eq!(v["params"]["position"]["line"], 2);
    assert_eq!(v["params"]["position"]["character"], 5);
    c.sent(&out);
    assert!(c.has_outstanding());
    let id = out.id;
    let answer = || Message::Response {
        id,
        result: Ok(Json::object().with("contents", Json::string("hi"))),
    };
    match c.handle_message(answer()) {
        Some(LspEvent::Hover { id: i, result: Ok(Some(t)) }) => {
            assert_eq!((i, t.as_str()), (id, "hi"));
        }
        _ => panic!("a hover"),
    }
    assert!(!c.has_outstanding());
    // A second answer to the same request is dropped.
    assert!(c.handle_message(answer()).is_none());
}

#[test]
fn completion_requests_say_why() {
    let mut c = LspClient::new(Vec::new());
    let kind = |b: &[u8]| body(b)["params"]["context"].clone();
    let out = c.completion_async("u", 0, 0, CompletionTrigger::Invoked);
    assert_eq!(kind(&out.bytes)["triggerKind"], 1);
    let out = c.completion_async("u", 0, 0, CompletionTrigger::Character('.'));
    assert_eq!(kind(&out.bytes)["triggerKind"], 2);
    assert_eq!(kind(&out.bytes)["triggerCharacter"], ".");
    let out = c.completion_async("u", 0, 0, CompletionTrigger::Incomplete);
    assert_eq!(kind(&out.bytes)["triggerKind"], 3);
    let v = body(&c.did_change("u", 9, "text"));
    assert_eq!(v["params"]["textDocument"]["version"], 9);
    assert_eq!(v["params"]["contentChanges"][0]["text"], "text");
    let v = body(&c.did_open("u", "go", "text"));
    assert_eq!(v["params"]["textDocument"]["languageId"], "go");
    assert_eq!(v["params"]["textDocument"]["version"], 1);
    let (shut, exit) = c.shutdown();
    assert_eq!(body(&shut)["method"], "shutdown");
    assert_eq!(body(&exit)["method"], "exit");
}

#[test]
fn diagnostics_are_kept_in_text_order_and_replaced() {
    let mut c = LspClient::new(Vec::new());
    let diag = |l: u64, m: &str| {
        Json::object().with("range", range((l, 1), (l, 2))).with("message", Json::string(m))
    };
    let publish = |ds: Vec<Json>| Message::Notification {
        method: "textDocument/publishDiagnostics".to_string(),
        params: Json::object().with("uri", Json::string("u")).with("diagnostics", Json::Array(ds)),
    };
    assert!(c.diagnostics_for("u").is_empty());
    match c.handle_message(publish(vec![diag(4, "late"), diag(2, "early")])) {
        Some(LspEvent::DiagnosticsUpdated { uri }) => assert_eq!(uri, "u"),
        _ => panic!("an update"),
    }
    let found: Vec<&str> = c.diagnostics_for("u").iter().map(|d| d.message.as_str()).collect();
    assert_eq!(found, vec!["early", "late"]);
    c.handle_message(publish(Vec::new()));
    assert!(c.diagnostics_for("u").is_empty());
    let other = Message::Notification { method: "x".to_string(), params: Json::Null };
    assert!(c.handle_message(other).is_none());
}

#[test]
fn one_diagnostic() {
    let v = Json::object()
        .with("range", range((1, 2), (3, 4)))
        .with("severity", Json::Unsigned(2))
        .with("source", Json::string("lint"));
    let d = parse_diagnostic(&v).unwrap();
    assert_eq!((d.start_line, d.start_character, d.end_line, d.end_character), (1, 2, 3, 4));
    assert_eq!(d.severity, DiagnosticSeverity::Warning);
    assert_eq!(d.message, "");
    assert_eq!(d.source.as_deref(), Some("lint"));
    assert!(parse_diagnostic(&Json::object()).is_none());
}

#[test]
fn definitions_in_either_shape() {
    let plain = Json::object().with("uri", Json::string("a")).with("range", range((1, 2), (1, 3)));
    let d = parse_definition_result(&plain).unwrap();
    assert_eq!((d.uri.as_str(), d.line, d.character), ("a", 1, 2));
    let link = Json::object()
        .with("targetUri", Json::string("b"))
        .with("targetRange", range((5, 0), (6, 0)))
        .with("targetSelectionRange", range((5, 4), (5, 9)));
    let d = parse_definition_result(&Json::Array(vec![link, plain])).unwrap();
    assert_eq!((d.uri.as_str(), d.line, d.character), ("b", 5, 4));
    assert!(parse_definition_result(&Json::Null).is_none());
    assert!(parse_definition_result(&Json::Array(Vec::new())).is_none());
}

#[test]
fn uris_lead_back_to_paths() {
    assert_eq!(path_to_uri("/a/b.go"), "file:///a/b.go");
    assert_eq!(uri_to_path("file:///a/b.go").as_deref(), Some("/a/b.go"));
    assert_eq!(uri_to_path("http://a"), None);
}

#[test]
fn numbers_keep_their_kind() {
    let v = Json::object()
        .with("u", Json::Unsigned(u64::MAX))
        .with("i", Json::Signed(-3))
        .with("b", Json::Bool(true));
    assert_eq!(v.get_u64("u"), Some(u64::MAX));
    assert_eq!(v.get("u").unwrap().as_i64(), None);
    assert_eq!(v.get("i").unwrap().as_i64(), Some(-3));
    assert_eq!(v.get_u64("i"), None);
    assert_eq!(v.get("b").unwrap().as_bool(), Some(true));
    assert!(v.get("x").is_none());
    let sent = body(&request(1, "m", v));
    assert_eq!(sent["params"]["u"], u64::MAX);
    assert_eq!(sent["params"]["i"], -3);
}
