use medit::json::Json;
use medit::lsp::{parse_completion_trigger_chars, parse_hover_result};

#[test]
fn parse_hover_markup_content() {
    // What `ty server` returns.
    let v = Json::object().with(
        "contents",
        Json::object()
            .with("kind", Json::string("plaintext"))
            .with("value", Json::string("def add(\n    a: int,\n    b: int\n) -> int")),
    );
    assert_eq!(
        parse_hover_result(&v).as_deref(),
        Some("def add(\n    a: int,\n    b: int\n) -> int")
    );
}

#[test]
fn parse_hover_plain_string() {
    let v = Json::object().with("contents", Json::string("hello"));
    assert_eq!(parse_hover_result(&v).as_deref(), Some("hello"));
}

#[test]
fn parse_hover_marked_string_array() {
    let v = Json::object().with(
        "contents",
        Json::Array(vec![
            Json::object()
                .with("language", Json::string("go"))
                .with("value", Json::string("func Add(a, b int) int")),
            Json::string("Adds two ints."),
        ]),
    );
    let s = parse_hover_result(&v).unwrap();
    assert!(s.contains("func Add"));
    assert!(s.contains("Adds two ints."));
}

#[test]
fn parse_hover_null_or_empty() {
    assert_eq!(parse_hover_result(&Json::Null), None);
    assert_eq!(
        parse_hover_result(&Json::object().with("contents", Json::string(""))),
        None
    );
    assert_eq!(parse_hover_result(&Json::object()), None);
}

#[test]
fn parse_trigger_chars_basic() {
    let v = Json::object().with(
        "capabilities",
        Json::object().with(
            "completionProvider",
            Json::object().with(
                "triggerCharacters",
                Json::Array(vec![Json::string("."), Json::string(":")]),
            ),
        ),
    );
    assert_eq!(parse_completion_trigger_chars(&v), vec!['.', ':']);
}

#[test]
fn parse_trigger_chars_missing() {
    let v = Json::object().with("capabilities", Json::object());
    assert!(parse_completion_trigger_chars(&v).is_empty());
}
