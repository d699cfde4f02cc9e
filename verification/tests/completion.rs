use medit::completion::{
    buffer_word_items, detect, filter_items, is_buffer_source, parse_response, triggers_for,
    CompletionItem, CompletionTriggers, TriggerChar, TriggerDecision,
};
use medit::json::Json;

fn text(s: &str) -> Json {
    Json::string(s)
}

fn list(items: Vec<Json>) -> Json {
    Json::Array(items)
}

fn py() -> CompletionTriggers {
    triggers_for("python").unwrap()
}
fn msh() -> CompletionTriggers {
    triggers_for("mshell").unwrap()
}

fn parts(d: &TriggerDecision) -> Option<(usize, usize, Option<char>)> {
    match d {
        TriggerDecision::Trigger { position, anchor, trigger_char } => {
            Some((*position, *anchor, *trigger_char))
        }
        _ => None,
    }
}

#[test]
fn python_dot_anchors_after_dot() {
    let d = detect(b"foo.", 4, &py());
    assert_eq!(parts(&d), Some((4, 4, Some('.'))));
}

#[test]
fn python_prefix_fires_at_exactly_n_chars() {
    // 1 char: no trigger.
    assert!(matches!(detect(b"f", 1, &py()), TriggerDecision::Nothing));
    // 2 chars: trigger with anchor at start of identifier.
    assert_eq!(parts(&detect(b"fo", 2, &py())), Some((2, 0, None)));
    // 3 chars: extending, no re-trigger.
    assert!(matches!(detect(b"foo", 3, &py()), TriggerDecision::Nothing));
}

#[test]
fn python_prefix_only_at_identifier_boundary() {
    // Cursor in the middle of a long identifier: window is "ng",
    // but the byte before is 'lo' → not a boundary, no trigger.
    let d = detect(b"longname", 5, &py());
    assert!(matches!(d, TriggerDecision::Nothing));
}

#[test]
fn python_prefix_does_not_fire_on_digit_start() {
    // "12" looks like two identifier bytes but tokens can't start
    // with a digit.
    let d = detect(b"12", 2, &py());
    assert!(matches!(d, TriggerDecision::Nothing));
}

#[test]
fn python_prefix_fires_after_non_identifier() {
    // After a space, the next two identifier chars trigger.
    let d = detect(b"a fo", 4, &py());
    assert_eq!(parts(&d), Some((4, 2, None)));
}

#[test]
fn mshell_at_anchors_at_at_sign() {
    let d = detect(b"echo @", 6, &msh());
    // `@` is part of the replacement — anchor sits at it.
    assert_eq!(parts(&d), Some((6, 5, Some('@'))));
}

#[test]
fn mshell_no_prefix_trigger() {
    // mshell only triggers on `@`, never on bare identifier
    // chars.
    assert!(matches!(detect(b"foo", 3, &msh()), TriggerDecision::Nothing));
}

#[test]
fn unknown_language_returns_none_from_triggers_for() {
    assert!(triggers_for("rust").is_none());
}

#[test]
fn empty_bytes_yield_no_trigger() {
    assert!(matches!(detect(b"", 0, &py()), TriggerDecision::Nothing));
}

#[test]
fn parse_array_form_has_no_incomplete_flag() {
    let v = list(vec![
        Json::object().with("label", text("alpha")),
        Json::object().with("label", text("beta")),
    ]);
    let r = parse_response(&v);
    assert_eq!(r.items.len(), 2);
    assert!(!r.is_incomplete);
}

#[test]
fn parse_object_form_reads_is_incomplete() {
    let v = Json::object()
        .with("isIncomplete", Json::Bool(true))
        .with("items", list(vec![Json::object().with("label", text("x"))]));
    let r = parse_response(&v);
    assert_eq!(r.items.len(), 1);
    assert!(r.is_incomplete);
}

#[test]
fn parse_uses_text_edit_new_text() {
    let at = || {
        Json::object()
            .with("line", Json::Unsigned(0))
            .with("character", Json::Unsigned(0))
    };
    let v = list(vec![Json::object()
        .with("label", text("foo"))
        .with(
            "textEdit",
            Json::object()
                .with("range", Json::object().with("start", at()).with("end", at()))
                .with("newText", text("foo_te")),
        )
        .with("insertText", text("foo_it"))]);
    let r = parse_response(&v);
    assert_eq!(r.items[0].insert_text, "foo_te");
}

#[test]
fn parse_falls_back_to_insert_text_then_label() {
    let v = list(vec![
        Json::object().with("label", text("a")).with("insertText", text("a_it")),
        Json::object().with("label", text("b")),
    ]);
    let r = parse_response(&v);
    assert_eq!(r.items[0].insert_text, "a_it");
    assert_eq!(r.items[1].insert_text, "b");
}

#[test]
fn parse_null_yields_empty() {
    let r = parse_response(&Json::Null);
    assert!(r.items.is_empty());
    assert!(!r.is_incomplete);
}

#[test]
fn parse_sorts_by_sort_text() {
    let v = list(vec![
        Json::object().with("label", text("zeta")).with("sortText", text("1")),
        Json::object().with("label", text("alpha")).with("sortText", text("0")),
    ]);
    let r = parse_response(&v);
    assert_eq!(r.items[0].label, "alpha");
    assert_eq!(r.items[1].label, "zeta");
}

#[test]
fn filter_case_insensitive_prefix_matches() {
    let items = vec![
        CompletionItem {
            label: "Foo".into(),
            filter_text: "Foo".into(),
            insert_text: "Foo".into(),
            sort_text: "Foo".into(),
            detail: None,
        },
        CompletionItem {
            label: "bar".into(),
            filter_text: "bar".into(),
            insert_text: "bar".into(),
            sort_text: "bar".into(),
            detail: None,
        },
    ];
    let idxs = filter_items(&items, "fo");
    assert_eq!(idxs, vec![0]);
    // Empty prefix returns everything.
    let idxs = filter_items(&items, "");
    assert_eq!(idxs, vec![0, 1]);
}

#[test]
fn filter_uses_filter_text_over_label() {
    let items = vec![CompletionItem {
        label: "display only".into(),
        filter_text: "match_me".into(),
        insert_text: "x".into(),
        sort_text: "x".into(),
        detail: None,
    }];
    // Matches via filter_text, not label.
    assert_eq!(filter_items(&items, "match"), vec![0]);
    // Doesn't match the label.
    assert!(filter_items(&items, "display").is_empty());
}

#[test]
fn djot_prefix_triggers_at_three_chars() {
    let dj = triggers_for("djot").unwrap();
    assert!(dj.chars.is_empty());
    // 2 chars: no trigger.
    assert!(matches!(detect(b"th", 2, &dj), TriggerDecision::Nothing));
    // 3 chars: fires, anchored at the word start.
    assert_eq!(parts(&detect(b"the", 3, &dj)), Some((3, 0, None)));
    // 4 chars: extending an existing word, no re-trigger.
    assert!(matches!(detect(b"theo", 4, &dj), TriggerDecision::Nothing));
}

#[test]
fn djot_is_buffer_source() {
    assert!(is_buffer_source("djot"));
    assert!(!is_buffer_source("python"));
}

#[test]
fn buffer_words_collects_longer_distinct_matches() {
    let text = b"completion completes complete\ncompletion again";
    let items = buffer_word_items(text, "com");
    let labels: Vec<&str> = items.iter().map(|i| i.label.as_str()).collect();
    // Distinct, sorted, each longer than the prefix; "completion"
    // appears twice but is de-duplicated.
    assert_eq!(labels, vec!["complete", "completes", "completion"]);
}

#[test]
fn buffer_words_is_case_insensitive_but_keeps_original_case() {
    let items = buffer_word_items(b"Markdown markup", "mar");
    let labels: Vec<&str> = items.iter().map(|i| i.label.as_str()).collect();
    assert_eq!(labels, vec!["Markdown", "markup"]);
}

#[test]
fn buffer_words_excludes_the_prefix_itself() {
    // A word equal to the prefix is no completion at all.
    let items = buffer_word_items(b"the the the", "the");
    assert!(items.is_empty());
}

#[test]
fn only_ascii_characters_ask() {
    let rules = CompletionTriggers {
        chars: vec![
            TriggerChar { ch: '\u{e9}', anchor_includes_char: false },
            TriggerChar { ch: ':', anchor_includes_char: true },
        ],
        min_identifier_prefix: None,
    };
    assert_eq!(parts(&detect(b"a\xe9", 2, &rules)), None);
    assert_eq!(parts(&detect("a\u{e9}".as_bytes(), 3, &rules)), None);
    assert_eq!(parts(&detect(b"a:", 2, &rules)), Some((2, 1, Some(':'))));
}
