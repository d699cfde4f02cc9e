use medit::buffer::{collect_bytes, Buffer};
use medit::completion::CompletionItem;
use medit::editor::EditorBuffer;
use medit::input::{Key, KeyEvent, Mods};
use medit::json::Json;
use medit::path_complete::PathCompletion;
use medit::protocol::CompletionTrigger;
use medit::suggest::{
    accept_completion, accept_path_completion, handle_completion_keys, maybe_fire_completion,
    update_completion_after_insert, wants_paths, CompletionKeyOutcome, CompletionUi, Due,
    PendingTrigger, COMPLETION_DEBOUNCE,
};

fn item(text: &str) -> CompletionItem {
    CompletionItem {
        label: text.to_string(),
        filter_text: text.to_string(),
        insert_text: text.to_string(),
        sort_text: text.to_string(),
        detail: None,
    }
}

/// A buffer with the cursor at its end.
fn typed(lang: Option<&'static str>, text: &str) -> EditorBuffer {
    let mut b =
        EditorBuffer::new(Buffer::from_bytes(text.as_bytes().to_vec()), None, None, None, None);
    b.lang_id = lang;
    let p = b.sels.primary_mut();
    p.anchor = text.len();
    p.head = text.len();
    b
}

fn text(b: &EditorBuffer) -> String {
    String::from_utf8(collect_bytes(&b.buffer)).unwrap()
}

fn offer(items: &[&str], anchor: usize, prefix: &str) -> CompletionUi {
    let mut c = CompletionUi::new();
    c.set_items(items.iter().map(|i| item(i)).collect(), anchor, prefix.to_string());
    c
}

fn plain(key: Key) -> KeyEvent {
    KeyEvent::plain(key)
}

#[test]
fn accepting_replaces_the_prefix() {
    let mut b = typed(None, "x fo");
    let mut c = offer(&["foobar", "food"], 2, "fo");
    c.selected = 1;
    accept_completion(&mut c, &mut b);
    assert_eq!(text(&b), "x food");
    assert_eq!((b.head(), c.is_visible()), (6, false));
    // An anchor behind the cursor: only the popup closes.
    let mut b = typed(None, "ab");
    let mut c = offer(&["foo"], 9, "");
    accept_completion(&mut c, &mut b);
    assert_eq!((text(&b).as_str(), c.is_visible()), ("ab", false));
}

#[test]
fn walking_through_the_popup_goes_round() {
    let mut b = typed(None, "f");
    let mut c = offer(&["fa", "fb", "fc"], 0, "f");
    let down = plain(Key::Down);
    let up = plain(Key::Up);
    assert_eq!(
        handle_completion_keys(&mut c, &mut b, down, 0),
        CompletionKeyOutcome::InterceptedNoChange
    );
    assert_eq!(c.selected, 1);
    handle_completion_keys(&mut c, &mut b, up, 0);
    handle_completion_keys(&mut c, &mut b, up, 0);
    assert_eq!(c.selected, 2);
    let next = KeyEvent::with(Key::Char('n'), Mods::ctrl());
    handle_completion_keys(&mut c, &mut b, next, 0);
    assert_eq!(c.selected, 0);
    let prev = KeyEvent::with(Key::Char('p'), Mods::ctrl());
    handle_completion_keys(&mut c, &mut b, prev, 0);
    assert_eq!(c.selected, 2);
}

#[test]
fn keys_of_the_popup() {
    let mut b = typed(None, "f");
    let mut c = offer(&["fa"], 0, "f");
    assert_eq!(
        handle_completion_keys(&mut c, &mut b, plain(Key::Char('x')), 0),
        CompletionKeyOutcome::NotIntercepted
    );
    assert_eq!(
        handle_completion_keys(&mut c, &mut b, plain(Key::Esc), 0),
        CompletionKeyOutcome::InterceptedNoChange
    );
    assert!(!c.is_visible());
    assert_eq!(
        handle_completion_keys(&mut c, &mut b, plain(Key::Esc), 0),
        CompletionKeyOutcome::NotIntercepted
    );
    let mut c = offer(&["fa"], 0, "f");
    assert_eq!(
        handle_completion_keys(&mut c, &mut b, plain(Key::Tab), 0),
        CompletionKeyOutcome::InterceptedAccepted
    );
    assert_eq!(text(&b), "fa");
    // Ctrl-n without a popup asks for one, from the start of the word.
    let next = KeyEvent::with(Key::Char('n'), Mods::ctrl());
    let mut b = typed(Some("go"), "x fo");
    handle_completion_keys(&mut c, &mut b, next, 77);
    let p = c.pending.as_ref().unwrap();
    assert_eq!((p.anchor, p.deadline), (2, 77));
    assert!(matches!(p.trigger, CompletionTrigger::Invoked));
    let alt_slash = KeyEvent::with(Key::Char('/'), Mods::alt());
    assert_eq!(
        handle_completion_keys(&mut c, &mut b, alt_slash, 0),
        CompletionKeyOutcome::NeedPaths
    );
}

#[test]
fn typing_on_narrows_the_popup() {
    let mut c = offer(&["foobar", "food"], 0, "fo");
    let b = typed(Some("python"), "foob");
    update_completion_after_insert(&mut c, &b, None, 0);
    assert_eq!(c.filtered, vec![0]);
    let b = typed(Some("python"), "foobz");
    update_completion_after_insert(&mut c, &b, None, 0);
    assert!(!c.is_visible());
}

#[test]
fn triggers_are_armed_and_fired_after_a_while() {
    let mut c = CompletionUi::new();
    let b = typed(Some("python"), "x = foo.");
    update_completion_after_insert(&mut c, &b, None, 1000);
    let p = c.pending.as_ref().unwrap();
    assert_eq!((p.anchor, p.deadline), (8, 1000 + COMPLETION_DEBOUNCE));
    assert!(matches!(p.trigger, CompletionTrigger::Character('.')));
    assert!(matches!(maybe_fire_completion(&mut c, &b, 1000), Due::Nothing));
    assert!(c.pending.is_some());
    match maybe_fire_completion(&mut c, &b, 1000 + COMPLETION_DEBOUNCE) {
        Due::Ask { pending, line, character } => {
            assert_eq!((pending.anchor, line, character), (8, 0, 8));
            c.asked(3, pending);
        }
        Due::Nothing => panic!("a request"),
    }
    assert_eq!((c.request_id, c.anchor), (Some(3), 8));
    assert!(c.pending.is_none());
}

#[test]
fn words_of_the_text_need_no_server() {
    let mut c = CompletionUi::new();
    let b = typed(Some("djot"), "editing edited edi");
    update_completion_after_insert(&mut c, &b, None, 0);
    assert!(c.pending.is_some());
    assert!(matches!(maybe_fire_completion(&mut c, &b, 500), Due::Nothing));
    let labels: Vec<&str> = c.items.iter().map(|i| i.label.as_str()).collect();
    assert_eq!(labels, vec!["edited", "editing"]);
    assert_eq!((c.anchor, c.prefix.as_str()), (15, "edi"));
}

#[test]
fn incomplete_answers_are_asked_again() {
    let answer = Json::object().with("isIncomplete", Json::Bool(true)).with(
        "items",
        Json::Array(vec![Json::object().with("label", Json::string("foobar"))]),
    );
    let mut c = CompletionUi::new();
    c.asked(
        4,
        PendingTrigger { anchor: 0, trigger: CompletionTrigger::Invoked, deadline: 0 },
    );
    let b = typed(Some("python"), "fo");
    c.fill(&answer, &b);
    assert!(c.is_visible() && c.is_incomplete);
    let b = typed(Some("python"), "foo");
    update_completion_after_insert(&mut c, &b, None, 10);
    let p = c.pending.as_ref().unwrap();
    assert!(matches!(p.trigger, CompletionTrigger::Incomplete));
}

#[test]
fn languages_without_rules_have_no_popup() {
    let mut c = offer(&["foo"], 0, "f");
    update_completion_after_insert(&mut c, &typed(None, "fo"), None, 0);
    assert!(!c.is_visible());
    let mut c = offer(&["foo"], 0, "f");
    update_completion_after_insert(&mut c, &typed(Some("rust"), "fo"), None, 0);
    assert!(!c.is_visible());
}

#[test]
fn paths_are_completed_and_walked_into() {
    let mut b = typed(None, "cat \"src/li");
    let mut c = CompletionUi::new();
    assert!(!wants_paths(&c, &b));
    assert!(wants_paths(&c, &typed(None, "src/")));
    c.offer_paths(Some(paths_of(&["lib.rs"], 9, "li", Some('"'))));
    assert!(c.is_path_session && c.is_visible());
    // A file closes the quote.
    assert!(!accept_path_completion(&mut c, &mut b));
    assert_eq!(text(&b), "cat \"src/lib.rs\"");
    assert_eq!(b.head(), 16);
    // A directory is walked into.
    let mut b = typed(None, "cat \"sr");
    c.offer_paths(Some(paths_of(&["src/"], 5, "sr", Some('"'))));
    assert!(accept_path_completion(&mut c, &mut b));
    assert_eq!(text(&b), "cat \"src/");
    c.offer_paths(None);
    assert!(!c.is_visible());
}

fn paths_of(items: &[&str], anchor: usize, prefix: &str, quote: Option<char>) -> PathCompletion {
    PathCompletion {
        anchor,
        prefix: prefix.to_string(),
        items: items.iter().map(|i| item(i)).collect(),
        quote,
    }
}

#[test]
fn a_cursor_behind_the_text_closes_file_names() {
    let mut b = typed(None, "src/");
    b.sels.primary_mut().head = 9;
    let mut c = CompletionUi::new();
    c.is_path_session = true;
    c.items = vec![item("lib.rs")];
    c.filtered = vec![0];
    assert!(!wants_paths(&c, &b));
    update_completion_after_insert(&mut c, &b, None, 0);
    assert!(!c.is_path_session && !c.is_visible());
    // A server is asked all the same.
    let mut b = typed(Some("python"), "x.");
    b.sels.primary_mut().head = 9;
    let mut c = CompletionUi::new();
    let waiting = PendingTrigger { anchor: 2, trigger: CompletionTrigger::Invoked, deadline: 0 };
    c.pending = Some(waiting);
    assert!(matches!(
        maybe_fire_completion(&mut c, &b, 0),
        Due::Ask { line: 0, character: 9, .. }
    ));
}
