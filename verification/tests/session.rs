use std::collections::HashMap;

use medit::action::{ExAction, JumpAction, LspAction};
use medit::buffer::{collect_bytes, Buffer};
use medit::editor::{
    attempt_close_current, attempt_quit, buffer_index_by_path, close_buffer_at, cursor_line_col,
    finish_save, first_conflict, note_disk_change, refresh_bytes_cache, reload_from_disk, reload_note,
    save_current, CloseOutcome, DiskChange, DiskMeta, EditorBuffer, QuitOutcome, SavePlan,
};
use medit::input::{Key, KeyEvent, Mods};
use medit::json::Json;
use medit::jumps::{JumpEntry, JumpList};
use medit::lsp::{DefinitionLocation, LspClient, LspError, LspEvent, Message};
use medit::prompt::{
    build_close_buffer_prompt, build_conflict_prompt, build_quit_prompt, finish_quit_save,
    handle_prompt, next_unsaved, raise_conflict, save_for_quit, PromptKind, PromptOutcome,
};
use medit::session::{
    add_opened, after_save, dispatch_ex_action, dispatch_jump, dispatch_lsp, front_key,
    handle_lsp_event, input_settled, land_at, mark_synced, request_meta, switch_to,
    quit_key, start_input, sync_lsp_if_dirty, AfterAction, EventStep, FrontKey, LspStep, QuitKey,
    RequestMeta,
};
use medit::selection::Mode;
use medit::suggest::{CompletionUi, PendingTrigger};
use medit::protocol::CompletionTrigger;

fn meta(mtime: i128) -> Option<DiskMeta> {
    Some(DiskMeta { mtime, size: 3 })
}

fn open(path: &str, text: &str) -> EditorBuffer {
    let name = path.rsplit('/').next().unwrap().to_string();
    let ext = path.rsplit('.').next();
    EditorBuffer::new(
        Buffer::from_bytes(text.as_bytes().to_vec()),
        Some(path.to_string()),
        Some(name),
        ext,
        meta(1),
    )
}

fn scratch() -> EditorBuffer {
    EditorBuffer::new(Buffer::empty(), None, None, None, None)
}

fn key(c: char) -> KeyEvent {
    KeyEvent::plain(Key::Char(c))
}

fn three() -> Vec<EditorBuffer> {
    vec![open("/a.go", "a"), open("/b.go", "b"), open("/c.go", "c")]
}

fn names(buffers: &[EditorBuffer]) -> Vec<String> {
    buffers.iter().map(|b| b.display_name()).collect()
}

#[test]
fn buffers_start_clean() {
    let b = open("/d/x.go", "hi");
    assert_eq!(b.display_name(), "x.go");
    assert_eq!(b.lang_id, Some("go"));
    assert!(!b.is_dirty());
    let s = scratch();
    assert_eq!(s.display_name(), "[no name]");
    assert!(!s.is_dirty());
    // The language may come from the first line.
    let m = EditorBuffer::new(
        Buffer::from_bytes(b"#!/usr/bin/env msh\n".to_vec()),
        None,
        None,
        None,
        None,
    );
    assert_eq!(m.lang_id, Some("mshell"));
}

#[test]
fn edits_make_a_buffer_dirty_and_caches_follow() {
    let mut b = open("/x.txt", "a\nb");
    refresh_bytes_cache(&mut b);
    assert_eq!((b.cached_bytes.as_slice(), b.line_starts.as_slice()), (&b"a\nb"[..], &[0, 2][..]));
    b.buffer.insert(3, b"\nc");
    assert!(b.is_dirty());
    refresh_bytes_cache(&mut b);
    assert_eq!(b.cached_bytes, b"a\nb\nc");
    assert_eq!(b.line_starts, vec![0, 2, 4]);
    b.place_cursor(4);
    assert_eq!(cursor_line_col(&b), (2, 0));
    b.place_cursor(99);
    assert_eq!(b.head(), 4);
}

#[test]
fn closing_shows_the_buffer_to_the_left() {
    let mut bs = three();
    let mut current = 1;
    close_buffer_at(&mut bs, &mut current, 1);
    assert_eq!((names(&bs), current), (vec!["a.go".to_string(), "c.go".to_string()], 0));
    let mut bs = three();
    let mut current = 0;
    close_buffer_at(&mut bs, &mut current, 0);
    assert_eq!(current, 0);
    assert_eq!(bs[current].display_name(), "b.go");
    // Another buffer that is closed leaves the one shown alone.
    let mut bs = three();
    let mut current = 2;
    close_buffer_at(&mut bs, &mut current, 0);
    assert_eq!(bs[current].display_name(), "c.go");
    let mut current = 0;
    close_buffer_at(&mut bs, &mut current, 1);
    assert_eq!(bs[current].display_name(), "b.go");
    close_buffer_at(&mut bs, &mut current, 9);
    assert_eq!(bs.len(), 1);
}

#[test]
fn unsaved_changes_are_asked_about() {
    let mut bs = three();
    let mut current = 1;
    assert_eq!(attempt_quit(&bs), QuitOutcome::Quit);
    bs[1].buffer.insert(0, b"x");
    assert_eq!(attempt_quit(&bs), QuitOutcome::Prompt);
    assert_eq!(attempt_close_current(&mut bs, &mut current), CloseOutcome::Prompt);
    assert_eq!(bs.len(), 3);
    current = 0;
    assert_eq!(attempt_close_current(&mut bs, &mut current), CloseOutcome::Closed);
    let mut one = vec![scratch()];
    let mut current = 0;
    assert_eq!(attempt_close_current(&mut one, &mut current), CloseOutcome::QuitEditor);
    assert!(one.is_empty());
}

#[test]
fn saving() {
    let mut b = open("/x", "abc");
    b.buffer.insert(0, b"z");
    let mut msg = String::new();
    match save_current(&mut b, false, meta(1), &mut msg) {
        SavePlan::Write(bytes) => assert_eq!(bytes, b"zabc"),
        _ => panic!("a write"),
    }
    assert!(!finish_save(&mut b, Err("denied".to_string()), None, &mut msg));
    assert_eq!(msg, "write failed: denied");
    assert!(b.is_dirty());
    assert!(finish_save(&mut b, Ok(()), meta(2), &mut msg));
    assert_eq!(msg, "\"/x\" written");
    assert!(!b.is_dirty());
    assert_eq!(b.disk_meta, meta(2));
    assert!(matches!(save_current(&mut scratch(), false, None, &mut msg), SavePlan::NoPath));
    assert_eq!(msg, "no file name (use :w <path>)");
}

#[test]
fn a_file_changed_on_disk_is_not_overwritten() {
    let mut b = open("/x", "abc");
    b.buffer.insert(0, b"z");
    let mut msg = String::new();
    assert!(matches!(save_current(&mut b, false, meta(5), &mut msg), SavePlan::Changed));
    assert_eq!(msg, "\"/x\" changed on disk \u{2014} :w! overwrites, :e! reloads");
    assert!(b.external_change_pending);
    assert!(matches!(save_current(&mut b, true, meta(5), &mut msg), SavePlan::Write(_)));
    // A file that is gone is written.
    assert!(matches!(save_current(&mut b, false, None, &mut msg), SavePlan::Write(_)));
}

#[test]
fn reloading() {
    let mut b = open("/x", "abcdef");
    b.buffer.insert(0, b"z");
    b.place_cursor(6);
    let mut msg = String::new();
    assert!(!reload_from_disk(&mut b, Err("gone".to_string()), None, &mut msg));
    assert_eq!(msg, "reload failed: gone");
    assert!(reload_from_disk(&mut b, Ok(b"ab".to_vec()), meta(7), &mut msg));
    assert_eq!(collect_bytes(&b.buffer), b"ab");
    assert!(!b.is_dirty());
    assert_eq!((b.head(), b.top_line, b.disk_meta), (2, 0, meta(7)));
    assert!(!reload_from_disk(&mut scratch(), Ok(Vec::new()), None, &mut msg));
    assert_eq!(msg, "no file to reload");
    assert_eq!(reload_note(&b), "\"/x\" auto-reloaded from disk");
}

#[test]
fn disk_changes() {
    let mut b = open("/x", "abc");
    assert_eq!(note_disk_change(&mut b, meta(1)), DiskChange::Nothing);
    assert_eq!(note_disk_change(&mut b, None), DiskChange::Nothing);
    assert_eq!(note_disk_change(&mut b, meta(2)), DiskChange::Reload);
    b.buffer.insert(0, b"z");
    assert_eq!(note_disk_change(&mut b, meta(2)), DiskChange::Conflict);
    assert!(b.external_change_pending);
}

#[test]
fn prompts_list_what_is_unsaved() {
    let mut bs = three();
    bs.push(open("/d.go", "d"));
    bs.push(open("/e.go", "e"));
    for b in bs.iter_mut() {
        b.buffer.insert(0, b"x");
    }
    let p = build_quit_prompt(&bs);
    assert_eq!(p.title, "Unsaved changes");
    assert_eq!(p.body[0], "5 buffer(s) have unsaved changes:");
    assert_eq!(p.body[1], "  \u{2022} a.go");
    assert_eq!(p.body[5], "  \u{2022} \u{2026} and 1 more");
    assert_eq!(p.choices[0], ("y", "save all & quit"));
    let p = build_close_buffer_prompt(&bs, 1);
    assert_eq!(p.body, vec!["\"b.go\" has unsaved edits."]);
    let p = build_conflict_prompt(&bs, 9);
    assert_eq!(p.body[0], "\"?\" was modified externally");
    let mut up = Some(build_quit_prompt(&bs));
    raise_conflict(&mut up, &bs, Some(0));
    assert!(matches!(up.unwrap().kind, PromptKind::QuitConfirm));
    let mut up = None;
    raise_conflict(&mut up, &bs, Some(2));
    assert!(matches!(up.unwrap().kind, PromptKind::Conflict { buffer_index: 2 }));
}

#[test]
fn answers_to_prompts() {
    let mut bs = three();
    bs[1].buffer.insert(0, b"x");
    let mut current = 1;
    let mut msg = String::new();
    let quit = build_quit_prompt(&bs);
    let step = handle_prompt(&quit, key('Y'), &mut bs, &mut current, &mut msg);
    assert_eq!(step, PromptOutcome::SaveAllAndQuit);
    let step = handle_prompt(&quit, key('n'), &mut bs, &mut current, &mut msg);
    assert_eq!(step, PromptOutcome::Quit);
    let step = handle_prompt(&quit, key('x'), &mut bs, &mut current, &mut msg);
    assert_eq!((step, msg.as_str()), (PromptOutcome::Dismiss, "quit cancelled"));

    let close = build_close_buffer_prompt(&bs, 1);
    let step = handle_prompt(&close, key('y'), &mut bs, &mut current, &mut msg);
    assert_eq!(step, PromptOutcome::SaveAndClose(1));
    let step = handle_prompt(&close, key(' '), &mut bs, &mut current, &mut msg);
    assert_eq!((step, msg.as_str()), (PromptOutcome::Dismiss, "close cancelled"));
    assert_eq!(bs.len(), 3);
    let step = handle_prompt(&close, key('n'), &mut bs, &mut current, &mut msg);
    assert_eq!((step, bs.len(), current), (PromptOutcome::Dismiss, 2, 0));

    let conflict = build_conflict_prompt(&bs, 0);
    let step = handle_prompt(&conflict, key('r'), &mut bs, &mut current, &mut msg);
    assert_eq!(step, PromptOutcome::Reload(0));
    let step = handle_prompt(&conflict, key('O'), &mut bs, &mut current, &mut msg);
    assert_eq!(step, PromptOutcome::Overwrite(0));
    let step = handle_prompt(&conflict, key('q'), &mut bs, &mut current, &mut msg);
    assert_eq!(step, PromptOutcome::Dismiss);
    assert_eq!(msg, "conflict deferred \u{2014} use :e! or :w! when ready");
    let gone = build_conflict_prompt(&bs, 7);
    let step = handle_prompt(&gone, key('r'), &mut bs, &mut current, &mut msg);
    assert_eq!(step, PromptOutcome::Dismiss);
}

#[test]
fn saving_all_before_quitting() {
    let mut bs = three();
    let mut msg = String::new();
    assert_eq!(next_unsaved(&bs), None);
    bs[2].buffer.insert(0, b"x");
    assert_eq!(next_unsaved(&bs), Some(2));
    assert!(matches!(save_for_quit(&mut bs[2], meta(9), &mut msg), SavePlan::Changed));
    assert_eq!(msg, "\"/c.go\" changed on disk \u{2014} resolve with :w! or :e!");
    assert!(matches!(save_for_quit(&mut bs[2], meta(1), &mut msg), SavePlan::Write(_)));
    assert!(!finish_quit_save(&mut bs[2], Err("full".to_string()), None, &mut msg));
    assert_eq!(msg, "write /c.go failed: full");
    assert!(finish_quit_save(&mut bs[2], Ok(()), meta(2), &mut msg));
    assert_eq!(next_unsaved(&bs), None);
    let mut s = scratch();
    s.buffer.insert(0, b"x");
    assert!(matches!(save_for_quit(&mut s, None, &mut msg), SavePlan::NoPath));
    assert_eq!(msg, "\"[no name]\" has no path \u{2014} use :w <path> first");
}

#[test]
fn commands_on_the_list_of_buffers() {
    let mut bs = three();
    let mut current = 0;
    let mut prompt = None;
    let mut msg = String::new();
    let mut run = |a: ExAction, bs: &mut Vec<EditorBuffer>, current: &mut usize| {
        dispatch_ex_action(a, bs, current, &mut prompt, &mut msg)
    };
    assert!(matches!(run(ExAction::PrevBuffer, &mut bs, &mut current), AfterAction::Continue));
    assert_eq!(current, 2);
    run(ExAction::NextBuffer, &mut bs, &mut current);
    assert_eq!(current, 0);
    run(ExAction::NextBuffer, &mut bs, &mut current);
    run(ExAction::ListBuffers, &mut bs, &mut current);
    assert!(matches!(
        run(ExAction::OpenFile("/z".to_string()), &mut bs, &mut current),
        AfterAction::Open(p) if p == "/z"
    ));
    assert!(matches!(
        run(ExAction::Save, &mut bs, &mut current),
        AfterAction::Save { force: false, then_close: false }
    ));
    assert!(matches!(
        run(ExAction::ForceSave, &mut bs, &mut current),
        AfterAction::Save { force: true, then_close: false }
    ));
    assert!(matches!(
        run(ExAction::SaveAndQuit, &mut bs, &mut current),
        AfterAction::Save { force: false, then_close: true }
    ));
    assert!(matches!(run(ExAction::Reload, &mut bs, &mut current), AfterAction::Reload));
    bs[1].buffer.insert(0, b"x");
    assert!(matches!(run(ExAction::Quit, &mut bs, &mut current), AfterAction::Continue));
    assert_eq!(bs.len(), 3);
    assert!(matches!(run(ExAction::ForceQuit, &mut bs, &mut current), AfterAction::Continue));
    assert_eq!((bs.len(), current), (2, 0));
    run(ExAction::ForceQuit, &mut bs, &mut current);
    assert!(matches!(run(ExAction::ForceQuit, &mut bs, &mut current), AfterAction::Quit));
    assert_eq!(msg, " 1 a.go  *2 b.go   3 c.go");
    assert!(matches!(
        prompt.unwrap().kind,
        PromptKind::CloseBufferConfirm { buffer_index: 1 }
    ));
}

#[test]
fn closing_follows_a_save_that_succeeded() {
    let mut bs = three();
    let mut current = 2;
    assert!(!after_save(&mut bs, &mut current, false, true));
    assert_eq!(bs.len(), 3);
    assert!(!after_save(&mut bs, &mut current, true, false));
    assert_eq!(bs.len(), 3);
    assert!(!after_save(&mut bs, &mut current, true, true));
    assert_eq!((bs.len(), current), (2, 1));
    let mut one = vec![open("/a", "")];
    let mut current = 0;
    assert!(after_save(&mut one, &mut current, true, true));
}

#[test]
fn opening_and_switching() {
    let mut bs = three();
    let mut current = 0;
    let mut msg = String::new();
    assert_eq!(buffer_index_by_path(&bs, "/b.go"), Some(1));
    assert!(switch_to(&bs, &mut current, "/b.go"));
    assert_eq!(current, 1);
    assert!(!switch_to(&bs, &mut current, "/z"));
    assert!(add_opened(&mut bs, &mut current, Ok(open("/z", "")), &mut msg));
    assert_eq!((bs.len(), current), (4, 3));
    assert!(!add_opened(&mut bs, &mut current, Err("no".to_string()), &mut msg));
    assert_eq!(msg, "open failed: no");
}

#[test]
fn jumping_back_and_forth() {
    let mut jumps = JumpList::new();
    let mut b = open("/a", "abcdef");
    b.place_cursor(3);
    let mut msg = String::new();
    assert!(dispatch_jump(JumpAction::Back, &mut jumps, &b, &mut msg).is_none());
    assert_eq!(msg, "no earlier jumps");
    jumps.record(JumpEntry { path: "/b".to_string(), offset: 1 });
    let t = dispatch_jump(JumpAction::Back, &mut jumps, &b, &mut msg).unwrap();
    assert_eq!((t.path.as_str(), t.offset), ("/b", 1));
    let other = open("/b", "xyz");
    let t = dispatch_jump(JumpAction::Forward, &mut jumps, &other, &mut msg).unwrap();
    assert_eq!((t.path.as_str(), t.offset), ("/a", 3));
    assert!(dispatch_jump(JumpAction::Forward, &mut jumps, &other, &mut msg).is_none());
    assert_eq!(msg, "no later jumps");
}

#[test]
fn the_server_is_kept_up_to_date() {
    let mut b = open("/a.go", "abc");
    let c = LspClient::new(Vec::new());
    // A document that was never opened there is not changed there.
    assert!(sync_lsp_if_dirty(&b, &c, "file:///a.go").is_none());
    mark_synced(&mut b);
    assert!(sync_lsp_if_dirty(&b, &c, "file:///a.go").is_none());
    b.buffer.insert(0, b"\xff");
    let sent = sync_lsp_if_dirty(&b, &c, "file:///a.go").unwrap();
    let text = String::from_utf8(sent).unwrap();
    assert!(text.contains("\u{fffd}abc"));
    assert!(text.contains("textDocument/didChange"));
}

fn publish(c: &mut LspClient, uri: &str, places: &[(u64, u64)]) {
    let at = |p: &(u64, u64)| {
        Json::object().with("line", Json::Unsigned(p.0)).with("character", Json::Unsigned(p.1))
    };
    let ds = places
        .iter()
        .map(|p| {
            Json::object()
                .with("range", Json::object().with("start", at(p)).with("end", at(p)))
                .with("message", Json::string("m"))
        })
        .collect();
    c.handle_message(Message::Notification {
        method: "textDocument/publishDiagnostics".to_string(),
        params: Json::object().with("uri", Json::string(uri)).with("diagnostics", Json::Array(ds)),
    });
}

#[test]
fn walking_through_diagnostics() {
    let mut b = open("/a.go", "abc\ndef\nghi");
    let mut c = LspClient::new(Vec::new());
    let mut msg = String::new();
    let uri = Some("file:///a.go");
    dispatch_lsp(LspAction::NextDiagnostic, Some(&c), &mut b, uri, &mut msg);
    assert_eq!(msg, "no diagnostics");
    publish(&mut c, "file:///a.go", &[(2, 1), (0, 2)]);
    dispatch_lsp(LspAction::NextDiagnostic, Some(&c), &mut b, uri, &mut msg);
    assert_eq!(b.head(), 2);
    dispatch_lsp(LspAction::NextDiagnostic, Some(&c), &mut b, uri, &mut msg);
    assert_eq!(b.head(), 9);
    // Past the last one it begins anew.
    dispatch_lsp(LspAction::NextDiagnostic, Some(&c), &mut b, uri, &mut msg);
    assert_eq!(b.head(), 2);
    dispatch_lsp(LspAction::PrevDiagnostic, Some(&c), &mut b, uri, &mut msg);
    assert_eq!(b.head(), 9);
}

#[test]
fn asking_the_server() {
    let mut b = open("/a.go", "abc\ndef");
    b.place_cursor(5);
    let c = LspClient::new(Vec::new());
    let mut msg = String::new();
    let step = dispatch_lsp(LspAction::GotoDefinition, Some(&c), &mut b, Some("u"), &mut msg);
    assert!(matches!(step, LspStep::AskDefinition { line: 1, character: 1 }));
    let step = dispatch_lsp(LspAction::Hover, Some(&c), &mut b, Some("u"), &mut msg);
    assert!(matches!(step, LspStep::AskHover { line: 1, character: 1 }));
    let step = dispatch_lsp(LspAction::Hover, None, &mut b, Some("u"), &mut msg);
    assert!(matches!(step, LspStep::Done));
    assert_eq!(msg, "no LSP server for this file");
    dispatch_lsp(LspAction::Hover, Some(&c), &mut b, None, &mut msg);
    assert_eq!(msg, "LSP: current buffer has no URI");
    let m = request_meta(&b, true);
    assert_eq!(m.buf_path.as_deref(), Some("/a.go"));
    assert_eq!(m.pre_jump.unwrap().offset, 5);
    assert!(request_meta(&b, false).pre_jump.is_none());
    land_at(&mut b, 1, 2);
    assert_eq!(b.head(), 6);
}

/// What a server's event can change.
struct Stage {
    buffers: Vec<EditorBuffer>,
    current: usize,
    outstanding: HashMap<u64, RequestMeta>,
    hover: Option<String>,
    jumps: JumpList,
    message: String,
    comp: CompletionUi,
}

impl Stage {
    fn new() -> Stage {
        Stage {
            buffers: three(),
            current: 2,
            outstanding: HashMap::new(),
            hover: None,
            jumps: JumpList::new(),
            message: String::new(),
            comp: CompletionUi::new(),
        }
    }

    /// A request about the first buffer.
    fn ask(&mut self, id: u64) {
        let meta = request_meta(&self.buffers[0], true);
        self.outstanding.insert(id, meta);
    }

    fn event(&mut self, e: LspEvent) -> EventStep {
        let uris: Vec<Option<String>> =
            self.buffers.iter().map(|b| b.path.as_ref().map(|p| format!("file://{}", p))).collect();
        handle_lsp_event(
            e,
            &mut self.outstanding,
            &mut self.buffers,
            &mut self.current,
            &uris,
            &mut self.hover,
            &mut self.jumps,
            &mut self.message,
            &mut self.comp,
        )
    }
}

fn found(uri: &str, line: u32) -> LspEvent {
    LspEvent::Definition {
        id: 5,
        result: Ok(Some(DefinitionLocation { uri: uri.to_string(), line, character: 0 })),
    }
}

#[test]
fn hovers() {
    let mut s = Stage::new();
    s.ask(5);
    s.event(LspEvent::Hover { id: 5, result: Ok(Some("doc".to_string())) });
    assert_eq!(s.hover.as_deref(), Some("doc"));
    assert!(s.outstanding.is_empty());
    s.ask(5);
    s.event(LspEvent::Hover { id: 5, result: Ok(None) });
    assert_eq!(s.message, "no hover info");
    s.ask(5);
    let e = LspError { code: 0, message: "busy".to_string() };
    s.event(LspEvent::Hover { id: 5, result: Err(e) });
    assert_eq!(s.message, "LSP error: busy");
}

#[test]
fn stale_answers_change_nothing() {
    let mut s = Stage::new();
    s.event(LspEvent::Hover { id: 5, result: Ok(Some("doc".to_string())) });
    assert_eq!(s.hover, None);
    s.ask(5);
    s.buffers[0].buffer.insert(0, b"x");
    s.event(LspEvent::Hover { id: 5, result: Ok(Some("doc".to_string())) });
    assert_eq!(s.hover, None);
    s.ask(5);
    s.buffers.remove(0);
    s.current = 1;
    s.event(found("file:///a.go", 0));
    assert_eq!((s.current, s.jumps.back_len()), (1, 0));
}

#[test]
fn definitions_lead_there() {
    let mut s = Stage::new();
    s.buffers[0] = open("/a.go", "one\ntwo");
    s.ask(5);
    assert!(matches!(s.event(found("file:///a.go", 1)), EventStep::Done));
    assert_eq!((s.current, s.buffers[0].head(), s.jumps.back_len()), (0, 4, 1));
    s.ask(5);
    match s.event(found("file:///q.go", 3)) {
        EventStep::Goto { path, line, character } => {
            assert_eq!((path.as_str(), line, character), ("/q.go", 3, 0));
        }
        EventStep::Done => panic!("another file"),
    }
    s.ask(5);
    s.event(found("http://x", 3));
    assert_eq!(s.message, "LSP: cannot parse target URI: http://x");
    s.ask(5);
    s.event(LspEvent::Definition { id: 5, result: Ok(None) });
    assert_eq!(s.message, "no definition found");
}

#[test]
fn superseded_completions_are_dropped() {
    let item = || Json::Array(vec![Json::object().with("label", Json::string("abc"))]);
    let mut s = Stage::new();
    s.ask(5);
    s.comp.request_id = Some(6);
    s.event(LspEvent::Completion { id: 5, result: Ok(item()) });
    assert!(!s.comp.is_visible());
    s.ask(6);
    s.event(LspEvent::Completion { id: 6, result: Ok(item()) });
    assert!(s.comp.is_visible());
    assert_eq!(s.comp.request_id, None);
    s.comp.close();
    s.ask(7);
    s.comp.request_id = Some(7);
    let e = LspError { code: 0, message: "busy".to_string() };
    s.event(LspEvent::Completion { id: 7, result: Err(e) });
    assert_eq!((s.comp.request_id, s.comp.is_visible()), (None, false));
}

#[test]
fn keys_for_jumps_and_hovering() {
    let ctrl = |c: char| KeyEvent::with(Key::Char(c), Mods::ctrl());
    let tab = KeyEvent::plain(Key::Tab);
    assert_eq!(front_key(true, false, false, ctrl('o')), Some(FrontKey::Jump(JumpAction::Back)));
    assert_eq!(front_key(true, false, false, ctrl('i')), Some(FrontKey::Jump(JumpAction::Forward)));
    assert_eq!(front_key(true, false, false, tab), Some(FrontKey::Jump(JumpAction::Forward)));
    assert_eq!(front_key(true, true, false, key('h')), Some(FrontKey::Ask(LspAction::Hover)));
    // Another key is being waited for, or it is no such key.
    assert_eq!(front_key(false, false, false, ctrl('o')), None);
    assert_eq!(front_key(true, false, true, tab), None);
    assert_eq!(front_key(true, true, false, ctrl('o')), None);
    assert_eq!(front_key(true, false, false, key('o')), None);
    assert_eq!(front_key(true, false, false, key('h')), None);
}

#[test]
fn no_popup_outside_of_insert_mode() {
    let mut c = CompletionUi::new();
    let waiting = PendingTrigger { anchor: 1, trigger: CompletionTrigger::Invoked, deadline: 9 };
    c.pending = Some(waiting);
    assert!(!input_settled(&mut c, Mode::Insert));
    assert!(c.pending.is_some());
    assert!(input_settled(&mut c, Mode::Normal));
    assert!(c.pending.is_none());
}

#[test]
fn ctrl_c_quits_or_asks() {
    let ctrl_c = KeyEvent::with(Key::Char('c'), Mods::ctrl());
    let mut buffers = three();
    let mut prompt = None;
    assert_eq!(quit_key(key('c'), &buffers, &mut prompt), QuitKey::Other);
    assert_eq!(quit_key(ctrl_c, &buffers, &mut prompt), QuitKey::Quit);
    assert!(prompt.is_none());
    buffers[1].buffer.insert(0, b"x");
    assert_eq!(quit_key(ctrl_c, &buffers, &mut prompt), QuitKey::Asked);
    assert_eq!(prompt.unwrap().title, build_quit_prompt(&buffers).title);
}

#[test]
fn opened_lines_start_empty() {
    let (mut ex, mut search) = ("w".to_string(), "foo".to_string());
    start_input(Mode::Normal, &mut ex, &mut search);
    assert_eq!((ex.as_str(), search.as_str()), ("w", "foo"));
    start_input(Mode::Ex, &mut ex, &mut search);
    assert_eq!((ex.as_str(), search.as_str()), ("", "foo"));
    start_input(Mode::Search, &mut ex, &mut search);
    assert_eq!(search, "");
}

#[test]
fn the_first_conflict_is_asked_about() {
    assert_eq!(first_conflict(None, DiskChange::Reload, 1), None);
    assert_eq!(first_conflict(None, DiskChange::Conflict, 2), Some(2));
    assert_eq!(first_conflict(Some(2), DiskChange::Conflict, 3), Some(2));
    assert_eq!(first_conflict(Some(2), DiskChange::Nothing, 3), Some(2));
}
