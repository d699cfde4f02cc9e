use medit::format::{format_bytes, format_key, parse_usize, push_decimal_padded};
use medit::highlight::{flatten_to_byte_scopes, sorted_spans, Capture, HighlightSpan, Highlighter};
use medit::input::{Key, KeyEvent, Mods};
use medit::strings::{str_less, strip_prefix, trim, trim_end};
use medit::text::{
    byte_at_line, byte_at_line_cached, display_col, end_of_line, ensure_visible, line_end,
    line_index, line_index_cached, line_start, next_char, next_char_or_end, offset_at_col,
    prev_char, snap_to_char_or_last, utf8_len,
};
use medit::theme::{fg_for_scope, scope_for_capture, ScopeId};
use medit::trace::Tracer;
use medit::view::{ensure_visible_indexed, gutter_for};
use medit::watch::{poll, touched, watched_dir, WatchedDirs};
use medit::wrap::wrap_text;

#[test]
fn characters_are_stepped_over_whole() {
    let s = "a\u{e9}\u{20ac}\u{1f600}".as_bytes();
    assert_eq!(utf8_len(s[0]), 1);
    assert_eq!(utf8_len(s[1]), 2);
    assert_eq!(utf8_len(s[3]), 3);
    assert_eq!(utf8_len(s[6]), 4);
    assert_eq!(next_char(s, 1), 3);
    // The last character is not stepped past, unless that is asked for.
    assert_eq!(next_char(s, 6), 6);
    assert_eq!(next_char_or_end(s, 6), 10);
    assert_eq!(prev_char(s, 10), 6);
    assert_eq!(prev_char(s, 6), 3);
    assert_eq!(prev_char(s, 0), 0);
    assert_eq!(snap_to_char_or_last(s, 4), 3);
    assert_eq!(snap_to_char_or_last(s, 99), 6);
    assert_eq!(snap_to_char_or_last(b"", 5), 0);
}

#[test]
fn snapping_twice_is_snapping_once() {
    let s = "x\u{20ac}y".as_bytes();
    for o in 0..8 {
        let once = snap_to_char_or_last(s, o);
        assert_eq!(snap_to_char_or_last(s, once), once);
    }
}

#[test]
fn lines() {
    let s = b"ab\ncde\n\nf";
    assert_eq!(line_start(s, 4), 3);
    assert_eq!(line_end(s, 4), 6);
    assert_eq!(end_of_line(s, 4), 5);
    assert_eq!(end_of_line(s, 7), 7);
    assert_eq!(line_index(s, 4), 1);
    assert_eq!(line_index(s, 99), 3);
    assert_eq!(byte_at_line(s, 3), 8);
    assert_eq!(byte_at_line(s, 9), 9);
}

#[test]
fn cached_line_lookup_agrees_with_counting() {
    let s = b"ab\ncde\n\nf";
    let starts = [0, 3, 7, 8];
    for o in 0..=s.len() {
        assert_eq!(line_index_cached(&starts, o), line_index(s, o));
    }
    for l in 0..6 {
        assert_eq!(byte_at_line_cached(&starts, l, s.len()), byte_at_line(s, l));
    }
}

#[test]
fn columns() {
    assert_eq!(display_col(b"\tab", 0, 1), 5);
    assert_eq!(display_col(b"a\tb", 0, 2), 5);
    assert_eq!(display_col(b"\x01b", 0, 1), 3);
    assert_eq!(display_col(b"\rb", 0, 1), 1);
    assert_eq!(offset_at_col(b"\tab\nx", 0, 5), 1);
    assert_eq!(offset_at_col(b"\tab\nx", 0, 99), 2);
    assert_eq!(offset_at_col(b"abc", 0, 2), 1);
}

#[test]
fn scrolling_shows_the_line() {
    let text: Vec<u8> = b"\n".repeat(100);
    let mut top = 0;
    ensure_visible(&text, 50, &mut top, 10);
    assert_eq!(top, 41);
    ensure_visible(&text, 5, &mut top, 10);
    assert_eq!(top, 5);
    ensure_visible(&text, 7, &mut top, 10);
    assert_eq!(top, 5);
    ensure_visible(&text, 80, &mut top, 0);
    assert_eq!(top, 5);
}

#[test]
fn a_margin_is_kept_around_the_line() {
    let starts: Vec<usize> = (0..100).collect();
    let mut top = 0;
    ensure_visible_indexed(&starts, 50, &mut top, 20, 5);
    assert_eq!(top, 36);
    ensure_visible_indexed(&starts, 38, &mut top, 20, 5);
    assert_eq!(top, 33);
    // Too little room for the margin: it shrinks.
    ensure_visible_indexed(&starts, 60, &mut top, 3, 5);
    assert_eq!(top, 59);
}

#[test]
fn gutter_width() {
    assert_eq!(gutter_for(9, 80), 2);
    assert_eq!(gutter_for(10, 80), 3);
    assert_eq!(gutter_for(1000, 6), 0);
    assert_eq!(gutter_for(1000, 7), 5);
}

#[test]
fn wrapping() {
    assert_eq!(wrap_text("one two three", 8, 10), vec!["one two", "three"]);
    assert_eq!(wrap_text("abcdefghij", 4, 10), vec!["abcd", "efgh", "ij"]);
    assert_eq!(wrap_text("a\n\nb", 4, 10), vec!["a", "", "b"]);
    assert_eq!(wrap_text("a\nb\nc", 4, 2), vec!["a", "b\u{2026}"]);
    assert_eq!(wrap_text("aaaa bbbb", 4, 1), vec!["aaa\u{2026}"]);
    assert!(wrap_text("", 4, 2).is_empty());
}

#[test]
fn keys_and_bytes_are_spelled_out() {
    assert_eq!(format_key(&KeyEvent::plain(Key::Char('a'))), "'a'");
    assert_eq!(format_key(&KeyEvent::with(Key::Char('x'), Mods::ctrl() | Mods::alt())), "C-A-'x'");
    assert_eq!(format_key(&KeyEvent::with(Key::Up, Mods::shift())), "S-Up");
    assert_eq!(format_key(&KeyEvent::plain(Key::Char('\''))), "'\\''");
    assert_eq!(format_key(&KeyEvent::plain(Key::Char('\\'))), "'\\\\'");
    assert_eq!(format_key(&KeyEvent::plain(Key::Char('"'))), "'\"'");
    assert_eq!(format_key(&KeyEvent::plain(Key::Char('\u{e9}'))), "U+00E9");
    assert_eq!(format_key(&KeyEvent::plain(Key::F(12))), "F12");
    assert_eq!(format_bytes(b"a \x1b[\xff"), "a \\x1b[\\xff");
}

#[test]
fn numbers_are_read_back() {
    assert_eq!(parse_usize("0"), Some(0));
    assert_eq!(parse_usize("+17"), Some(17));
    assert_eq!(parse_usize("4096"), Some(4096));
    assert_eq!(parse_usize(""), None);
    assert_eq!(parse_usize("-1"), None);
    assert_eq!(parse_usize("1 "), None);
    assert_eq!(parse_usize("99999999999999999999999"), None);
    let mut s = String::new();
    push_decimal_padded(&mut s, 42, 5);
    assert_eq!(s, "   42");
}

#[test]
fn string_helpers() {
    assert_eq!(trim("  a b\t\n"), "a b");
    assert_eq!(trim_end(" a \u{3000}"), " a");
    assert_eq!(strip_prefix("e x", "e "), Some("x".to_string()));
    assert_eq!(strip_prefix("ex", "e "), None);
    assert!(str_less("Z", "a"));
    assert!(!str_less("a", "a"));
    assert!(str_less("a", "aa"));
}

#[test]
fn unknown_captures_take_their_parents_scope() {
    assert_eq!(scope_for_capture("function.method.call"), ScopeId::Function);
    assert_eq!(scope_for_capture("variable.store"), ScopeId::VariableStore);
    assert_eq!(scope_for_capture("variable.other"), ScopeId::Variable);
    assert_eq!(scope_for_capture("markup.raw.block"), ScopeId::String);
    assert_eq!(scope_for_capture("markup"), ScopeId::Default);
    assert_eq!(scope_for_capture("nope"), ScopeId::Default);
    assert_eq!(fg_for_scope(ScopeId::Default), "\x1b[39m");
    assert_eq!(fg_for_scope(ScopeId::Keyword), "\x1b[38;5;141m");
}

#[test]
fn inner_spans_win() {
    let scopes = [ScopeId::String, ScopeId::StringEscape, ScopeId::Default];
    let spans = sorted_spans(
        &scopes,
        &[
            Capture { index: 1, start: 2, end: 4 },
            Capture { index: 0, start: 1, end: 6 },
            Capture { index: 7, start: 5, end: 6 },
            Capture { index: 0, start: 3, end: 3 },
        ],
    );
    assert_eq!(spans.len(), 3);
    assert_eq!((spans[0].start, spans[0].end), (1, 6));
    assert_eq!((spans[1].start, spans[1].end), (2, 4));
    assert_eq!(
        flatten_to_byte_scopes(&spans, 7),
        vec![
            ScopeId::Default,
            ScopeId::String,
            ScopeId::StringEscape,
            ScopeId::StringEscape,
            ScopeId::String,
            ScopeId::Default,
            ScopeId::Default,
        ]
    );
    let past = [HighlightSpan { start: 1, end: 9, scope: ScopeId::Tag }];
    assert_eq!(flatten_to_byte_scopes(&past, 2), vec![ScopeId::Default, ScopeId::Tag]);
}

#[test]
fn languages_by_extension() {
    assert_eq!(Highlighter::language_for_path("go"), Some("go"));
    assert_eq!(Highlighter::language_for_path("msh"), Some("mshell"));
    assert_eq!(Highlighter::language_for_path("rs"), None);
}

#[test]
fn frames_are_traced_when_asked() {
    let mut t = Tracer::new(true);
    t.record_collect(1500);
    t.record_collect(2500);
    assert_eq!(
        t.emit_frame(9000, 5000, 4000, 12).as_deref(),
        Some("frame\ttotal_us=9\thandle_us=5\trender_us=4\tcollects=2\tcollect_us=4\tbytes=12")
    );
    assert!(t.emit_frame(0, 0, 0, 0).unwrap().contains("collects=0\tcollect_us=0"));
    let mut off = Tracer::new(false);
    off.record_collect(1);
    assert!(!off.enabled());
    assert_eq!(off.emit_frame(1, 1, 1, 1), None);
}

#[test]
fn directories_are_watched_once() {
    let mut w = WatchedDirs::new();
    let dir = watched_dir(Some("src"));
    assert!(w.is_new(&dir));
    w.watch(dir);
    assert!(!w.is_new("src"));
    assert_eq!(watched_dir(None), ".");
    assert_eq!(watched_dir(Some("")), ".");
}

#[test]
fn changes_are_reported_once() {
    let changed = ["b".to_string(), "a".to_string(), "b".to_string()];
    assert_eq!(poll(&changed), vec!["b", "a"]);
}

#[test]
fn a_change_touches_the_buffers_of_its_file() {
    let paths = [Some("/a".to_string()), None, Some("/b".to_string()), Some("/a".to_string())];
    assert_eq!(touched(&paths, "/a"), vec![0, 3]);
    assert_eq!(touched(&paths, "/b"), vec![2]);
    assert!(touched(&paths, "/c").is_empty());
}

#[test]
fn languages_have_servers() {
    let go = Highlighter::lsp_command_for_lang("go").unwrap();
    assert_eq!((go.program, go.args.len()), ("gopls", 0));
    let python = Highlighter::lsp_command_for_lang("python").unwrap();
    assert_eq!((python.program, python.args), ("ty", vec!["server"]));
    assert!(Highlighter::lsp_command_for_lang("mshell").is_none());
}

#[test]
fn columns_lead_back_to_their_characters() {
    let s = "a\tb\u{e9}\u{1}c\r\n\nlast".as_bytes();
    for o in [0usize, 1, 2, 3, 5, 6] {
        assert_eq!(offset_at_col(s, 0, display_col(s, 0, o)), o);
    }
    // A carriage return takes no column: the line's last character comes back.
    assert_eq!(offset_at_col(s, 0, display_col(s, 0, 7) + 1), 7);
    // Behind the end of a line, on an empty one, and on the last.
    assert_eq!(offset_at_col(s, 0, 99), 7);
    assert_eq!(offset_at_col(s, 9, 99), 9);
    assert_eq!(offset_at_col(s, 10, 99), 13);
}
