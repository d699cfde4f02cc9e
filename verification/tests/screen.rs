use medit::buffer::Buffer;
use medit::completion::CompletionItem;
use medit::editor::{refresh_bytes_cache, EditorBuffer};
use medit::highlight::HighlightSpan;
use medit::input::{Key, KeyEvent};
use medit::lsp::{Diagnostic, DiagnosticSeverity};
use medit::popup::{
    diag_border_fg_for, draw_box_at_cursor, draw_completion_popup, draw_diag_popup,
    draw_hover_popup, draw_prompt,
};
use medit::present::{
    buffer_label, needs_highlight, render_all, scroll_to_cursor, set_highlight, spinner_glyph,
};
use medit::prompt::build_close_buffer_prompt;
use medit::render::{
    append_cursor_pos, append_style_transition, diag_ul_for, draw_lineno, emit_styled_cell,
    PenState, Style,
};
use medit::search::{SearchKind, SearchState};
use medit::selection::Mode;
use medit::suggest::CompletionUi;
use medit::term::{goto_string, Screen};
use medit::theme::ScopeId;

/// A terminal that understands the sequences which a frame is made of.
struct Terminal {
    cells: Vec<Vec<char>>,
    row: usize,
    col: usize,
}

impl Terminal {
    fn show(cols: usize, rows: usize, frame: &[u8]) -> Terminal {
        let mut t = Terminal { cells: vec![vec![' '; cols]; rows], row: 1, col: 1 };
        let text = String::from_utf8(frame.to_vec()).unwrap();
        let mut chars = text.chars().peekable();
        while let Some(c) = chars.next() {
            if c != '\x1b' {
                if t.row >= 1 && t.row <= rows && t.col >= 1 && t.col <= cols {
                    t.cells[t.row - 1][t.col - 1] = c;
                }
                t.col += 1;
                continue;
            }
            assert_eq!(chars.next(), Some('['));
            let mut params = String::new();
            let last = loop {
                let c = chars.next().unwrap();
                if c.is_ascii_alphabetic() {
                    break c;
                }
                params.push(c);
            };
            if last == 'H' {
                let mut parts = params.split(';');
                let number = |p: Option<&str>| p.and_then(|s| s.parse().ok()).unwrap_or(1);
                t.row = number(parts.next());
                t.col = number(parts.next());
            } else if last == 'K' && t.row <= rows {
                for c in t.cells[t.row - 1].iter_mut().skip(t.col - 1) {
                    *c = ' ';
                }
            }
        }
        t
    }

    fn line(&self, row: usize) -> String {
        let s: String = self.cells[row - 1].iter().collect();
        s.trim_end().to_string()
    }
}

fn opened(text: &str) -> EditorBuffer {
    let mut b = EditorBuffer::new(
        Buffer::from_bytes(text.as_bytes().to_vec()),
        Some("/x.txt".to_string()),
        Some("x.txt".to_string()),
        Some("txt"),
        None,
    );
    refresh_bytes_cache(&mut b);
    b
}

fn no_search() -> SearchState {
    SearchState { pattern: None, preview: None, start: None, kind: SearchKind::Find }
}

fn frame(buffers: &[EditorBuffer], mode: Mode, cols: u16, rows: u16) -> Vec<u8> {
    let mut screen = Screen::with_size(cols, rows);
    render_all(
        &mut screen,
        buffers,
        0,
        mode,
        "wq",
        "pat",
        &no_search(),
        "",
        None,
        b"",
        &[],
        None,
        None,
        None,
        &CompletionUi::new(),
    );
    screen.back
}

fn holds(frame: &[u8], what: &str) -> bool {
    String::from_utf8(frame.to_vec()).unwrap().contains(what)
}

#[test]
fn positions_are_written_out() {
    assert_eq!(goto_string(3, 14), "\x1b[3;14H");
    let mut out = Vec::new();
    append_cursor_pos(&mut out, 12, 5);
    assert_eq!(out, b"\x1b[12;5H");
    let mut s = Screen::with_size(80, 24);
    s.begin_frame();
    assert_eq!(s.back, b"\x1b[?2026h\x1b[?25l\x1b[H");
    s.back.clear();
    s.clear_row(2);
    s.write_at(2, 3, "hi");
    s.set_cursor_shape(true);
    s.set_cursor_shape(false);
    s.end_frame(4, 5);
    assert_eq!(
        s.back,
        b"\x1b[2;1H\x1b[K\x1b[2;3Hhi\x1b[2 q\x1b[6 q\x1b[4;5H\x1b[?25h\x1b[?2026l"
    );
}

#[test]
fn only_what_changes_in_a_style_is_written() {
    let none = Style { fg: None, bg: None, ul: None };
    let red = Style { fg: Some("\x1b[31m"), bg: None, ul: None };
    let full = Style { fg: Some("\x1b[31m"), bg: Some("\x1b[44m"), ul: Some("\x1b[4m") };
    let step = |a: Style, b: Style| {
        let mut out = Vec::new();
        append_style_transition(&mut out, a, b);
        String::from_utf8(out).unwrap()
    };
    assert_eq!(step(red, red), "");
    assert_eq!(step(none, red), "\x1b[31m");
    assert_eq!(step(red, none), "\x1b[39m");
    assert_eq!(step(full, none), "\x1b[0m");
    assert_eq!(step(full, red), "\x1b[49m\x1b[24;59m");
    assert_eq!(step(red, full), "\x1b[44m\x1b[4m");
}

#[test]
fn adjacent_cells_need_no_positioning() {
    let none = Style { fg: None, bg: None, ul: None };
    let mut s = Screen::with_size(80, 24);
    let mut pen = PenState { at: None, style: none };
    emit_styled_cell(&mut s, &mut pen, 2, 3, 1, none, b"a");
    emit_styled_cell(&mut s, &mut pen, 2, 4, 1, none, b"b");
    emit_styled_cell(&mut s, &mut pen, 2, 7, 1, none, b"c");
    assert_eq!(s.back, b"\x1b[2;3Hab\x1b[2;7Hc");
    assert_eq!(pen.at, Some((2, 8)));
    s.back.clear();
    draw_lineno(&mut s, 5, 42, 5);
    assert_eq!(s.back, b"\x1b[5;1H\x1b[0m\x1b[38;5;240m  42 \x1b[0m");
}

#[test]
fn severities_have_their_colors() {
    assert_eq!(diag_ul_for(DiagnosticSeverity::Error), "\x1b[4:3;58:5:9m");
    assert_eq!(diag_ul_for(DiagnosticSeverity::Hint), "\x1b[4:3;58:5:8m");
    assert_eq!(diag_border_fg_for(DiagnosticSeverity::Warning), "\x1b[38;5;11m");
    assert_eq!(diag_border_fg_for(DiagnosticSeverity::Information), "\x1b[38;5;14m");
}

#[test]
fn text_is_painted_with_line_numbers() {
    let b = [opened("ab\n\tc\x01d\nlong")];
    let f = frame(&b, Mode::Normal, 40, 6);
    let t = Terminal::show(40, 6, &f);
    assert_eq!(t.line(1), "1 ab");
    assert_eq!(t.line(2), "2     c^Ad");
    assert_eq!(t.line(3), "3 long");
    assert_eq!(t.line(4), "");
    assert!(t.line(6).starts_with(" [N]   x.txt \u{b7} ln 1 col 1 \u{b7} sel 1b"));
    assert_eq!((t.row, t.col), (1, 3));
    assert!(holds(&f, "\x1b[2 q"));
}

#[test]
fn the_cursor_stands_on_its_column() {
    let mut b = opened("ab\n\tc\x01d\nlong");
    b.place_cursor(6);
    let f = frame(&[b], Mode::Insert, 40, 6);
    let t = Terminal::show(40, 6, &f);
    // Two columns of gutter, four of the tab, one of `c`, two of `^A`.
    assert_eq!((t.row, t.col), (2, 10));
    assert!(t.line(6).starts_with(" [I]   x.txt \u{b7} ln 2 col 8"));
    assert!(holds(&f, "\x1b[6 q"));
}

#[test]
fn command_lines_take_the_bottom_row() {
    let b = [opened("ab")];
    let t = Terminal::show(20, 4, &frame(&b, Mode::Ex, 20, 4));
    assert_eq!((t.line(4).as_str(), t.row, t.col), (":wq", 4, 4));
    let t = Terminal::show(20, 4, &frame(&b, Mode::Search, 20, 4));
    assert_eq!((t.line(4).as_str(), t.row, t.col), ("/pat", 4, 5));
}

#[test]
fn selections_and_matches_are_marked() {
    let mut b = opened("abcabc");
    let p = b.sels.primary_mut();
    p.anchor = 0;
    p.head = 2;
    let f = frame(&[b], Mode::Normal, 20, 4);
    // The cell under the cursor is left to the cursor.
    assert!(holds(&f, "\x1b[48;5;24mab\x1b[49mcabc"));
    let mut screen = Screen::with_size(20, 4);
    let mut search = no_search();
    search.preview = Some("c".to_string());
    render_all(
        &mut screen,
        &[opened("abcabc")],
        0,
        Mode::Search,
        "",
        "c",
        &search,
        "",
        None,
        b"",
        &[],
        None,
        None,
        None,
        &CompletionUi::new(),
    );
    assert!(holds(&screen.back, "\x1b[48;5;94mc\x1b[49mab\x1b[48;5;94mc"));
}

#[test]
fn scopes_color_the_text() {
    let mut b = opened("if x");
    b.lang_id = Some("go");
    assert!(needs_highlight(&b));
    set_highlight(&mut b, &[HighlightSpan { start: 0, end: 2, scope: ScopeId::Keyword }]);
    assert!(!needs_highlight(&b));
    let f = frame(&[b], Mode::Normal, 20, 4);
    assert!(holds(&f, "\x1b[38;5;141mif\x1b[39m x"));
}

#[test]
fn diagnostics_underline_and_explain() {
    let d = Diagnostic {
        start_line: 0,
        start_character: 1,
        end_line: 0,
        end_character: 1,
        severity: DiagnosticSeverity::Error,
        message: "bad thing".to_string(),
        source: None,
    };
    let show = |mode: Mode| {
        let mut screen = Screen::with_size(40, 10);
        let mut c = opened("abc");
        c.place_cursor(1);
        render_all(
            &mut screen,
            &[c],
            0,
            mode,
            "",
            "",
            &no_search(),
            "",
            None,
            b"",
            &[Diagnostic {
                start_line: d.start_line,
                start_character: d.start_character,
                end_line: d.end_line,
                end_character: d.end_character,
                severity: d.severity,
                message: d.message.clone(),
                source: None,
            }],
            None,
            None,
            None,
            &CompletionUi::new(),
        );
        screen.back
    };
    let f = show(Mode::Normal);
    assert!(holds(&f, "a\x1b[4:3;58:5:9mb\x1b[24;59mc"));
    let t = Terminal::show(40, 10, &f);
    assert!(t.line(3).contains("\u{2502} bad thing \u{2502}"));
    // Nothing of it while text is being typed.
    assert!(!holds(&show(Mode::Insert), "bad thing"));
}

#[test]
fn labels() {
    let mut bs = vec![opened("a"), opened("b")];
    assert_eq!(buffer_label(&bs[..1], 0), "x.txt");
    assert_eq!(buffer_label(&bs, 1), "[2/2] x.txt");
    bs[1].buffer.insert(0, b"x");
    bs[1].external_change_pending = true;
    assert_eq!(buffer_label(&bs, 1), "[2/2] x.txt [+] [disk!]");
    assert_eq!(spinner_glyph(false, 1), None);
    assert_eq!(spinner_glyph(true, 1), Some('/'));
    assert_eq!(spinner_glyph(true, 4), Some('|'));
}

#[test]
fn the_status_line_tells_the_last_key() {
    let mut screen = Screen::with_size(80, 4);
    let k = KeyEvent::plain(Key::Esc);
    render_all(
        &mut screen,
        &[opened("ab")],
        0,
        Mode::Normal,
        "",
        "",
        &no_search(),
        "",
        Some(&k),
        b"\x1b",
        &[],
        None,
        None,
        Some('/'),
        &CompletionUi::new(),
    );
    let t = Terminal::show(80, 4, &screen.back);
    assert_eq!(t.line(4), " [N] / x.txt \u{b7} ln 1 col 1 \u{b7} sel 1b \u{b7} last:Esc raw:\\x1b");
}

#[test]
fn long_lines_scroll_sideways() {
    let mut b = opened("abcdefghijklmnopqrstuvwxyz");
    b.place_cursor(25);
    scroll_to_cursor(&mut b, 12, 4, 0);
    assert_eq!(b.left_col, 16);
    let t = Terminal::show(12, 4, &frame(&[b], Mode::Normal, 12, 4));
    assert_eq!(t.line(1), "1 qrstuvwxyz");
    assert_eq!((t.row, t.col), (1, 12));
}

fn boxed(cur_row: u16, cur_col: u16) -> Terminal {
    let mut s = Screen::with_size(30, 12);
    let lines = vec!["one".to_string(), "three".to_string()];
    draw_box_at_cursor(&mut s, &lines, cur_row, cur_col, 2, 30, 11, "");
    Terminal::show(30, 12, &s.back)
}

#[test]
fn boxes_stay_beside_the_cursor() {
    let t = boxed(2, 5);
    assert_eq!(t.line(3).trim(), "\u{250c}\u{2500}\u{2500}\u{2500}\u{2500}\u{2500}\u{2500}\u{2500}\u{2510}");
    assert_eq!(t.line(4).trim(), "\u{2502} one   \u{2502}");
    assert_eq!(t.line(5).trim(), "\u{2502} three \u{2502}");
    assert_eq!(t.line(2), "");
    // No room below: above.
    let t = boxed(10, 28);
    assert!(t.line(6).ends_with('\u{2510}'));
    assert!(t.line(9).ends_with('\u{2518}'));
    assert_eq!(t.line(10), "");
    assert_eq!(t.line(6).chars().count(), 30);
}

#[test]
fn popups_wrap_their_text() {
    let mut s = Screen::with_size(30, 20);
    draw_hover_popup(&mut s, "one two three four five six seven", 1, 1, 0, 30, 19);
    let t = Terminal::show(30, 20, &s.back);
    assert!(t.line(3).contains("one two three four five"));
    assert!(t.line(4).contains("six seven"));
    let mut s = Screen::with_size(30, 20);
    let d = Diagnostic {
        start_line: 0,
        start_character: 0,
        end_line: 0,
        end_character: 0,
        severity: DiagnosticSeverity::Hint,
        message: "a\nb\nc\nd\ne\nf\ng".to_string(),
        source: None,
    };
    draw_diag_popup(&mut s, &d, 1, 1, 0, 30, 19);
    let t = Terminal::show(30, 20, &s.back);
    assert!(t.line(8).contains("f\u{2026}"));
    assert!(t.line(9).contains('\u{2514}'));
}

#[test]
fn the_popup_keeps_the_selected_item_in_view() {
    let mut comp = CompletionUi::new();
    let items: Vec<CompletionItem> = (0..12)
        .map(|i| CompletionItem {
            label: format!("item{:02}", i),
            filter_text: format!("item{:02}", i),
            insert_text: String::new(),
            sort_text: String::new(),
            detail: if i == 10 { Some("fn".to_string()) } else { None },
        })
        .collect();
    comp.set_items(items, 2, "it".to_string());
    comp.selected = 10;
    let mut s = Screen::with_size(40, 20);
    draw_completion_popup(&mut s, &comp, b"x it", &[0], 4, 1, 5, 2, 40, 19);
    let t = Terminal::show(40, 20, &s.back);
    // Eight of the items, the last of them the selected one.
    assert!(t.line(3).contains("item03"));
    assert!(t.line(10).contains("item10  fn"));
    assert!(t.line(11).contains('\u{2514}'));
    assert!(holds(&s.back, "\x1b[7m item10  fn \x1b[0m"));
    // The box is tied to where the completed word starts.
    assert_eq!(t.line(2).find('\u{250c}'), Some(3));
    // A cursor without a column is answered as one in the first.
    let mut s = Screen::with_size(40, 20);
    draw_completion_popup(&mut s, &comp, b"x it", &[0], 4, 1, 0, 0, 40, 19);
    let t = Terminal::show(40, 20, &s.back);
    assert_eq!(t.line(2).find('\u{250c}'), Some(0));
}

#[test]
fn prompts_are_centered() {
    let mut b = opened("a");
    b.buffer.insert(0, b"x");
    let p = build_close_buffer_prompt(&[b], 0);
    let mut s = Screen::with_size(80, 24);
    draw_prompt(&mut s, &p, 24, 80);
    let t = Terminal::show(80, 24, &s.back);
    assert!(t.line(9).contains("Close buffer with unsaved changes"));
    assert!(t.line(11).contains("\"x.txt\" has unsaved edits."));
    assert!(t
        .line(13)
        .contains("[y] save & close  \u{b7}  [n] discard & close  \u{b7}  [any other] cancel"));
    // Too small a screen shows none.
    let mut s = Screen::with_size(20, 5);
    draw_prompt(&mut s, &p, 5, 20);
    assert!(s.back.is_empty());
}
