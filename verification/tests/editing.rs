use medit::action::{BracketDir, ExAction, LspAction};
use medit::buffer::{collect_bytes, Buffer, CursorSnapshot};
use medit::edit::{
    op_delete, op_delete_multi, op_paste_after, op_paste_before, op_redo, op_undo, op_yank,
};
use medit::ex::{handle_ex, save_report};
use medit::input::{Event, Parser};
use medit::insert::handle_insert;
use medit::motion::{
    find_char_on_line, last_line_start, motion_word_backward, motion_word_end,
    motion_word_forward, paragraph_end_forward, paragraph_start_backward, FindOp,
};
use medit::motion::{move_line_relative, move_line_relative_cached};
use medit::normal::handle_normal;
use medit::object::{text_object, ObjectKind};
use medit::search::{add_next_smart, handle_search, SearchKind, SearchState};
use medit::selection::{Mode, Registers, Selection, Selections};

/// A buffer with everything that the key handlers work on.
struct Desk {
    buffer: Buffer,
    sels: Selections,
    mode: Mode,
    registers: Registers,
    pending_g: bool,
    pending_z: bool,
    pending_object: Option<ObjectKind>,
    pending_find: Option<FindOp>,
    pending_bracket: Option<BracketDir>,
    pending_j: bool,
    search: SearchState,
    search_input: String,
    lsp_action: Option<LspAction>,
    top_line: usize,
    ex_input: String,
    ex_message: String,
    ex_action: Option<ExAction>,
    quit: bool,
}

impl Desk {
    fn new(text: &str) -> Desk {
        Desk {
            buffer: Buffer::from_bytes(text.as_bytes().to_vec()),
            sels: Selections::new(),
            mode: Mode::Normal,
            registers: Registers { default: Vec::new() },
            pending_g: false,
            pending_z: false,
            pending_object: None,
            pending_find: None,
            pending_bracket: None,
            pending_j: false,
            search: SearchState { pattern: None, preview: None, start: None, kind: SearchKind::Find },
            search_input: String::new(),
            lsp_action: None,
            top_line: 0,
            ex_input: String::new(),
            ex_message: String::new(),
            ex_action: None,
            quit: false,
        }
    }

    /// Type the keys that a terminal sends as `input`.
    fn keys(mut self, input: &str) -> Desk {
        let mut parser = Parser::new();
        parser.feed(input.as_bytes());
        loop {
            let event = match parser.next_event() {
                Some(e) => e,
                None => match parser.flush() {
                    Some(e) => e,
                    None => return self,
                },
            };
            let k = match event {
                Event::Key(k) => k,
                _ => continue,
            };
            match self.mode {
                Mode::Normal => {
                    let bytes = collect_bytes(&self.buffer);
                    let starts = self.buffer.line_starts().to_vec();
                    self.quit = handle_normal(
                        &mut self.buffer,
                        &mut self.sels,
                        &mut self.mode,
                        &mut self.registers,
                        &mut self.pending_g,
                        &mut self.pending_z,
                        &mut self.pending_object,
                        &mut self.pending_find,
                        &mut self.pending_bracket,
                        &mut self.search,
                        &mut self.lsp_action,
                        &mut self.top_line,
                        20,
                        &bytes,
                        &starts,
                        k,
                    );
                }
                Mode::Insert => handle_insert(
                    &mut self.buffer,
                    &mut self.sels,
                    &mut self.mode,
                    &mut self.pending_j,
                    &mut self.registers,
                    k,
                ),
                Mode::Ex => {
                    self.quit = handle_ex(
                        &mut self.mode,
                        &mut self.ex_input,
                        &mut self.ex_message,
                        &mut self.ex_action,
                        true,
                        k,
                    );
                }
                Mode::Search => handle_search(
                    &self.buffer,
                    &mut self.sels,
                    &mut self.mode,
                    &mut self.search_input,
                    &mut self.search,
                    &mut self.ex_message,
                    k,
                ),
            }
        }
    }

    fn text(&self) -> String {
        String::from_utf8(collect_bytes(&self.buffer)).unwrap()
    }

    fn cursor(&self) -> (usize, usize) {
        let p = self.sels.primary();
        (p.anchor, p.head)
    }

    fn register(&self) -> &[u8] {
        &self.registers.default
    }
}

#[test]
fn motions_move_and_extend() {
    assert_eq!(Desk::new("one two three").keys("w").cursor(), (0, 2));
    assert_eq!(Desk::new("one two three").keys("ww").cursor(), (2, 6));
    assert_eq!(Desk::new("one two three").keys("e").cursor(), (0, 2));
    assert_eq!(Desk::new("one two three").keys("wb").cursor(), (2, 0));
    assert_eq!(Desk::new("abc").keys("LL").cursor(), (0, 2));
    assert_eq!(Desk::new("abc").keys("ll").cursor(), (2, 2));
    assert_eq!(Desk::new("abc").keys("LL;").cursor(), (2, 2));
    assert_eq!(Desk::new("ab\ncd\nef").keys("jj").cursor(), (6, 6));
    assert_eq!(Desk::new("ab\ncd\nef").keys("Ggg").cursor(), (0, 0));
    assert_eq!(Desk::new("ab\ncd\nef").keys("G").cursor(), (6, 6));
    // The column is kept over a short line.
    assert_eq!(Desk::new("abcd\nx\nefgh").keys("llljj").cursor().1, 10);
}

#[test]
fn word_motions_on_offsets() {
    let s = b"foo.bar  baz";
    assert_eq!(motion_word_forward(s, 0), 2);
    assert_eq!(motion_word_forward(s, 2), 3);
    assert_eq!(motion_word_forward(s, 3), 6);
    assert_eq!(motion_word_forward(s, 6), 11);
    assert_eq!(motion_word_backward(s, 9), 4);
    assert_eq!(motion_word_end(s, 0), 2);
    assert_eq!(motion_word_end(s, 4), 6);
}

#[test]
fn finding_a_character_stays_on_the_line() {
    let s = b"abcabc\ncab";
    assert_eq!(find_char_on_line(s, 0, 'c', FindOp::ForwardTo), Some(2));
    assert_eq!(find_char_on_line(s, 0, 'c', FindOp::ForwardTill), Some(1));
    assert_eq!(find_char_on_line(s, 5, 'a', FindOp::BackwardTo), Some(3));
    assert_eq!(find_char_on_line(s, 5, 'a', FindOp::BackwardTill), Some(4));
    assert_eq!(find_char_on_line(s, 5, 'z', FindOp::ForwardTo), None);
    assert_eq!(find_char_on_line(s, 7, 'b', FindOp::BackwardTo), None);
    assert_eq!(Desk::new("abcabc").keys("fc").cursor().1, 2);
    assert_eq!(Desk::new("abcabc").keys("tc").cursor().1, 1);
}

#[test]
fn paragraphs_and_last_line() {
    let s = b"a\nb\n\nc\nd\n";
    assert_eq!(paragraph_end_forward(s, 0), 2);
    assert_eq!(paragraph_end_forward(s, 2), 7);
    assert_eq!(paragraph_end_forward(s, 7), 7);
    assert_eq!(paragraph_start_backward(s, 7), 5);
    assert_eq!(paragraph_start_backward(s, 5), 0);
    assert_eq!(paragraph_start_backward(s, 0), 0);
    assert_eq!(last_line_start(b"a\nb"), 2);
    assert_eq!(last_line_start(b"a\nb\n"), 2);
    // Empty lines at the end do not count.
    assert_eq!(last_line_start(b"a\n\n\n"), 0);
    assert_eq!(last_line_start(b"a\nbc\n\n"), 2);
    assert_eq!(last_line_start(b"\n\n"), 0);
    assert_eq!(last_line_start(b""), 0);
}

#[test]
fn typing_and_undoing_is_one_step() {
    let d = Desk::new("ab").keys("ixyz\x1b");
    assert_eq!(d.text(), "xyzab");
    assert_eq!(d.mode, Mode::Normal);
    let d = d.keys("u");
    assert_eq!(d.text(), "ab");
    let d = d.keys("U");
    assert_eq!(d.text(), "xyzab");
}

#[test]
fn insert_positions() {
    assert_eq!(Desk::new("ab\ncd").keys("laX\x1b").text(), "abX\ncd");
    assert_eq!(Desk::new("ab\ncd").keys("lIX\x1b").text(), "Xab\ncd");
    assert_eq!(Desk::new("ab\ncd").keys("AX\x1b").text(), "abX\ncd");
    assert_eq!(Desk::new("ab\ncd").keys("oX\x1b").text(), "ab\nX\ncd");
    assert_eq!(Desk::new("ab\ncd").keys("jOX\x1b").text(), "ab\nX\ncd");
}

#[test]
fn jf_leaves_insert_mode_and_a_lone_j_is_typed() {
    let d = Desk::new("").keys("iabjf");
    assert_eq!((d.text().as_str(), d.mode), ("ab", Mode::Normal));
    let d = Desk::new("").keys("iajk");
    assert_eq!((d.text().as_str(), d.mode), ("ajk", Mode::Insert));
}

#[test]
fn insert_mode_kills() {
    // Ctrl-w, Ctrl-k, Ctrl-u, backspace.
    assert_eq!(Desk::new("one two").keys("A\x17\x1b").text(), "one ");
    let d = Desk::new("one two").keys("lllli\x0b\x1b");
    assert_eq!((d.text().as_str(), d.register()), ("one ", &b"two"[..]));
    let d = Desk::new("one two").keys("lllli\x15\x1b");
    assert_eq!((d.text().as_str(), d.register()), ("two", &b"one "[..]));
    assert_eq!(Desk::new("abc").keys("A\x7f\x1b").text(), "ab");
    assert_eq!(Desk::new("a\u{e9}").keys("A\x7f\x1b").text(), "a");
}

#[test]
fn deleting_yanks_and_pasting_brings_it_back() {
    let d = Desk::new("hello").keys("d");
    assert_eq!((d.text().as_str(), d.register()), ("ello", &b"h"[..]));
    assert_eq!(d.keys("P").text(), "hello");
    assert_eq!(Desk::new("ab").keys("yp").text(), "aab");
    assert_eq!(Desk::new("abc").keys("LcX\x1b").text(), "Xc");
}

#[test]
fn operators_on_one_selection() {
    let mut b = Buffer::from_bytes(b"hello world".to_vec());
    let mut sel = Selection { anchor: 0, head: 4, desired_col: 5 };
    let mut r = Registers { default: Vec::new() };
    op_yank(&b, &sel, &mut r);
    assert_eq!(r.default, b"hello");
    op_delete(&mut b, &mut sel, &mut r);
    assert_eq!(collect_bytes(&b), b" world");
    op_paste_before(&mut b, &mut sel, &r);
    assert_eq!(collect_bytes(&b), b"hello world");
    op_undo(&mut b, &mut sel);
    assert_eq!(collect_bytes(&b), b" world");
    op_undo(&mut b, &mut sel);
    assert_eq!(collect_bytes(&b), b"hello world");
    assert_eq!((sel.anchor, sel.head), (0, 4));
    op_redo(&mut b, &mut sel);
    assert_eq!(collect_bytes(&b), b" world");
    op_paste_after(&mut b, &mut sel, &r);
    assert_eq!(collect_bytes(&b), b" helloworld");
}

#[test]
fn undo_keeps_the_mark_and_redo_is_dropped_by_an_edit() {
    let mut b = Buffer::from_bytes(b"abc".to_vec());
    let at = |n: usize| CursorSnapshot { anchor: n, head: n, desired_col: n + 1 };
    b.mark_commit_point(at(1));
    b.insert(3, b"d");
    b.insert(4, b"e");
    // Both edits after one mark are one step.
    assert_eq!(b.undo(at(4)), Some(at(1)));
    assert_eq!(collect_bytes(&b), b"abc");
    assert_eq!(b.redo(at(1)), Some(at(4)));
    assert_eq!(collect_bytes(&b), b"abcde");
    assert_eq!(b.undo(at(4)), Some(at(1)));
    b.mark_commit_point(at(0));
    b.insert(0, b"x");
    assert_eq!(b.redo(at(0)), None);
    assert_eq!(collect_bytes(&b), b"xabc");
    assert_eq!(Buffer::empty().undo(at(0)), None);
}

#[test]
fn no_state_is_ever_lost() {
    let at = CursorSnapshot { anchor: 0, head: 0, desired_col: 1 };
    let mut b = Buffer::from_bytes(b"a".to_vec());
    b.mark_commit_point(at);
    b.insert(1, b"b");
    b.undo(at);
    b.mark_commit_point(at);
    b.insert(1, b"c");
    // Undoing leads back through the state that was undone before.
    let mut seen = vec![collect_bytes(&b)];
    while b.undo(at).is_some() {
        seen.push(collect_bytes(&b));
    }
    assert_eq!(seen, vec![b"ac".to_vec(), b"a".to_vec(), b"ab".to_vec(), b"a".to_vec()]);
}

#[test]
fn text_that_is_no_utf8_is_not_searched_for() {
    let mut sels = Selections::new();
    sels.primary_mut().head = 1;
    let mut search =
        SearchState { pattern: None, preview: None, start: None, kind: SearchKind::Find };
    add_next_smart(&mut sels, b"\xff\xfe \xff\xfe", &mut search, true);
    assert_eq!(sels.len(), 1);
    assert_eq!(search.pattern, None);
}

#[test]
fn an_unused_mark_makes_no_step() {
    let at = |n: usize| CursorSnapshot { anchor: n, head: n, desired_col: 1 };
    let mut b = Buffer::from_bytes(b"a".to_vec());
    b.mark_commit_point(at(0));
    b.mark_commit_point(at(0));
    b.insert(1, b"b");
    assert!(b.undo(at(1)).is_some());
    assert_eq!(b.undo(at(0)), None);
    assert_eq!(collect_bytes(&b), b"a");
}

#[test]
fn text_objects() {
    let s = b"f(a, [b]) \"q r\" word";
    assert_eq!(text_object(s, 3, ObjectKind::Inner, medit::input::Key::Char('(')), Some((2, 8)));
    assert_eq!(text_object(s, 3, ObjectKind::Around, medit::input::Key::Char('(')), Some((1, 9)));
    assert_eq!(text_object(s, 6, ObjectKind::Inner, medit::input::Key::Char('[')), Some((6, 7)));
    assert_eq!(text_object(s, 12, ObjectKind::Inner, medit::input::Key::Char('"')), Some((11, 14)));
    assert_eq!(text_object(s, 17, ObjectKind::Inner, medit::input::Key::Char('w')), Some((16, 20)));
    assert_eq!(text_object(s, 3, ObjectKind::Inner, medit::input::Key::Char('?')), None);
    // On a closing bracket the object is the group which that bracket closes.
    let t = b"(a(b))";
    assert_eq!(text_object(t, 5, ObjectKind::Around, medit::input::Key::Char(')')), Some((0, 6)));
    assert_eq!(text_object(t, 4, ObjectKind::Around, medit::input::Key::Char(')')), Some((2, 5)));
    assert_eq!(text_object(t, 1, ObjectKind::Inner, medit::input::Key::Char(')')), Some((1, 5)));
    // A word takes the spaces behind it along, a paragraph the line breaks.
    assert_eq!(text_object(b"ab  cd", 1, ObjectKind::Around, medit::input::Key::Char('w')), Some((0, 4)));
    let p = b"a\nb\n\nc";
    assert_eq!(text_object(p, 2, ObjectKind::Inner, medit::input::Key::Char('p')), Some((0, 3)));
    assert_eq!(text_object(p, 2, ObjectKind::Around, medit::input::Key::Char('p')), Some((0, 5)));
    // Alt-i ( selects inside, and d deletes what is selected.
    assert_eq!(Desk::new("f(a, b)").keys("ll\x1bi(d").text(), "f()");
    assert_eq!(Desk::new("f(a, b)").keys("ll\x1ba(d").text(), "f");
}

#[test]
fn searching_wraps_and_escape_goes_back() {
    // A match that starts at the cursor counts.
    let d = Desk::new("one two one").keys("/one\r");
    assert_eq!(d.cursor(), (0, 2));
    assert_eq!(d.search.pattern.as_deref(), Some("one"));
    let d = d.keys("n");
    assert_eq!(d.cursor(), (8, 10));
    let d = d.keys("n");
    assert_eq!(d.cursor(), (0, 2));
    let d = d.keys("N");
    assert_eq!(d.cursor(), (8, 10));
    assert_eq!(Desk::new("one two one").keys("l/one\r").cursor(), (8, 10));
    assert_eq!(Desk::new("two one").keys("lll/two\r").cursor(), (0, 2));
    let d = Desk::new("one two one").keys("l/two\x1b");
    assert_eq!(d.cursor(), (1, 1));
    assert_eq!(d.mode, Mode::Normal);
    assert_eq!(d.search.pattern, None);
}

#[test]
fn patterns_are_regular_expressions() {
    assert_eq!(Desk::new("ab a1 a22").keys("/a\\d+\r").cursor(), (3, 4));
    let d = Desk::new("ab a1").keys("/(\r");
    assert!(!d.ex_message.is_empty());
    assert_eq!(d.cursor(), (0, 0));
    let d = Desk::new("ab").keys("/zz\r");
    assert!(!d.ex_message.is_empty());
    assert_eq!(d.cursor(), (0, 0));
}

#[test]
fn selecting_within_and_typing_at_every_cursor() {
    // Select the line, then every `a` in it, and replace each.
    let d = Desk::new("a-a-a").keys("LLLLsa\r");
    assert_eq!(d.sels.len(), 3);
    let d = d.keys("cxy\x1b");
    assert_eq!(d.text(), "xy-xy-xy");
    let d = d.keys("u");
    assert_eq!(d.text(), "a-a-a");
    // The last character of the text is changed in its place.
    assert_eq!(Desk::new("abc").keys("llcX\x1b").text(), "abX");
}

#[test]
fn adding_occurrences_of_the_selection() {
    // Ctrl-j adds the next occurrence, literally: `.` matches only `.`.
    let ctrl_j = "\x1b[106;5u";
    let ctrl_k = "\x1b[107;5u";
    let d = Desk::new("a.b axb a.b").keys("LL").keys(ctrl_j);
    assert_eq!(d.sels.len(), 2);
    assert_eq!(d.cursor(), (8, 10));
    // The next one is selected already: nothing changes.
    let d = d.keys(ctrl_j);
    assert_eq!(d.sels.len(), 2);
    assert_eq!(d.cursor(), (8, 10));
    let d = d.keys("d");
    assert_eq!(d.text(), " axb ");
    let d = Desk::new("ab ab ab").keys("L").keys(ctrl_j).keys(ctrl_j);
    assert_eq!(d.sels.len(), 3);
    assert_eq!(d.keys(",").sels.len(), 1);
    let d = Desk::new("ab ab ab").keys("L").keys(ctrl_k);
    assert_eq!(d.cursor(), (6, 7));
    // A mere cursor goes by the last search.
    let d = Desk::new("x ab ab").keys("/ab\r;").keys(ctrl_j);
    assert_eq!(d.sels.len(), 2);
}

#[test]
fn a_list_is_replaced_by_one_with_a_primary() {
    let mut sels = Selections::new();
    let at = |n: usize| Selection { anchor: n, head: n, desired_col: 1 };
    sels.replace(vec![at(3), at(5)], 1);
    assert_eq!((sels.len(), sels.primary_index(), sels.primary().head), (2, 1, 5));
    sels.replace(Vec::new(), 0);
    assert_eq!((sels.len(), sels.primary_index()), (2, 1));
    sels.replace(vec![at(7)], 1);
    assert_eq!((sels.len(), sels.primary_index(), sels.primary().head), (1, 0, 7));
    sels.replace(vec![at(3), at(5)], 9);
    assert_eq!((sels.len(), sels.primary_index(), sels.primary().head), (2, 1, 5));
    sels.set_primary(9);
    assert_eq!(sels.primary_index(), 1);
    sels.rotate_primary(-3);
    assert_eq!(sels.primary_index(), 0);
}

#[test]
fn rotating_goes_round() {
    let d = Desk::new("a-a-a").keys("LLLLsa\r");
    let start = d.cursor();
    let d = d.keys(">>>");
    assert_eq!(d.cursor(), start);
    let d = d.keys("><");
    assert_eq!(d.cursor(), start);
    let d = d.keys(">");
    assert_ne!(d.cursor(), start);
}

#[test]
fn prefix_keys() {
    assert_eq!(Desk::new("a").keys("gd").lsp_action, Some(LspAction::GotoDefinition));
    assert_eq!(Desk::new("a").keys("]d").lsp_action, Some(LspAction::NextDiagnostic));
    assert_eq!(Desk::new("a").keys("[d").lsp_action, Some(LspAction::PrevDiagnostic));
    // A prefix swallows the key after it.
    let d = Desk::new("abc").keys("gx");
    assert_eq!((d.text().as_str(), d.pending_g), ("abc", false));
    let lines: String = (0..50).map(|i| format!("{}\n", i)).collect();
    assert_eq!(Desk::new(&lines).keys("Gzz").top_line, 39);
    assert!(Desk::new("a").keys("q").quit);
}

#[test]
fn command_line() {
    let d = Desk::new("").keys(":w\r");
    assert!(matches!(d.ex_action, Some(ExAction::Save)));
    assert_eq!(d.mode, Mode::Normal);
    let d = Desk::new("").keys(":e  notes.txt \r");
    assert!(matches!(d.ex_action, Some(ExAction::OpenFile(ref p)) if p == "notes.txt"));
    assert!(matches!(Desk::new("").keys(":bn\r").ex_action, Some(ExAction::NextBuffer)));
    assert!(matches!(Desk::new("").keys(":bprevious\r").ex_action, Some(ExAction::PrevBuffer)));
    assert!(matches!(Desk::new("").keys(":ls\r").ex_action, Some(ExAction::ListBuffers)));
    assert!(Desk::new("").keys(":q\r").quit);
    assert_eq!(Desk::new("").keys(":nope\r").ex_message, "unknown command: :nope");
    assert_eq!(Desk::new("").keys(":x\x7f\x7f").mode, Mode::Normal);
    let mut message = String::new();
    let mut action = None;
    assert!(!medit::ex::execute_ex(false, "w", &mut message, &mut action));
    assert_eq!(message, "no file name (use :w <path>)");
    assert!(!medit::ex::execute_ex(true, "e  ", &mut message, &mut action));
    assert_eq!(message, "usage: :e <path>");
}

#[test]
fn saving_is_reported() {
    assert_eq!(save_report("a", false, Ok(())), (Some("\"a\" written".to_string()), false));
    assert_eq!(save_report("a", true, Ok(())), (None, true));
    assert_eq!(
        save_report("a", true, Err("denied".to_string())),
        (Some("write failed: denied".to_string()), false)
    );
}

#[test]
fn the_version_counts_changes() {
    let c = CursorSnapshot { anchor: 0, head: 0, desired_col: 1 };
    let mut b = Buffer::from_bytes(b"abc".to_vec());
    b.mark_commit_point(c);
    b.insert(1, b"");
    b.delete(3, 4);
    assert!(b.undo(c).is_none());
    assert!(b.redo(c).is_none());
    assert_eq!(b.version(), 0);
    b.insert(1, b"x");
    b.delete(0, 1);
    assert_eq!(b.version(), 2);
    assert_eq!(b.drain_pending_edits().len(), 2);
    assert_eq!(b.version(), 2);
    assert!(b.undo(c).is_some());
    assert!(b.redo(c).is_some());
    assert_eq!(b.version(), 4);
}

#[test]
fn one_undo_takes_back_all_since_the_mark() {
    let at = |n: usize| CursorSnapshot { anchor: n, head: n, desired_col: 1 };
    let mut b = Buffer::from_bytes(b"hello".to_vec());
    b.insert(5, b"!");
    b.mark_commit_point(at(2));
    b.insert(0, b"");
    b.insert(0, b"ab");
    b.delete(1, 3);
    b.insert(2, b"xyz");
    assert_eq!(b.undo(at(0)).map(|s| s.head), Some(2));
    assert_eq!(collect_bytes(&b), b"hello!");
}

#[test]
fn deleting_takes_out_what_is_selected() {
    let mut b = Buffer::from_bytes("0\u{e9}23456789".as_bytes().to_vec());
    let sel = |a: usize, h: usize| Selection { anchor: a, head: h, desired_col: 1 };
    let mut sels = Selections::new();
    // The last three bytes, the two-byte character, and two digits backwards.
    sels.replace(vec![sel(8, 10), sel(1, 1), sel(5, 4)], 1);
    let mut regs = Registers { default: Vec::new() };
    op_delete_multi(&mut b, &mut sels, &mut regs);
    assert_eq!(collect_bytes(&b), b"0256");
    assert_eq!(regs.default, "\u{e9}".as_bytes());
    let heads: Vec<usize> = sels.iter().iter().map(|s| s.head).collect();
    assert_eq!((heads, sels.primary_index()), (vec![3, 1, 2], 1));
    let back = b.undo(CursorSnapshot { anchor: 0, head: 0, desired_col: 1 }).unwrap();
    assert_eq!((back.anchor, back.head), (1, 1));
    assert_eq!(collect_bytes(&b), "0\u{e9}23456789".as_bytes());
}

#[test]
fn pasting_selects_up_to_the_last_character() {
    let mut b = Buffer::from_bytes(b"ab\ncd".to_vec());
    let mut sel = Selection { anchor: 2, head: 2, desired_col: 1 };
    let regs = Registers { default: "x\u{20ac}".as_bytes().to_vec() };
    op_paste_after(&mut b, &mut sel, &regs);
    assert_eq!(collect_bytes(&b), "abx\u{20ac}\ncd".as_bytes());
    assert_eq!((sel.anchor, sel.head), (2, 3));
    op_undo(&mut b, &mut sel);
    assert_eq!(collect_bytes(&b), b"ab\ncd");
}

#[test]
fn a_deletion_is_taken_back() {
    let text = "a\u{e9}b\u{20ac}c";
    let start = Selection { anchor: 4, head: 1, desired_col: 7 };
    let mut b = Buffer::from_bytes(text.as_bytes().to_vec());
    let mut sel = start;
    let mut regs = Registers { default: Vec::new() };
    op_delete(&mut b, &mut sel, &mut regs);
    assert_eq!(collect_bytes(&b), b"ac");
    op_paste_before(&mut b, &mut sel, &regs);
    assert_eq!(collect_bytes(&b), text.as_bytes());
    assert_eq!((sel.anchor, sel.head), (1, 4));

    let mut b = Buffer::from_bytes(text.as_bytes().to_vec());
    let mut sel = start;
    op_delete(&mut b, &mut sel, &mut regs);
    op_undo(&mut b, &mut sel);
    assert_eq!(collect_bytes(&b), text.as_bytes());
    assert_eq!(sel, start);
    op_undo(&mut b, &mut sel);
    assert_eq!((sel, b.version()), (start, 2));
}

#[test]
fn word_motions_agree() {
    let s = "ab, c\u{e9}\u{20ac} --  d \n".as_bytes();
    for from in [0usize, 1, 2, 3, 4, 5, 7, 10, 11, 12, 13, 15, 16, 17] {
        assert_eq!(motion_word_end(s, from), motion_word_forward(s, from), "from {}", from);
    }
    assert_eq!(motion_word_end(s, 3), 7);
    assert_eq!(motion_word_end(s, 15), 17);
    assert_eq!(motion_word_end(s, 17), 17);
}

#[test]
fn an_index_changes_no_line_motion() {
    let s = b"one\n\nthree\nfo";
    let starts = [0usize, 4, 5, 11];
    for head in 0..=s.len() + 1 {
        for delta in -4i64..5 {
            let mut a = Selection { anchor: 0, head, desired_col: 3 };
            let mut b = a;
            move_line_relative(s, &mut a, delta);
            move_line_relative_cached(s, &starts, &mut b, delta);
            assert_eq!(a, b);
        }
    }
}
