use medit::input::{Event, Key, KeyEvent, Mods, Parser};

/// Feed `bytes` and drain every decoded key event (as the main loop does).
fn keys(bytes: &[u8]) -> Vec<KeyEvent> {
    let mut p = Parser::new();
    p.feed(bytes);
    let mut out = Vec::new();
    while let Some(Event::Key(k)) = p.next_event() {
        out.push(k);
    }
    out
}

// win32-input-mode record: `ESC [ Vk;Sc;Uc;Kd;Cs;Rc _`.

#[test]
fn win32_ctrl_shift_letter_normalizes_like_kitty() {
    // Ctrl-Shift-h: Vk=0x48('H'), Uc=8, keydown, Cs=LEFT_CTRL|SHIFT=0x18.
    let k = keys(b"\x1b[72;35;8;1;24;1_");
    assert_eq!(k, vec![KeyEvent::with(Key::Char('H'), Mods::ctrl())]);
}

#[test]
fn win32_plain_and_shifted_letters() {
    assert_eq!(keys(b"\x1b[65;30;97;1;0;1_"), vec![KeyEvent::plain(Key::Char('a'))]);
    // Shift+a: Uc=65, Cs=SHIFT -> folds to uppercase with SHIFT stripped.
    assert_eq!(keys(b"\x1b[65;30;65;1;16;1_"), vec![KeyEvent::plain(Key::Char('A'))]);
}

#[test]
fn win32_shifted_symbol_uses_unicode_and_drops_shift() {
    // Shift+1 = '!' on a US layout: trust Uc, no lingering SHIFT.
    assert_eq!(keys(b"\x1b[49;2;33;1;16;1_"), vec![KeyEvent::plain(Key::Char('!'))]);
}

#[test]
fn win32_named_key() {
    assert_eq!(keys(b"\x1b[13;28;13;1;0;1_"), vec![KeyEvent::plain(Key::Enter)]);
}

#[test]
fn win32_keyup_is_skipped_without_stalling_the_burst() {
    // 'a' key-up then 'b' key-down in one burst: only 'b' surfaces, and the
    // skipped up-record must not halt draining of the rest of the buffer.
    let k = keys(b"\x1b[65;30;97;0;0;1_\x1b[66;48;98;1;0;1_");
    assert_eq!(k, vec![KeyEvent::plain(Key::Char('b'))]);
}

#[test]
fn win32_lone_modifier_is_ignored() {
    // Shift pressed by itself (Vk=0x10) produces no key event.
    assert_eq!(keys(b"\x1b[16;42;0;1;16;1_"), vec![]);
}

#[test]
fn win32_repeat_count_expands_to_multiple_presses() {
    // Held 'l' with RepeatCount=3.
    let k = keys(b"\x1b[76;38;108;1;0;3_");
    assert_eq!(k, vec![KeyEvent::plain(Key::Char('l')); 3]);
}

#[test]
fn kitty_path_still_works_alongside_win32() {
    // Legacy Ctrl-h and a kitty CSI-u 'a' should be unaffected.
    assert_eq!(keys(b"\x08"), vec![KeyEvent::with(Key::Char('h'), Mods::ctrl())]);
    assert_eq!(keys(b"\x1b[97u"), vec![KeyEvent::plain(Key::Char('a'))]);
}

#[test]
fn keys_do_not_depend_on_how_the_bytes_arrive() {
    let input = "a\u{e9}\x1b[1;2A\x1b[110;2u\x1b[3~\x1bOP\x1b[97;30;97;1;0;2_\r\x7f".as_bytes();
    let whole = keys(input);
    for cut in 0..=input.len() {
        let mut p = Parser::new();
        let mut out = Vec::new();
        for part in [&input[..cut], &input[cut..]] {
            p.feed(part);
            while let Some(Event::Key(k)) = p.next_event() {
                out.push(k);
            }
        }
        assert_eq!(out, whole);
    }
    assert_eq!(whole[0], KeyEvent::plain(Key::Char('a')));
    assert_eq!(whole[1], KeyEvent::plain(Key::Char('\u{e9}')));
    assert_eq!(whole[2], KeyEvent::with(Key::Up, Mods::shift()));
    assert_eq!(whole[3], KeyEvent::plain(Key::Char('N')));
    assert_eq!(whole[4], KeyEvent::plain(Key::Delete));
    assert_eq!(whole[5], KeyEvent::plain(Key::F(1)));
}

#[test]
fn a_lone_escape_waits_for_more() {
    let mut p = Parser::new();
    p.feed(b"\x1b");
    assert!(p.next_event().is_none());
    assert!(matches!(p.flush(), Some(Event::Key(k)) if k == KeyEvent::plain(Key::Esc)));
    assert!(p.flush().is_none());
    // Followed by a character it is that character with Alt.
    assert_eq!(keys(b"\x1bf"), vec![KeyEvent::with(Key::Char('f'), Mods::alt())]);
    assert_eq!(keys(b"\x00"), vec![KeyEvent::with(Key::Char(' '), Mods::ctrl())]);
    assert_eq!(keys(b"\xff"), vec![KeyEvent::plain(Key::Char('\u{fffd}'))]);
    assert_eq!(keys(b"\x1b[1;5C"), vec![KeyEvent::with(Key::Right, Mods::ctrl())]);
    assert_eq!(keys(b"\x1b[27u"), vec![KeyEvent::plain(Key::Esc)]);
}
