use medit::palette::{fuzzy_match, CommandPalette};

#[test]
fn fuzzy_subsequence() {
    assert!(fuzzy_match("", "anything"));
    assert!(fuzzy_match("bn", "Buffer: next"));
    assert!(fuzzy_match("write", "Write file"));
    assert!(fuzzy_match("WF", "Write file"));
    assert!(!fuzzy_match("zzz", "Write file"));
    assert!(!fuzzy_match("nb", "Buffer: next")); // order matters
}

#[test]
fn filter_narrows_and_resets_selection() {
    let mut p = CommandPalette::new();
    assert_eq!(p.filtered.len(), p.commands.len());
    p.move_down();
    p.insert_char('w');
    // Query change resets selection to the top.
    assert_eq!(p.selected, 0);
    // "Write file" matches "w".
    assert!(!p.filtered.is_empty());
    assert!(p.selected_action().is_some());
}

#[test]
fn navigation_clamps_when_empty() {
    let mut p = CommandPalette::new();
    for c in "zzzzz".chars() {
        p.insert_char(c);
    }
    assert!(p.filtered.is_empty());
    p.move_down();
    p.move_up();
    assert_eq!(p.selected, 0);
    assert!(p.selected_action().is_none());
}

#[test]
fn typing_only_narrows_and_backspace_widens() {
    let mut p = CommandPalette::new();
    p.insert_char('B');
    let some = p.filtered.clone();
    p.insert_char('n');
    assert!(p.filtered.iter().all(|i| some.contains(i)));
    assert!(p.filtered.iter().all(|&i| fuzzy_match("bn", p.commands[i].title)));
    p.backspace();
    assert_eq!(p.filtered, some);
    p.move_down();
    p.move_down();
    p.move_down();
    assert_eq!(p.selected, some.len() - 1);
    p.move_up();
    assert_eq!(p.selected, some.len() - 2);
    // Case is folded beyond ASCII.
    assert!(fuzzy_match("\u{e9}", "CAF\u{c9}"));
}
