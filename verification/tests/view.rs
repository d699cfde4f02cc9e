use medit::view::{clip_run, ensure_visible_horizontal, visual_col_at};

#[test]
fn visual_col_counts_plain_chars() {
    assert_eq!(visual_col_at(b"abc", 0, 0), 1);
    assert_eq!(visual_col_at(b"abc", 0, 1), 2);
    assert_eq!(visual_col_at(b"abc", 0, 3), 4);
}

#[test]
fn visual_col_expands_tabs_to_multiples_of_four() {
    // A leading tab advances to column 5 (1 -> 5).
    assert_eq!(visual_col_at(b"\tx", 0, 1), 5);
    // "ab\tc": a(1->2) b(2->3) tab rounds 3 up by 2 -> 5, so 'c' is col 5.
    assert_eq!(visual_col_at(b"ab\tc", 0, 3), 5);
}

#[test]
fn visual_col_control_chars_take_two_cells() {
    // ^A renders as two cells, so the following char starts at column 3.
    assert_eq!(visual_col_at(b"\x01x", 0, 1), 3);
}

#[test]
fn ensure_horizontal_scrolls_right_when_cursor_past_edge() {
    let mut left = 0usize;
    ensure_visible_horizontal(15, 100, &mut left, 10);
    assert_eq!(left, 5, "cursor at col 15 in a 10-wide window -> left edge col 6");
}

#[test]
fn ensure_horizontal_no_scroll_when_visible() {
    let mut left = 0usize;
    ensure_visible_horizontal(5, 100, &mut left, 10);
    assert_eq!(left, 0);
}

#[test]
fn ensure_horizontal_snaps_back_on_short_line() {
    // Was scrolled far right; cursor now on a line that fits entirely.
    let mut left = 50usize;
    ensure_visible_horizontal(8, 8, &mut left, 10);
    assert_eq!(left, 0, "a line that fits the viewport never stays scrolled");
}

#[test]
fn ensure_horizontal_never_scrolls_past_line_end() {
    // Line ends at visual col 20, window is 10 wide: max useful left is 10.
    let mut left = 0usize;
    ensure_visible_horizontal(20, 20, &mut left, 10);
    assert_eq!(left, 10);
}

#[test]
fn clip_run_visible_cell() {
    // No horizontal offset: column maps straight through.
    assert_eq!(clip_run(5, 1, 0, 10), Some((5, 1, 0)));
}

#[test]
fn clip_run_offsets_by_left_col() {
    // With 5 columns hidden, visual col 6 lands at screen content col 1.
    assert_eq!(clip_run(6, 1, 5, 10), Some((1, 1, 0)));
}

#[test]
fn clip_run_drops_offscreen_cells() {
    assert_eq!(clip_run(11, 1, 0, 10), None); // past the right edge
    assert_eq!(clip_run(3, 1, 5, 10), None); // scrolled off the left
}

#[test]
fn clip_run_clips_a_partially_scrolled_run() {
    // A 4-wide tab at cols 4..=7 with 5 cols hidden: cols 6,7 remain,
    // drawn at screen col 1, with the first two cells clipped away.
    assert_eq!(clip_run(4, 4, 5, 10), Some((1, 2, 2)));
}
