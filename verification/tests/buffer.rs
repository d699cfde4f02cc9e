use medit::buffer::{Buffer, CursorSnapshot, Point};

fn collect(b: &Buffer) -> Vec<u8> {
    let mut v = Vec::new();
    for s in b.slices() {
        v.extend_from_slice(s);
    }
    v
}

#[test]
fn empty() {
    let b = Buffer::empty();
    assert_eq!(b.len(), 0);
    assert!(b.is_empty());
    assert_eq!(collect(&b), b"");
}

#[test]
fn from_bytes_roundtrip() {
    let b = Buffer::from_bytes(b"hello".to_vec());
    assert_eq!(b.len(), 5);
    assert_eq!(collect(&b), b"hello");
}

#[test]
fn insert_at_start() {
    let mut b = Buffer::from_bytes(b"world".to_vec());
    b.insert(0, b"hello ");
    assert_eq!(collect(&b), b"hello world");
}

#[test]
fn insert_at_end() {
    let mut b = Buffer::from_bytes(b"hello".to_vec());
    b.insert(5, b" world");
    assert_eq!(collect(&b), b"hello world");
}

#[test]
fn insert_in_middle_splits_piece() {
    let mut b = Buffer::from_bytes(b"helo".to_vec());
    b.insert(2, b"l");
    assert_eq!(collect(&b), b"hello");
}

#[test]
fn insert_into_empty() {
    let mut b = Buffer::empty();
    b.insert(0, b"x");
    assert_eq!(collect(&b), b"x");
    assert_eq!(b.len(), 1);
}

#[test]
fn delete_within_single_piece() {
    let mut b = Buffer::from_bytes(b"hello world".to_vec());
    b.delete(5, 1);
    assert_eq!(collect(&b), b"helloworld");
}

#[test]
fn delete_across_pieces() {
    let mut b = Buffer::from_bytes(b"hello".to_vec());
    b.insert(5, b" world");
    b.insert(11, b"!");
    b.delete(3, 5);
    assert_eq!(collect(&b), b"helrld!");
}

#[test]
fn delete_past_end_saturates() {
    let mut b = Buffer::from_bytes(b"hello".to_vec());
    b.delete(3, 1000);
    assert_eq!(collect(&b), b"hel");
}

#[test]
fn delete_zero_is_noop() {
    let mut b = Buffer::from_bytes(b"hello".to_vec());
    b.delete(2, 0);
    assert_eq!(collect(&b), b"hello");
}

#[test]
fn insert_then_delete_inserted() {
    let mut b = Buffer::from_bytes(b"ac".to_vec());
    b.insert(1, b"b");
    assert_eq!(collect(&b), b"abc");
    b.delete(1, 1);
    assert_eq!(collect(&b), b"ac");
}

/// Recompute line_starts from a freshly-collected byte view. Used by
/// tests to confirm the incrementally-maintained `line_starts` matches
/// what a from-scratch scan would produce.
fn expected_line_starts(content: &[u8]) -> Vec<usize> {
    let mut v = vec![0usize];
    for (i, &b) in content.iter().enumerate() {
        if b == b'\n' {
            v.push(i + 1);
        }
    }
    v
}

#[test]
fn line_starts_initialized_from_bytes() {
    let b = Buffer::from_bytes(b"abc\ndef\nghi".to_vec());
    assert_eq!(b.line_starts(), vec![0, 4, 8]);
}

#[test]
fn line_starts_after_insert_in_middle() {
    let mut b = Buffer::from_bytes(b"abc\ndef".to_vec());
    b.insert(2, b"X\nY");
    // Buffer becomes "abX\nYc\ndef"; line_starts should be [0, 4, 7].
    let bytes = collect(&b);
    assert_eq!(bytes, b"abX\nYc\ndef");
    assert_eq!(b.line_starts(), expected_line_starts(&bytes));
}

#[test]
fn line_starts_after_insert_at_line_boundary() {
    // Insert at the start of an existing line — the existing line_start
    // must NOT shift, but new newlines in `text` still create entries.
    let mut b = Buffer::from_bytes(b"abc\ndef".to_vec());
    b.insert(4, b"X\n");
    let bytes = collect(&b);
    assert_eq!(bytes, b"abc\nX\ndef");
    assert_eq!(b.line_starts(), expected_line_starts(&bytes));
}

#[test]
fn line_starts_after_delete_spanning_newline() {
    let mut b = Buffer::from_bytes(b"abcdef\nghi".to_vec());
    b.delete(2, 5); // removes "cdef\n"
    let bytes = collect(&b);
    assert_eq!(bytes, b"abghi");
    assert_eq!(b.line_starts(), expected_line_starts(&bytes));
}

#[test]
fn line_starts_after_delete_multiple_lines() {
    let mut b = Buffer::from_bytes(b"a\nb\nc\nd".to_vec());
    b.delete(2, 2); // removes "b\n"
    let bytes = collect(&b);
    assert_eq!(bytes, b"a\nc\nd");
    assert_eq!(b.line_starts(), expected_line_starts(&bytes));
}

#[test]
fn position_at_returns_row_and_byte_column() {
    let b = Buffer::from_bytes(b"abc\ndef\nghi".to_vec());
    assert_eq!(b.position_at(0), Point { row: 0, column: 0 });
    assert_eq!(b.position_at(2), Point { row: 0, column: 2 });
    assert_eq!(b.position_at(4), Point { row: 1, column: 0 });
    assert_eq!(b.position_at(6), Point { row: 1, column: 2 });
    assert_eq!(b.position_at(10), Point { row: 2, column: 2 });
    // Past-end clamps to the last position.
    assert_eq!(b.position_at(999), Point { row: 2, column: 3 });
}

#[test]
fn insert_pushes_edit_with_correct_positions() {
    let mut b = Buffer::from_bytes(b"abc\ndef".to_vec());
    b.insert(5, b"X\nY"); // inserts after 'd'
    let edits = b.drain_pending_edits();
    assert_eq!(edits.len(), 1);
    let e = edits[0];
    assert_eq!(e.start_byte, 5);
    assert_eq!(e.old_end_byte, 5);
    assert_eq!(e.new_end_byte, 8);
    assert_eq!(e.start_position, Point { row: 1, column: 1 });
    assert_eq!(e.old_end_position, Point { row: 1, column: 1 });
    // After insert: "abc\ndX\nYef" — new_end lands on second line, col 1.
    assert_eq!(e.new_end_position, Point { row: 2, column: 1 });
}

#[test]
fn delete_pushes_edit_with_pre_mutation_old_end() {
    let mut b = Buffer::from_bytes(b"abc\ndef\nghi".to_vec());
    b.delete(2, 5); // removes "c\ndef" — crosses one newline
    let edits = b.drain_pending_edits();
    assert_eq!(edits.len(), 1);
    let e = edits[0];
    assert_eq!(e.start_byte, 2);
    assert_eq!(e.old_end_byte, 7);
    assert_eq!(e.new_end_byte, 2);
    assert_eq!(e.start_position, Point { row: 0, column: 2 });
    // old_end_position is measured against the PRE-edit layout.
    assert_eq!(e.old_end_position, Point { row: 1, column: 3 });
    assert_eq!(e.new_end_position, Point { row: 0, column: 2 });
}

#[test]
fn drain_pending_edits_empties_log() {
    let mut b = Buffer::from_bytes(b"abc".to_vec());
    b.insert(1, b"x");
    b.delete(2, 1);
    assert_eq!(b.drain_pending_edits().len(), 2);
    assert!(b.drain_pending_edits().is_empty());
}

#[test]
fn undo_rebuilds_line_starts_and_logs_whole_buffer_edit() {
    let mut b = Buffer::from_bytes(b"abc".to_vec());
    let cur = CursorSnapshot {
        anchor: 0,
        head: 0,
        desired_col: 1,
    };
    b.mark_commit_point(cur);
    b.insert(3, b"\nXY");
    // Drain the insert's edit log before undoing so we can isolate
    // the edit produced by undo itself.
    let _ = b.drain_pending_edits();
    b.undo(CursorSnapshot {
        anchor: 6,
        head: 6,
        desired_col: 1,
    });
    let bytes = collect(&b);
    assert_eq!(bytes, b"abc");
    assert_eq!(b.line_starts(), expected_line_starts(&bytes));
    let edits = b.drain_pending_edits();
    assert_eq!(edits.len(), 1);
    let e = edits[0];
    assert_eq!(e.start_byte, 0);
    assert_eq!(e.old_end_byte, 6);
    assert_eq!(e.new_end_byte, 3);
}
