//! A frame of terminal output under construction.
use vstd::prelude::*;
use vstd::utf8::{encode_utf8, is_ascii_chars, is_ascii_chars_encode_utf8};
use crate::format::{decimal, push_decimal, push_text};
use crate::input::{report, spelled, two_numbers};

verus! {

/// The size of the terminal and the bytes of the frame so far.
pub struct Screen {
    pub cols: u16,
    pub rows: u16,
    pub back: Vec<u8>,
}

/// Bytes that a terminal gets for a text.
pub open spec fn raw(s: Seq<char>) -> Seq<u8> {
    encode_utf8(s)
}

/// The sequence that moves the cursor.
pub open spec fn goto_text(row: int, col: int) -> Seq<char> {
    "\x1b["@ + decimal(row) + ";"@ + decimal(col) + "H"@
}

impl View for Screen {
    type V = Seq<u8>;

    open spec fn view(&self) -> Seq<u8> {
        self.back@
    }
}

/// The frame with `text` written from `(row, col)` on.
pub open spec fn written(frame: Seq<u8>, row: int, col: int, text: Seq<char>) -> Seq<u8> {
    frame + raw(goto_text(row, col)) + raw(text)
}

pub fn goto_string(row: u16, col: u16) -> (r: String)
    ensures
        r@ == goto_text(row as int, col as int),
{
    let mut r = String::new();
    push_text(&mut r, "\x1b[");
    push_decimal(&mut r, row as u64);
    push_text(&mut r, ";");
    push_decimal(&mut r, col as u64);
    push_text(&mut r, "H");
    assert(r@ =~= goto_text(row as int, col as int));
    r
}

impl Screen {
    /// A screen of the given size with an empty frame.
    pub fn with_size(cols: u16, rows: u16) -> (s: Screen)
        ensures
            s.cols == cols,
            s.rows == rows,
            s@ == Seq::<u8>::empty(),
    {
        Screen { cols, rows, back: Vec::new() }
    }

    /// Take note of a new terminal size.
    pub fn refresh_size(&mut self, cols: u16, rows: u16)
        ensures
            final(self).cols == cols,
            final(self).rows == rows,
            final(self)@ == old(self)@,
    {
        self.cols = cols;
        self.rows = rows;
    }

    /// Start a frame: open a synchronized update, hide the cursor and go to
    /// the top left.
    pub fn begin_frame(&mut self)
        ensures
            final(self).cols == old(self).cols,
            final(self).rows == old(self).rows,
            final(self)@ == raw("\x1b[?2026h\x1b[?25l\x1b[H"@),
    {
        self.back = Vec::new();
        self.append_raw("\x1b[?2026h\x1b[?25l\x1b[H");
        assert(self@ =~= raw("\x1b[?2026h\x1b[?25l\x1b[H"@));
    }

    /// Go to the start of a row and erase it.
    pub fn clear_row(&mut self, row: u16)
        ensures
            final(self).cols == old(self).cols,
            final(self).rows == old(self).rows,
            final(self)@ == written(old(self)@, row as int, 1, "\x1b[K"@),
    {
        self.write_at(row, 1, "\x1b[K");
    }

    pub fn write_at(&mut self, row: u16, col: u16, text: &str)
        ensures
            final(self).cols == old(self).cols,
            final(self).rows == old(self).rows,
            final(self)@ == written(old(self)@, row as int, col as int, text@),
    {
        let goto = goto_string(row, col);
        self.append_raw(goto.as_str());
        self.append_raw(text);
    }

    /// Append text without moving the cursor.
    pub fn append_raw(&mut self, text: &str)
        ensures
            final(self).cols == old(self).cols,
            final(self).rows == old(self).rows,
            final(self)@ == old(self)@ + raw(text@),
    {
        self.back.extend_from_slice(text.as_bytes());
    }

    /// The bytes of the frame, for direct appending.
    pub fn back_mut(&mut self) -> (r: &mut Vec<u8>)
        ensures
            r@ == old(self)@,
            final(self)@ == final(r)@,
            final(self).cols == old(self).cols,
            final(self).rows == old(self).rows,
    {
        &mut self.back
    }

    /// A block cursor, or a bar.
    pub fn set_cursor_shape(&mut self, block: bool)
        ensures
            final(self).cols == old(self).cols,
            final(self).rows == old(self).rows,
            final(self)@ == old(self)@ + raw(if block { "\x1b[2 q"@ } else { "\x1b[6 q"@ }),
    {
        if block {
            self.append_raw("\x1b[2 q");
        } else {
            self.append_raw("\x1b[6 q");
        }
    }

    /// Finish a frame: put the cursor in its place, show it and close the
    /// synchronized update, which must come last.
    pub fn end_frame(&mut self, cursor_row: u16, cursor_col: u16)
        ensures
            final(self).cols == old(self).cols,
            final(self).rows == old(self).rows,
            final(self)@ == written(
                old(self)@,
                cursor_row as int,
                cursor_col as int,
                "\x1b[?25h\x1b[?2026l"@,
            ),
    {
        self.write_at(cursor_row, cursor_col, "\x1b[?25h\x1b[?2026l");
    }
}

/// Going to a cell is told to the terminal as its row and its column, in that
/// order, from one on.
pub proof fn cells_are_told_by_row_and_column(row: int, col: int)
    requires
        0 <= row,
        0 <= col,
    ensures
        raw(goto_text(row, col)) == report(two_numbers(row, col), 'H' as u8),
{
    lemma_decimal_is_spelled(row);
    lemma_decimal_is_spelled(col);
    reveal_strlit("\x1b[");
    reveal_strlit(";");
    reveal_strlit("H");
    let t = goto_text(row, col);
    assert("\x1b["@ =~= seq!['\x1b', '[']);
    assert(";"@ =~= seq![';']);
    assert("H"@ =~= seq!['H']);
    let (a, b) = (decimal(row), decimal(col));
    assert(t =~= seq!['\x1b', '['] + a + seq![';'] + b + seq!['H']);
    assert(is_ascii_chars(t)) by {
        assert forall|i: int| 0 <= i < t.len() implies '\0' <= #[trigger] t[i] <= '\u{7f}' by {
            if 2 <= i < 2 + a.len() {
                assert(t[i] == a[i - 2]);
            } else if 3 + a.len() <= i < 3 + a.len() + b.len() {
                assert(t[i] == b[i - 3 - a.len()]);
            }
        }
    }
    is_ascii_chars_encode_utf8(t);
    let e = encode_utf8(t);
    let r = report(two_numbers(row, col), 'H' as u8);
    assert(e.len() == r.len());
    assert forall|i: int| 0 <= i < e.len() implies e[i] == r[i] by {
        assert(e[i] == t[i] as u8);
        if 2 <= i < 2 + a.len() {
            assert(t[i] == a[i - 2]);
            assert(r[i] == spelled(row)[i - 2]);
        } else if 3 + a.len() <= i < 3 + a.len() + b.len() {
            assert(t[i] == b[i - 3 - a.len()]);
            assert(r[i] == spelled(col)[i - 3 - a.len()]);
        }
    }
    assert(e =~= r);
}

proof fn lemma_decimal_is_spelled(n: int)
    requires
        0 <= n,
    ensures
        decimal(n).len() == spelled(n).len(),
        forall|i: int|
            0 <= i < decimal(n).len() ==> '0' <= #[trigger] decimal(n)[i] <= '9' && decimal(n)[i] as u8
                == spelled(n)[i],
    decreases n,
{
    if n >= 10 {
        lemma_decimal_is_spelled(n / 10);
        let (d, s) = (decimal(n), spelled(n));
        assert(d == decimal(n / 10).push(crate::format::digit_char(n % 10, false)));
        assert forall|i: int| 0 <= i < d.len() implies '0' <= #[trigger] d[i] <= '9' && d[i] as u8
            == s[i] by {
            if i < d.len() - 1 {
                assert(d[i] == decimal(n / 10)[i]);
                assert(s[i] == spelled(n / 10)[i]);
            }
        }
    }
}

}
