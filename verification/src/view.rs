//! What part of a text is on screen.
use vstd::prelude::*;
use crate::format::{decimal, decimal_len};
use crate::text::{
    ascending, bytes_left, cell_width, char_len, column_from, column_of, imax, imin,
    line_index_cached, slot_of, text_fits, utf8_len, CR, NL, SPACE, TAB,
};

verus! {

/// Lines that the editor keeps between the cursor and the edges of the window.
pub const SCROLLOFF: usize = 5;

/// Lines kept between the cursor and the edge of the viewport, as far as the
/// viewport is high enough.
pub open spec fn margin(scrolloff: int, rows: int) -> int {
    imin(scrolloff, (rows - 1) / 2)
}

/// The first visible line after scrolling just far enough that line `h` keeps
/// its margin to either edge.
pub open spec fn scrolled_with_margin(h: int, top: int, rows: int, scrolloff: int) -> int {
    let off = margin(scrolloff, rows);
    if rows == 0 {
        top
    } else if h < imin(top + off, usize::MAX as int) {
        imax(h - off, 0)
    } else if h >= imin(top + rows, usize::MAX as int) - off {
        h + off + 1 - rows
    } else {
        top
    }
}

/// Scroll `top_line` just far enough that the line of `head` keeps `scrolloff`
/// lines to either edge, or as many as the viewport allows.
pub fn ensure_visible_indexed(
    line_starts: &[usize],
    head: usize,
    top_line: &mut usize,
    viewport_rows: usize,
    scrolloff: usize,
)
    requires
        ascending(line_starts@),
    ensures
        *final(top_line) == scrolled_with_margin(
            slot_of(line_starts@, head as int),
            *old(top_line) as int,
            viewport_rows as int,
            scrolloff as int,
        ),
{
    if viewport_rows == 0 {
        return;
    }
    let h: usize = line_index_cached(line_starts, head);
    let half: usize = (viewport_rows - 1) / 2;
    let off: usize = if scrolloff < half { scrolloff } else { half };
    let top_zone_end: usize = top_line.saturating_add(off);
    let bottom_zone_start: usize = top_line.saturating_add(viewport_rows).saturating_sub(off);
    if h < top_zone_end {
        *top_line = h.saturating_sub(off);
    } else if h >= bottom_zone_start {
        *top_line = h - (viewport_rows - 1 - off);
    }
}

/// Scrolling with a margin puts the line on screen.
pub proof fn margin_scrolling_shows_the_line(h: int, top: int, rows: int, scrolloff: int)
    requires
        0 < rows <= usize::MAX,
        0 <= h < usize::MAX,
        0 <= top <= usize::MAX,
        0 <= scrolloff,
    ensures
        scrolled_with_margin(h, top, rows, scrolloff) <= h < scrolled_with_margin(
            h,
            top,
            rows,
            scrolloff,
        ) + rows,
{
}

/// Width of the line-number gutter; none when the terminal is too narrow.
pub open spec fn gutter_width(total_lines: int, cols: int) -> int {
    if cols > decimal(total_lines).len() + 2 { decimal(total_lines).len() as int + 1 } else { 0 }
}

pub fn gutter_for(total_lines: usize, cols: u16) -> (r: u16)
    ensures
        r == gutter_width(total_lines as int, cols as int),
        r <= 21,
        r > 0 ==> r < cols,
{
    let digits: u16 = decimal_len(total_lines as u64) as u16;
    if cols > digits + 2 {
        digits + 1
    } else {
        0
    }
}

/// One-based screen column of `head` on the line that starts at `line_start`,
/// as far as a `u16` goes.
pub fn visual_col_at(bytes: &[u8], line_start: usize, head: usize) -> (r: u16)
    requires
        text_fits(bytes@),
    ensures
        r == imin(column_of(bytes@, line_start as int, head as int), u16::MAX as int),
        r >= 1,
{
    let mut col: u16 = 1;
    let mut i: usize = line_start;
    let ghost mut c: int = 1;
    while i < head && i < bytes.len() && bytes[i] != NL
        invariant
            text_fits(bytes@),
            c >= 1,
            col == imin(c, u16::MAX as int),
            column_from(bytes@, i as int, c, head as int) == column_of(
                bytes@,
                line_start as int,
                head as int,
            ),
        decreases bytes_left(bytes@, i as int),
    {
        let b: u8 = bytes[i];
        proof {
            c = c + cell_width(c, b);
        }
        if b == TAB {
            let advance: u16 = 4 - ((col - 1) % 4);
            col = col.saturating_add(advance);
        } else if b == CR {
        } else if b < SPACE {
            col = col.saturating_add(2);
        } else {
            col = col.saturating_add(1);
        }
        i += utf8_len(b);
    }
    col
}

/// The columns scrolled off the left edge after scrolling just far enough that
/// column `v` of a line that ends at column `line_end` is visible.
pub open spec fn scrolled_left(v: int, line_end: int, left: int, cols: int) -> int {
    let l = if v <= left {
        imax(v - 1, 0)
    } else if v > left + cols {
        v - cols
    } else {
        left
    };
    if cols == 0 { left } else { imin(l, imax(line_end - cols, 0)) }
}

/// Scroll `left_col` just far enough that the cursor's column is visible, and
/// never past the end of the line.
pub fn ensure_visible_horizontal(
    head_vcol: u16,
    line_end_vcol: u16,
    left_col: &mut usize,
    content_cols: u16,
)
    ensures
        *final(left_col) == scrolled_left(
            head_vcol as int,
            line_end_vcol as int,
            *old(left_col) as int,
            content_cols as int,
        ),
{
    if content_cols == 0 {
        return;
    }
    let v: usize = head_vcol as usize;
    let cc: usize = content_cols as usize;
    if v <= *left_col {
        *left_col = v.saturating_sub(1);
    } else if v - *left_col > cc {
        *left_col = v - cc;
    }
    let max_left: usize = (line_end_vcol as usize).saturating_sub(cc);
    if *left_col > max_left {
        *left_col = max_left;
    }
}

/// After scrolling sideways the cursor's column is in the window, provided it
/// is on the line.
pub proof fn horizontal_scrolling_shows_the_cursor(v: int, line_end: int, left: int, cols: int)
    requires
        1 <= v <= line_end,
        0 <= left,
        cols > 0,
    ensures
        scrolled_left(v, line_end, left, cols) < v <= scrolled_left(v, line_end, left, cols) + cols,
        line_end <= cols ==> scrolled_left(v, line_end, left, cols) == 0,
{
}

/// The part of a run of cells that is in the window: its screen column, its
/// width and how many of its cells are cut off on the left.
pub open spec fn clipped(col: int, width: int, left: int, cols: int) -> Option<(int, int, int)> {
    let end = col + imax(width, 1) - 1;
    let lo = imax(col, left + 1);
    let hi = imin(end, left + cols);
    if hi < lo { None } else { Some((lo - left, hi - lo + 1, lo - col)) }
}

pub open spec fn opt_clip(o: Option<(u16, u16, usize)>) -> Option<(int, int, int)> {
    match o {
        Some((a, b, c)) => Some((a as int, b as int, c as int)),
        None => None,
    }
}

/// Clip a run of `width` cells from the one-based column `col` on to the
/// window that begins behind `left_col`.
pub fn clip_run(col: u16, width: u16, left_col: u16, content_cols: u16) -> (r: Option<
    (u16, u16, usize),
>)
    ensures
        opt_clip(r) == clipped(col as int, width as int, left_col as int, content_cols as int),
        r matches Some((c, w, off)) ==> 1 <= c && 1 <= w && c + w <= content_cols + 1 && off + w
            <= imax(width as int, 1),
{
    let start: u32 = col as u32;
    let end: u32 = start + (if width > 1 { width as u32 } else { 1 }) - 1;
    let win_lo: u32 = left_col as u32 + 1;
    let win_hi: u32 = left_col as u32 + content_cols as u32;
    let lo: u32 = if start > win_lo { start } else { win_lo };
    let hi: u32 = if end < win_hi { end } else { win_hi };
    if hi < lo {
        return None;
    }
    Some(((lo - left_col as u32) as u16, (hi - lo + 1) as u16, (lo - start) as usize))
}

/// Exactly the columns of a run that lie in the window are shown, and each in its
/// own place.
pub proof fn clipping_keeps_what_is_in_the_window(
    col: int,
    width: int,
    left: int,
    cols: int,
    x: int,
)
    requires
        1 <= col,
        1 <= width,
        0 <= left,
        0 <= cols,
    ensures
        (col <= x < col + width && left < x <= left + cols) <==> (clipped(
            col,
            width,
            left,
            cols,
        ) matches Some((c, w, off)) && col + off <= x < col + off + w),
        clipped(col, width, left, cols) matches Some((c, w, off)) ==> c == col + off - left,
{
}

/// Scrolling with a margin keeps as many lines between the line and the edges as
/// fit, unless the text begins there, and moves nothing when they are there.
pub proof fn the_margin_is_kept(h: int, top: int, rows: int, scrolloff: int)
    requires
        0 < rows,
        0 <= h,
        0 <= top,
        0 <= scrolloff,
        top + rows <= usize::MAX,
        top + scrolloff <= usize::MAX,
    ensures
        ({
            let after = scrolled_with_margin(h, top, rows, scrolloff);
            &&& after + scrolloff <= h || after == 0 || after + (rows - 1) / 2 <= h
            &&& h + scrolloff < after + rows || h + (rows - 1) / 2 < after + rows
            &&& top + scrolloff <= h && h + scrolloff < top + rows ==> after == top
            &&& after >= 0
        }),
{
}

/// The gutter holds the number of the last line and one blank, and is left out
/// where no more than one column would be left for the text.
pub proof fn the_gutter_fits_the_last_number(total: int, cols: int)
    requires
        0 <= total,
    ensures
        ({
            let g = gutter_width(total, cols);
            let digits = decimal(total).len();
            &&& cols > digits + 2 ==> g == digits + 1 && g < cols - 1
            &&& cols <= digits + 2 ==> g == 0
        }),
{
}

}
