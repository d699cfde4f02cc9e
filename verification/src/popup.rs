//! Boxes drawn over the text: questions, completions, hover texts and
//! diagnostics.
use vstd::prelude::*;
use crate::completion::{CompletionItem, ItemView};
use crate::format::{push_run, push_text, run_of};
use crate::highlight::texts;
use crate::lsp::{Diagnostic, DiagnosticSeverity};
use crate::prompt::{Prompt, PromptView};
use crate::strings::{chars_of, glue, string_of};
use crate::suggest::{CompletionUi, UiView};
use crate::term::{written, Screen};
use crate::text::{
    ascending, byte_at_line_cached, column_of, display_col, imax, imin, line_index_cached, slot_of,
    text_fits,
};
use crate::wrap::{wrap_text, wrapped, wrapping_keeps_within_bounds};

verus! {

// ---------------------------------------------------------------------------
// Boxes
// ---------------------------------------------------------------------------

/// The frame with rows of text written one below the other.
pub open spec fn stacked(frame: Seq<u8>, top: int, left: int, rows: Seq<Seq<char>>) -> Seq<u8>
    decreases rows.len(),
{
    if rows.len() == 0 {
        frame
    } else {
        written(
            stacked(frame, top, left, rows.drop_last()),
            top + rows.len() - 1,
            left,
            rows.last(),
        )
    }
}

fn draw_rows(screen: &mut Screen, top: u16, left: u16, rows: &Vec<String>)
    requires
        top + rows@.len() <= u16::MAX,
    ensures
        final(screen).cols == old(screen).cols,
        final(screen).rows == old(screen).rows,
        final(screen)@ == stacked(old(screen)@, top as int, left as int, texts(rows@)),
{
    let ghost frame = screen@;
    let ghost all = texts(rows@);
    let mut i: usize = 0;
    assert(all.take(0) =~= Seq::<Seq<char>>::empty());
    while i < rows.len()
        invariant
            i <= rows@.len(),
            top + rows@.len() <= u16::MAX,
            all == texts(rows@),
            screen.cols == old(screen).cols,
            screen.rows == old(screen).rows,
            screen@ == stacked(frame, top as int, left as int, all.take(i as int)),
        decreases rows@.len() - i,
    {
        assert(all.take(i + 1).drop_last() =~= all.take(i as int));
        assert(all.take(i + 1).last() == rows@[i as int]@);
        screen.write_at(top + i as u16, left, rows[i].as_str());
        i += 1;
    }
    assert(all.take(i as int) =~= all);
}

/// The length of the longest line.
pub open spec fn widest(lines: Seq<Seq<char>>) -> int
    decreases lines.len(),
{
    if lines.len() == 0 {
        0
    } else {
        imax(widest(lines.drop_last()), lines.last().len() as int)
    }
}

pub proof fn lemma_widest(lines: Seq<Seq<char>>)
    ensures
        widest(lines) >= 0,
        forall|i: int| 0 <= i < lines.len() ==> (#[trigger] lines[i]).len() <= widest(lines),
    decreases lines.len(),
{
    if lines.len() > 0 {
        lemma_widest(lines.drop_last());
        assert forall|i: int| 0 <= i < lines.len() implies (#[trigger] lines[i]).len() <= widest(
            lines,
        ) by {
            if i < lines.len() - 1 {
                assert(lines[i] == lines.drop_last()[i]);
            }
        }
    }
}

pub proof fn lemma_widest_bound(lines: Seq<Seq<char>>, max: int)
    requires
        0 <= max,
        forall|i: int| 0 <= i < lines.len() ==> (#[trigger] lines[i]).len() <= max,
    ensures
        widest(lines) <= max,
    decreases lines.len(),
{
    if lines.len() > 0 {
        let t = lines.drop_last();
        assert forall|i: int| 0 <= i < t.len() implies (#[trigger] t[i]).len() <= max by {
            assert(t[i] == lines[i]);
        }
        lemma_widest_bound(t, max);
        assert(lines[lines.len() - 1].len() <= max);
    }
}

fn max_width(lines: &Vec<String>) -> (r: usize)
    ensures
        r == widest(texts(lines@)),
{
    let ghost all = texts(lines@);
    let mut r: usize = 0;
    let mut i: usize = 0;
    while i < lines.len()
        invariant
            i <= lines@.len(),
            all == texts(lines@),
            r == widest(all.take(i as int)),
        decreases lines@.len() - i,
    {
        assert(all.take(i + 1).drop_last() =~= all.take(i as int));
        assert(all.take(i + 1).last() == lines@[i as int]@);
        let n: usize = chars_of(lines[i].as_str()).len();
        if n > r {
            r = n;
        }
        i += 1;
    }
    assert(all.take(i as int) =~= all);
    r
}

/// A horizontal edge of a box, `inner` cells wide between its corners.
pub open spec fn edge(border: Seq<char>, l: char, inner: int, r: char) -> Seq<char> {
    border + seq![l] + run_of('─', inner) + seq![r] + "\x1b[0m"@
}

/// A row of a box.
pub open spec fn walled(border: Seq<char>, body: Seq<char>) -> Seq<char> {
    border + seq!['│'] + "\x1b[0m"@ + body + border + seq!['│'] + "\x1b[0m"@
}

fn edge_row(border: &str, l: char, inner: usize, r: char) -> (s: String)
    ensures
        s@ == edge(border@, l, inner as int, r),
{
    let mut s = String::from_str(border);
    s.push(l);
    push_run(&mut s, '─', inner);
    s.push(r);
    push_text(&mut s, "\x1b[0m");
    assert(s@ =~= edge(border@, l, inner as int, r));
    s
}

fn walled_row(border: &str, body: &str) -> (s: String)
    ensures
        s@ == walled(border@, body@),
{
    let mut s = String::from_str(border);
    s.push('│');
    push_text(&mut s, "\x1b[0m");
    push_text(&mut s, body);
    push_text(&mut s, border);
    s.push('│');
    push_text(&mut s, "\x1b[0m");
    assert(s@ =~= walled(border@, body@));
    s
}

/// The rows of a box: an edge, walled rows, an edge.
pub open spec fn box_of(first: Seq<char>, rows: Seq<Seq<char>>, last: Seq<char>) -> Seq<Seq<char>> {
    seq![first] + rows + seq![last]
}

/// The first row of a box that is `h` rows high: below the cursor, or above it
/// where there is no room below.
pub open spec fn box_top(cur_row: int, h: int, viewport_rows: int) -> int {
    let below = cur_row + 1;
    if below + h - 1 > viewport_rows {
        imax(cur_row - h, 1)
    } else {
        below
    }
}

/// The first column of a box that is `w` cells wide: one left of the anchor, but
/// not so far right that it leaves the terminal.
pub open spec fn box_left(anchor_col: int, w: int, cols: int) -> int {
    let l = imax(anchor_col - 1, 1);
    if l + w - 1 > cols { imax(cols - (w - 1), 1) } else { l }
}

fn top_for(cur_row: u16, h: u16, viewport_rows: u16) -> (r: u16)
    requires
        cur_row + 1 + h <= u16::MAX,
        h >= 1,
    ensures
        r == box_top(cur_row as int, h as int, viewport_rows as int),
        1 <= r <= cur_row + 1,
{
    let below: u16 = cur_row + 1;
    if below + h - 1 > viewport_rows {
        let above: u16 = cur_row.saturating_sub(h);
        if above == 0 {
            1
        } else {
            above
        }
    } else {
        below
    }
}

fn left_for(anchor_col: u16, w: u16, cols: u16) -> (r: u16)
    requires
        anchor_col + w <= u16::MAX,
        w >= 1,
    ensures
        r == box_left(anchor_col as int, w as int, cols as int),
{
    let l: u16 = if anchor_col > 2 {
        anchor_col - 1
    } else {
        1
    };
    if l + (w - 1) > cols {
        let r: u16 = cols.saturating_sub(w - 1);
        if r == 0 {
            1
        } else {
            r
        }
    } else {
        l
    }
}

/// A line in a box that is `inner` cells wide.
pub open spec fn padded(line: Seq<char>, inner: int) -> Seq<char> {
    " "@ + line + run_of(' ', inner - 1 - line.len())
}

/// The rows of a box round some lines.
pub open spec fn lines_box(border: Seq<char>, lines: Seq<Seq<char>>) -> Seq<Seq<char>> {
    let inner = widest(lines) + 2;
    box_of(
        edge(border, '┌', inner, '┐'),
        lines.map_values(|l: Seq<char>| walled(border, padded(l, inner))),
        edge(border, '└', inner, '┘'),
    )
}

/// The frame with a box round some lines next to the cursor.
pub open spec fn box_drawn(
    frame: Seq<u8>,
    border: Seq<char>,
    lines: Seq<Seq<char>>,
    cur_row: int,
    cur_col: int,
    gutter: int,
    cols: int,
    viewport_rows: int,
) -> Seq<u8> {
    stacked(
        frame,
        box_top(cur_row, lines.len() + 2int, viewport_rows),
        box_left(cur_col + gutter, widest(lines) + 4, cols),
        lines_box(border, lines),
    )
}

/// Draw a box round some lines next to the cursor: below it, or above where
/// there is no room.
pub fn draw_box_at_cursor(
    screen: &mut Screen,
    lines: &Vec<String>,
    cur_row: u16,
    cur_col: u16,
    gutter: u16,
    cols: u16,
    viewport_rows: u16,
    border: &str,
)
    requires
        cur_row + lines@.len() + 3 <= u16::MAX,
        cur_col + gutter + widest(texts(lines@)) + 4 <= u16::MAX,
    ensures
        final(screen).cols == old(screen).cols,
        final(screen).rows == old(screen).rows,
        final(screen)@ == box_drawn(
            old(screen)@,
            border@,
            texts(lines@),
            cur_row as int,
            cur_col as int,
            gutter as int,
            cols as int,
            viewport_rows as int,
        ),
{
    let ghost all = texts(lines@);
    proof {
        lemma_widest(all);
    }
    let inner: usize = max_width(lines) + 2;
    let ghost wall = |l: Seq<char>| walled(border@, padded(l, inner as int));
    let mut rows: Vec<String> = Vec::new();
    rows.push(edge_row(border, '┌', inner, '┐'));
    let ghost first = edge(border@, '┌', inner as int, '┐');
    let mut i: usize = 0;
    assert(texts(rows@) =~= seq![first] + all.take(0).map_values(wall));
    while i < lines.len()
        invariant
            i <= lines@.len(),
            all == texts(lines@),
            inner == widest(all) + 2,
            forall|k: int| 0 <= k < all.len() ==> (#[trigger] all[k]).len() <= widest(all),
            wall == (|l: Seq<char>| walled(border@, padded(l, inner as int))),
            texts(rows@) == seq![first] + all.take(i as int).map_values(wall),
        decreases lines@.len() - i,
    {
        let ghost before = texts(rows@);
        assert(all[i as int] == lines@[i as int]@);
        let n: usize = chars_of(lines[i].as_str()).len();
        let mut body = String::from_str(" ");
        push_text(&mut body, lines[i].as_str());
        push_run(&mut body, ' ', inner - 1 - n);
        assert(body@ =~= padded(all[i as int], inner as int));
        let row = walled_row(border, body.as_str());
        rows.push(row);
        assert(texts(rows@) =~= before.push(row@));
        assert(seq![first] + all.take(i + 1).map_values(wall) =~= before.push(
            wall(all[i as int]),
        ));
        i += 1;
    }
    let ghost before = texts(rows@);
    let last = edge_row(border, '└', inner, '┘');
    rows.push(last);
    proof {
        assert(all.take(i as int) =~= all);
        assert(texts(rows@) =~= before.push(last@));
        assert(texts(rows@) =~= lines_box(border@, all));
    }
    let h: u16 = lines.len() as u16 + 2;
    let w: u16 = inner as u16 + 2;
    let top: u16 = top_for(cur_row, h, viewport_rows);
    let left: u16 = left_for(cur_col + gutter, w, cols);
    assert(rows@.len() == texts(rows@).len());
    draw_rows(screen, top, left, &rows);
}

/// The widest text that a box may hold: the terminal's width less its frame,
/// between `least` and `most`.
pub open spec fn text_limit(cols: int, most: int) -> int {
    imin(imax(imax(cols - 6, 0), 20), most)
}

fn limit_text(cols: u16, most: usize) -> (r: usize)
    requires
        most >= 20,
    ensures
        r == text_limit(cols as int, most as int),
        20 <= r <= most,
{
    let n: usize = if cols > 26 {
        cols as usize - 6
    } else {
        20
    };
    if n < most {
        n
    } else {
        most
    }
}

/// The frame with a wrapped text in a box next to the cursor; unchanged where
/// there is no text.
pub open spec fn text_drawn(
    frame: Seq<u8>,
    border: Seq<char>,
    text: Seq<char>,
    most: int,
    max_rows: int,
    cur_row: int,
    cur_col: int,
    gutter: int,
    cols: int,
    viewport_rows: int,
) -> Seq<u8> {
    let lines = wrapped(text, text_limit(cols, most), max_rows);
    if lines.len() == 0 {
        frame
    } else {
        box_drawn(frame, border, lines, cur_row, cur_col, gutter, cols, viewport_rows)
    }
}

fn draw_text(
    screen: &mut Screen,
    border: &str,
    text: &str,
    most: usize,
    max_rows: usize,
    cur_row: u16,
    cur_col: u16,
    gutter: u16,
    cols: u16,
    viewport_rows: u16,
)
    requires
        most >= 20,
        cur_row + max_rows + 3 <= u16::MAX,
        cur_col + gutter + most + 4 <= u16::MAX,
    ensures
        final(screen).cols == old(screen).cols,
        final(screen).rows == old(screen).rows,
        final(screen)@ == text_drawn(
            old(screen)@,
            border@,
            text@,
            most as int,
            max_rows as int,
            cur_row as int,
            cur_col as int,
            gutter as int,
            cols as int,
            viewport_rows as int,
        ),
{
    let limit: usize = limit_text(cols, most);
    let lines = wrap_text(text, limit, max_rows);
    proof {
        wrapping_keeps_within_bounds(text@, limit as int, max_rows as int);
        lemma_widest_bound(texts(lines@), limit as int);
        assert(texts(lines@).len() == lines@.len());
    }
    if lines.len() == 0 {
        return;
    }
    draw_box_at_cursor(screen, &lines, cur_row, cur_col, gutter, cols, viewport_rows, border);
}

/// The most columns and rows of a hover text, and its border.
pub const HOVER_COLS: usize = 80;

pub const HOVER_ROWS: usize = 16;

pub const HOVER_BORDER: &'static str = "\x1b[38;5;110m";

/// The most columns and rows of a diagnostic.
pub const DIAG_COLS: usize = 60;

pub const DIAG_ROWS: usize = 6;

/// Draw a hover text next to the cursor.
pub fn draw_hover_popup(
    screen: &mut Screen,
    text: &str,
    cur_row: u16,
    cur_col: u16,
    gutter: u16,
    cols: u16,
    viewport_rows: u16,
)
    requires
        cur_row + HOVER_ROWS + 3 <= u16::MAX,
        cur_col + gutter + HOVER_COLS + 4 <= u16::MAX,
    ensures
        final(screen).cols == old(screen).cols,
        final(screen).rows == old(screen).rows,
        final(screen)@ == text_drawn(
            old(screen)@,
            HOVER_BORDER@,
            text@,
            HOVER_COLS as int,
            HOVER_ROWS as int,
            cur_row as int,
            cur_col as int,
            gutter as int,
            cols as int,
            viewport_rows as int,
        ),
{
    draw_text(
        screen,
        HOVER_BORDER,
        text,
        HOVER_COLS,
        HOVER_ROWS,
        cur_row,
        cur_col,
        gutter,
        cols,
        viewport_rows,
    );
}

/// The colour of a severity's border.
pub open spec fn severity_border(sev: DiagnosticSeverity) -> Seq<char> {
    match sev {
        DiagnosticSeverity::Error => "\x1b[38;5;9m"@,
        DiagnosticSeverity::Warning => "\x1b[38;5;11m"@,
        DiagnosticSeverity::Information => "\x1b[38;5;14m"@,
        DiagnosticSeverity::Hint => "\x1b[38;5;8m"@,
    }
}

pub fn diag_border_fg_for(sev: DiagnosticSeverity) -> (r: &'static str)
    ensures
        r@ == severity_border(sev),
{
    match sev {
        DiagnosticSeverity::Error => "\x1b[38;5;9m",
        DiagnosticSeverity::Warning => "\x1b[38;5;11m",
        DiagnosticSeverity::Information => "\x1b[38;5;14m",
        DiagnosticSeverity::Hint => "\x1b[38;5;8m",
    }
}

/// Draw a diagnostic next to the cursor, with a border in the colour of its
/// severity.
pub fn draw_diag_popup(
    screen: &mut Screen,
    d: &Diagnostic,
    cur_row: u16,
    cur_col: u16,
    gutter: u16,
    cols: u16,
    viewport_rows: u16,
)
    requires
        cur_row + DIAG_ROWS + 3 <= u16::MAX,
        cur_col + gutter + DIAG_COLS + 4 <= u16::MAX,
    ensures
        final(screen).cols == old(screen).cols,
        final(screen).rows == old(screen).rows,
        final(screen)@ == text_drawn(
            old(screen)@,
            severity_border(d.severity),
            d.message@,
            DIAG_COLS as int,
            DIAG_ROWS as int,
            cur_row as int,
            cur_col as int,
            gutter as int,
            cols as int,
            viewport_rows as int,
        ),
{
    draw_text(
        screen,
        diag_border_fg_for(d.severity),
        d.message.as_str(),
        DIAG_COLS,
        DIAG_ROWS,
        cur_row,
        cur_col,
        gutter,
        cols,
        viewport_rows,
    );
}

// ---------------------------------------------------------------------------
// Completions
// ---------------------------------------------------------------------------

/// The most items that are shown at once.
pub const MAX_ITEMS: usize = 8;

pub const ITEM_BORDER: &'static str = "\x1b[38;5;139m";

/// The detail that is shown beside a label.
pub open spec fn detail_of(item: ItemView) -> Seq<char> {
    match item.detail {
        Some(d) => d,
        None => Seq::empty(),
    }
}

/// The cells that an item would like.
pub open spec fn item_width(item: ItemView) -> int {
    let d = detail_of(item).len() as int;
    item.label.len() + if d > 0 { 2 + d } else { 0 }
}

/// How many items are shown.
pub open spec fn shown_count(ui: UiView) -> int {
    imin(ui.filtered.len() as int, MAX_ITEMS as int)
}

/// The first of them: far enough down that the selected one is among them.
pub open spec fn window_start(ui: UiView) -> int {
    imin(imax(ui.selected - (MAX_ITEMS - 1), 0), ui.filtered.len() - shown_count(ui))
}

/// The `k`-th item that is shown.
pub open spec fn shown_item(ui: UiView, k: int) -> ItemView {
    ui.items[ui.filtered[window_start(ui) + k]]
}

/// The width that the first `k` items shown would like.
pub open spec fn wanted_width(ui: UiView, k: int) -> int
    decreases k,
{
    if k <= 0 {
        0
    } else {
        imax(wanted_width(ui, k - 1), item_width(shown_item(ui, k - 1)))
    }
}

/// The cells for the text of an item: as many as the items would like, but at
/// least a few and no more than the terminal has.
pub open spec fn items_width(ui: UiView, cols: int) -> int {
    imax(imin(wanted_width(ui, shown_count(ui)), imin(imax(cols - 6, 0), 60)), 8)
}

/// The text of an item in `w` cells: the detail is left out, and the label cut,
/// where they do not fit.
pub open spec fn item_text(item: ItemView, w: int) -> Seq<char> {
    let d = detail_of(item);
    if d.len() > 0 && item.label.len() + 2 + d.len() <= w {
        item.label + "  "@ + d
    } else {
        item.label.take(imin(item.label.len() as int, w))
    }
}

/// The body of an item's row; the selected one is shown in reverse.
pub open spec fn item_body(item: ItemView, w: int, selected: bool) -> Seq<char> {
    let t = item_text(item, w);
    (if selected { "\x1b[7m"@ } else { Seq::empty() }) + " "@ + t + run_of(' ', w - t.len()) + " "@
        + (if selected { "\x1b[0m"@ } else { Seq::empty() })
}

/// The rows of the completion box.
pub open spec fn completion_box(ui: UiView, cols: int) -> Seq<Seq<char>> {
    let w = items_width(ui, cols);
    box_of(
        edge(ITEM_BORDER@, '┌', w + 2, '┐'),
        Seq::new(
            shown_count(ui) as nat,
            |k: int|
                walled(
                    ITEM_BORDER@,
                    item_body(shown_item(ui, k), w, window_start(ui) + k == ui.selected),
                ),
        ),
        edge(ITEM_BORDER@, '└', w + 2, '┘'),
    )
}

/// The column of the text that is being completed: as far left of the cursor as
/// the typed prefix is wide, if both are on one line.
pub open spec fn anchor_column(
    ui: UiView,
    text: Seq<u8>,
    starts: Seq<usize>,
    cursor: int,
    cur_col: int,
) -> int {
    let line = slot_of(starts, cursor);
    if slot_of(starts, ui.anchor as int) == line && ui.anchor <= cursor {
        let from = if line < starts.len() { starts[line] as int } else { text.len() as int };
        let delta = imax(column_of(text, from, cursor) - column_of(text, from, ui.anchor as int), 0);
        imax(cur_col - delta % 0x1_0000, 1)
    } else {
        cur_col
    }
}

/// The frame with the completion box at the text that is being completed.
pub open spec fn completions_drawn(
    frame: Seq<u8>,
    ui: UiView,
    text: Seq<u8>,
    starts: Seq<usize>,
    cursor: int,
    cur_row: int,
    cur_col: int,
    gutter: int,
    cols: int,
    viewport_rows: int,
) -> Seq<u8> {
    if ui.filtered.len() == 0 {
        frame
    } else {
        stacked(
            frame,
            box_top(cur_row, shown_count(ui) + 2, viewport_rows),
            box_left(
                anchor_column(ui, text, starts, cursor, cur_col) + gutter,
                items_width(ui, cols) + 4,
                cols,
            ),
            completion_box(ui, cols),
        )
    }
}

fn width_of_item(item: &CompletionItem) -> (r: usize)
    ensures
        r == imin(item_width(item@), usize::MAX as int),
{
    let label: usize = chars_of(item.label.as_str()).len();
    let detail: usize = match &item.detail {
        Some(d) => chars_of(d.as_str()).len(),
        None => 0,
    };
    if detail > 0 {
        label.saturating_add(2).saturating_add(detail)
    } else {
        label
    }
}

fn text_of_item(item: &CompletionItem, w: usize) -> (r: String)
    requires
        w <= 60,
    ensures
        r@ == item_text(item@, w as int),
        r@.len() <= w,
{
    let label = chars_of(item.label.as_str());
    let detail: usize = match &item.detail {
        Some(d) => chars_of(d.as_str()).len(),
        None => 0,
    };
    let room: usize = label.len().saturating_add(2).saturating_add(detail);
    if detail > 0 && room <= w {
        let mut r = glue(item.label.as_str(), "  ");
        match &item.detail {
            Some(d) => {
                r.append(d.as_str());
            },
            None => {},
        }
        proof {
            reveal_strlit("  ");
        }
        assert(r@ =~= item_text(item@, w as int));
        return r;
    }
    let end: usize = if label.len() < w {
        label.len()
    } else {
        w
    };
    let r = string_of(label.as_slice(), 0, end);
    assert(r@ =~= item_text(item@, w as int));
    r
}

fn item_row(item: &CompletionItem, w: usize, selected: bool) -> (r: String)
    requires
        w <= 60,
    ensures
        r@ == walled(ITEM_BORDER@, item_body(item@, w as int, selected)),
{
    let mut body = String::new();
    if selected {
        push_text(&mut body, "\x1b[7m");
    }
    let t = text_of_item(item, w);
    let n: usize = chars_of(t.as_str()).len();
    push_text(&mut body, " ");
    push_text(&mut body, t.as_str());
    push_run(&mut body, ' ', w - n);
    push_text(&mut body, " ");
    if selected {
        push_text(&mut body, "\x1b[0m");
    }
    assert(body@ =~= item_body(item@, w as int, selected));
    walled_row(ITEM_BORDER, body.as_str())
}

fn find_anchor_column(
    comp: &CompletionUi,
    bytes: &[u8],
    line_starts: &[usize],
    cursor: usize,
    cur_col: u16,
) -> (r: u16)
    requires
        text_fits(bytes@),
        ascending(line_starts@),
    ensures
        r == anchor_column(comp@, bytes@, line_starts@, cursor as int, cur_col as int),
        r <= imax(cur_col as int, 1),
{
    let line: usize = line_index_cached(line_starts, cursor);
    let anchor_line: usize = line_index_cached(line_starts, comp.anchor);
    if anchor_line != line || comp.anchor > cursor {
        return cur_col;
    }
    let from: usize = byte_at_line_cached(line_starts, line, bytes.len());
    let a: usize = display_col(bytes, from, cursor);
    let b: usize = display_col(bytes, from, comp.anchor);
    let delta: u16 = (a.saturating_sub(b) % 0x1_0000) as u16;
    let r: u16 = cur_col.saturating_sub(delta);
    if r == 0 {
        1
    } else {
        r
    }
}

fn choose_items_width(comp: &CompletionUi, start: usize, take: usize, cols: u16) -> (r: usize)
    requires
        comp.wf(),
        comp@.filtered.len() > 0,
        start == window_start(comp@),
        take == shown_count(comp@),
    ensures
        r == items_width(comp@, cols as int),
        8 <= r <= 60,
{
    let ghost ui = comp@;
    let mut wanted: usize = 0;
    let mut k: usize = 0;
    while k < take
        invariant
            comp.wf(),
            ui == comp@,
            k <= take,
            take == shown_count(ui),
            start == window_start(ui),
            wanted == imin(wanted_width(ui, k as int), usize::MAX as int),
            wanted_width(ui, k as int) >= 0,
        decreases take - k,
    {
        let ghost at = window_start(ui) + k;
        assert(0 <= at < ui.filtered.len());
        assert(ui.filtered[at] == comp.filtered@[at]);
        assert(shown_item(ui, k as int) == comp.items@[comp.filtered@[at] as int]@);
        let w: usize = width_of_item(&comp.items[comp.filtered[start + k]]);
        if w > wanted {
            wanted = w;
        }
        k += 1;
    }
    let most: usize = if cols > 66 {
        60
    } else {
        (cols as usize).saturating_sub(6)
    };
    let w: usize = if wanted < most {
        wanted
    } else {
        most
    };
    if w > 8 {
        w
    } else {
        8
    }
}

/// Draw the completion box at the text that is being completed. It shows a few
/// of the items, the selected one among them.
pub fn draw_completion_popup(
    screen: &mut Screen,
    comp: &CompletionUi,
    bytes: &[u8],
    line_starts: &[usize],
    cursor_byte: usize,
    cur_row: u16,
    cur_col: u16,
    gutter: u16,
    cols: u16,
    viewport_rows: u16,
)
    requires
        comp.wf(),
        text_fits(bytes@),
        ascending(line_starts@),
        cur_row + MAX_ITEMS + 3 <= u16::MAX,
        imax(cur_col as int, 1) + gutter + 64 <= u16::MAX,
    ensures
        final(screen).cols == old(screen).cols,
        final(screen).rows == old(screen).rows,
        final(screen)@ == completions_drawn(
            old(screen)@,
            comp@,
            bytes@,
            line_starts@,
            cursor_byte as int,
            cur_row as int,
            cur_col as int,
            gutter as int,
            cols as int,
            viewport_rows as int,
        ),
{
    let n: usize = comp.filtered.len();
    if n == 0 {
        return;
    }
    let ghost ui = comp@;
    let anchor_col: u16 = find_anchor_column(comp, bytes, line_starts, cursor_byte, cur_col);
    let take: usize = if n < MAX_ITEMS {
        n
    } else {
        MAX_ITEMS
    };
    let last_start: usize = n - take;
    let wanted_start: usize = comp.selected.saturating_sub(MAX_ITEMS - 1);
    let start: usize = if wanted_start < last_start {
        wanted_start
    } else {
        last_start
    };
    let text_w: usize = choose_items_width(comp, start, take, cols);
    let inner: usize = text_w + 2;
    let mut rows: Vec<String> = Vec::new();
    rows.push(edge_row(ITEM_BORDER, '┌', inner, '┐'));
    let ghost want = completion_box(ui, cols as int);
    let mut k: usize = 0;
    assert(texts(rows@) =~= want.take(1));
    while k < take
        invariant
            comp.wf(),
            ui == comp@,
            k <= take,
            take == shown_count(ui),
            start == window_start(ui),
            text_w == items_width(ui, cols as int),
            text_w <= 60,
            ui.filtered.len() > 0,
            want == completion_box(ui, cols as int),
            texts(rows@) == want.take(k + 1),
        decreases take - k,
    {
        let ghost before = texts(rows@);
        let ghost at = window_start(ui) + k;
        assert(0 <= at < ui.filtered.len());
        assert(ui.filtered[at] == comp.filtered@[at]);
        assert(shown_item(ui, k as int) == comp.items@[comp.filtered@[at] as int]@);
        let row = item_row(
            &comp.items[comp.filtered[start + k]],
            text_w,
            start + k == comp.selected,
        );
        rows.push(row);
        assert(texts(rows@) =~= before.push(row@));
        assert(want[k + 1] == row@);
        assert(want.take(k + 2) =~= before.push(want[k + 1]));
        k += 1;
    }
    let ghost before = texts(rows@);
    let last = edge_row(ITEM_BORDER, '└', inner, '┘');
    rows.push(last);
    proof {
        assert(texts(rows@) =~= before.push(last@));
        assert(want =~= want.take(take + 1).push(want.last()));
        assert(texts(rows@).len() == rows@.len());
    }
    let h: u16 = take as u16 + 2;
    let w: u16 = inner as u16 + 2;
    let top: u16 = top_for(cur_row, h, viewport_rows);
    let left: u16 = left_for(anchor_col + gutter, w, cols);
    draw_rows(screen, top, left, &rows);
}

// ---------------------------------------------------------------------------
// Questions
// ---------------------------------------------------------------------------

pub const PROMPT_BORDER: &'static str = "\x1b[38;5;110m";

/// The choices in one line.
pub open spec fn choice_line(choices: Seq<(Seq<char>, Seq<char>)>) -> Seq<char>
    decreases choices.len(),
{
    if choices.len() == 0 {
        Seq::empty()
    } else {
        let (key, what) = choices.last();
        let one = "["@ + key + "] "@ + what;
        if choices.len() == 1 {
            one
        } else {
            choice_line(choices.drop_last()) + "  ·  "@ + one
        }
    }
}

/// The lines of a question: the title, the body and the choices, with empty
/// lines between them.
pub open spec fn prompt_lines(p: PromptView) -> Seq<Seq<char>> {
    seq![p.title, Seq::empty()] + p.body + if p.choices.len() == 0 {
        Seq::empty()
    } else {
        seq![Seq::empty(), choice_line(p.choices)]
    }
}

/// A line of a question: the title is bold, the choices are dim.
pub open spec fn styled_line(p: PromptView, i: int) -> Seq<char> {
    let lines = prompt_lines(p);
    if i == 0 {
        "\x1b[1m"@ + lines[i] + "\x1b[0m"@
    } else if i + 1 == lines.len() && p.choices.len() > 0 {
        "\x1b[38;5;243m"@ + lines[i] + "\x1b[0m"@
    } else {
        lines[i]
    }
}

/// The body of a row: the line in the middle of `inner` cells.
pub open spec fn prompt_body(p: PromptView, i: int, inner: int) -> Seq<char> {
    let pad = inner - prompt_lines(p)[i].len();
    run_of(' ', pad / 2) + styled_line(p, i) + run_of(' ', pad - pad / 2)
}

pub open spec fn prompt_box(p: PromptView) -> Seq<Seq<char>> {
    let inner = widest(prompt_lines(p)) + 4;
    box_of(
        edge(PROMPT_BORDER@, '╭', inner, '╮'),
        Seq::new(
            prompt_lines(p).len(),
            |i: int| walled(PROMPT_BORDER@, prompt_body(p, i, inner)),
        ),
        edge(PROMPT_BORDER@, '╰', inner, '╯'),
    )
}

/// The frame with a question in the middle of the screen; unchanged where it
/// does not fit.
pub open spec fn prompt_drawn(frame: Seq<u8>, p: PromptView, rows: int, cols: int) -> Seq<u8> {
    let w = widest(prompt_lines(p)) + 6;
    let h = prompt_lines(p).len() + 2int;
    if w >= cols || h >= rows {
        frame
    } else {
        stacked(frame, (rows - h) / 2, (cols - w) / 2, prompt_box(p))
    }
}

fn join_choices(choices: &Vec<(&'static str, &'static str)>) -> (r: String)
    ensures
        r@ == choice_line(crate::prompt::choices_of(choices@)),
{
    let ghost all = crate::prompt::choices_of(choices@);
    let mut r = String::new();
    let mut i: usize = 0;
    assert(all.take(0) =~= Seq::<(Seq<char>, Seq<char>)>::empty());
    while i < choices.len()
        invariant
            i <= choices@.len(),
            all == crate::prompt::choices_of(choices@),
            r@ == choice_line(all.take(i as int)),
        decreases choices@.len() - i,
    {
        let ghost before = r@;
        assert(all.take(i + 1).drop_last() =~= all.take(i as int));
        let (key, what) = choices[i];
        assert(all.take(i + 1).last() == (key@, what@));
        let ghost one = "["@ + key@ + "] "@ + what@;
        if i > 0 {
            r.append("  ·  ");
        }
        r.append("[");
        r.append(key);
        r.append("] ");
        r.append(what);
        assert(r@ =~= choice_line(all.take(i + 1)));
        i += 1;
    }
    assert(all.take(i as int) =~= all);
    r
}

fn lines_of_prompt(prompt: &Prompt) -> (r: Vec<String>)
    ensures
        texts(r@) == prompt_lines(prompt@),
{
    let ghost p = prompt@;
    let ghost body = texts(prompt.body@);
    let ghost none = Seq::<char>::empty();
    let mut lines: Vec<String> = Vec::new();
    lines.push(prompt.title.clone());
    lines.push(String::new());
    assert(texts(lines@) =~= seq![p.title, none] + body.take(0));
    let mut i: usize = 0;
    while i < prompt.body.len()
        invariant
            i <= prompt.body@.len(),
            body == texts(prompt.body@),
            texts(lines@) == seq![p.title, none] + body.take(i as int),
        decreases prompt.body@.len() - i,
    {
        let ghost before = texts(lines@);
        lines.push(prompt.body[i].clone());
        assert(texts(lines@) =~= before.push(body[i as int]));
        assert(seq![p.title, none] + body.take(i + 1) =~= before.push(body[i as int]));
        i += 1;
    }
    assert(body.take(i as int) =~= body);
    let ghost before = texts(lines@);
    assert(p.choices.len() == prompt.choices@.len());
    if prompt.choices.len() > 0 {
        lines.push(String::new());
        let line = join_choices(&prompt.choices);
        lines.push(line);
        assert(texts(lines@) =~= before + seq![none, line@]);
    }
    assert(texts(lines@) =~= prompt_lines(p));
    lines
}

fn prompt_row(prompt: &Prompt, lines: &Vec<String>, i: usize, inner: usize) -> (r: String)
    requires
        texts(lines@) == prompt_lines(prompt@),
        i < lines@.len(),
        inner == widest(texts(lines@)) + 4,
    ensures
        r@ == walled(PROMPT_BORDER@, prompt_body(prompt@, i as int, inner as int)),
{
    let ghost p = prompt@;
    proof {
        lemma_widest(texts(lines@));
    }
    assert(texts(lines@)[i as int] == lines@[i as int]@);
    assert(texts(lines@).len() == lines@.len());
    assert(p.choices.len() == prompt.choices@.len());
    let n: usize = chars_of(lines[i].as_str()).len();
    let pad: usize = inner - n;
    let total: usize = lines.len();
    let mut body = String::new();
    push_run(&mut body, ' ', pad / 2);
    if i == 0 {
        push_text(&mut body, "\x1b[1m");
        push_text(&mut body, lines[i].as_str());
        push_text(&mut body, "\x1b[0m");
    } else if i + 1 == total && prompt.choices.len() > 0 {
        push_text(&mut body, "\x1b[38;5;243m");
        push_text(&mut body, lines[i].as_str());
        push_text(&mut body, "\x1b[0m");
    } else {
        push_text(&mut body, lines[i].as_str());
    }
    push_run(&mut body, ' ', pad - pad / 2);
    assert(body@ =~= prompt_body(p, i as int, inner as int));
    walled_row(PROMPT_BORDER, body.as_str())
}

/// Draw a question in the middle of the screen. One that does not fit is left
/// out.
pub fn draw_prompt(screen: &mut Screen, prompt: &Prompt, rows: u16, cols: u16)
    ensures
        final(screen).cols == old(screen).cols,
        final(screen).rows == old(screen).rows,
        final(screen)@ == prompt_drawn(old(screen)@, prompt@, rows as int, cols as int),
{
    let ghost p = prompt@;
    let lines = lines_of_prompt(prompt);
    let ghost all = texts(lines@);
    proof {
        lemma_widest(all);
        assert(all.len() == lines@.len());
    }
    let widest_line: usize = max_width(&lines);
    if widest_line > 0xffff || lines.len() > 0xffff {
        return;
    }
    let inner: usize = widest_line + 4;
    let box_w: usize = inner + 2;
    let box_h: usize = lines.len() + 2;
    if box_w >= cols as usize || box_h >= rows as usize {
        return;
    }
    let top: u16 = (rows - box_h as u16) / 2;
    let left: u16 = (cols - box_w as u16) / 2;
    let ghost want = prompt_box(p);
    let mut out: Vec<String> = Vec::new();
    out.push(edge_row(PROMPT_BORDER, '╭', inner, '╮'));
    assert(texts(out@) =~= want.take(1));
    let mut i: usize = 0;
    while i < lines.len()
        invariant
            i <= lines@.len(),
            p == prompt@,
            all == texts(lines@),
            all == prompt_lines(p),
            all.len() == lines@.len(),
            inner == widest(all) + 4,
            want == prompt_box(p),
            texts(out@) == want.take(i + 1),
        decreases lines@.len() - i,
    {
        let ghost before = texts(out@);
        let row = prompt_row(prompt, &lines, i, inner);
        out.push(row);
        assert(texts(out@) =~= before.push(row@));
        assert(want[i + 1] == row@);
        assert(want.take(i + 2) =~= before.push(want[i + 1]));
        i += 1;
    }
    let ghost before = texts(out@);
    let last = edge_row(PROMPT_BORDER, '╰', inner, '╯');
    out.push(last);
    proof {
        assert(texts(out@) =~= before.push(last@));
        assert(want =~= want.take(i + 1).push(want.last()));
        assert(texts(out@).len() == out@.len());
    }
    draw_rows(screen, top, left, &out);
}

// ---------------------------------------------------------------------------
// Laws
// ---------------------------------------------------------------------------

/// The selected item is among those shown.
pub proof fn the_selected_item_is_shown(ui: UiView)
    requires
        ui.ok(),
        ui.visible(),
    ensures
        window_start(ui) <= ui.selected < window_start(ui) + shown_count(ui),
{
}

/// A box that fits below the cursor stands there; one that does not, but fits
/// above, stands above. Neither covers the cursor's row.
pub proof fn boxes_leave_the_cursor_free(cur_row: int, h: int, viewport_rows: int)
    requires
        1 <= cur_row <= viewport_rows,
        h >= 1,
        cur_row + h <= viewport_rows || h < cur_row,
    ensures
        ({
            let top = box_top(cur_row, h, viewport_rows);
            (top > cur_row && top + h - 1 <= viewport_rows) || (1 <= top && top + h - 1 < cur_row)
        }),
{
}

/// A box that is no wider than the terminal stays within it.
pub proof fn boxes_stay_on_screen(anchor_col: int, w: int, cols: int)
    requires
        1 <= w <= cols,
    ensures
        1 <= box_left(anchor_col, w, cols),
        box_left(anchor_col, w, cols) + w - 1 <= cols,
{
}

/// The rows of a text box are all as wide as its widest line and a blank on either
/// side; the line stands behind the first blank.
pub proof fn text_boxes_have_straight_edges(lines: Seq<Seq<char>>, i: int)
    requires
        0 <= i < lines.len(),
    ensures
        ({
            let inner = widest(lines) + 2;
            let row = padded(lines[i], inner);
            &&& row.len() == inner
            &&& row[0] == ' ' && row.last() == ' '
            &&& row.subrange(1, 1 + lines[i].len() as int) == lines[i]
            &&& lines_box(HOVER_BORDER@, lines).len() == lines.len() + 2
        }),
{
    reveal_strlit(" ");
    assert(" "@.len() == 1 && " "@[0] == ' ');
    lemma_widest(lines);
    let inner = widest(lines) + 2;
    let row = padded(lines[i], inner);
    assert(row.subrange(1, 1 + lines[i].len() as int) =~= lines[i]);
}

/// The widest line is one of the lines, and none is wider.
pub proof fn the_widest_line_is_one_of_them(lines: Seq<Seq<char>>)
    ensures
        forall|i: int| 0 <= i < lines.len() ==> (#[trigger] lines[i]).len() <= widest(lines),
        lines.len() > 0 ==> exists|i: int|
            0 <= i < lines.len() && (#[trigger] lines[i]).len() == widest(lines),
    decreases lines.len(),
{
    if lines.len() > 0 {
        let t = lines.drop_last();
        the_widest_line_is_one_of_them(t);
        assert forall|i: int| 0 <= i < lines.len() implies (#[trigger] lines[i]).len() <= widest(
            lines,
        ) by {
            if i < t.len() {
                assert(t[i] == lines[i]);
            }
        }
        if widest(lines) == lines.last().len() {
            assert(lines[lines.len() - 1].len() == widest(lines));
        } else {
            assert(t.len() > 0) by {
                if t.len() == 0 {
                    assert(widest(t) == 0);
                }
            }
            let i = choose|i: int| 0 <= i < t.len() && (#[trigger] t[i]).len() == widest(t);
            assert(lines[i].len() == widest(lines));
        }
    }
}

/// An item is shown with its label, cut off where it does not fit, and with what
/// describes it where both fit.
pub proof fn items_show_their_label(item: ItemView, w: int)
    requires
        0 <= w,
    ensures
        ({
            let t = item_text(item, w);
            let d = match item.detail {
                Some(d) => d,
                None => Seq::empty(),
            };
            &&& t.len() <= w
            &&& item.label.len() <= w ==> t.len() >= item.label.len() && t.take(
                item.label.len() as int,
            ) == item.label
            &&& item.label.len() > w ==> t == item.label.take(w)
            &&& d.len() > 0 && item.label.len() + 2 + d.len() <= w ==> t.len() == item.label.len() + 2
                + d.len() && t.skip(item.label.len() + 2int) == d
            &&& d.len() == 0 && item.label.len() <= w ==> t == item.label
        }),
{
    reveal_strlit("  ");
    assert("  "@.len() == 2);
    let t = item_text(item, w);
    if item.label.len() <= w {
        assert(t.take(item.label.len() as int) =~= item.label);
        assert(item.label.take(item.label.len() as int) =~= item.label);
    }
    if item.detail is Some {
        let d = item.detail->0;
        if d.len() > 0 && item.label.len() + 2 + d.len() <= w {
            assert(t.skip(item.label.len() + 2int) =~= d);
        }
    }
}

/// The rows of a completion box are all as wide; the selected one, and no other,
/// is in reverse.
pub proof fn the_selected_item_stands_out(item: ItemView, w: int)
    requires
        0 <= w,
    ensures
        item_body(item, w, false).len() == w + 2,
        item_body(item, w, true) == "\x1b[7m"@ + item_body(item, w, false) + "\x1b[0m"@,
{
    reveal_strlit(" ");
    assert(" "@.len() == 1);
    items_show_their_label(item, w);
    assert(item_body(item, w, true) =~= "\x1b[7m"@ + item_body(item, w, false) + "\x1b[0m"@);
}

/// Up to eight items are shown, in order, and as many as there are.
pub proof fn eight_items_are_shown(ui: UiView, k: int)
    requires
        ui.ok(),
        ui.filtered.len() > 0,
        0 <= k < shown_count(ui),
    ensures
        shown_count(ui) == if ui.filtered.len() < 8 { ui.filtered.len() as int } else { 8 },
        0 <= window_start(ui) && window_start(ui) + shown_count(ui) <= ui.filtered.len(),
        ui.selected < 8 ==> window_start(ui) == 0,
        shown_item(ui, k) == ui.items[ui.filtered[window_start(ui) + k]],
{
}

/// Each severity has a border of its own.
pub proof fn severities_have_their_borders(a: DiagnosticSeverity, b: DiagnosticSeverity)
    requires
        severity_border(a) == severity_border(b),
    ensures
        a == b,
{
    reveal_strlit("\x1b[38;5;9m");
    reveal_strlit("\x1b[38;5;11m");
    reveal_strlit("\x1b[38;5;14m");
    reveal_strlit("\x1b[38;5;8m");
    assert("\x1b[38;5;9m"@.len() == 9 && "\x1b[38;5;8m"@.len() == 9 && "\x1b[38;5;11m"@.len() == 10
        && "\x1b[38;5;14m"@.len() == 10);
    assert("\x1b[38;5;9m"@[7] == '9' && "\x1b[38;5;8m"@[7] == '8' && "\x1b[38;5;11m"@[8] == '1'
        && "\x1b[38;5;14m"@[8] == '4');
}

/// A line of a question stands in the middle of the box, give or take one column.
pub proof fn questions_are_centred(p: PromptView, i: int)
    requires
        0 <= i < prompt_lines(p).len(),
    ensures
        ({
            let inner = widest(prompt_lines(p)) + 4;
            let line = styled_line(p, i);
            let pad = inner - prompt_lines(p)[i].len();
            let body = prompt_body(p, i, inner);
            &&& pad >= 4
            &&& body.len() == line.len() + pad
            &&& exists|left: int|
                {
                    &&& 0 <= pad - 2 * left <= 1
                    &&& #[trigger] body.subrange(left, left + line.len()) == line
                }
        }),
{
    let lines = prompt_lines(p);
    the_widest_line_is_one_of_them(lines);
    let inner = widest(lines) + 4;
    let line = styled_line(p, i);
    assert(lines[i].len() <= widest(lines));
    let pad = inner - lines[i].len();
    let body = prompt_body(p, i, inner);
    let left = pad / 2;
    assert(body.subrange(left, left + line.len()) =~= line);
}

/// The rows of a box, each behind the sequence that goes to its start: one below
/// the other, in the same column.
pub open spec fn rows_below(top: int, left: int, rows: Seq<Seq<char>>) -> Seq<u8>
    decreases rows.len(),
{
    if rows.len() == 0 {
        Seq::empty()
    } else {
        crate::term::raw(crate::term::goto_text(top, left)) + crate::term::raw(rows[0]) + rows_below(
            top + 1,
            left,
            rows.drop_first(),
        )
    }
}

proof fn lemma_rows_below_last(top: int, left: int, rows: Seq<Seq<char>>)
    requires
        rows.len() > 0,
    ensures
        rows_below(top, left, rows) == rows_below(top, left, rows.drop_last()) + crate::term::raw(
            crate::term::goto_text(top + rows.len() - 1, left),
        ) + crate::term::raw(rows.last()),
    decreases rows.len(),
{
    let a = crate::term::raw(crate::term::goto_text(top, left)) + crate::term::raw(rows[0]);
    if rows.len() == 1 {
        assert(rows.drop_last() =~= Seq::<Seq<char>>::empty());
        assert(rows.drop_first() =~= Seq::<Seq<char>>::empty());
        assert(rows_below(top + 1, left, rows.drop_first()) == Seq::<u8>::empty());
        assert(rows_below(top, left, rows.drop_last()) == Seq::<u8>::empty());
        assert(rows_below(top, left, rows) =~= a);
    } else {
        let t = rows.drop_first();
        lemma_rows_below_last(top + 1, left, t);
        assert(t.drop_last() =~= rows.drop_last().drop_first());
        assert(rows.drop_last()[0] == rows[0]);
        assert(t.last() == rows.last());
    }
    assert(rows_below(top, left, rows) =~= rows_below(top, left, rows.drop_last())
        + crate::term::raw(crate::term::goto_text(top + rows.len() - 1, left)) + crate::term::raw(
        rows.last(),
    ));
}

/// A box is drawn over the frame row by row.
pub proof fn boxes_are_drawn_row_by_row(frame: Seq<u8>, top: int, left: int, rows: Seq<Seq<char>>)
    ensures
        stacked(frame, top, left, rows) == frame + rows_below(top, left, rows),
    decreases rows.len(),
{
    if rows.len() > 0 {
        boxes_are_drawn_row_by_row(frame, top, left, rows.drop_last());
        lemma_rows_below_last(top, left, rows);
    }
    assert(stacked(frame, top, left, rows) =~= frame + rows_below(top, left, rows));
}

/// A question stands in the middle of the terminal, give or take one row and one
/// column, if it fits; else it is not shown.
pub proof fn questions_stand_in_the_middle(frame: Seq<u8>, p: PromptView, rows: int, cols: int)
    ensures
        ({
            let w = widest(prompt_lines(p)) + 6;
            let h = prompt_lines(p).len() + 2;
            &&& w >= cols || h >= rows ==> prompt_drawn(frame, p, rows, cols) == frame
            &&& w < cols && h < rows ==> exists|top: int, left: int|
                {
                    &&& 0 <= rows - h - 2 * top <= 1
                    &&& 0 <= cols - w - 2 * left <= 1
                    &&& prompt_drawn(frame, p, rows, cols) == frame + #[trigger] rows_below(
                        top,
                        left,
                        prompt_box(p),
                    )
                }
        }),
{
    let w = widest(prompt_lines(p)) + 6;
    let h = prompt_lines(p).len() + 2;
    let (top, left) = ((rows - h) / 2, (cols - w) / 2);
    boxes_are_drawn_row_by_row(frame, top, left, prompt_box(p));
    assert(w < cols && h < rows ==> prompt_drawn(frame, p, rows, cols) == frame + rows_below(
        top,
        left,
        prompt_box(p),
    ));
}

/// The items stand under what they complete: as many columns left of the cursor as
/// have been typed since the anchor.
pub proof fn items_stand_under_what_they_complete(
    ui: UiView,
    text: Seq<u8>,
    starts: Seq<usize>,
    cursor: int,
    cur_col: int,
)
    requires
        starts.len() > 0,
        0 <= slot_of(starts, cursor) < starts.len(),
        slot_of(starts, ui.anchor as int) == slot_of(starts, cursor),
        ui.anchor <= cursor,
        ({
            let from = starts[slot_of(starts, cursor)] as int;
            let d = column_of(text, from, cursor) - column_of(text, from, ui.anchor as int);
            0 <= d < cur_col <= u16::MAX
        }),
    ensures
        ({
            let from = starts[slot_of(starts, cursor)] as int;
            cur_col - anchor_column(ui, text, starts, cursor, cur_col) == column_of(text, from, cursor)
                - column_of(text, from, ui.anchor as int)
        }),
{
    let from = starts[slot_of(starts, cursor)] as int;
    let d = column_of(text, from, cursor) - column_of(text, from, ui.anchor as int);
    assert(d % 0x1_0000 == d) by (nonlinear_arith)
        requires
            0 <= d < 0x1_0000,
    ;
}

}
