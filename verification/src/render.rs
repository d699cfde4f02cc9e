//! The frame: the visible text with its colours, the status line, the boxes over
//! it and the cursor.
//!
//! The text is drawn stroke by stroke. A stroke moves the terminal's cursor and
//! changes its colours only where they are not yet what the stroke needs.
use vstd::prelude::*;
use vstd::utf8::valid_utf8;
use crate::format::{
    bytes_text, decimal, format_bytes, format_key, key_text, padded_left, push_decimal,
    push_decimal_padded, push_run, push_text, run_of,
};
use crate::input::KeyEvent;
use crate::lsp::{diagnostics_of, Diagnostic, DiagnosticSeverity, DiagnosticView};
use crate::popup::{
    completions_drawn, draw_completion_popup, draw_diag_popup, draw_hover_popup, draw_prompt,
    prompt_drawn, severity_border, text_drawn, DIAG_COLS, DIAG_ROWS, HOVER_BORDER, HOVER_COLS,
    HOVER_ROWS,
};
use crate::prompt::{Prompt, PromptView};
use crate::search::{all_matches, matches_in, spans, SearchState};
use crate::selection::{sel_max, sel_min, Mode, Selections, SelectionsView};
use crate::strings::{chars_of, glue, str_eq, string_of};
use crate::suggest::{CompletionUi, UiView};
use crate::term::{goto_string, goto_text, raw, written, Screen};
use crate::text::{
    ascending, byte_at_line_cached, cell_width, char_len, imax, imin, indexes, lemma_index_ascending,
    column_from, lemma_newlines_bound, line_index_cached, newlines_before, next_char_or_end, next_char_or_end_of, slot_of, text_fits,
    is_cont, lemma_whole_char, on_char,
    CR, NL, SPACE, TAB,
};
use crate::theme::{fg_for_scope, scope_fg, ScopeId};
use crate::view::{clip_run, clipped, gutter_for, gutter_width};

verus! {

pub const SEL_BG: &'static str = "\x1b[48;5;24m";

pub const MATCH_BG: &'static str = "\x1b[48;5;94m";

pub const LINENO_FG: &'static str = "\x1b[38;5;240m";

/// The largest terminal that is drawn to: what is drawn next to its edges still
/// has coordinates.
pub const MAX_SIDE: u16 = 0xff00;

// ---------------------------------------------------------------------------
// Strokes
// ---------------------------------------------------------------------------

/// Foreground, background and underline, as the sequences that turn them on.
#[derive(Clone, Copy)]
pub struct Style {
    pub fg: Option<&'static str>,
    pub bg: Option<&'static str>,
    pub ul: Option<&'static str>,
}

#[verifier::ext_equal]
pub struct StyleView {
    pub fg: Option<Seq<char>>,
    pub bg: Option<Seq<char>>,
    pub ul: Option<Seq<char>>,
}

pub open spec fn opt_seq(o: Option<&'static str>) -> Option<Seq<char>> {
    match o {
        Some(s) => Some(s@),
        None => None,
    }
}

impl View for Style {
    type V = StyleView;

    open spec fn view(&self) -> StyleView {
        StyleView { fg: opt_seq(self.fg), bg: opt_seq(self.bg), ul: opt_seq(self.ul) }
    }
}

pub open spec fn plain() -> StyleView {
    StyleView { fg: None, bg: None, ul: None }
}

/// What turns a channel off, if it goes off.
pub open spec fn off(cur: Option<Seq<char>>, new: Option<Seq<char>>, seq: Seq<char>) -> Seq<u8> {
    if cur is Some && new is None { raw(seq) } else { Seq::empty() }
}

/// What turns a channel on, if it changes.
pub open spec fn on(cur: Option<Seq<char>>, new: Option<Seq<char>>) -> Seq<u8> {
    if new != cur && new is Some { raw(new->0) } else { Seq::empty() }
}

/// The bytes that lead from one style to another.
pub open spec fn restyled(cur: StyleView, new: StyleView) -> Seq<u8> {
    if cur == new {
        Seq::empty()
    } else if cur.fg is Some && new.fg is None && cur.bg is Some && new.bg is None && cur.ul is Some
        && new.ul is None {
        raw("\x1b[0m"@)
    } else {
        off(cur.fg, new.fg, "\x1b[39m"@) + off(cur.bg, new.bg, "\x1b[49m"@) + off(
            cur.ul,
            new.ul,
            "\x1b[24;59m"@,
        ) + on(cur.fg, new.fg) + on(cur.bg, new.bg) + on(cur.ul, new.ul)
    }
}

/// Where the terminal's cursor is, its style, and the frame so far.
#[verifier::ext_equal]
pub struct Pen {
    pub frame: Seq<u8>,
    pub at: Option<(int, int)>,
    pub style: StyleView,
}

/// One step of drawing the text.
pub enum Stroke {
    /// A line number; the pen then stands behind it.
    Number { row: int, lineno: int },
    /// Some cells.
    Cells { row: int, col: int, width: int, style: StyleView, body: Seq<u8> },
    /// Cells that are not drawn: the pen has to be moved for the next ones.
    Gap,
    /// Nothing at all.
    Nothing,
}

/// A line number, right-aligned, with the style reset on either side.
pub open spec fn lineno_text(lineno: int, gutter: int) -> Seq<char> {
    "\x1b[0m"@ + LINENO_FG@ + padded_left(decimal(lineno), imax(gutter - 1, 0), ' ') + " \x1b[0m"@
}

/// The pen after a stroke.
pub open spec fn stroked(p: Pen, s: Stroke, gutter: int) -> Pen {
    match s {
        Stroke::Number { row, lineno } => Pen {
            frame: written(p.frame, row, 1, lineno_text(lineno, gutter)),
            at: Some((row, gutter + 1)),
            style: plain(),
        },
        Stroke::Cells { row, col, width, style, body } => Pen {
            frame: p.frame + (if p.at == Some((row, col)) {
                Seq::empty()
            } else {
                raw(goto_text(row, col))
            }) + restyled(p.style, style) + body,
            at: Some((row, col + width)),
            style,
        },
        Stroke::Gap => Pen { at: None, ..p },
        Stroke::Nothing => p,
    }
}

/// The pen after some strokes.
pub open spec fn drawn(p: Pen, strokes: Seq<Stroke>, gutter: int) -> Pen
    decreases strokes.len(),
{
    if strokes.len() == 0 {
        p
    } else {
        drawn(stroked(p, strokes[0], gutter), strokes.drop_first(), gutter)
    }
}

fn opt_eq(a: Option<&'static str>, b: Option<&'static str>) -> (r: bool)
    ensures
        r == (opt_seq(a) == opt_seq(b)),
{
    match (a, b) {
        (Some(x), Some(y)) => str_eq(x, y),
        (None, None) => true,
        _ => false,
    }
}

fn append_text(out: &mut Vec<u8>, s: &str)
    ensures
        final(out)@ == old(out)@ + raw(s@),
{
    out.extend_from_slice(s.as_bytes());
}

fn append_off(out: &mut Vec<u8>, cur: Option<&'static str>, new: Option<&'static str>, s: &str)
    ensures
        final(out)@ == old(out)@ + off(opt_seq(cur), opt_seq(new), s@),
{
    if cur.is_some() && new.is_none() {
        append_text(out, s);
    } else {
        assert(out@ =~= out@ + Seq::<u8>::empty());
    }
}

fn append_on(out: &mut Vec<u8>, cur: Option<&'static str>, new: Option<&'static str>)
    ensures
        final(out)@ == old(out)@ + on(opt_seq(cur), opt_seq(new)),
{
    assert(out@ =~= out@ + Seq::<u8>::empty());
    if !opt_eq(cur, new) {
        if let Some(s) = new {
            append_text(out, s);
        }
    }
}

/// Append the shortest way from one style to another.
pub fn append_style_transition(out: &mut Vec<u8>, cur: Style, new: Style)
    ensures
        final(out)@ == old(out)@ + restyled(cur@, new@),
{
    let ghost before = out@;
    if opt_eq(cur.fg, new.fg) && opt_eq(cur.bg, new.bg) && opt_eq(cur.ul, new.ul) {
        assert(out@ =~= before + restyled(cur@, new@));
        return;
    }
    if cur.fg.is_some() && new.fg.is_none() && cur.bg.is_some() && new.bg.is_none()
        && cur.ul.is_some() && new.ul.is_none() {
        append_text(out, "\x1b[0m");
        return;
    }
    append_off(out, cur.fg, new.fg, "\x1b[39m");
    append_off(out, cur.bg, new.bg, "\x1b[49m");
    append_off(out, cur.ul, new.ul, "\x1b[24;59m");
    append_on(out, cur.fg, new.fg);
    append_on(out, cur.bg, new.bg);
    append_on(out, cur.ul, new.ul);
    assert(out@ =~= before + restyled(cur@, new@));
}

/// Append the sequence that moves the cursor.
pub fn append_cursor_pos(out: &mut Vec<u8>, row: u16, col: u16)
    ensures
        final(out)@ == old(out)@ + raw(goto_text(row as int, col as int)),
{
    let s = goto_string(row, col);
    append_text(out, s.as_str());
}

/// The terminal's cursor and style while the text is drawn.
#[derive(Clone, Copy)]
pub struct PenState {
    pub at: Option<(u16, u16)>,
    pub style: Style,
}

pub open spec fn opt_cell(o: Option<(u16, u16)>) -> Option<(int, int)> {
    match o {
        Some((r, c)) => Some((r as int, c as int)),
        None => None,
    }
}

/// The pen that a frame and a cursor make.
pub open spec fn pen_of(frame: Seq<u8>, p: PenState) -> Pen {
    Pen { frame, at: opt_cell(p.at), style: p.style@ }
}

/// Draw some cells. The cursor is moved and the style changed only where that
/// is needed.
pub fn emit_styled_cell(
    screen: &mut Screen,
    pen: &mut PenState,
    row: u16,
    col: u16,
    width: u16,
    style: Style,
    body: &[u8],
)
    requires
        col + width <= u16::MAX,
    ensures
        final(screen).cols == old(screen).cols,
        final(screen).rows == old(screen).rows,
        forall|gutter: int|
            pen_of(final(screen)@, *final(pen)) == #[trigger] stroked(
                pen_of(old(screen)@, *old(pen)),
                Stroke::Cells {
                    row: row as int,
                    col: col as int,
                    width: width as int,
                    style: style@,
                    body: body@,
                },
                gutter,
            ),
{
    let ghost before = screen@;
    let there: bool = match pen.at {
        Some((r, c)) => r == row && c == col,
        None => false,
    };
    let back = screen.back_mut();
    if !there {
        append_cursor_pos(back, row, col);
    }
    append_style_transition(back, pen.style, style);
    back.extend_from_slice(body);
    let ghost goto = if opt_cell(pen.at) == Some((row as int, col as int)) {
        Seq::<u8>::empty()
    } else {
        raw(goto_text(row as int, col as int))
    };
    assert(screen@ =~= before + goto + restyled(pen.style@, style@) + body@);
    pen.at = Some((row, col + width));
    pen.style = style;
}

/// Draw a line number.
pub fn draw_lineno(screen: &mut Screen, row: u16, lineno: usize, gutter: u16)
    ensures
        final(screen).cols == old(screen).cols,
        final(screen).rows == old(screen).rows,
        final(screen)@ == written(
            old(screen)@,
            row as int,
            1,
            lineno_text(lineno as int, gutter as int),
        ),
{
    let mut s = String::from_str("\x1b[0m");
    push_text(&mut s, LINENO_FG);
    push_decimal_padded(&mut s, lineno as u64, gutter.saturating_sub(1) as usize);
    push_text(&mut s, " \x1b[0m");
    assert(s@ =~= lineno_text(lineno as int, gutter as int));
    screen.write_at(row, 1, s.as_str());
}

// ---------------------------------------------------------------------------
// What is where
// ---------------------------------------------------------------------------

/// The bytes that a diagnostic covers.
#[derive(Clone, Copy)]
pub struct DiagSpan {
    pub start: usize,
    pub end: usize,
    pub severity: DiagnosticSeverity,
    /// Its place in the list.
    pub index: usize,
}

/// The bytes that a diagnostic covers, at least one if there is one; nothing
/// when it starts behind the last line.
pub open spec fn span_of(d: DiagnosticView, index: int, starts: Seq<usize>, len: int) -> Option<
    DiagSpan,
> {
    if d.start_line < starts.len() {
        let from = starts[d.start_line as int] as int;
        let to = if d.end_line < starts.len() { starts[d.end_line as int] as int } else { len };
        let start = imin(from + d.start_character, len);
        let end = imin(to + d.end_character, len);
        Some(
            DiagSpan {
                start: start as usize,
                end: (if end <= start { imin(start + 1, len) } else { end }) as usize,
                severity: d.severity,
                index: index as usize,
            },
        )
    } else {
        None
    }
}

pub open spec fn diag_spans(ds: Seq<DiagnosticView>, starts: Seq<usize>, len: int) -> Seq<DiagSpan>
    decreases ds.len(),
{
    if ds.len() == 0 {
        Seq::empty()
    } else {
        let rest = diag_spans(ds.drop_last(), starts, len);
        match span_of(ds.last(), ds.len() - 1, starts, len) {
            Some(s) => rest.push(s),
            None => rest,
        }
    }
}

/// The first span from the `k`-th on that covers `i`.
pub open spec fn covering(spans: Seq<DiagSpan>, i: int, k: int) -> Option<DiagSpan>
    decreases spans.len() - k,
{
    if k >= spans.len() {
        None
    } else if spans[k].start <= i < spans[k].end {
        Some(spans[k])
    } else {
        covering(spans, i, k + 1)
    }
}

/// `i` lies in one of the ranges.
pub open spec fn in_ranges(ranges: Seq<(int, int)>, i: int) -> bool {
    exists|k: int| 0 <= k < ranges.len() && (#[trigger] ranges[k]).0 <= i < ranges[k].1
}

/// The bytes of each selection.
pub open spec fn selected_ranges(text: Seq<u8>, sels: SelectionsView) -> Seq<(int, int)> {
    sels.list.map_values(
        |s: crate::selection::Selection|
            (sel_min(s), next_char_or_end_of(text, sel_max(s))),
    )
}

/// The visible text and what its colours depend on.
pub struct Scene<'a> {
    pub bytes: &'a [u8],
    pub scopes: &'a [ScopeId],
    pub mode: Mode,
    pub head: usize,
    pub sels: Vec<(usize, usize)>,
    pub matches: &'a [(usize, usize)],
    pub diags: Vec<DiagSpan>,
    /// Columns scrolled off the left edge, and columns for the text.
    pub left: u16,
    pub content: u16,
    pub gutter: u16,
    /// Rows for the text.
    pub rows: u16,
}

#[verifier::ext_equal]
pub struct SceneView {
    pub text: Seq<u8>,
    pub scopes: Seq<ScopeId>,
    pub mode: Mode,
    pub head: int,
    pub sels: Seq<(int, int)>,
    pub matches: Seq<(int, int)>,
    pub diags: Seq<DiagSpan>,
    pub left: int,
    pub content: int,
    pub gutter: int,
    pub rows: int,
}

impl<'a> View for Scene<'a> {
    type V = SceneView;

    open spec fn view(&self) -> SceneView {
        SceneView {
            text: self.bytes@,
            scopes: self.scopes@,
            mode: self.mode,
            head: self.head as int,
            sels: spans(self.sels@),
            matches: spans(self.matches@),
            diags: self.diags@,
            left: self.left as int,
            content: self.content as int,
            gutter: self.gutter as int,
            rows: self.rows as int,
        }
    }
}

/// The underline for a severity: curly, in its colour.
pub open spec fn severity_underline(sev: DiagnosticSeverity) -> Seq<char> {
    match sev {
        DiagnosticSeverity::Error => "\x1b[4:3;58:5:9m"@,
        DiagnosticSeverity::Warning => "\x1b[4:3;58:5:11m"@,
        DiagnosticSeverity::Information => "\x1b[4:3;58:5:14m"@,
        DiagnosticSeverity::Hint => "\x1b[4:3;58:5:8m"@,
    }
}

pub fn diag_ul_for(sev: DiagnosticSeverity) -> (r: &'static str)
    ensures
        r@ == severity_underline(sev),
{
    match sev {
        DiagnosticSeverity::Error => "\x1b[4:3;58:5:9m",
        DiagnosticSeverity::Warning => "\x1b[4:3;58:5:11m",
        DiagnosticSeverity::Information => "\x1b[4:3;58:5:14m",
        DiagnosticSeverity::Hint => "\x1b[4:3;58:5:8m",
    }
}

impl SceneView {
    /// The byte is shown as selected. Selections are shown in normal and search
    /// mode; the terminal's own cursor stands on the head.
    pub open spec fn shows_selected(self, i: int) -> bool {
        &&& self.mode == Mode::Normal || self.mode == Mode::Search
        &&& in_ranges(self.sels, i)
        &&& !((self.mode == Mode::Normal || self.mode == Mode::Insert) && i == self.head)
    }

    /// The style of a byte: its scope, whether it is selected or matched, and
    /// whether a diagnostic covers it.
    pub open spec fn style_at(self, i: int) -> StyleView {
        let scope = if i < self.scopes.len() { self.scopes[i] } else { ScopeId::Default };
        StyleView {
            fg: if scope == ScopeId::Default {
                None
            } else {
                Some(scope_fg(scope))
            },
            bg: if self.shows_selected(i) {
                Some(SEL_BG@)
            } else if in_ranges(self.matches, i) {
                Some(MATCH_BG@)
            } else {
                None
            },
            ul: match covering(self.diags, i, 0) {
                Some(s) => Some(severity_underline(s.severity)),
                None => None,
            },
        }
    }

    /// Offset behind the character at `i`.
    pub open spec fn behind(self, i: int) -> int {
        let b = self.text[i];
        if b < SPACE {
            i + 1
        } else {
            imin(i + char_len(b), self.text.len() as int)
        }
    }

    /// The cells that a character is shown as: blanks for a tab, a caret and a
    /// letter for another control character, itself for the rest.
    pub open spec fn cells(self, i: int, col: int) -> Seq<u8> {
        let b = self.text[i];
        if b == TAB {
            Seq::new(cell_width(col, b) as nat, |k: int| SPACE)
        } else if b < SPACE {
            seq![0x5eu8, (b + 0x40) as u8]
        } else {
            self.text.subrange(i, self.behind(i))
        }
    }

    /// The stroke for a character in column `col`. A tab is drawn only where it
    /// has a background or an underline.
    pub open spec fn stroke(self, i: int, row: int, col: int, lineno: int) -> Stroke {
        let b = self.text[i];
        let style = self.style_at(i);
        if b == NL {
            if self.gutter > 0 && row + 1 <= self.rows {
                Stroke::Number { row: row + 1, lineno: lineno + 1 }
            } else {
                Stroke::Gap
            }
        } else if b == CR {
            Stroke::Nothing
        } else {
            match clipped(col, cell_width(col, b), self.left, self.content) {
                Some((c, w, off)) => if b == TAB && style.bg is None && style.ul is None {
                    Stroke::Gap
                } else {
                    Stroke::Cells {
                        row,
                        col: c + self.gutter,
                        width: w,
                        style,
                        body: if b < SPACE {
                            self.cells(i, col).subrange(off, off + w)
                        } else {
                            self.cells(i, col)
                        },
                    }
                },
                None => Stroke::Gap,
            }
        }
    }

    pub open spec fn next_row(self, i: int, row: int) -> int {
        if self.text[i] == NL { row + 1 } else { row }
    }

    /// The column of the next character, as far as it can be counted.
    pub open spec fn next_col(self, i: int, col: int) -> int {
        let b = self.text[i];
        if b == NL {
            1
        } else {
            imin(col + cell_width(col, b), u16::MAX as int)
        }
    }

    pub open spec fn next_lineno(self, i: int, lineno: int) -> int {
        if self.text[i] == NL { lineno + 1 } else { lineno }
    }

    /// The strokes from the character at `i` to the end of the text or of the
    /// screen.
    pub open spec fn strokes(self, i: int, row: int, col: int, lineno: int) -> Seq<Stroke>
        decreases self.text.len() - i,
    {
        if i < 0 || i >= self.text.len() || row > self.rows {
            Seq::empty()
        } else {
            seq![self.stroke(i, row, col, lineno)] + self.strokes(
                self.behind(i),
                self.next_row(i, row),
                self.next_col(i, col),
                self.next_lineno(i, lineno),
            )
        }
    }

    /// The cell of the head, counted from the character at `i`, if it is on
    /// screen.
    pub open spec fn head_cell(self, i: int, row: int, col: int) -> Option<(int, int)>
        decreases self.text.len() - i,
    {
        if i == self.head && row <= self.rows {
            Some((row, col))
        } else if i < 0 || i >= self.text.len() || row > self.rows {
            None
        } else {
            self.head_cell(self.behind(i), self.next_row(i, row), self.next_col(i, col))
        }
    }
}

impl<'a> Scene<'a> {
    pub open spec fn wf(&self) -> bool {
        &&& text_fits(self.bytes@)
        &&& self.rows <= MAX_SIDE
        &&& self.content + self.gutter <= MAX_SIDE
    }

    fn style_at(&self, i: usize) -> (r: Style)
        requires
            self.wf(),
            i < self.bytes@.len(),
        ensures
            r@ == self@.style_at(i as int),
    {
        let scope: ScopeId = if i < self.scopes.len() {
            self.scopes[i]
        } else {
            ScopeId::Default
        };
        let fg: Option<&'static str> = if scope == ScopeId::Default {
            None
        } else {
            Some(fg_for_scope(scope))
        };
        let show: bool = match self.mode {
            Mode::Normal => i != self.head,
            Mode::Search => true,
            _ => false,
        };
        let bg: Option<&'static str> = if show && within(self.sels.as_slice(), i) {
            Some(SEL_BG)
        } else if within(self.matches, i) {
            Some(MATCH_BG)
        } else {
            None
        };
        let ul: Option<&'static str> = match find_covering(self.diags.as_slice(), i) {
            Some(s) => Some(diag_ul_for(s.severity)),
            None => None,
        };
        Style { fg, bg, ul }
    }
}

fn within(ranges: &[(usize, usize)], i: usize) -> (r: bool)
    ensures
        r == in_ranges(spans(ranges@), i as int),
{
    let ghost all = spans(ranges@);
    let mut k: usize = 0;
    while k < ranges.len()
        invariant
            k <= ranges@.len(),
            all == spans(ranges@),
            forall|j: int| 0 <= j < k ==> !((#[trigger] all[j]).0 <= i < all[j].1),
        decreases ranges@.len() - k,
    {
        let (a, b) = ranges[k];
        assert(all[k as int] == (a as int, b as int));
        if a <= i && i < b {
            return true;
        }
        k += 1;
    }
    false
}

fn find_covering(spans: &[DiagSpan], i: usize) -> (r: Option<DiagSpan>)
    ensures
        r == covering(spans@, i as int, 0),
        r matches Some(s) ==> s.start <= i < s.end && spans@.contains(s),
{
    let mut k: usize = 0;
    while k < spans.len()
        invariant
            k <= spans@.len(),
            covering(spans@, i as int, k as int) == covering(spans@, i as int, 0),
        decreases spans@.len() - k,
    {
        let s = spans[k];
        if s.start <= i && i < s.end {
            assert(spans@[k as int] == s);
            return Some(s);
        }
        k += 1;
    }
    None
}

/// Draw the visible part of a run of cells.
fn draw_run(
    screen: &mut Screen,
    pen: &mut PenState,
    scene: &Scene,
    row: u16,
    col: u16,
    width: u16,
    style: Style,
    body: &[u8],
)
    requires
        scene.wf(),
        width >= 1,
        body@.len() == width || width == 1,
    ensures
        final(screen).cols == old(screen).cols,
        final(screen).rows == old(screen).rows,
        pen_of(final(screen)@, *final(pen)) == stroked(
            pen_of(old(screen)@, *old(pen)),
            match clipped(col as int, width as int, scene@.left, scene@.content) {
                Some((c, w, off)) => Stroke::Cells {
                    row: row as int,
                    col: c + scene@.gutter,
                    width: w,
                    style: style@,
                    body: if width == 1 {
                        body@
                    } else {
                        body@.subrange(off, off + w)
                    },
                },
                None => Stroke::Gap,
            },
            scene@.gutter,
        ),
{
    match clip_run(col, width, scene.left, scene.content) {
        Some((c, w, off)) => {
            if width == 1 {
                emit_styled_cell(screen, pen, row, c + scene.gutter, w, style, body);
            } else {
                let part = vstd::slice::slice_subrange(body, off, off + w as usize);
                emit_styled_cell(screen, pen, row, c + scene.gutter, w, style, part);
            }
        },
        None => {
            pen.at = None;
        },
    }
}

fn draw_char(
    screen: &mut Screen,
    pen: &mut PenState,
    scene: &Scene,
    i: usize,
    row: u16,
    col: u16,
    lineno: usize,
)
    requires
        scene.wf(),
        i < scene.bytes@.len(),
        row <= scene.rows,
        col >= 1,
        lineno < usize::MAX,
    ensures
        final(screen).cols == old(screen).cols,
        final(screen).rows == old(screen).rows,
        pen_of(final(screen)@, *final(pen)) == stroked(
            pen_of(old(screen)@, *old(pen)),
            scene@.stroke(i as int, row as int, col as int, lineno as int),
            scene@.gutter,
        ),
{
    let b: u8 = scene.bytes[i];
    let ghost sc = scene@;
    if b == NL {
        if scene.gutter > 0 && row + 1 <= scene.rows {
            draw_lineno(screen, row + 1, lineno + 1, scene.gutter);
            pen.at = Some((row + 1, scene.gutter + 1));
            pen.style = Style { fg: None, bg: None, ul: None };
        } else {
            pen.at = None;
        }
        return;
    }
    if b == CR {
        return;
    }
    let style = scene.style_at(i);
    if b == TAB {
        if style.bg.is_none() && style.ul.is_none() {
            pen.at = None;
            return;
        }
        let advance: u16 = 4 - ((col - 1) % 4);
        let mut blanks: Vec<u8> = Vec::new();
        let mut k: u16 = 0;
        while k < advance
            invariant
                k <= advance,
                blanks@ == Seq::new(k as nat, |j: int| SPACE),
            decreases advance - k,
        {
            blanks.push(SPACE);
            k += 1;
            assert(blanks@ =~= Seq::new(k as nat, |j: int| SPACE));
        }
        assert(blanks@ == sc.cells(i as int, col as int));
        proof {
            if advance == 1 {
                assert(sc.cells(i as int, col as int).subrange(0, 1) =~= blanks@);
            }
        }
        draw_run(screen, pen, scene, row, col, advance, style, blanks.as_slice());
    } else if b < SPACE {
        let mut pair: Vec<u8> = Vec::new();
        pair.push(0x5e);
        pair.push(b + 0x40);
        assert(pair@ =~= sc.cells(i as int, col as int));
        draw_run(screen, pen, scene, row, col, 2, style, pair.as_slice());
    } else {
        let end: usize = next_char_or_end(scene.bytes, i);
        let glyph = vstd::slice::slice_subrange(scene.bytes, i, end);
        assert(glyph@ =~= sc.cells(i as int, col as int));
        draw_run(screen, pen, scene, row, col, 1, style, glyph);
    }
}

/// The frame once the text was drawn, with the style reset behind it.
pub open spec fn reset(p: Pen) -> Seq<u8> {
    if p.style == plain() { p.frame } else { p.frame + raw("\x1b[0m"@) }
}

/// The pen where the first row begins: behind its line number, if there is one.
pub open spec fn first_pen(frame: Seq<u8>, sc: SceneView, top_line: int) -> Pen {
    let p = Pen { frame, at: None, style: plain() };
    if sc.gutter > 0 && 1 <= sc.rows {
        stroked(p, Stroke::Number { row: 1, lineno: top_line + 1 }, sc.gutter)
    } else {
        p
    }
}

/// The frame with the text drawn into it.
pub open spec fn text_painted(frame: Seq<u8>, sc: SceneView, start: int, top_line: int) -> Seq<u8> {
    reset(
        drawn(
            first_pen(frame, sc, top_line),
            sc.strokes(start, 1, 1, top_line + 1),
            sc.gutter,
        ),
    )
}

/// The column of the cursor on screen, for a character in column `col`.
pub open spec fn screen_col(sc: SceneView, col: int) -> int {
    imin(imax(imax(col - sc.left, 0), 1), imax(sc.content, 1))
}

/// The row and the column of the cursor on screen, and its column in the line.
pub open spec fn cursor_cell(sc: SceneView, start: int) -> (int, int, int) {
    match sc.head_cell(start, 1, 1) {
        Some((row, col)) => (row, screen_col(sc, col), col),
        None => (1, 1, 1),
    }
}

/// Draw the text from `start`, the first character of line `top_line`, on. The
/// row and the column of the cursor on screen come back, and its column in the
/// line.
pub fn paint_text(screen: &mut Screen, scene: &Scene, start: usize, top_line: usize) -> (r: (
    u16,
    u16,
    u16,
))
    requires
        scene.wf(),
        start <= scene.bytes@.len(),
        top_line + 0x2_0000 <= usize::MAX,
    ensures
        final(screen).cols == old(screen).cols,
        final(screen).rows == old(screen).rows,
        final(screen)@ == text_painted(old(screen)@, scene@, start as int, top_line as int),
        (r.0 as int, r.1 as int, r.2 as int) == cursor_cell(scene@, start as int),
        1 <= r.0 <= imax(scene.rows as int, 1),
        1 <= r.1 <= imax(scene.content as int, 1),
{
    let ghost sc = scene@;
    let ghost frame = screen@;
    let none = Style { fg: None, bg: None, ul: None };
    let mut pen = PenState { at: None, style: none };
    let mut row: u16 = 1;
    let mut col: u16 = 1;
    let mut lineno: usize = top_line + 1;
    let mut i: usize = start;
    if scene.gutter > 0 && row <= scene.rows {
        draw_lineno(screen, row, lineno, scene.gutter);
        pen.at = Some((row, scene.gutter + 1));
    }
    let ghost done = drawn(
        first_pen(frame, sc, top_line as int),
        sc.strokes(start as int, 1, 1, top_line + 1),
        sc.gutter,
    );
    assert(pen_of(screen@, pen) =~= first_pen(frame, sc, top_line as int));
    let mut found: Option<(u16, u16)> = None;
    while i < scene.bytes.len() && row <= scene.rows
        invariant
            scene.wf(),
            sc == scene@,
            screen.cols == old(screen).cols,
            screen.rows == old(screen).rows,
            i <= scene.bytes@.len(),
            1 <= row <= scene.rows + 1,
            col >= 1,
            lineno == top_line + row,
            top_line + 0x2_0000 <= usize::MAX,
            drawn(
                pen_of(screen@, pen),
                sc.strokes(i as int, row as int, col as int, lineno as int),
                sc.gutter,
            ) == done,
            match found {
                Some((r, c)) => sc.head_cell(start as int, 1, 1) == Some((r as int, c as int)) && 1
                    <= r <= scene.rows,
                None => sc.head_cell(start as int, 1, 1) == sc.head_cell(
                    i as int,
                    row as int,
                    col as int,
                ),
            },
        decreases scene.bytes@.len() - i,
    {
        if found.is_none() && i == scene.head {
            found = Some((row, col));
        }
        let b: u8 = scene.bytes[i];
        let ghost strokes = sc.strokes(i as int, row as int, col as int, lineno as int);
        let ghost stroke = sc.stroke(i as int, row as int, col as int, lineno as int);
        proof {
            assert(strokes[0] == stroke);
            assert(strokes.drop_first() =~= sc.strokes(
                sc.behind(i as int),
                sc.next_row(i as int, row as int),
                sc.next_col(i as int, col as int),
                sc.next_lineno(i as int, lineno as int),
            ));
        }
        draw_char(screen, &mut pen, scene, i, row, col, lineno);
        if b == NL {
            row = row + 1;
            col = 1;
            lineno = lineno + 1;
            i = i + 1;
        } else if b == CR {
            i = i + 1;
        } else if b == TAB {
            let advance: u16 = 4 - ((col - 1) % 4);
            col = col.saturating_add(advance);
            i = i + 1;
        } else if b < SPACE {
            col = col.saturating_add(2);
            i = i + 1;
        } else {
            col = col.saturating_add(1);
            i = next_char_or_end(scene.bytes, i);
        }
    }
    if found.is_none() && i == scene.head && row <= scene.rows {
        found = Some((row, col));
    }
    proof {
        assert(sc.strokes(i as int, row as int, col as int, lineno as int).len() == 0);
        assert(pen_of(screen@, pen) == done);
    }
    if pen.style.fg.is_some() || pen.style.bg.is_some() || pen.style.ul.is_some() {
        screen.append_raw("\x1b[0m");
    }
    assert(screen@ =~= text_painted(frame, sc, start as int, top_line as int));
    match found {
        Some((r, c)) => {
            let most: u16 = if scene.content > 1 {
                scene.content
            } else {
                1
            };
            let shown: u16 = c.saturating_sub(scene.left);
            let shown: u16 = if shown > 1 {
                shown
            } else {
                1
            };
            let shown: u16 = if shown < most {
                shown
            } else {
                most
            };
            (r, shown, c)
        },
        None => (1, 1, 1),
    }
}

// ---------------------------------------------------------------------------
// The status line
// ---------------------------------------------------------------------------

pub open spec fn mode_letter(mode: Mode) -> Seq<char> {
    match mode {
        Mode::Normal => "N"@,
        Mode::Insert => "I"@,
        Mode::Ex => "X"@,
        Mode::Search => "S"@,
    }
}

/// How many bytes the primary selection spans.
pub open spec fn primary_size(sels: SelectionsView, text_len: int) -> int {
    imin(
        sel_max(sels.prime()) - sel_min(sels.prime()) + if text_len == 0 {
            0int
        } else {
            1
        },
        usize::MAX as int,
    )
}

/// The mode, a spinner and the buffer's label.
pub open spec fn info_head(mode: Mode, spinner: Option<char>, label: Seq<char>) -> Seq<char> {
    " ["@ + mode_letter(mode) + "] "@ + seq![match spinner {
        Some(c) => c,
        None => ' ',
    }] + " "@ + label
}

/// Where the cursor is, how many selections there are and how long the primary
/// one is.
pub open spec fn info_middle(line: int, vcol: int, many: int, size: int) -> Seq<char> {
    " · ln "@ + decimal(line) + " col "@ + decimal(vcol) + " · "@ + (if many > 1 {
        decimal(many) + " sels · "@
    } else {
        Seq::empty()
    }) + "sel "@ + decimal(size)
}

/// The last key and its bytes.
pub open spec fn info_tail(last_key: Option<KeyEvent>, last_bytes: Seq<u8>) -> Seq<char> {
    "b · last:"@ + (match last_key {
        Some(k) => key_text(k),
        None => "-"@,
    }) + " raw:"@ + (if last_bytes.len() == 0 {
        "-"@
    } else {
        bytes_text(last_bytes)
    }) + " "@
}

/// Everything that a frame shows.
#[verifier::ext_equal]
pub struct RenderView {
    pub text: Seq<u8>,
    pub starts: Seq<usize>,
    pub sels: SelectionsView,
    pub scopes: Seq<ScopeId>,
    pub mode: Mode,
    pub top_line: int,
    pub left_col: int,
    pub label: Seq<char>,
    pub ex_input: Seq<char>,
    pub search_input: Seq<char>,
    pub matches: Seq<(int, int)>,
    pub message: Seq<char>,
    pub last_key: Option<KeyEvent>,
    pub last_bytes: Seq<u8>,
    pub diags: Seq<DiagnosticView>,
    pub prompt: Option<PromptView>,
    pub hover: Option<Seq<char>>,
    pub spinner: Option<char>,
    pub popup: UiView,
}

impl RenderView {
    /// The visible text on a terminal of this size.
    pub open spec fn scene(self, cols: int, rows: int) -> SceneView {
        let gutter = gutter_width(self.starts.len() as int, cols);
        SceneView {
            text: self.text,
            scopes: self.scopes,
            mode: self.mode,
            head: self.sels.prime().head as int,
            sels: selected_ranges(self.text, self.sels),
            matches: self.matches,
            diags: diag_spans(self.diags, self.starts, self.text.len() as int),
            left: imin(self.left_col, u16::MAX as int),
            content: cols - gutter,
            gutter,
            rows: imax(rows - 1, 0),
        }
    }

    /// Offset of the first visible character.
    pub open spec fn first_byte(self) -> int {
        if self.top_line < self.starts.len() {
            self.starts[self.top_line] as int
        } else {
            self.text.len() as int
        }
    }

    /// The row and the column of the cursor in the text, and its column in the
    /// line.
    pub open spec fn cursor(self, cols: int, rows: int) -> (int, int, int) {
        cursor_cell(self.scene(cols, rows), self.first_byte())
    }

    /// What is known of the buffer and of the last key.
    pub open spec fn info_line(self, vcol: int) -> Seq<char> {
        info_head(self.mode, self.spinner, self.label) + info_middle(
            slot_of(self.starts, self.sels.prime().head as int) + 1,
            vcol,
            self.sels.list.len() as int,
            primary_size(self.sels, self.text.len() as int),
        ) + info_tail(self.last_key, self.last_bytes)
    }

    /// The line that is typed into, if the mode has one.
    pub open spec fn input_line(self) -> Option<Seq<char>> {
        match self.mode {
            Mode::Ex => Some(":"@ + self.ex_input),
            Mode::Search => Some("/"@ + self.search_input),
            _ => None,
        }
    }

    /// The status line: what is typed, or a message, or what is known.
    pub open spec fn status(self, vcol: int) -> Seq<char> {
        match self.input_line() {
            Some(t) => t,
            None => if self.message.len() > 0 {
                " "@ + self.message + " "@
            } else {
                self.info_line(vcol)
            },
        }
    }

    /// The status line as it is shown: as wide as the terminal, and in reverse
    /// unless it is typed into.
    pub open spec fn status_shown(self, vcol: int, cols: int) -> Seq<char> {
        let t = fitted(self.status(vcol), cols);
        if self.input_line() is Some {
            t
        } else {
            "\x1b[7m"@ + t + "\x1b[0m"@
        }
    }

    /// Where the terminal's cursor is put: behind what is typed, or in the text.
    pub open spec fn cursor_place(self, cols: int, rows: int) -> (int, int) {
        match self.input_line() {
            Some(t) => (rows, imin(t.len() as int % 0x1_0000 + 1, u16::MAX as int)),
            None => {
                let (row, col, _) = self.cursor(cols, rows);
                (row, col + self.scene(cols, rows).gutter)
            },
        }
    }

    /// The diagnostic under the cursor.
    pub open spec fn hovered(self, cols: int, rows: int) -> Option<DiagnosticView> {
        let sc = self.scene(cols, rows);
        match covering(sc.diags, sc.head, 0) {
            Some(s) => Some(self.diags[s.index as int]),
            None => None,
        }
    }

    /// The frame up to the text.
    pub open spec fn painted(self, cols: int, rows: int) -> Seq<u8> {
        let sc = self.scene(cols, rows);
        text_painted(
            cleared(raw("\x1b[?2026h\x1b[?25l\x1b[H"@), sc.rows),
            sc,
            self.first_byte(),
            self.top_line,
        )
    }

    /// The frame up to the status line: the diagnostic under the cursor is shown
    /// below that.
    pub open spec fn with_status(self, cols: int, rows: int) -> Seq<u8> {
        let sc = self.scene(cols, rows);
        let (row, col, vcol) = self.cursor(cols, rows);
        let text = self.painted(cols, rows);
        let diag = match self.hovered(cols, rows) {
            Some(d) => text_drawn(
                text,
                severity_border(d.severity),
                d.message,
                DIAG_COLS as int,
                DIAG_ROWS as int,
                row,
                col,
                sc.gutter,
                cols,
                sc.rows,
            ),
            None => text,
        };
        written(diag, rows, 1, self.status_shown(vcol, cols))
    }

    /// The frame with the boxes over it: the hover text, the completions, the
    /// question.
    pub open spec fn with_boxes(self, cols: int, rows: int) -> Seq<u8> {
        let sc = self.scene(cols, rows);
        let (row, col, _) = self.cursor(cols, rows);
        let under = self.with_status(cols, rows);
        let hover = match self.hover {
            Some(t) => text_drawn(
                under,
                HOVER_BORDER@,
                t,
                HOVER_COLS as int,
                HOVER_ROWS as int,
                row,
                col,
                sc.gutter,
                cols,
                sc.rows,
            ),
            None => under,
        };
        let items = completions_drawn(
            hover,
            self.popup,
            self.text,
            self.starts,
            sc.head,
            row,
            col,
            sc.gutter,
            cols,
            sc.rows,
        );
        match self.prompt {
            Some(p) => prompt_drawn(items, p, rows, cols),
            None => items,
        }
    }

    /// The whole frame: a block cursor in normal mode, a bar otherwise.
    pub open spec fn frame(self, cols: int, rows: int) -> Seq<u8> {
        let (row, col) = self.cursor_place(cols, rows);
        written(
            self.with_boxes(cols, rows) + raw(
                if self.mode == Mode::Normal {
                    "\x1b[2 q"@
                } else {
                    "\x1b[6 q"@
                },
            ),
            row,
            col,
            "\x1b[?25h\x1b[?2026l"@,
        )
    }
}

/// `s` cut or filled up to `cols` characters.
pub open spec fn fitted(s: Seq<char>, cols: int) -> Seq<char> {
    s.take(imin(s.len() as int, cols)) + run_of(' ', imax(cols - s.len(), 0))
}

/// The frame with its first `n` rows erased.
pub open spec fn cleared(frame: Seq<u8>, n: int) -> Seq<u8>
    decreases n,
{
    if n <= 0 {
        frame
    } else {
        written(cleared(frame, n - 1), n, 1, "\x1b[K"@)
    }
}

fn clear_rows(screen: &mut Screen, n: u16)
    requires
        n < u16::MAX,
    ensures
        final(screen).cols == old(screen).cols,
        final(screen).rows == old(screen).rows,
        final(screen)@ == cleared(old(screen)@, n as int),
{
    let mut k: u16 = 0;
    while k < n
        invariant
            k <= n < u16::MAX,
            screen.cols == old(screen).cols,
            screen.rows == old(screen).rows,
            screen@ == cleared(old(screen)@, k as int),
        decreases n - k,
    {
        screen.clear_row(k + 1);
        k += 1;
    }
}

fn fit(s: &str, cols: u16) -> (r: String)
    ensures
        r@ == fitted(s@, cols as int),
{
    let chars = chars_of(s);
    let n: usize = chars.len();
    if n >= cols as usize {
        let r = string_of(chars.as_slice(), 0, cols as usize);
        assert(r@ =~= fitted(s@, cols as int));
        r
    } else {
        let mut r = s.to_owned();
        push_run(&mut r, ' ', cols as usize - n);
        assert(r@ =~= fitted(s@, cols as int));
        r
    }
}

fn collect_spans(diagnostics: &[Diagnostic], line_starts: &[usize], len: usize) -> (r: Vec<DiagSpan>)
    ensures
        r@ == diag_spans(diagnostics_of(diagnostics@), line_starts@, len as int),
        forall|i: int| 0 <= i < r@.len() ==> (#[trigger] r@[i]).index < diagnostics@.len(),
{
    let ghost all = diagnostics_of(diagnostics@);
    let mut out: Vec<DiagSpan> = Vec::new();
    let mut i: usize = 0;
    assert(all.take(0) =~= Seq::<DiagnosticView>::empty());
    while i < diagnostics.len()
        invariant
            i <= diagnostics@.len(),
            all == diagnostics_of(diagnostics@),
            out@ == diag_spans(all.take(i as int), line_starts@, len as int),
            forall|k: int| 0 <= k < out@.len() ==> (#[trigger] out@[k]).index < diagnostics@.len(),
        decreases diagnostics@.len() - i,
    {
        let d = &diagnostics[i];
        assert(all.take(i + 1).drop_last() =~= all.take(i as int));
        assert(all.take(i + 1).last() == d@);
        let first: usize = d.start_line as usize;
        let last: usize = d.end_line as usize;
        if first < line_starts.len() {
            let from: usize = line_starts[first];
            let to: usize = if last < line_starts.len() {
                line_starts[last]
            } else {
                len
            };
            let start: usize = from.saturating_add(d.start_character as usize);
            let start: usize = if start < len {
                start
            } else {
                len
            };
            let end: usize = to.saturating_add(d.end_character as usize);
            let end: usize = if end < len {
                end
            } else {
                len
            };
            let end: usize = if end > start {
                end
            } else if start < len {
                start + 1
            } else {
                len
            };
            out.push(DiagSpan { start, end, severity: d.severity, index: i });
        }
        i += 1;
    }
    assert(all.take(i as int) =~= all);
    out
}

fn collect_ranges(bytes: &[u8], sels: &Selections) -> (r: Vec<(usize, usize)>)
    ensures
        spans(r@) == selected_ranges(bytes@, sels@),
{
    let list = sels.iter();
    let ghost want = selected_ranges(bytes@, sels@);
    let mut out: Vec<(usize, usize)> = Vec::new();
    let mut i: usize = 0;
    while i < list.len()
        invariant
            i <= list@.len(),
            list@ == sels@.list,
            want == selected_ranges(bytes@, sels@),
            out@.len() == i,
            forall|k: int|
                0 <= k < i ==> ((#[trigger] out@[k]).0 as int, out@[k].1 as int) == want[k],
        decreases list@.len() - i,
    {
        let s = list[i];
        out.push((s.min(), next_char_or_end(bytes, s.max())));
        i += 1;
    }
    assert(spans(out@) =~= want);
    out
}

fn build_head(mode: Mode, spinner: Option<char>, label: &str) -> (r: String)
    ensures
        r@ == info_head(mode, spinner, label@),
{
    let mut out = String::new();
    push_text(&mut out, " [");
    push_text(
        &mut out,
        match mode {
            Mode::Normal => "N",
            Mode::Insert => "I",
            Mode::Ex => "X",
            Mode::Search => "S",
        },
    );
    push_text(&mut out, "] ");
    out.push(
        match spinner {
            Some(c) => c,
            None => ' ',
        },
    );
    push_text(&mut out, " ");
    push_text(&mut out, label);
    assert(out@ =~= info_head(mode, spinner, label@));
    out
}

fn build_middle(line: usize, vcol: u16, many: usize, size: usize) -> (r: String)
    ensures
        r@ == info_middle(line as int, vcol as int, many as int, size as int),
{
    let mut out = String::new();
    push_text(&mut out, " · ln ");
    push_decimal(&mut out, line as u64);
    push_text(&mut out, " col ");
    push_decimal(&mut out, vcol as u64);
    push_text(&mut out, " · ");
    if many > 1 {
        push_decimal(&mut out, many as u64);
        push_text(&mut out, " sels · ");
    }
    push_text(&mut out, "sel ");
    push_decimal(&mut out, size as u64);
    assert(out@ =~= info_middle(line as int, vcol as int, many as int, size as int));
    out
}

fn build_tail(last_key: Option<&KeyEvent>, last_bytes: &[u8]) -> (r: String)
    ensures
        r@ == info_tail(opt_key(last_key), last_bytes@),
{
    let mut out = String::new();
    push_text(&mut out, "b · last:");
    let key: String = match last_key {
        Some(k) => format_key(k),
        None => "-".to_owned(),
    };
    push_text(&mut out, key.as_str());
    push_text(&mut out, " raw:");
    let bytes: String = if last_bytes.len() == 0 {
        "-".to_owned()
    } else {
        format_bytes(last_bytes)
    };
    push_text(&mut out, bytes.as_str());
    push_text(&mut out, " ");
    assert(out@ =~= info_tail(opt_key(last_key), last_bytes@));
    out
}

pub open spec fn opt_key(o: Option<&KeyEvent>) -> Option<KeyEvent> {
    match o {
        Some(k) => Some(*k),
        None => None,
    }
}

pub open spec fn opt_hover(o: Option<&str>) -> Option<Seq<char>> {
    match o {
        Some(t) => Some(t@),
        None => None,
    }
}

pub open spec fn opt_question(o: Option<&Prompt>) -> Option<PromptView> {
    match o {
        Some(p) => Some(p@),
        None => None,
    }
}

fn build_info(
    line_starts: &[usize],
    sels: &Selections,
    mode: Mode,
    label: &str,
    last_key: Option<&KeyEvent>,
    last_bytes: &[u8],
    spinner: Option<char>,
    text_len: usize,
    vcol: u16,
) -> (r: String)
    requires
        sels.wf(),
        ascending(line_starts@),
        line_starts@.len() < usize::MAX,
    ensures
        forall|v: RenderView|
            v.starts == line_starts@ && v.sels == sels@ && v.mode == mode && v.label == label@
                && v.last_key == opt_key(last_key) && v.last_bytes == last_bytes@ && v.spinner
                == spinner && v.text.len() == text_len ==> r@ == #[trigger] v.info_line(
                vcol as int,
            ),
{
    let p = sels.primary();
    let line: usize = line_index_cached(line_starts, p.head) + 1;
    let span: usize = p.max() - p.min();
    let size: usize = if text_len == 0 {
        span
    } else {
        span.saturating_add(1)
    };
    let mut out = build_head(mode, spinner, label);
    let middle = build_middle(line, vcol, sels.len(), size);
    let tail = build_tail(last_key, last_bytes);
    push_text(&mut out, middle.as_str());
    push_text(&mut out, tail.as_str());
    out
}

/// The matches that are shown while a search is typed.
pub open spec fn preview_of(mode: Mode, preview: Option<Seq<char>>, text: Seq<u8>) -> Seq<(int, int)> {
    match (mode, preview) {
        (Mode::Search, Some(p)) => matches_in(p, text),
        _ => Seq::empty(),
    }
}

/// The matches that are shown while a search is typed.
pub fn preview_matches(bytes: &[u8], mode: Mode, search: &SearchState) -> (r: Vec<(usize, usize)>)
    ensures
        spans(r@) == preview_of(mode, search@.preview, bytes@),
{
    let none: Vec<(usize, usize)> = Vec::new();
    assert(spans(none@) =~= Seq::<(int, int)>::empty());
    match mode {
        Mode::Search => match &search.preview {
            Some(p) => all_matches(bytes, p.as_str()),
            None => none,
        },
        _ => none,
    }
}

// ---------------------------------------------------------------------------
// The frame
// ---------------------------------------------------------------------------

fn build_status(
    line_starts: &[usize],
    sels: &Selections,
    mode: Mode,
    label: &str,
    ex_input: &str,
    search_input: &str,
    ex_message: &str,
    last_key: Option<&KeyEvent>,
    last_bytes: &[u8],
    spinner: Option<char>,
    text_len: usize,
    vcol: u16,
) -> (r: String)
    requires
        sels.wf(),
        ascending(line_starts@),
        line_starts@.len() < usize::MAX,
    ensures
        forall|v: RenderView|
            v.starts == line_starts@ && v.sels == sels@ && v.mode == mode && v.label == label@
                && v.ex_input == ex_input@ && v.search_input == search_input@ && v.message
                == ex_message@ && v.last_key == opt_key(last_key) && v.last_bytes == last_bytes@
                && v.spinner == spinner && v.text.len() == text_len ==> r@ == #[trigger] v.status(
                vcol as int,
            ),
{
    match mode {
        Mode::Ex => glue(":", ex_input),
        Mode::Search => glue("/", search_input),
        _ => {
            if ex_message.is_empty() {
                build_info(
                    line_starts,
                    sels,
                    mode,
                    label,
                    last_key,
                    last_bytes,
                    spinner,
                    text_len,
                    vcol,
                )
            } else {
                let mut s = glue(" ", ex_message);
                push_text(&mut s, " ");
                s
            }
        },
    }
}

fn is_typing(mode: Mode) -> (r: bool)
    ensures
        r == (mode == Mode::Ex || mode == Mode::Search),
{
    match mode {
        Mode::Ex => true,
        Mode::Search => true,
        _ => false,
    }
}

fn draw_status(screen: &mut Screen, status: &str, typing: bool)
    ensures
        final(screen).cols == old(screen).cols,
        final(screen).rows == old(screen).rows,
        final(screen)@ == written(
            old(screen)@,
            old(screen).rows as int,
            1,
            if typing {
                fitted(status@, old(screen).cols as int)
            } else {
                "\x1b[7m"@ + fitted(status@, old(screen).cols as int) + "\x1b[0m"@
            },
        ),
{
    let t = fit(status, screen.cols);
    let row: u16 = screen.rows;
    if typing {
        screen.write_at(row, 1, t.as_str());
    } else {
        let mut s = glue("\x1b[7m", t.as_str());
        push_text(&mut s, "\x1b[0m");
        screen.write_at(row, 1, s.as_str());
    }
}

/// Draw a frame. `matches` are the matches of the search that is being typed.
pub fn render(
    screen: &mut Screen,
    bytes: &[u8],
    line_starts: &[usize],
    sels: &Selections,
    scopes: &[ScopeId],
    mode: Mode,
    top_line: usize,
    left_col: usize,
    buffer_label: &str,
    ex_input: &str,
    search_input: &str,
    matches: &[(usize, usize)],
    ex_message: &str,
    last_key: Option<&KeyEvent>,
    last_bytes: &[u8],
    diagnostics: &[Diagnostic],
    prompt: Option<&Prompt>,
    hover: Option<&str>,
    spinner: Option<char>,
    comp: &CompletionUi,
)
    requires
        old(screen).cols <= MAX_SIDE,
        old(screen).rows <= MAX_SIDE,
        text_fits(bytes@),
        indexes(line_starts@, bytes@),
        sels.wf(),
        top_line + 0x2_0000 <= usize::MAX,
        comp.wf(),
    ensures
        final(screen).cols == old(screen).cols,
        final(screen).rows == old(screen).rows,
        final(screen)@ == (RenderView {
            text: bytes@,
            starts: line_starts@,
            sels: sels@,
            scopes: scopes@,
            mode,
            top_line: top_line as int,
            left_col: left_col as int,
            label: buffer_label@,
            ex_input: ex_input@,
            search_input: search_input@,
            matches: spans(matches@),
            message: ex_message@,
            last_key: opt_key(last_key),
            last_bytes: last_bytes@,
            diags: diagnostics_of(diagnostics@),
            prompt: opt_question(prompt),
            hover: opt_hover(hover),
            spinner,
            popup: comp@,
        }).frame(old(screen).cols as int, old(screen).rows as int),
{
    let cols: u16 = screen.cols;
    let rows: u16 = screen.rows;
    let ghost v = RenderView {
        text: bytes@,
        starts: line_starts@,
        sels: sels@,
        scopes: scopes@,
        mode,
        top_line: top_line as int,
        left_col: left_col as int,
        label: buffer_label@,
        ex_input: ex_input@,
        search_input: search_input@,
        matches: spans(matches@),
        message: ex_message@,
        last_key: opt_key(last_key),
        last_bytes: last_bytes@,
        diags: diagnostics_of(diagnostics@),
        prompt: opt_question(prompt),
        hover: opt_hover(hover),
        spinner,
        popup: comp@,
    };
    proof {
        lemma_index_ascending(line_starts@, bytes@);
        lemma_newlines_bound(bytes@, bytes@.len() as int);
    }
    let viewport_rows: u16 = rows.saturating_sub(1);
    let gutter: u16 = gutter_for(line_starts.len(), cols);
    let head: usize = sels.primary().head;
    let left: u16 = if left_col < 0xffff {
        left_col as u16
    } else {
        0xffff
    };
    let scene = Scene {
        bytes,
        scopes,
        mode,
        head,
        sels: collect_ranges(bytes, sels),
        matches,
        diags: collect_spans(diagnostics, line_starts, bytes.len()),
        left,
        content: cols - gutter,
        gutter,
        rows: viewport_rows,
    };
    let ghost sc = v.scene(cols as int, rows as int);
    assert(scene@ =~= sc);
    screen.begin_frame();
    clear_rows(screen, viewport_rows);
    let start: usize = byte_at_line_cached(line_starts, top_line, bytes.len());
    let (cur_row, cur_col, cur_vcol) = paint_text(screen, &scene, start, top_line);
    assert(screen@ == v.painted(cols as int, rows as int));
    assert((cur_row as int, cur_col as int, cur_vcol as int) == v.cursor(cols as int, rows as int));
    if let Some(s) = find_covering(scene.diags.as_slice(), head) {
        let ghost k = choose|k: int| 0 <= k < scene.diags@.len() && scene.diags@[k] == s;
        assert(scene.diags@[k].index < diagnostics@.len());
        assert(v.diags[s.index as int] == diagnostics@[s.index as int]@);
        draw_diag_popup(
            screen,
            &diagnostics[s.index],
            cur_row,
            cur_col,
            gutter,
            cols,
            viewport_rows,
        );
    }
    let status = build_status(
        line_starts,
        sels,
        mode,
        buffer_label,
        ex_input,
        search_input,
        ex_message,
        last_key,
        last_bytes,
        spinner,
        bytes.len(),
        cur_vcol,
    );
    assert(status@ == v.status(cur_vcol as int));
    let typing: bool = is_typing(mode);
    assert(typing == (v.input_line() is Some));
    draw_status(screen, status.as_str(), typing);
    assert(screen@ == v.with_status(cols as int, rows as int));
    if let Some(text) = hover {
        draw_hover_popup(screen, text, cur_row, cur_col, gutter, cols, viewport_rows);
    }
    draw_completion_popup(
        screen,
        comp,
        bytes,
        line_starts,
        head,
        cur_row,
        cur_col,
        gutter,
        cols,
        viewport_rows,
    );
    if let Some(p) = prompt {
        draw_prompt(screen, p, rows, cols);
    }
    assert(screen@ == v.with_boxes(cols as int, rows as int));
    screen.set_cursor_shape(
        match mode {
            Mode::Normal => true,
            _ => false,
        },
    );
    let (row, col): (u16, u16) = if typing {
        let n: usize = chars_of(status.as_str()).len();
        (rows, ((n % 0x1_0000) as u16).saturating_add(1))
    } else {
        (cur_row, cur_col + gutter)
    };
    assert((row as int, col as int) == v.cursor_place(cols as int, rows as int));
    screen.end_frame(row, col);
}

// ---------------------------------------------------------------------------
// Laws
// ---------------------------------------------------------------------------

/// No line break stands inside a character.
pub open spec fn breaks_between_chars(text: Seq<u8>) -> bool {
    forall|i: int, k: int|
        #![trigger text[i], text[k]]
        0 <= i < k < text.len() && k < i + char_len(text[i]) ==> text[k] != NL
}

proof fn lemma_breaks_step(text: Seq<u8>, i: int, e: int)
    requires
        breaks_between_chars(text),
        0 <= i < e <= text.len(),
        e <= i + char_len(text[i]),
    ensures
        newlines_before(text, e) == newlines_before(text, i) + if text[i] == NL {
            1int
        } else {
            0
        },
    decreases e - i,
{
    if e > i + 1 {
        lemma_breaks_step(text, i, e - 1);
        assert(text[e - 1] != NL);
    }
}

/// The cursor's row tells how many lines below the first one it is.
pub proof fn the_cursor_row_counts_lines(sc: SceneView, i: int, row: int, col: int)
    requires
        breaks_between_chars(sc.text),
        0 <= i <= sc.text.len(),
    ensures
        sc.head_cell(i, row, col) matches Some((r, c)) ==> i <= sc.head <= sc.text.len() && r == row
            + newlines_before(sc.text, sc.head) - newlines_before(sc.text, i) && r <= sc.rows,
    decreases sc.text.len() - i,
{
    if !(i == sc.head && row <= sc.rows) && i < sc.text.len() && row <= sc.rows {
        lemma_breaks_step(sc.text, i, sc.behind(i));
        the_cursor_row_counts_lines(
            sc,
            sc.behind(i),
            sc.next_row(i, row),
            sc.next_col(i, col),
        );
    }
}

/// On its line the cursor's column is its display column, as far as columns are
/// counted.
pub proof fn the_cursor_column_is_the_display_column(sc: SceneView, i: int, row: int, col: int)
    requires
        0 <= i <= sc.text.len(),
        col >= 1,
        forall|k: int| i <= k < sc.head && k < sc.text.len() ==> #[trigger] sc.text[k] != NL,
    ensures
        sc.head_cell(i, row, imin(col, u16::MAX as int)) matches Some((r, c)) ==> r == row && c
            == imin(column_from(sc.text, i, col, sc.head), u16::MAX as int),
    decreases sc.text.len() - i,
{
    let shown = imin(col, u16::MAX as int);
    if !(i == sc.head && row <= sc.rows) && i < sc.text.len() && row <= sc.rows {
        let b = sc.text[i];
        if i < sc.head {
            assert(b != NL);
            let next = col + cell_width(col, b);
            assert(sc.next_col(i, shown) == imin(next, u16::MAX as int));
            the_cursor_column_is_the_display_column(sc, sc.behind(i), row, next);
            assert(column_from(sc.text, i + char_len(b), next, sc.head) == column_from(
                sc.text,
                sc.behind(i),
                next,
                sc.head,
            ));
            assert(column_from(sc.text, i, col, sc.head) == column_from(
                sc.text,
                i + char_len(b),
                next,
                sc.head,
            ));
            assert(sc.head_cell(i, row, shown) == sc.head_cell(
                sc.behind(i),
                row,
                imin(next, u16::MAX as int),
            ));
        } else {
            lemma_never_met(sc, i, row, shown);
        }
    }
}

proof fn lemma_never_met(sc: SceneView, i: int, row: int, col: int)
    requires
        0 <= i,
        i > sc.head || row > sc.rows,
    ensures
        sc.head_cell(i, row, col) is None,
    decreases sc.text.len() - i,
{
    if i < sc.text.len() && row <= sc.rows {
        lemma_never_met(sc, sc.behind(i), sc.next_row(i, row), sc.next_col(i, col));
    }
}

/// Where the style does not change, nothing is written for it; where it does,
/// what is written depends on both styles alone.
pub proof fn an_unchanged_style_costs_nothing(s: StyleView)
    ensures
        restyled(s, s) == Seq::<u8>::empty(),
{
}

/// How many characters start from `a` to before `b`.
pub open spec fn chars_in(s: Seq<u8>, a: int, b: int) -> int
    decreases b - a,
{
    if a >= b {
        0
    } else {
        chars_in(s, a + 1, b) + if is_cont(s[a]) {
            0int
        } else {
            1
        }
    }
}

/// What some strokes write in their cells, one after the other.
pub open spec fn bodies(strokes: Seq<Stroke>) -> Seq<u8>
    decreases strokes.len(),
{
    if strokes.len() == 0 {
        Seq::empty()
    } else {
        (match strokes[0] {
            Stroke::Cells { row, col, width, style, body } => body,
            _ => Seq::empty(),
        }) + bodies(strokes.drop_first())
    }
}

/// The bytes are one character: a first byte, and the ones that continue it.
pub open spec fn one_char(b: Seq<u8>) -> bool {
    &&& b.len() > 0
    &&& !is_cont(b[0])
    &&& forall|j: int| 0 < j < b.len() ==> is_cont(#[trigger] b[j])
}

proof fn lemma_chars_in_step(s: Seq<u8>, a: int, e: int, b: int)
    requires
        0 <= a <= e <= b <= s.len(),
        forall|j: int| a <= j < e ==> is_cont(#[trigger] s[j]),
    ensures
        chars_in(s, a, b) == chars_in(s, e, b),
    decreases e - a,
{
    if a < e {
        lemma_chars_in_step(s, a + 1, e, b);
    }
}

proof fn lemma_chars_in_bounds(s: Seq<u8>, a: int, b: int)
    ensures
        0 <= chars_in(s, a, b),
        a <= b ==> chars_in(s, a, b) <= b - a,
    decreases b - a,
{
    if a < b {
        lemma_chars_in_bounds(s, a + 1, b);
    }
}

/// The characters from `a` to before `b` are shown as they are, from column `col`
/// on, and the window has room for them.
pub open spec fn shown_whole(sc: SceneView, a: int, b: int, row: int, col: int) -> bool {
    &&& valid_utf8(sc.text)
    &&& 0 <= a <= b <= sc.text.len()
    &&& on_char(sc.text, a)
    &&& on_char(sc.text, b)
    &&& forall|i: int| a <= i < b ==> #[trigger] sc.text[i] >= 0x20
    &&& row <= sc.rows
    &&& 0 <= sc.left < col
    &&& col - 1 + chars_in(sc.text, a, b) <= sc.left + sc.content
    &&& col + chars_in(sc.text, a, b) <= u16::MAX
}

/// A stretch of a line that fits the window and has no control character is drawn
/// cell by cell: one character in each, in adjacent columns of one row, and their
/// bytes put one after the other are the bytes of the stretch.
#[verifier::spinoff_prover]
pub proof fn a_line_is_drawn_character_by_character(
    sc: SceneView,
    a: int,
    b: int,
    row: int,
    col: int,
    lineno: int,
)
    requires
        shown_whole(sc, a, b, row, col),
    ensures
        ({
            let n = chars_in(sc.text, a, b);
            let all = sc.strokes(a, row, col, lineno);
            &&& 0 <= n <= all.len()
            &&& bodies(all.take(n)) == sc.text.subrange(a, b)
            &&& forall|k: int|
                0 <= k < n ==> ((#[trigger] all[k]) matches Stroke::Cells {
                    row: r,
                    col: c,
                    width,
                    style,
                    body,
                } && r == row && c == sc.gutter + col - sc.left + k && width == 1 && one_char(body))
            &&& all.skip(n) == sc.strokes(b, row, col + n, lineno)
        }),
    decreases b - a,
{
    let all = sc.strokes(a, row, col, lineno);
    let n = chars_in(sc.text, a, b);
    if a < b {
        lemma_whole_char(sc.text, a);
        let e = a + char_len(sc.text[a]);
        if e > b {
            assert(is_cont(sc.text[b]));
        }
        lemma_chars_in_step(sc.text, a + 1, e, b);
        lemma_chars_in_bounds(sc.text, e, b);
        assert(sc.behind(a) == e);
        a_line_is_drawn_character_by_character(sc, e, b, row, col + 1, lineno);
        let rest = sc.strokes(e, row, col + 1, lineno);
        assert(sc.text[a] >= 0x20);
        assert(all == seq![sc.stroke(a, row, col, lineno)] + rest);
        assert(all.drop_first() =~= rest);
        assert(all.take(n).drop_first() =~= rest.take(n - 1));
        assert(all.skip(n) =~= rest.skip(n - 1));
        assert forall|k: int| 0 <= k < n implies ((#[trigger] all[k]) matches Stroke::Cells {
            row: r,
            col: c,
            width,
            style,
            body,
        } && r == row && c == sc.gutter + col - sc.left + k && width == 1 && one_char(body)) by {
            if k > 0 {
                assert(all[k] == rest[k - 1]);
            }
        }
        assert(sc.text.subrange(a, b) =~= sc.text.subrange(a, e) + sc.text.subrange(e, b));
        assert(all.take(n)[0] == sc.stroke(a, row, col, lineno));
        assert(bodies(all.take(n)) == sc.text.subrange(a, e) + bodies(rest.take(n - 1)));
    } else {
        assert(all.take(0) =~= Seq::<Stroke>::empty());
        assert(all.skip(0) =~= all);
        assert(sc.text.subrange(a, b) =~= Seq::<u8>::empty());
    }
}

/// A stretch of a line without colours, drawn with the pen in its place, appends
/// its bytes to the frame, and the pen then stands behind it.
pub proof fn a_plain_line_is_written_as_it_is(
    sc: SceneView,
    p: Pen,
    a: int,
    b: int,
    row: int,
    col: int,
    lineno: int,
)
    requires
        shown_whole(sc, a, b, row, col),
        forall|i: int| a <= i < b ==> #[trigger] sc.style_at(i) == plain(),
        p.style == plain(),
        p.at == Some((row, sc.gutter + col - sc.left)),
    ensures
        ({
            let n = chars_in(sc.text, a, b);
            let behind = Pen {
                frame: p.frame + sc.text.subrange(a, b),
                at: Some((row, sc.gutter + col - sc.left + n)),
                style: plain(),
            };
            drawn(p, sc.strokes(a, row, col, lineno), sc.gutter) == drawn(
                behind,
                sc.strokes(b, row, col + n, lineno),
                sc.gutter,
            )
        }),
    decreases b - a,
{
    let all = sc.strokes(a, row, col, lineno);
    if a < b {
        lemma_whole_char(sc.text, a);
        let e = a + char_len(sc.text[a]);
        if e > b {
            assert(is_cont(sc.text[b]));
        }
        lemma_chars_in_step(sc.text, a + 1, e, b);
        lemma_chars_in_bounds(sc.text, e, b);
        assert(sc.behind(a) == e);
        assert(sc.text[a] >= 0x20);
        assert(sc.style_at(a) == plain());
        let rest = sc.strokes(e, row, col + 1, lineno);
        assert(all == seq![sc.stroke(a, row, col, lineno)] + rest);
        assert(all.drop_first() =~= rest);
        let next = stroked(p, all[0], sc.gutter);
        assert(next.frame =~= p.frame + sc.text.subrange(a, e));
        a_plain_line_is_written_as_it_is(sc, next, e, b, row, col + 1, lineno);
        assert(next.frame + sc.text.subrange(e, b) =~= p.frame + sc.text.subrange(a, b));
    } else {
        assert(p.frame =~= p.frame + sc.text.subrange(a, b));
    }
}

/// A line break starts the next row, with its line number where there is room
/// for numbers, and draws nothing else.
pub proof fn a_line_break_starts_the_next_row(
    sc: SceneView,
    i: int,
    row: int,
    col: int,
    lineno: int,
)
    requires
        0 <= i < sc.text.len(),
        sc.text[i] == '\n' as u8,
        row <= sc.rows,
    ensures
        ({
            let all = sc.strokes(i, row, col, lineno);
            &&& all.len() > 0
            &&& bodies(all.take(1)) == Seq::<u8>::empty()
            &&& sc.gutter > 0 && row < sc.rows ==> all[0] == (Stroke::Number {
                row: row + 1,
                lineno: lineno + 1,
            })
            &&& all.skip(1) == sc.strokes(i + 1, row + 1, 1, lineno + 1)
            &&& row == sc.rows ==> all.len() == 1
        }),
{
    let all = sc.strokes(i, row, col, lineno);
    assert(all.skip(1) =~= sc.strokes(i + 1, row + 1, 1, lineno + 1));
    assert(all.take(1)[0] == all[0]);
    assert(bodies(all.take(1).drop_first()) == Seq::<u8>::empty());
    assert(bodies(all.take(1)) =~= Seq::<u8>::empty());
}

/// A control character is shown as a caret and the letter 64 places behind it, a
/// carriage return not at all.
pub proof fn control_characters_are_shown_with_a_caret(
    sc: SceneView,
    i: int,
    row: int,
    col: int,
    lineno: int,
)
    requires
        0 <= i < sc.text.len(),
        sc.text[i] < 0x20,
        sc.text[i] != '\n' as u8,
        sc.text[i] != '\t' as u8,
        0 <= sc.left < col,
        col + 1 <= sc.left + sc.content,
    ensures
        sc.text[i] == '\r' as u8 ==> sc.stroke(i, row, col, lineno) is Nothing && sc.next_col(i, col)
            == imin(col, u16::MAX as int),
        sc.text[i] != '\r' as u8 ==> sc.stroke(i, row, col, lineno) == (Stroke::Cells {
            row,
            col: sc.gutter + col - sc.left,
            width: 2,
            style: sc.style_at(i),
            body: seq!['^' as u8, (sc.text[i] + 64) as u8],
        }),
{
    let b = sc.text[i];
    let body = seq!['^' as u8, (b + 64) as u8];
    assert(sc.cells(i, col) =~= body);
    assert(body.subrange(0, 2) =~= body);
}

/// A tab with a background or an underline is drawn as blanks up to the next
/// column behind a multiple of four; without them it is left out.
pub proof fn tabs_are_drawn_as_blanks(sc: SceneView, i: int, row: int, col: int, lineno: int)
    requires
        0 <= i < sc.text.len(),
        sc.text[i] == '\t' as u8,
        0 <= sc.left < col,
        col + 3 <= sc.left + sc.content,
    ensures
        sc.style_at(i).bg is None && sc.style_at(i).ul is None ==> sc.stroke(i, row, col, lineno)
            is Gap,
        sc.style_at(i).bg is Some || sc.style_at(i).ul is Some ==> (sc.stroke(i, row, col, lineno)
            matches Stroke::Cells { row: r, col: c, width, style, body } && r == row && c
            == sc.gutter + col - sc.left && 1 <= width <= 4 && (col + width) % 4 == 1 && style
            == sc.style_at(i) && body.len() == width && forall|k: int|
            0 <= k < body.len() ==> #[trigger] body[k] == ' ' as u8),
{
}

/// A byte has the background of the selection where a selection is shown on it,
/// else that of a match where a match covers it, else none.
pub proof fn backgrounds_show_selections_and_matches(sc: SceneView, i: int)
    ensures
        ({
            let bg = sc.style_at(i).bg;
            let selected = exists|k: int|
                0 <= k < sc.sels.len() && (#[trigger] sc.sels[k]).0 <= i < sc.sels[k].1;
            let matched = exists|k: int|
                0 <= k < sc.matches.len() && (#[trigger] sc.matches[k]).0 <= i < sc.matches[k].1;
            let shown = selected && match sc.mode {
                Mode::Normal => i != sc.head,
                Mode::Search => true,
                Mode::Insert => false,
                Mode::Ex => false,
            };
            &&& bg == Some(SEL_BG@) <==> shown
            &&& bg == Some(MATCH_BG@) <==> matched && !shown
            &&& bg is None <==> !matched && !shown
        }),
{
    reveal_strlit("\x1b[48;5;24m");
    reveal_strlit("\x1b[48;5;94m");
    assert(SEL_BG@[7] == '2' && MATCH_BG@[7] == '9');
}

proof fn lemma_first_covering(ds: Seq<DiagSpan>, i: int, k: int)
    requires
        0 <= k <= ds.len(),
    ensures
        match covering(ds, i, k) {
            Some(d) => exists|j: int|
                k <= j < ds.len() && #[trigger] ds[j] == d && d.start <= i < d.end && forall|x: int|
                    k <= x < j ==> !((#[trigger] ds[x]).start <= i < ds[x].end),
            None => forall|j: int|
                k <= j < ds.len() ==> !((#[trigger] ds[j]).start <= i < ds[j].end),
        },
    decreases ds.len() - k,
{
    if k < ds.len() && !(ds[k].start <= i < ds[k].end) {
        lemma_first_covering(ds, i, k + 1);
        if let Some(d) = covering(ds, i, k) {
            let j = choose|j: int|
                k + 1 <= j < ds.len() && #[trigger] ds[j] == d && d.start <= i < d.end && forall|
                    x: int,
                |
                    k + 1 <= x < j ==> !((#[trigger] ds[x]).start <= i < ds[x].end);
            assert(ds[j] == d);
        }
    } else if k < ds.len() {
        assert(ds[k] == ds[k]);
    }
}

/// A byte is underlined where a diagnostic covers it, as the first of those that
/// do says.
pub proof fn underlines_show_the_first_diagnostic(sc: SceneView, i: int, k: int)
    requires
        0 <= k < sc.diags.len(),
        forall|j: int|
            0 <= j < k ==> !((#[trigger] sc.diags[j]).start <= i < sc.diags[j].end),
    ensures
        sc.diags[k].start <= i < sc.diags[k].end ==> sc.style_at(i).ul == Some(
            severity_underline(sc.diags[k].severity),
        ),
        !(sc.diags[k].start <= i < sc.diags[k].end) && k + 1 == sc.diags.len() ==> sc.style_at(
            i,
        ).ul is None,
{
    lemma_first_covering(sc.diags, i, 0);
}

/// Each severity has an underline of its own.
pub proof fn severities_look_different(a: DiagnosticSeverity, b: DiagnosticSeverity)
    requires
        severity_underline(a) == severity_underline(b),
    ensures
        a == b,
{
    reveal_strlit("\x1b[4:3;58:5:9m");
    reveal_strlit("\x1b[4:3;58:5:11m");
    reveal_strlit("\x1b[4:3;58:5:14m");
    reveal_strlit("\x1b[4:3;58:5:8m");
    let (x, y) = (severity_underline(a), severity_underline(b));
    assert(x.len() == y.len() && x[11] == y[11] && x[12] == y[12]);
}

/// A diagnostic of which both lines exist covers the bytes from its first
/// character to before its last one.
pub proof fn diagnostics_cover_their_range(
    d: DiagnosticView,
    index: int,
    starts: Seq<usize>,
    len: int,
    i: int,
)
    requires
        d.start_line < starts.len(),
        d.end_line < starts.len(),
        0 <= len <= usize::MAX,
        0 <= i < len,
        0 <= d.start_line,
        0 <= d.end_line,
        0 <= d.start_character,
        0 <= d.end_character,
        starts[d.start_line as int] + d.start_character < starts[d.end_line as int]
            + d.end_character,
    ensures
        span_of(d, index, starts, len) matches Some(s) && s.severity == d.severity && (s.start <= i
            < s.end <==> starts[d.start_line as int] + d.start_character <= i < starts[d.end_line as int]
            + d.end_character),
{
}

/// A text fitted to a width has that width: it is cut off behind the width, or
/// blanks are put behind it.
pub proof fn fitting_keeps_the_start(s: Seq<char>, cols: int, i: int)
    requires
        0 <= i < cols,
    ensures
        fitted(s, cols).len() == cols,
        fitted(s, cols)[i] == (if i < s.len() { s[i] } else { ' ' }),
{
}

/// Each mode has a letter of its own in the status line.
pub proof fn modes_look_different(a: Mode, b: Mode)
    requires
        mode_letter(a) == mode_letter(b),
    ensures
        a == b,
{
    reveal_strlit("N");
    reveal_strlit("I");
    reveal_strlit("X");
    reveal_strlit("S");
    assert("N"@[0] == 'N' && "I"@[0] == 'I' && "X"@[0] == 'X' && "S"@[0] == 'S');
    assert(mode_letter(a)[0] == mode_letter(b)[0]);
}

/// The number of a line stands at the right of the gutter, with one blank behind
/// it.
pub proof fn line_numbers_stand_at_the_right(lineno: int, gutter: int)
    requires
        0 <= lineno,
        decimal(lineno).len() < gutter,
    ensures
        lineno_text(lineno, gutter) == "\x1b[0m"@ + LINENO_FG@ + run_of(
            ' ',
            gutter - 1 - decimal(lineno).len(),
        ) + decimal(lineno) + " \x1b[0m"@,
{
    let d = decimal(lineno);
    let n = gutter - 1 - d.len();
    assert(padded_left(d, imax(gutter - 1, 0), ' ') =~= run_of(' ', n) + d);
    assert(lineno_text(lineno, gutter) =~= "\x1b[0m"@ + LINENO_FG@ + run_of(' ', n) + d
        + " \x1b[0m"@);
}

/// What erases the rows from the first to the `n`-th: for each, going to its start
/// and erasing from there.
pub open spec fn erasures(n: int) -> Seq<u8>
    decreases n,
{
    if n <= 0 {
        Seq::empty()
    } else {
        erasures(n - 1) + raw(goto_text(n, 1)) + raw(seq!['\x1b', '[', 'K'])
    }
}

/// Every row of the text is erased before it is drawn.
pub proof fn every_row_is_erased(frame: Seq<u8>, n: int)
    ensures
        cleared(frame, n) == frame + erasures(n),
    decreases n,
{
    if n > 0 {
        every_row_is_erased(frame, n - 1);
        reveal_strlit("\x1b[K");
        assert("\x1b[K"@ =~= seq!['\x1b', '[', 'K']);
    }
    assert(cleared(frame, n) =~= frame + erasures(n));
}

/// Stroke number `k` is this one.
pub open spec fn is_stroke(all: Seq<Stroke>, k: int, stroke: Stroke) -> bool {
    0 <= k < all.len() && all[k] == stroke
}

proof fn lemma_head_is_drawn(sc: SceneView, i: int, row: int, col: int, lineno: int) -> (r: (
    int,
    int,
))
    requires
        0 <= i,
        sc.head < sc.text.len(),
        sc.head_cell(i, row, col) is Some,
    ensures
        is_stroke(
            sc.strokes(i, row, col, lineno),
            r.0,
            sc.stroke(
                sc.head,
                (sc.head_cell(i, row, col)->0).0,
                (sc.head_cell(i, row, col)->0).1,
                r.1,
            ),
        ),
    decreases sc.text.len() - i,
{
    let all = sc.strokes(i, row, col, lineno);
    if i == sc.head && row <= sc.rows {
        assert(all[0] == sc.stroke(sc.head, row, col, lineno));
        (0, lineno)
    } else {
        let (b, r2, c2, l2) = (
            sc.behind(i),
            sc.next_row(i, row),
            sc.next_col(i, col),
            sc.next_lineno(i, lineno),
        );
        let (k, l) = lemma_head_is_drawn(sc, b, r2, c2, l2);
        assert(all[k + 1] == sc.strokes(b, r2, c2, l2)[k]);
        (k + 1, l)
    }
}

/// Outside the lines that are typed into, the terminal's cursor is put on the very
/// cell that the character under the cursor is drawn in.
pub proof fn the_cursor_stands_on_its_character(v: RenderView, cols: int, rows: int)
    requires
        v.mode == Mode::Normal || v.mode == Mode::Insert,
        ({
            let sc = v.scene(cols, rows);
            &&& 0 <= v.first_byte()
            &&& sc.head < sc.text.len()
            &&& sc.text[sc.head] >= 0x20
            &&& sc.head_cell(v.first_byte(), 1, 1) matches Some((r, c)) && sc.left < c <= sc.left
                + sc.content
        }),
    ensures
        ({
            let sc = v.scene(cols, rows);
            let all = sc.strokes(v.first_byte(), 1, 1, v.top_line + 1);
            exists|k: int|
                {
                    &&& 0 <= k < all.len()
                    &&& #[trigger] all[k] matches Stroke::Cells { row, col, width, style, body }
                        && v.cursor_place(cols, rows) == (row, col) && width == 1 && style
                        == sc.style_at(sc.head)
                }
        }),
{
    let sc = v.scene(cols, rows);
    let start = v.first_byte();
    let all = sc.strokes(start, 1, 1, v.top_line + 1);
    let (r, c) = sc.head_cell(start, 1, 1)->0;
    let (k, l) = lemma_head_is_drawn(sc, start, 1, 1, v.top_line + 1);
    assert(all[k] == sc.stroke(sc.head, r, c, l));
}

/// In the lines that are typed into, the terminal's cursor stands on the last row,
/// behind what was typed.
pub proof fn the_cursor_stands_behind_what_is_typed(v: RenderView, cols: int, rows: int)
    requires
        v.ex_input.len() < 0xff00,
        v.search_input.len() < 0xff00,
    ensures
        v.mode == Mode::Ex ==> v.cursor_place(cols, rows) == (rows, v.ex_input.len() + 2int),
        v.mode == Mode::Search ==> v.cursor_place(cols, rows) == (rows, v.search_input.len() + 2int),
{
    reveal_strlit(":");
    reveal_strlit("/");
    assert(":"@.len() == 1 && "/"@.len() == 1);
    let (a, b) = ((":"@ + v.ex_input).len() as int, ("/"@ + v.search_input).len() as int);
    assert(a == v.ex_input.len() + 1 && b == v.search_input.len() + 1);
    assert(a % 0x1_0000 == a) by (nonlinear_arith)
        requires
            0 <= a < 0x1_0000,
    ;
    assert(b % 0x1_0000 == b) by (nonlinear_arith)
        requires
            0 <= b < 0x1_0000,
    ;
}

/// The first row shows the line that was scrolled to.
pub proof fn the_top_line_is_drawn_first(v: RenderView)
    requires
        indexes(v.starts, v.text),
        0 <= v.top_line,
    ensures
        v.first_byte() == crate::text::nth_line(v.text, v.top_line),
{
}

/// The status line shows what is typed behind its sign, else a message, else what
/// is known of the buffer. It is shown in reverse unless it is typed into.
pub proof fn the_status_line_shows_one_thing(v: RenderView, vcol: int, cols: int)
    requires
        0 <= cols,
    ensures
        ({
            let t = v.status(vcol);
            let typing = v.mode == Mode::Ex || v.mode == Mode::Search;
            let shown = v.status_shown(vcol, cols);
            &&& v.mode == Mode::Ex ==> t == seq![':'] + v.ex_input
            &&& v.mode == Mode::Search ==> t == seq!['/'] + v.search_input
            &&& !typing && v.message.len() > 0 ==> t == seq![' '] + v.message + seq![' ']
            &&& !typing && v.message.len() == 0 ==> t == v.info_line(vcol)
            &&& typing ==> shown == fitted(t, cols)
            &&& !typing ==> shown == "\x1b[7m"@ + fitted(t, cols) + "\x1b[0m"@
        }),
{
    reveal_strlit(":");
    reveal_strlit("/");
    reveal_strlit(" ");
    assert(":"@ =~= seq![':']);
    assert("/"@ =~= seq!['/']);
    assert(" "@ =~= seq![' ']);
}

/// What is known begins with the mode and the buffer's label and tells the line,
/// from one on, the column and the size of the primary selection.
pub proof fn the_status_line_tells_the_place(v: RenderView, vcol: int)
    requires
        v.sels.list.len() == 1,
    ensures
        ({
            let spin = match v.spinner {
                Some(c) => c,
                None => ' ',
            };
            let head = seq![' ', '['] + mode_letter(v.mode) + seq![']', ' ', spin, ' '] + v.label;
            let place = " · ln "@ + decimal(slot_of(v.starts, v.sels.prime().head as int) + 1)
                + " col "@ + decimal(vcol) + " · sel "@ + decimal(
                primary_size(v.sels, v.text.len() as int),
            );
            let t = v.info_line(vcol);
            t.len() >= head.len() + place.len() && t.take((head.len() + place.len()) as int) == head
                + place
        }),
{
    reveal_strlit(" [");
    reveal_strlit("] ");
    reveal_strlit(" ");
    reveal_strlit(" · ");
    reveal_strlit("sel ");
    reveal_strlit(" · sel ");
    assert(" ["@ =~= seq![' ', '[']);
    assert("] "@ =~= seq![']', ' ']);
    assert(" "@ =~= seq![' ']);
    assert(" · sel "@ =~= " · "@ + "sel "@);
    let spin = match v.spinner {
        Some(c) => c,
        None => ' ',
    };
    let head = seq![' ', '['] + mode_letter(v.mode) + seq![']', ' ', spin, ' '] + v.label;
    let line = slot_of(v.starts, v.sels.prime().head as int) + 1;
    let size = primary_size(v.sels, v.text.len() as int);
    let place = " · ln "@ + decimal(line) + " col "@ + decimal(vcol) + " · sel "@ + decimal(size);
    assert(info_head(v.mode, v.spinner, v.label) =~= head);
    assert(info_middle(line, vcol, 1, size) =~= place);
    let t = v.info_line(vcol);
    assert(t.take((head.len() + place.len()) as int) =~= head + place);
}

/// The size of a selection counts its first and its last byte and those between.
pub proof fn selections_are_sized_by_both_ends(sels: SelectionsView, n: int)
    requires
        0 < n,
        sels.prime().anchor < usize::MAX,
        sels.prime().head < usize::MAX,
    ensures
        sels.prime().anchor <= sels.prime().head ==> primary_size(sels, n) == sels.prime().head
            - sels.prime().anchor + 1,
        sels.prime().head <= sels.prime().anchor ==> primary_size(sels, n) == sels.prime().anchor
            - sels.prime().head + 1,
{
}

/// A selection is shown from its first byte to the last byte of its last
/// character.
pub proof fn selections_are_shown_whole(text: Seq<u8>, sels: SelectionsView, k: int)
    requires
        0 <= k < sels.list.len(),
        valid_utf8(text),
        on_char(text, sel_max(sels.list[k])),
        sel_max(sels.list[k]) < text.len(),
    ensures
        ({
            let (a, b) = selected_ranges(text, sels)[k];
            let (x, y) = (sels.list[k].anchor as int, sels.list[k].head as int);
            &&& (a == x || a == y) && a <= x && a <= y
            &&& x < b <= text.len() && y < b
            &&& on_char(text, b)
            &&& forall|j: int| x < j < b && y < j ==> is_cont(#[trigger] text[j])
        }),
{
    lemma_whole_char(text, sel_max(sels.list[k]));
}

proof fn lemma_spans_name_diagnostics(
    ds: Seq<DiagnosticView>,
    starts: Seq<usize>,
    len: int,
    i: int,
)
    requires
        ds.len() <= usize::MAX,
    ensures
        forall|j: int|
            0 <= j < diag_spans(ds, starts, len).len() ==> {
                let s = #[trigger] diag_spans(ds, starts, len)[j];
                s.index < ds.len() && span_of(ds[s.index as int], s.index as int, starts, len) == Some(s)
            },
        0 <= i < ds.len() && span_of(ds[i], i, starts, len) is Some ==> diag_spans(
            ds,
            starts,
            len,
        ).contains(span_of(ds[i], i, starts, len)->0),
    decreases ds.len(),
{
    if ds.len() > 0 {
        let t = ds.drop_last();
        let n = ds.len() - 1;
        lemma_spans_name_diagnostics(t, starts, len, i);
        let rest = diag_spans(t, starts, len);
        let all = diag_spans(ds, starts, len);
        assert forall|j: int| 0 <= j < all.len() implies ({
            let s = #[trigger] all[j];
            s.index < ds.len() && span_of(ds[s.index as int], s.index as int, starts, len) == Some(s)
        }) by {
            if j < rest.len() {
                assert(all[j] == rest[j]);
                assert(t[rest[j].index as int] == ds[rest[j].index as int]);
            }
        }
        if 0 <= i < n && span_of(ds[i], i, starts, len) is Some {
            assert(t[i] == ds[i]);
            let s = span_of(ds[i], i, starts, len)->0;
            let j = choose|j: int| 0 <= j < rest.len() && rest[j] == s;
            assert(all[j] == s);
        }
        if i == n && span_of(ds[i], i, starts, len) is Some {
            assert(all[rest.len() as int] == span_of(ds[i], i, starts, len)->0);
        }
    }
}

/// The diagnostic that is shown is one that covers the cursor; where one does, one
/// is shown.
pub proof fn the_diagnostic_at_the_cursor_is_shown(v: RenderView, cols: int, rows: int, i: int)
    requires
        v.diags.len() <= usize::MAX,
    ensures
        ({
            let len = v.text.len() as int;
            let head = v.sels.prime().head as int;
            let covers = |k: int|
                {
                    &&& 0 <= k < v.diags.len()
                    &&& span_of(v.diags[k], k, v.starts, len) matches Some(s) && s.start <= head
                        < s.end
                };
            &&& v.hovered(cols, rows) matches Some(d) ==> exists|k: int| #[trigger]
                covers(k) && v.diags[k] == d
            &&& covers(i) ==> v.hovered(cols, rows) is Some
        }),
{
    let len = v.text.len() as int;
    let head = v.sels.prime().head as int;
    let covers = |k: int|
        {
            &&& 0 <= k < v.diags.len()
            &&& span_of(v.diags[k], k, v.starts, len) matches Some(s) && s.start <= head < s.end
        };
    let sp = diag_spans(v.diags, v.starts, len);
    lemma_spans_name_diagnostics(v.diags, v.starts, len, i);
    lemma_first_covering(sp, head, 0);
    if let Some(s) = covering(sp, head, 0) {
        let j = choose|j: int| 0 <= j < sp.len() && #[trigger] sp[j] == s && s.start <= head < s.end;
        assert(sp[j] == s);
        assert(covers(s.index as int));
    }
    if covers(i) {
        let s = span_of(v.diags[i], i, v.starts, len)->0;
        let j = choose|j: int| 0 <= j < sp.len() && sp[j] == s;
        assert(sp[j].start <= head < sp[j].end);
    }
}

/// From no style at all, what is written turns on each part of the new one; one
/// part alone is turned on, changed or turned off by its own sequence.
pub proof fn styles_are_turned_on_and_off(a: Seq<char>, b: Seq<char>, s: StyleView)
    requires
        a != b,
    ensures
        ({
            let part = |o: Option<Seq<char>>|
                match o {
                    Some(x) => raw(x),
                    None => Seq::<u8>::empty(),
                };
            restyled(plain(), s) == part(s.fg) + part(s.bg) + part(s.ul)
        }),
        restyled(StyleView { fg: Some(a), ..s }, StyleView { fg: Some(b), ..s }) == raw(b),
        restyled(StyleView { bg: Some(a), ..s }, StyleView { bg: Some(b), ..s }) == raw(b),
        restyled(StyleView { ul: Some(a), ..s }, StyleView { ul: Some(b), ..s }) == raw(b),
        restyled(StyleView { fg: Some(a), ..s }, StyleView { fg: None, ..s }) == raw("\x1b[39m"@),
        restyled(StyleView { bg: Some(a), ..s }, StyleView { bg: None, ..s }) == raw("\x1b[49m"@),
        restyled(StyleView { ul: Some(a), ..s }, StyleView { ul: None, ..s }) == raw(
            "\x1b[24;59m"@,
        ),
        restyled(StyleView { fg: None, ..s }, StyleView { fg: Some(b), ..s }) == raw(b),
        restyled(StyleView { bg: None, ..s }, StyleView { bg: Some(b), ..s }) == raw(b),
        restyled(StyleView { ul: None, ..s }, StyleView { ul: Some(b), ..s }) == raw(b),
{
    let e = Seq::<u8>::empty();
    let part = |o: Option<Seq<char>>|
        match o {
            Some(x) => raw(x),
            None => Seq::<u8>::empty(),
        };
    assert(restyled(plain(), s) =~= part(s.fg) + part(s.bg) + part(s.ul));
    assert(restyled(StyleView { fg: Some(a), ..s }, StyleView { fg: Some(b), ..s }) =~= raw(b));
    assert(restyled(StyleView { bg: Some(a), ..s }, StyleView { bg: Some(b), ..s }) =~= raw(b));
    assert(restyled(StyleView { ul: Some(a), ..s }, StyleView { ul: Some(b), ..s }) =~= raw(b));
    assert(restyled(StyleView { fg: Some(a), ..s }, StyleView { fg: None, ..s }) =~= raw(
        "\x1b[39m"@,
    ));
    assert(restyled(StyleView { bg: Some(a), ..s }, StyleView { bg: None, ..s }) =~= raw(
        "\x1b[49m"@,
    ));
    assert(restyled(StyleView { ul: Some(a), ..s }, StyleView { ul: None, ..s }) =~= raw(
        "\x1b[24;59m"@,
    ));
    assert(restyled(StyleView { fg: None, ..s }, StyleView { fg: Some(b), ..s }) =~= raw(b));
    assert(restyled(StyleView { bg: None, ..s }, StyleView { bg: Some(b), ..s }) =~= raw(b));
    assert(restyled(StyleView { ul: None, ..s }, StyleView { ul: Some(b), ..s }) =~= raw(b));
}

/// Without boxes a frame is the text and the status line below it. It ends with
/// the shape of the cursor, its place and the end of the update.
pub proof fn a_bare_frame_is_text_and_status(v: RenderView, cols: int, rows: int)
    requires
        v.hover is None,
        v.prompt is None,
        v.popup.filtered.len() == 0,
        v.hovered(cols, rows) is None,
    ensures
        ({
            let (row, col) = v.cursor_place(cols, rows);
            let vcol = v.cursor(cols, rows).2;
            let shape = if v.mode == Mode::Normal { '2' } else { '6' };
            v.frame(cols, rows) == v.painted(cols, rows) + raw(goto_text(rows, 1)) + raw(
                v.status_shown(vcol, cols),
            ) + raw(seq!['\x1b', '[', shape, ' ', 'q']) + raw(goto_text(row, col)) + raw(
                "\x1b[?25h\x1b[?2026l"@,
            )
        }),
{
    reveal_strlit("\x1b[2 q");
    reveal_strlit("\x1b[6 q");
    assert("\x1b[2 q"@ =~= seq!['\x1b', '[', '2', ' ', 'q']);
    assert("\x1b[6 q"@ =~= seq!['\x1b', '[', '6', ' ', 'q']);
}

/// The scene is the text with what colours it: its selections, its matches and its
/// diagnostics. The gutter and the text share the columns, and one row is left for
/// the status line.
pub proof fn the_scene_fills_the_terminal(v: RenderView, cols: int, rows: int)
    requires
        0 < rows,
        0 <= v.left_col <= u16::MAX,
    ensures
        ({
            let sc = v.scene(cols, rows);
            &&& sc.gutter + sc.content == cols
            &&& sc.rows + 1 == rows
            &&& sc.gutter == gutter_width(v.starts.len() as int, cols)
            &&& sc.left == v.left_col
            &&& sc.text == v.text && sc.head == v.sels.prime().head && sc.mode == v.mode
            &&& sc.matches == v.matches && sc.scopes == v.scopes
            &&& sc.sels == selected_ranges(v.text, v.sels)
        }),
{
}

/// A diagnostic without extent is shown on one byte, where there is one; none is
/// shown behind the last line.
pub proof fn empty_diagnostics_cover_one_byte(
    d: DiagnosticView,
    index: int,
    starts: Seq<usize>,
    len: int,
)
    requires
        0 <= len <= usize::MAX,
        d.start_line == d.end_line,
        d.start_character == d.end_character,
    ensures
        d.start_line >= starts.len() ==> span_of(d, index, starts, len) is None,
        d.start_line < starts.len() && starts[d.start_line as int] + d.start_character < len ==> (
        span_of(d, index, starts, len) matches Some(s) && s.start == starts[d.start_line as int]
            + d.start_character && s.end == s.start + 1),
{
}

/// A text of one line without colours and control characters, which fits the
/// window, is drawn as the line's number and the text.
pub proof fn a_plain_text_is_its_number_and_itself(frame: Seq<u8>, sc: SceneView, top_line: int)
    requires
        shown_whole(sc, 0, sc.text.len() as int, 1, 1),
        forall|i: int| 0 <= i < sc.text.len() ==> #[trigger] sc.style_at(i) == plain(),
        sc.gutter > 0,
        sc.left == 0,
    ensures
        text_painted(frame, sc, 0, top_line) == frame + raw(goto_text(1, 1)) + raw(
            lineno_text(top_line + 1, sc.gutter),
        ) + sc.text,
{
    let p = first_pen(frame, sc, top_line);
    let n = sc.text.len() as int;
    a_plain_line_is_written_as_it_is(sc, p, 0, n, 1, 1, top_line + 1);
    assert(sc.text.subrange(0, n) =~= sc.text);
    let c = 1 + chars_in(sc.text, 0, n);
    assert(sc.strokes(n, 1, c, top_line + 1) =~= Seq::<Stroke>::empty());
}

}
