//! Operators: what deleting, changing, pasting and typing do to a buffer, its
//! selections and the register.
use vstd::prelude::*;
use vstd::utf8::valid_utf8;
use crate::buffer::{
    collect_bytes, lemma_text_len, Buffer, BufferView, CursorSnapshot, Snapshot,
};
use crate::motion::{motion_word_backward, word_backward};
use crate::selection::{
    apply_snapshot, from_snapshot, lemma_list_len, sel_max, sel_min, snapshot, snapshot_of, text_order,
    text_order_is_sorted, Mode, Registers, Selection, Selections, SelectionsView,
};
use crate::text::{
    column_at, display_col, imax, imin, lemma_char_start_bounds, lemma_line_start_bounds, line_end,
    line_end_of, line_start, line_start_of, next_char_or_end, next_char_or_end_of, prev_char,
    prev_char_of, snap_is_idempotent, snap_of, snap_to_char_or_last, text_fits, NL,
};
use crate::text::{
    char_len, char_start, is_cont, lemma_first_char, lemma_no_break_before, lemma_no_break_upto,
    lemma_prev_of_next, lemma_whole_char, on_char,
};

verus! {

// ---------------------------------------------------------------------------
// Limits
// ---------------------------------------------------------------------------

/// The text stays countable when `n` bytes are added to it.
pub open spec fn has_room(s: Seq<u8>, n: int) -> bool {
    4 * (s.len() + n) < usize::MAX
}

/// Offsets small enough that they can still be moved.
pub open spec fn sel_fits(sel: Selection) -> bool {
    4 * sel.anchor < usize::MAX && 4 * sel.head < usize::MAX
}

pub open spec fn all_fit(list: Seq<Selection>) -> bool {
    forall|i: int| 0 <= i < list.len() ==> sel_fits(#[trigger] list[i])
}

/// A copy of the bytes from `a` to `b`.
pub fn copy_range(bytes: &[u8], a: usize, b: usize) -> (r: Vec<u8>)
    requires
        a <= b <= bytes@.len(),
    ensures
        r@ == bytes@.subrange(a as int, b as int),
{
    let mut r: Vec<u8> = Vec::new();
    r.extend_from_slice(vstd::slice::slice_subrange(bytes, a, b));
    assert(r@ =~= bytes@.subrange(a as int, b as int));
    r
}

fn newline() -> (r: Vec<u8>)
    ensures
        r@ == seq![NL],
{
    let mut r: Vec<u8> = Vec::new();
    r.push(NL);
    assert(r@ =~= seq![NL]);
    r
}

// ---------------------------------------------------------------------------
// One selection
// ---------------------------------------------------------------------------

/// Offset behind the last character of a selection.
pub open spec fn sel_end(s: Seq<u8>, sel: Selection) -> int {
    next_char_or_end_of(s, sel_max(sel))
}

/// The register after a selection was yanked: its text, or `reg` when it
/// holds none.
pub open spec fn yanked(s: Seq<u8>, sel: Selection, reg: Seq<u8>) -> Seq<u8> {
    if sel_end(s, sel) > sel_min(sel) {
        s.subrange(sel_min(sel), sel_end(s, sel))
    } else {
        reg
    }
}

/// How many bytes a selection covers.
pub open spec fn covered(s: Seq<u8>, sel: Selection) -> int {
    imax(sel_end(s, sel) - sel_min(sel), 0)
}

/// A collapsed selection at `h`.
pub open spec fn cursor_at(s: Seq<u8>, h: int) -> Selection {
    Selection { anchor: h as usize, head: h as usize, desired_col: column_at(s, h) as usize }
}

pub fn op_yank(buffer: &Buffer, sel: &Selection, registers: &mut Registers)
    requires
        buffer.wf(),
    ensures
        final(registers).default@ == yanked(buffer@.text, *sel, old(registers).default@),
{
    let bytes = collect_bytes(buffer);
    let min: usize = sel.min();
    let last: usize = next_char_or_end(bytes.as_slice(), sel.max());
    if last > min {
        registers.default = copy_range(bytes.as_slice(), min, last);
    }
}

pub open spec fn after_delete(v: BufferView, sel: Selection) -> BufferView {
    if covered(v.text, sel) > 0 {
        v.marked(snapshot(sel)).deleted(sel_min(sel), covered(v.text, sel))
    } else {
        v
    }
}

pub fn op_delete(buffer: &mut Buffer, sel: &mut Selection, registers: &mut Registers)
    requires
        old(buffer).wf(),
        text_fits(old(buffer)@.text),
    ensures
        final(buffer).wf(),
        text_fits(final(buffer)@.text),
        final(registers).default@ == yanked(old(buffer)@.text, *old(sel), old(registers).default@),
        final(buffer)@ == after_delete(old(buffer)@, *old(sel)),
        *final(sel) == (if old(buffer)@.text.len() == 0 {
            *old(sel)
        } else {
            cursor_at(final(buffer)@.text, snap_of(final(buffer)@.text, sel_min(*old(sel))))
        }),
{
    let bytes = collect_bytes(buffer);
    if bytes.len() == 0 {
        return;
    }
    let min: usize = sel.min();
    let last: usize = next_char_or_end(bytes.as_slice(), sel.max());
    if last > min {
        registers.default = copy_range(bytes.as_slice(), min, last);
        buffer.mark_commit_point(snapshot_of(sel));
        buffer.delete(min, last - min);
    }
    let now = collect_bytes(buffer);
    let head: usize = snap_to_char_or_last(now.as_slice(), min);
    sel.head = head;
    sel.anchor = head;
    sel.desired_col = display_col(now.as_slice(), line_start(now.as_slice(), head), head);
}

pub fn op_change(
    buffer: &mut Buffer,
    sel: &mut Selection,
    mode: &mut Mode,
    registers: &mut Registers,
)
    requires
        old(buffer).wf(),
    ensures
        final(buffer).wf(),
        final(registers).default@ == yanked(old(buffer)@.text, *old(sel), old(registers).default@),
        final(buffer)@ == old(buffer)@.marked(snapshot(*old(sel))).deleted(
            sel_min(*old(sel)),
            covered(old(buffer)@.text, *old(sel)),
        ),
        final(sel).anchor == sel_min(*old(sel)),
        final(sel).head == sel_min(*old(sel)),
        final(sel).desired_col == old(sel).desired_col,
        *final(mode) == Mode::Insert,
{
    let bytes = collect_bytes(buffer);
    let min: usize = sel.min();
    let last: usize = next_char_or_end(bytes.as_slice(), sel.max());
    buffer.mark_commit_point(snapshot_of(sel));
    if last > min {
        registers.default = copy_range(bytes.as_slice(), min, last);
        buffer.delete(min, last - min);
    }
    sel.head = min;
    sel.anchor = min;
    *mode = Mode::Insert;
}

/// Where pasting after a selection inserts: behind it, but before a line
/// break that it ends on.
pub open spec fn paste_point(s: Seq<u8>, sel: Selection) -> int {
    if s.len() == 0 {
        0
    } else if sel_max(sel) < s.len() && s[sel_max(sel)] == NL {
        sel_max(sel)
    } else {
        sel_end(s, sel)
    }
}

/// The state after `reg` was pasted at `at`: the pasted text is selected.
pub open spec fn pasted(v: BufferView, sel: Selection, reg: Seq<u8>, at: int) -> (
    BufferView,
    Selection,
) {
    if reg.len() == 0 {
        (v, sel)
    } else {
        let w = v.marked(snapshot(sel)).inserted(at, reg);
        let head = snap_of(w.text, at + reg.len() - 1);
        (
            w,
            Selection {
                anchor: at as usize,
                head: head as usize,
                desired_col: column_at(w.text, head) as usize,
            },
        )
    }
}

fn paste_at(buffer: &mut Buffer, sel: &mut Selection, registers: &Registers, at: usize)
    requires
        old(buffer).wf(),
        has_room(old(buffer)@.text, registers.default@.len() as int),
        registers.default@.len() > 0,
        4 * at < usize::MAX,
    ensures
        final(buffer).wf(),
        (final(buffer)@, *final(sel)) == pasted(
            old(buffer)@,
            *old(sel),
            registers.default@,
            at as int,
        ),
        final(buffer)@.text.len() == old(buffer)@.text.len() + registers.default@.len(),
{
    let len: usize = registers.default.len();
    buffer.mark_commit_point(snapshot_of(sel));
    buffer.insert(at, registers.default.as_slice());
    let now = collect_bytes(buffer);
    sel.anchor = at;
    let head: usize = snap_to_char_or_last(now.as_slice(), at + (len - 1));
    sel.head = head;
    sel.desired_col = display_col(now.as_slice(), line_start(now.as_slice(), head), head);
}

pub fn op_paste_after(buffer: &mut Buffer, sel: &mut Selection, registers: &Registers)
    requires
        old(buffer).wf(),
        has_room(old(buffer)@.text, registers.default@.len() as int),
    ensures
        final(buffer).wf(),
        (final(buffer)@, *final(sel)) == pasted(
            old(buffer)@,
            *old(sel),
            registers.default@,
            paste_point(old(buffer)@.text, *old(sel)),
        ),
        final(buffer)@.text.len() == old(buffer)@.text.len() + registers.default@.len(),
{
    if registers.default.len() == 0 {
        return;
    }
    let bytes = collect_bytes(buffer);
    let at: usize = if bytes.len() == 0 {
        0
    } else {
        let max: usize = sel.max();
        if max < bytes.len() && bytes[max] == NL {
            max
        } else {
            next_char_or_end(bytes.as_slice(), max)
        }
    };
    paste_at(buffer, sel, registers, at);
}

pub fn op_paste_before(buffer: &mut Buffer, sel: &mut Selection, registers: &Registers)
    requires
        old(buffer).wf(),
        has_room(old(buffer)@.text, registers.default@.len() as int),
        sel_fits(*old(sel)),
    ensures
        final(buffer).wf(),
        (final(buffer)@, *final(sel)) == pasted(
            old(buffer)@,
            *old(sel),
            registers.default@,
            sel_min(*old(sel)),
        ),
        final(buffer)@.text.len() == old(buffer)@.text.len() + registers.default@.len(),
{
    if registers.default.len() == 0 {
        return;
    }
    let at: usize = sel.min();
    paste_at(buffer, sel, registers, at);
}

/// A new line opened at `at` with the cursor moved to `h`.
pub open spec fn opened(v: BufferView, sel: Selection, at: int) -> BufferView {
    v.marked(snapshot(sel)).inserted(at, seq![NL])
}

pub fn op_open_below(buffer: &mut Buffer, sel: &mut Selection, mode: &mut Mode)
    requires
        old(buffer).wf(),
        has_room(old(buffer)@.text, 1),
    ensures
        final(buffer).wf(),
        ({
            let le = line_end_of(old(buffer)@.text, old(sel).head as int);
            &&& final(buffer)@ == opened(old(buffer)@, *old(sel), le)
            &&& final(sel).head == le + 1
            &&& final(sel).anchor == le + 1
        }),
        final(sel).desired_col == old(sel).desired_col,
        *final(mode) == Mode::Insert,
        final(buffer)@.text.len() == old(buffer)@.text.len() + 1,
{
    let bytes = collect_bytes(buffer);
    let le: usize = line_end(bytes.as_slice(), sel.head);
    buffer.mark_commit_point(snapshot_of(sel));
    let nl = newline();
    buffer.insert(le, nl.as_slice());
    sel.head = le + 1;
    sel.anchor = le + 1;
    *mode = Mode::Insert;
}

pub fn op_open_above(buffer: &mut Buffer, sel: &mut Selection, mode: &mut Mode)
    requires
        old(buffer).wf(),
        has_room(old(buffer)@.text, 1),
    ensures
        final(buffer).wf(),
        ({
            let ls = line_start_of(old(buffer)@.text, old(sel).head as int);
            &&& final(buffer)@ == opened(old(buffer)@, *old(sel), ls)
            &&& final(sel).head == ls
            &&& final(sel).anchor == ls
        }),
        final(sel).desired_col == old(sel).desired_col,
        *final(mode) == Mode::Insert,
        final(buffer)@.text.len() == old(buffer)@.text.len() + 1,
{
    let bytes = collect_bytes(buffer);
    let ls: usize = line_start(bytes.as_slice(), sel.head);
    buffer.mark_commit_point(snapshot_of(sel));
    let nl = newline();
    buffer.insert(ls, nl.as_slice());
    sel.head = ls;
    sel.anchor = ls;
    *mode = Mode::Insert;
}

/// A cursor from the history, put onto characters of the text it goes with.
pub open spec fn restored(s: Seq<u8>, sel: Selection) -> Selection {
    Selection {
        anchor: snap_of(s, sel.anchor as int) as usize,
        head: snap_of(s, sel.head as int) as usize,
        desired_col: sel.desired_col,
    }
}

pub open spec fn undo_selection(v: BufferView, sel: Selection) -> Selection {
    if v.undo.len() == 0 {
        sel
    } else {
        restored(v.undo.last().text, from_snapshot(v.undo.last().cursor))
    }
}

pub open spec fn redo_selection(v: BufferView, sel: Selection) -> Selection {
    if v.redo.len() == 0 {
        sel
    } else {
        restored(v.redo.last().text, from_snapshot(v.redo.last().cursor))
    }
}

pub fn op_undo(buffer: &mut Buffer, sel: &mut Selection)
    requires
        old(buffer).wf(),
    ensures
        final(buffer).wf(),
        final(buffer)@ == old(buffer)@.undone(snapshot(*old(sel))),
        *final(sel) == undo_selection(old(buffer)@, *old(sel)),
{
    match buffer.undo(snapshot_of(sel)) {
        None => {},
        Some(snap) => {
            apply_snapshot(sel, snap);
            let bytes = collect_bytes(buffer);
            sel.head = snap_to_char_or_last(bytes.as_slice(), sel.head);
            sel.anchor = snap_to_char_or_last(bytes.as_slice(), sel.anchor);
        },
    }
}

pub fn op_redo(buffer: &mut Buffer, sel: &mut Selection)
    requires
        old(buffer).wf(),
    ensures
        final(buffer).wf(),
        final(buffer)@ == old(buffer)@.redone(snapshot(*old(sel))),
        *final(sel) == redo_selection(old(buffer)@, *old(sel)),
{
    match buffer.redo(snapshot_of(sel)) {
        None => {},
        Some(snap) => {
            apply_snapshot(sel, snap);
            let bytes = collect_bytes(buffer);
            sel.head = snap_to_char_or_last(bytes.as_slice(), sel.head);
            sel.anchor = snap_to_char_or_last(bytes.as_slice(), sel.anchor);
        },
    }
}

// ---------------------------------------------------------------------------
// All selections
// ---------------------------------------------------------------------------

/// An edit that is under way at several cursors: how far it has got, and by
/// how much it has moved what stands behind it.
#[verifier::ext_equal]
pub struct Multi {
    pub buf: BufferView,
    pub list: Seq<Selection>,
    pub shift: int,
}

pub open spec fn start_multi(v: BufferView, list: Seq<Selection>) -> Multi {
    Multi { buf: v, list, shift: 0 }
}

pub open spec fn moved_by(sel: Selection, shift: int) -> Selection {
    Selection {
        anchor: imax(sel.anchor + shift, 0) as usize,
        head: imax(sel.head + shift, 0) as usize,
        desired_col: sel.desired_col,
    }
}

/// `t` typed at the head of selection `i`.
pub open spec fn typed_one(m: Multi, i: int, t: Seq<u8>) -> Multi {
    let sel = moved_by(m.list[i], m.shift);
    Multi {
        buf: m.buf.inserted(sel.head as int, t),
        list: m.list.update(i, Selection { head: (sel.head + t.len()) as usize, ..sel }),
        shift: m.shift + t.len(),
    }
}

/// `t` typed at the first `k` selections in text order.
pub open spec fn typed_upto(m: Multi, order: Seq<int>, k: int, t: Seq<u8>) -> Multi
    decreases k,
{
    if k <= 0 {
        m
    } else {
        typed_one(typed_upto(m, order, k - 1, t), order[k - 1], t)
    }
}

/// `t` typed at every selection.
pub open spec fn typed(v: BufferView, list: Seq<Selection>, t: Seq<u8>) -> Multi {
    if t.len() == 0 {
        start_multi(v, list)
    } else {
        typed_upto(start_multi(v, list), text_order(list), list.len() as int, t)
    }
}

/// What a key that deletes takes away at each cursor.
#[derive(Debug, Clone, Copy, PartialEq, Eq, Structural)]
pub enum Cut {
    /// The selected text.
    Selected,
    /// The rest of the line, or the line break when there is no rest.
    LineEnd,
    /// The line up to the head.
    LineStart,
    /// The word before the head.
    Word,
    /// The character before the head.
    Char,
}

/// Where killing to the end of the line stops.
pub open spec fn kill_stop(s: Seq<u8>, head: int) -> int {
    if head < s.len() && s[head] == NL {
        head + 1
    } else {
        line_end_of(s, head)
    }
}

/// The stretch that is cut, from its first byte to the byte behind its last.
pub open spec fn cut_span(s: Seq<u8>, sel: Selection, cut: Cut) -> (int, int) {
    let h = sel.head as int;
    match cut {
        Cut::Selected => (sel_min(sel), sel_min(sel) + covered(s, sel)),
        Cut::LineEnd => (h, imax(kill_stop(s, h), h)),
        Cut::LineStart => (line_start_of(s, h), h),
        Cut::Word => (word_backward(s, h), h),
        Cut::Char => (prev_char_of(s, h), h),
    }
}

/// The anchor after a cut that moved the head to `at`.
pub open spec fn cut_anchor(sel: Selection, cut: Cut, at: int, len: int) -> int {
    match cut {
        Cut::Word | Cut::Char => if sel.anchor > at {
            imax(sel.anchor - len, 0)
        } else {
            sel.anchor as int
        },
        _ => at,
    }
}

pub open spec fn cut_one(m: Multi, i: int, cut: Cut) -> Multi {
    let sel = moved_by(m.list[i], m.shift);
    let (at, end) = cut_span(m.buf.text, sel, cut);
    Multi {
        buf: m.buf.deleted(at, end - at),
        list: m.list.update(
            i,
            Selection {
                head: at as usize,
                anchor: cut_anchor(sel, cut, at, end - at) as usize,
                desired_col: sel.desired_col,
            },
        ),
        shift: m.shift - (end - at),
    }
}

pub open spec fn cut_upto(m: Multi, order: Seq<int>, k: int, cut: Cut) -> Multi
    decreases k,
{
    if k <= 0 {
        m
    } else {
        cut_one(cut_upto(m, order, k - 1, cut), order[k - 1], cut)
    }
}

/// The cut made at every selection.
pub open spec fn cut_all(v: BufferView, list: Seq<Selection>, cut: Cut) -> Multi {
    cut_upto(start_multi(v, list), text_order(list), list.len() as int, cut)
}

proof fn lemma_typed_upto(m: Multi, order: Seq<int>, k: int, t: Seq<u8>)
    requires
        0 <= k <= order.len(),
        forall|j: int| 0 <= j < order.len() ==> 0 <= #[trigger] order[j] < m.list.len(),
    ensures
        typed_upto(m, order, k, t).list.len() == m.list.len(),
        typed_upto(m, order, k, t).shift == m.shift + k * t.len(),
        typed_upto(m, order, k, t).buf.text.len() == m.buf.text.len() + k * t.len(),
    decreases k,
{
    if k > 0 {
        lemma_typed_upto(m, order, k - 1, t);
        assert(k * t.len() == (k - 1) * t.len() + t.len()) by (nonlinear_arith);
    } else {
        assert(0 * t.len() == 0) by (nonlinear_arith);
    }
}

proof fn lemma_cut_upto(m: Multi, order: Seq<int>, k: int, cut: Cut)
    requires
        0 <= k <= order.len(),
        forall|j: int| 0 <= j < order.len() ==> 0 <= #[trigger] order[j] < m.list.len(),
        m.shift <= 0,
    ensures
        cut_upto(m, order, k, cut).list.len() == m.list.len(),
        cut_upto(m, order, k, cut).shift <= 0,
        cut_upto(m, order, k, cut).buf.text.len() <= m.buf.text.len(),
    decreases k,
{
    if k > 0 {
        lemma_cut_upto(m, order, k - 1, cut);
        let p = cut_upto(m, order, k - 1, cut);
        lemma_cut_span(p.buf.text, moved_by(p.list[order[k - 1]], p.shift), cut);
    }
}

pub proof fn lemma_cut_span(s: Seq<u8>, sel: Selection, cut: Cut)
    ensures
        0 <= cut_span(s, sel, cut).0 <= cut_span(s, sel, cut).1,
        cut_span(s, sel, cut).0 <= sel.head || cut is Selected,
        cut_span(s, sel, cut).0 <= usize::MAX,
        cut is Selected || cut is LineEnd || cut_span(s, sel, cut).1 == sel.head,
{
    let h = sel.head as int;
    lemma_line_start_bounds(s, h);
    lemma_word_backward_bounds(s, h);
    if h > 0 {
        lemma_char_start_bounds(s, h - 1);
    }
}

pub proof fn lemma_word_backward_bounds(s: Seq<u8>, from: int)
    requires
        0 <= from,
    ensures
        0 <= word_backward(s, from) <= from,
{
    if from > 0 {
        lemma_char_start_bounds(s, from - 1);
        lemma_skip_back_bounds(s, prev_char_of(s, from));
        let i = crate::motion::skip_spaces_back(s, prev_char_of(s, from));
        if i < s.len() {
            lemma_run_start_bounds(s, i, crate::motion::word_byte(s[i]));
        }
    }
}

proof fn lemma_skip_back_bounds(s: Seq<u8>, i: int)
    requires
        0 <= i,
    ensures
        0 <= crate::motion::skip_spaces_back(s, i) <= i,
    decreases i,
{
    if i > 0 && i < s.len() && crate::motion::space_byte(s[i]) {
        lemma_char_start_bounds(s, i - 1);
        lemma_skip_back_bounds(s, prev_char_of(s, i));
    }
}

proof fn lemma_run_start_bounds(s: Seq<u8>, i: int, word: bool)
    requires
        0 <= i,
    ensures
        0 <= crate::motion::run_start(s, i, word) <= i,
    decreases i,
{
    if i > 0 {
        lemma_char_start_bounds(s, i - 1);
        let p = prev_char_of(s, i);
        if p < s.len() && !crate::motion::space_byte(s[p]) && crate::motion::word_byte(s[p])
            == word {
            lemma_run_start_bounds(s, p, word);
        }
    }
}

/// Typing moves no offset by more than the number of bytes typed in all.
pub proof fn lemma_typed_offsets(v: BufferView, list: Seq<Selection>, t: Seq<u8>)
    requires
        all_fit(list),
        list.len() <= usize::MAX,
        has_room(v.text, (t.len() * list.len()) as int),
    ensures
        typed(v, list, t).list.len() == list.len(),
        forall|i: int|
            0 <= i < list.len() ==> (#[trigger] typed(v, list, t).list[i]).anchor <= list[i].anchor
                + t.len() * list.len() && typed(v, list, t).list[i].head <= list[i].head + t.len()
                * list.len(),
{
    let n = list.len() as int;
    let tl = t.len() as int;
    assert(0 <= tl * n) by (nonlinear_arith)
        requires
            0 <= tl,
            0 <= n,
    ;
    if tl > 0 {
        text_order_is_sorted(list);
        assert(n * tl == tl * n) by (nonlinear_arith);
        lemma_typed_upto_offsets(start_multi(v, list), text_order(list), n, t);
    }
}

proof fn lemma_typed_upto_offsets(m: Multi, order: Seq<int>, k: int, t: Seq<u8>)
    requires
        0 <= k <= order.len() == m.list.len(),
        forall|j: int| 0 <= j < order.len() ==> 0 <= #[trigger] order[j] < m.list.len(),
        forall|i: int, j: int|
            0 <= i < j < order.len() ==> (#[trigger] order[i]) != (#[trigger] order[j]),
        m.shift == 0,
        all_fit(m.list),
        4 * (k * t.len()) < usize::MAX,
    ensures
        typed_upto(m, order, k, t).list.len() == m.list.len(),
        forall|i: int|
            0 <= i < m.list.len() ==> ({
                let sel = #[trigger] typed_upto(m, order, k, t).list[i];
                &&& sel.anchor <= m.list[i].anchor + k * t.len()
                &&& sel.head <= m.list[i].head + k * t.len()
                &&& (forall|j: int| 0 <= j < k ==> #[trigger] order[j] != i) ==> sel == m.list[i]
            }),
    decreases k,
{
    let tl = t.len() as int;
    if k > 0 {
        assert(k * tl == (k - 1) * tl + tl) by (nonlinear_arith);
        assert(0 <= (k - 1) * tl) by (nonlinear_arith)
            requires
                k > 0,
                tl >= 0,
        ;
        lemma_typed_upto_offsets(m, order, k - 1, t);
        lemma_typed_upto(m, order, k - 1, t);
        let p = typed_upto(m, order, k - 1, t);
        let c = order[k - 1];
        assert(p.list[c] == m.list[c]);
        assert(sel_fits(m.list[c]));
        assert forall|i: int| 0 <= i < m.list.len() implies ({
            let sel = #[trigger] typed_upto(m, order, k, t).list[i];
            &&& sel.anchor <= m.list[i].anchor + k * t.len()
            &&& sel.head <= m.list[i].head + k * t.len()
            &&& (forall|j: int| 0 <= j < k ==> #[trigger] order[j] != i) ==> sel == m.list[i]
        }) by {
            if i != c {
                assert(typed_upto(m, order, k, t).list[i] == p.list[i]);
            } else {
                assert(order[k - 1] == i);
            }
        }
    } else {
        assert(0 * tl == 0) by (nonlinear_arith);
    }
}

/// Type `text` at every selection's head; selections further on move along.
pub fn insert_text_multi(buffer: &mut Buffer, sels: &mut Selections, text: &[u8])
    requires
        old(buffer).wf(),
        old(sels).wf(),
        all_fit(old(sels)@.list),
        has_room(old(buffer)@.text, (text@.len() * old(sels)@.list.len()) as int),
    ensures
        final(buffer).wf(),
        final(sels).wf(),
        final(buffer)@ == typed(old(buffer)@, old(sels)@.list, text@).buf,
        final(sels)@.list == typed(old(buffer)@, old(sels)@.list, text@).list,
        final(sels)@.primary == old(sels)@.primary,
        final(sels)@.list.len() == old(sels)@.list.len(),
        final(buffer)@.text.len() == old(buffer)@.text.len() + text@.len()
            * old(sels)@.list.len(),
{
    if text.len() == 0 {
        assert(0 * sels@.list.len() == 0) by (nonlinear_arith);
        return;
    }
    let indices = sels.indices_by_position();
    let ghost list0 = sels@.list;
    let ghost order = text_order(list0);
    let ghost m0 = start_multi(buffer@, list0);
    let ghost n = list0.len() as int;
    let ghost tl = text@.len() as int;
    let count: usize = sels.len();
    proof {
        text_order_is_sorted(list0);
        assert(n * tl == tl * n) by (nonlinear_arith);
        assert(0 * tl == 0) by (nonlinear_arith);
    }
    let mut shift: usize = 0;
    let mut k: usize = 0;
    while k < count
        invariant
            k <= count == n == indices@.len() == order.len(),
            buffer.wf(),
            tl == text@.len(),
            tl > 0,
            n == list0.len(),
            order == text_order(list0),
            forall|j: int| 0 <= j < indices@.len() ==> #[trigger] indices@[j] == order[j],
            forall|j: int| 0 <= j < n ==> 0 <= #[trigger] order[j] < n,
            forall|i: int, j: int|
                0 <= i < j < n ==> (#[trigger] order[i]) != (#[trigger] order[j]),
            all_fit(list0),
            has_room(m0.buf.text, tl * n),
            n * tl == tl * n,
            m0.list == list0,
            m0.shift == 0,
            ({
                let m = typed_upto(m0, order, k as int, text@);
                &&& buffer@ == m.buf
                &&& sels@.list == m.list
                &&& shift == m.shift
            }),
            sels@.list.len() == n,
            sels@.primary == old(sels)@.primary,
            forall|i: int|
                0 <= i < n && (forall|j: int| 0 <= j < k ==> #[trigger] order[j] != i)
                    ==> #[trigger] sels@.list[i] == list0[i],
        decreases count - k,
    {
        let idx: usize = indices[k];
        proof {
            lemma_typed_upto(m0, order, k as int, text@);
            assert(k * tl <= n * tl - tl) by (nonlinear_arith)
                requires
                    k < n,
                    tl > 0,
            ;
            assert(sels@.list[idx as int] == list0[idx as int]);
            assert(sel_fits(list0[idx as int]));
        }
        let sel = sels.get(idx);
        let anchor: usize = sel.anchor + shift;
        let head: usize = sel.head + shift;
        buffer.insert(head, text);
        sels.set(
            idx,
            Selection { anchor, head: head + text.len(), desired_col: sel.desired_col },
        );
        shift += text.len();
        k += 1;
        assert(order[k - 1] == idx);
    }
    proof {
        lemma_typed_upto(m0, order, k as int, text@);
    }
}

/// The span that a cut takes out of `bytes` at one cursor.
fn cut_bounds(bytes: &[u8], sel: &Selection, cut: Cut) -> (r: (usize, usize))
    ensures
        r.0 == cut_span(bytes@, *sel, cut).0,
        r.1 == cut_span(bytes@, *sel, cut).1,
{
    proof {
        lemma_cut_span(bytes@, *sel, cut);
    }
    let head: usize = sel.head;
    match cut {
        Cut::Selected => {
            let min: usize = sel.min();
            let last: usize = next_char_or_end(bytes, sel.max());
            (min, if last > min { last } else { min })
        },
        Cut::LineEnd => {
            if head < bytes.len() && bytes[head] == NL {
                (head, head + 1)
            } else {
                let le: usize = line_end(bytes, head);
                (head, if le > head { le } else { head })
            }
        },
        Cut::LineStart => (line_start(bytes, head), head),
        Cut::Word => (motion_word_backward(bytes, head), head),
        Cut::Char => (prev_char(bytes, head), head),
    }
}

/// Make the cut at every selection; selections further on move along.
#[verifier::spinoff_prover]
#[verifier::rlimit(40)]
fn cut_multi(buffer: &mut Buffer, sels: &mut Selections, cut: Cut)
    requires
        old(buffer).wf(),
        old(sels).wf(),
    ensures
        final(buffer).wf(),
        final(sels).wf(),
        final(buffer)@ == cut_all(old(buffer)@, old(sels)@.list, cut).buf,
        final(sels)@.list == cut_all(old(buffer)@, old(sels)@.list, cut).list,
        final(sels)@.primary == old(sels)@.primary,
        final(sels)@.list.len() == old(sels)@.list.len(),
        final(buffer)@.text.len() <= old(buffer)@.text.len(),
{
    let indices = sels.indices_by_position();
    let ghost list0 = sels@.list;
    let ghost order = text_order(list0);
    let ghost m0 = start_multi(buffer@, list0);
    let count: usize = sels.len();
    proof {
        text_order_is_sorted(list0);
    }
    let mut removed: usize = 0;
    let mut k: usize = 0;
    while k < count
        invariant
            k <= count == list0.len() == indices@.len() == order.len(),
            buffer.wf(),
            order == text_order(list0),
            forall|j: int| 0 <= j < indices@.len() ==> #[trigger] indices@[j] == order[j],
            forall|j: int| 0 <= j < order.len() ==> 0 <= #[trigger] order[j] < list0.len(),
            m0.list == list0,
            m0.shift == 0,
            ({
                let m = cut_upto(m0, order, k as int, cut);
                &&& buffer@ == m.buf
                &&& sels@.list == m.list
                &&& m.shift <= 0
                &&& removed == imin(-m.shift, usize::MAX as int)
            }),
            sels@.list.len() == list0.len(),
            sels@.primary == old(sels)@.primary,
        decreases count - k,
    {
        let idx: usize = indices[k];
        let now = collect_bytes(buffer);
        let old_sel = sels.get(idx);
        let sel = Selection {
            anchor: old_sel.anchor.saturating_sub(removed),
            head: old_sel.head.saturating_sub(removed),
            desired_col: old_sel.desired_col,
        };
        assert(sel == moved_by(old_sel, cut_upto(m0, order, k as int, cut).shift));
        let (at, end) = cut_bounds(now.as_slice(), &sel, cut);
        proof {
            lemma_cut_span(now@, sel, cut);
        }
        let len: usize = end - at;
        buffer.delete(at, len);
        let anchor: usize = match cut {
            Cut::Word | Cut::Char => {
                if sel.anchor > at {
                    sel.anchor.saturating_sub(len)
                } else {
                    sel.anchor
                }
            },
            _ => at,
        };
        sels.set(idx, Selection { anchor, head: at, desired_col: sel.desired_col });
        removed = removed.saturating_add(len);
        k += 1;
        assert(order[k - 1] == idx);
    }
    proof {
        lemma_cut_upto(m0, order, k as int, cut);
    }
}

/// Every selection snapped onto a character of `s`.
pub open spec fn settled(s: Seq<u8>, list: Seq<Selection>) -> Seq<Selection> {
    list.map_values(
        |sel: Selection|
            Selection {
                anchor: snap_of(s, sel.anchor as int) as usize,
                head: snap_of(s, sel.head as int) as usize,
                desired_col: column_at(s, snap_of(s, sel.head as int)) as usize,
            },
    )
}

/// The state after every selection's text was deleted.
pub open spec fn deleted_all(v: BufferView, sels: SelectionsView) -> (BufferView, SelectionsView) {
    if v.text.len() == 0 {
        (v, sels)
    } else {
        let m = cut_all(v.marked(snapshot(sels.prime())), sels.list, Cut::Selected);
        (
            m.buf,
            SelectionsView { list: settled(m.buf.text, m.list), primary: sels.primary },
        )
    }
}

/// Every cursor where its deletion happened, its column kept in step.
pub open spec fn left_there(s: Seq<u8>, list: Seq<Selection>) -> Seq<Selection> {
    list.map_values(
        |sel: Selection|
            Selection { desired_col: column_at(s, sel.head as int) as usize, ..sel },
    )
}

/// The state after every selection's text was deleted to be typed anew.
pub open spec fn changed_all(v: BufferView, sels: SelectionsView) -> (BufferView, SelectionsView) {
    if v.text.len() == 0 {
        (v, sels)
    } else {
        let m = cut_all(v.marked(snapshot(sels.prime())), sels.list, Cut::Selected);
        (
            m.buf,
            SelectionsView { list: left_there(m.buf.text, m.list), primary: sels.primary },
        )
    }
}

/// Delete the text of every selection, in text order. The primary's text goes
/// to the register.
pub fn op_delete_multi(buffer: &mut Buffer, sels: &mut Selections, registers: &mut Registers)
    requires
        old(buffer).wf(),
        old(sels).wf(),
        text_fits(old(buffer)@.text),
    ensures
        final(buffer).wf(),
        final(sels).wf(),
        (final(buffer)@, final(sels)@) == deleted_all(old(buffer)@, old(sels)@),
        final(registers).default@ == yanked(
            old(buffer)@.text,
            old(sels)@.prime(),
            old(registers).default@,
        ),
        final(buffer)@.text.len() <= old(buffer)@.text.len(),
        final(sels)@.list.len() == old(sels)@.list.len(),
{
    let bytes = collect_bytes(buffer);
    if bytes.len() == 0 {
        return;
    }
    let primary = *sels.primary();
    op_yank(buffer, &primary, registers);
    buffer.mark_commit_point(snapshot_of(&primary));
    cut_multi(buffer, sels, Cut::Selected);
    let now = collect_bytes(buffer);
    let s = now.as_slice();
    let ghost list1 = sels@.list;
    let mut i: usize = 0;
    let n: usize = sels.len();
    while i < n
        invariant
            i <= n == list1.len() == sels@.list.len(),
            text_fits(s@),
            sels@.primary == old(sels)@.primary,
            forall|j: int| 0 <= j < i ==> #[trigger] sels@.list[j] == settled(s@, list1)[j],
            forall|j: int| i <= j < n ==> #[trigger] sels@.list[j] == list1[j],
        decreases n - i,
    {
        let sel = sels.get(i);
        let head: usize = snap_to_char_or_last(s, sel.head);
        let anchor: usize = snap_to_char_or_last(s, sel.anchor);
        let desired_col: usize = display_col(s, line_start(s, head), head);
        sels.set(i, Selection { anchor, head, desired_col });
        i += 1;
    }
    assert(sels@.list =~= settled(s@, list1));
}

/// Delete the text of every selection and start inserting. Each cursor lands
/// where its deletion happened.
pub fn op_change_multi(
    buffer: &mut Buffer,
    sels: &mut Selections,
    mode: &mut Mode,
    registers: &mut Registers,
)
    requires
        old(buffer).wf(),
        old(sels).wf(),
        text_fits(old(buffer)@.text),
    ensures
        final(buffer).wf(),
        final(sels).wf(),
        (final(buffer)@, final(sels)@) == changed_all(old(buffer)@, old(sels)@),
        final(registers).default@ == yanked(
            old(buffer)@.text,
            old(sels)@.prime(),
            old(registers).default@,
        ),
        *final(mode) == Mode::Insert,
        final(buffer)@.text.len() <= old(buffer)@.text.len(),
        final(sels)@.list.len() == old(sels)@.list.len(),
{
    *mode = Mode::Insert;
    let bytes = collect_bytes(buffer);
    if bytes.len() == 0 {
        return;
    }
    let primary = *sels.primary();
    op_yank(buffer, &primary, registers);
    buffer.mark_commit_point(snapshot_of(&primary));
    cut_multi(buffer, sels, Cut::Selected);
    let now = collect_bytes(buffer);
    let s = now.as_slice();
    let ghost list1 = sels@.list;
    let mut i: usize = 0;
    let n: usize = sels.len();
    while i < n
        invariant
            i <= n == list1.len() == sels@.list.len(),
            text_fits(s@),
            sels@.primary == old(sels)@.primary,
            forall|j: int| 0 <= j < i ==> #[trigger] sels@.list[j] == left_there(s@, list1)[j],
            forall|j: int| i <= j < n ==> #[trigger] sels@.list[j] == list1[j],
        decreases n - i,
    {
        let sel = sels.get(i);
        let desired_col: usize = display_col(s, line_start(s, sel.head), sel.head);
        sels.set(i, Selection { anchor: sel.anchor, head: sel.head, desired_col });
        i += 1;
    }
    assert(sels@.list =~= left_there(s@, list1));
}

/// The register after a kill to the end of the line.
pub open spec fn killed_end(s: Seq<u8>, head: int, reg: Seq<u8>) -> Seq<u8> {
    if kill_stop(s, head) > head {
        s.subrange(head, kill_stop(s, head))
    } else {
        reg
    }
}

/// The register after a kill to the start of the line.
pub open spec fn killed_start(s: Seq<u8>, head: int, reg: Seq<u8>) -> Seq<u8> {
    if head > line_start_of(s, head) {
        s.subrange(line_start_of(s, head), head)
    } else {
        reg
    }
}

/// Kill from each head to the end of its line, or the line break when the
/// head is already there. The primary's text goes to the register.
pub fn kill_to_line_end_multi(
    buffer: &mut Buffer,
    sels: &mut Selections,
    registers: &mut Registers,
)
    requires
        old(buffer).wf(),
        old(sels).wf(),
    ensures
        final(buffer).wf(),
        final(sels).wf(),
        final(buffer)@ == cut_all(old(buffer)@, old(sels)@.list, Cut::LineEnd).buf,
        final(sels)@.list == cut_all(old(buffer)@, old(sels)@.list, Cut::LineEnd).list,
        final(sels)@.primary == old(sels)@.primary,
        final(registers).default@ == killed_end(
            old(buffer)@.text,
            old(sels)@.prime().head as int,
            old(registers).default@,
        ),
        final(buffer)@.text.len() <= old(buffer)@.text.len(),
        final(sels)@.list.len() == old(sels)@.list.len(),
        takes_at_cursors(
            old(buffer)@.text,
            old(sels)@.list,
            Cut::LineEnd,
            final(buffer)@.text,
        ),
{
    let bytes = collect_bytes(buffer);
    let head: usize = sels.primary().head;
    let stop: usize = if head < bytes.len() && bytes[head] == NL {
        head + 1
    } else {
        line_end(bytes.as_slice(), head)
    };
    if stop > head {
        registers.default = copy_range(bytes.as_slice(), head, stop);
    }
    proof {
        lemma_text_len(buffer);
        lemma_list_len(sels);
        lemma_takes_at_cursors(buffer@, sels@.list, Cut::LineEnd);
    }
    cut_multi(buffer, sels, Cut::LineEnd);
}

/// Kill from the start of each line to the head on it. The primary's text
/// goes to the register.
pub fn kill_to_line_start_multi(
    buffer: &mut Buffer,
    sels: &mut Selections,
    registers: &mut Registers,
)
    requires
        old(buffer).wf(),
        old(sels).wf(),
        old(sels)@.prime().head <= old(buffer)@.text.len(),
    ensures
        final(buffer).wf(),
        final(sels).wf(),
        final(buffer)@ == cut_all(old(buffer)@, old(sels)@.list, Cut::LineStart).buf,
        final(sels)@.list == cut_all(old(buffer)@, old(sels)@.list, Cut::LineStart).list,
        final(sels)@.primary == old(sels)@.primary,
        final(registers).default@ == killed_start(
            old(buffer)@.text,
            old(sels)@.prime().head as int,
            old(registers).default@,
        ),
        final(buffer)@.text.len() <= old(buffer)@.text.len(),
        final(sels)@.list.len() == old(sels)@.list.len(),
        takes_at_cursors(
            old(buffer)@.text,
            old(sels)@.list,
            Cut::LineStart,
            final(buffer)@.text,
        ),
{
    let bytes = collect_bytes(buffer);
    let head: usize = sels.primary().head;
    let ls: usize = line_start(bytes.as_slice(), head);
    if head > ls {
        registers.default = copy_range(bytes.as_slice(), ls, head);
    }
    proof {
        lemma_text_len(buffer);
        lemma_list_len(sels);
        lemma_takes_at_cursors(buffer@, sels@.list, Cut::LineStart);
    }
    cut_multi(buffer, sels, Cut::LineStart);
}

/// Delete the word before each head.
pub fn delete_word_backward_multi(buffer: &mut Buffer, sels: &mut Selections)
    requires
        old(buffer).wf(),
        old(sels).wf(),
    ensures
        final(buffer).wf(),
        final(sels).wf(),
        final(buffer)@ == cut_all(old(buffer)@, old(sels)@.list, Cut::Word).buf,
        final(sels)@.list == cut_all(old(buffer)@, old(sels)@.list, Cut::Word).list,
        final(sels)@.primary == old(sels)@.primary,
        final(buffer)@.text.len() <= old(buffer)@.text.len(),
        final(sels)@.list.len() == old(sels)@.list.len(),
        takes_at_cursors(
            old(buffer)@.text,
            old(sels)@.list,
            Cut::Word,
            final(buffer)@.text,
        ),
{
    proof {
        lemma_text_len(buffer);
        lemma_list_len(sels);
        lemma_takes_at_cursors(buffer@, sels@.list, Cut::Word);
    }
    cut_multi(buffer, sels, Cut::Word);
}

/// Delete the character before each head.
pub fn backspace_multi(buffer: &mut Buffer, sels: &mut Selections)
    requires
        old(buffer).wf(),
        old(sels).wf(),
    ensures
        final(buffer).wf(),
        final(sels).wf(),
        final(buffer)@ == cut_all(old(buffer)@, old(sels)@.list, Cut::Char).buf,
        final(sels)@.list == cut_all(old(buffer)@, old(sels)@.list, Cut::Char).list,
        final(sels)@.primary == old(sels)@.primary,
        final(buffer)@.text.len() <= old(buffer)@.text.len(),
        final(sels)@.list.len() == old(sels)@.list.len(),
        takes_at_cursors(
            old(buffer)@.text,
            old(sels)@.list,
            Cut::Char,
            final(buffer)@.text,
        ),
{
    proof {
        lemma_text_len(buffer);
        lemma_list_len(sels);
        lemma_takes_at_cursors(buffer@, sels@.list, Cut::Char);
    }
    cut_multi(buffer, sels, Cut::Char);
}

// ---------------------------------------------------------------------------
// Laws
// ---------------------------------------------------------------------------

/// Cursors within the text that select nothing.
pub open spec fn cursors_in(s: Seq<u8>, list: Seq<Selection>) -> bool {
    forall|i: int|
        0 <= i < list.len() ==> (#[trigger] list[i]).anchor == list[i].head && list[i].head
            <= s.len()
}

/// Typing with several cursors types at each of them: afterwards every cursor
/// stands right behind its own copy of the text.
pub proof fn every_cursor_follows_its_copy(v: BufferView, list: Seq<Selection>, t: Seq<u8>)
    requires
        list.len() <= usize::MAX,
        cursors_in(v.text, list),
        has_room(v.text, (t.len() * list.len()) as int),
        t.len() > 0,
    ensures
        ({
            let m = typed(v, list, t);
            &&& m.list.len() == list.len()
            &&& m.buf.text.len() == v.text.len() + t.len() * list.len()
            &&& forall|i: int|
                0 <= i < list.len() ==> t.len() <= (#[trigger] m.list[i]).head <= m.buf.text.len()
                    && m.buf.text.subrange(m.list[i].head - t.len(), m.list[i].head as int) == t
        }),
{
    let n = list.len() as int;
    let m0 = start_multi(v, list);
    let order = text_order(list);
    text_order_is_sorted(list);
    assert(n * t.len() == t.len() * n) by (nonlinear_arith);
    lemma_typed_upto(m0, order, n, t);
    lemma_copies(m0, order, n, t);
    let m = typed(v, list, t);
    assert forall|i: int| 0 <= i < n implies t.len() <= (#[trigger] m.list[i]).head
        <= m.buf.text.len() && m.buf.text.subrange(m.list[i].head - t.len(), m.list[i].head as int)
        == t by {
        lemma_order_hits(list, i);
        let j = choose|j: int| 0 <= j < n && order[j] == i;
        assert(copied(m, m0, order, j, t));
    }
}

/// Every selection has its turn in the text order.
proof fn lemma_order_hits(list: Seq<Selection>, i: int)
    requires
        0 <= i < list.len() <= usize::MAX,
    ensures
        exists|j: int| 0 <= j < list.len() && text_order(list)[j] == i,
{
    let ps = crate::selection::placed(list);
    let r = crate::sort::ranked(ps);
    crate::sort::ranked_is_a_ranked_permutation(ps);
    broadcast use vstd::seq_lib::group_to_multiset_ensures;

    assert(ps.contains(ps[i]));
    assert(r.to_multiset().count(ps[i]) > 0);
    assert(r.contains(ps[i]));
    let j = choose|j: int| 0 <= j < r.len() && r[j] == ps[i];
    assert(text_order(list)[j] == i);
}

/// The `j`-th cursor in text order has typed.
spec fn copied(m: Multi, m0: Multi, order: Seq<int>, j: int, t: Seq<u8>) -> bool {
    let h = m.list[order[j]].head as int;
    &&& h == m0.list[order[j]].head + (j + 1) * t.len()
    &&& t.len() <= h <= m.buf.text.len()
    &&& m.buf.text.subrange(h - t.len(), h) == t
}

#[verifier::spinoff_prover]
#[verifier::rlimit(50)]
proof fn lemma_copies(m0: Multi, order: Seq<int>, k: int, t: Seq<u8>)
    requires
        order == text_order(m0.list),
        m0.list.len() <= usize::MAX,
        0 <= k <= m0.list.len(),
        m0.shift == 0,
        cursors_in(m0.buf.text, m0.list),
        has_room(m0.buf.text, k * t.len()),
        t.len() > 0,
    ensures
        forall|j: int| 0 <= j < k ==> #[trigger] copied(typed_upto(m0, order, k, t), m0, order, j, t),
        forall|i: int|
            0 <= i < m0.list.len() && (forall|j: int| 0 <= j < k ==> #[trigger] order[j] != i)
                ==> #[trigger] typed_upto(m0, order, k, t).list[i] == m0.list[i],
    decreases k,
{
    let tl = t.len() as int;
    if k > 0 {
        text_order_is_sorted(m0.list);
        assert(k * tl == (k - 1) * tl + tl) by (nonlinear_arith);
        lemma_copies(m0, order, k - 1, t);
        lemma_typed_upto(m0, order, k - 1, t);
        let p = typed_upto(m0, order, k - 1, t);
        let m = typed_upto(m0, order, k, t);
        let c = order[k - 1];
        assert(p.list[c] == m0.list[c]);
        let at = m0.list[c].head + (k - 1) * tl;
        assert(0 <= (k - 1) * tl) by (nonlinear_arith)
            requires
                k > 0,
                tl > 0,
        ;
        assert(moved_by(p.list[c], p.shift).head == at);
        let text = p.buf.text;
        assert(m.buf.text == crate::buffer::spliced_in(text, at, t));
        assert(m.buf.text.subrange(at, at + tl) =~= t);
        assert forall|j: int| 0 <= j < k implies #[trigger] copied(m, m0, order, j, t) by {
            if j < k - 1 {
                assert(copied(p, m0, order, j, t));
                assert(order[j] != c);
                let h = p.list[order[j]].head as int;
                assert(m.list[order[j]] == p.list[order[j]]);
                assert((j + 1) * tl <= (k - 1) * tl) by (nonlinear_arith)
                    requires
                        j + 1 <= k - 1,
                        tl > 0,
                ;
                assert(h <= at);
                assert(m.buf.text.subrange(h - tl, h) =~= text.subrange(h - tl, h));
            }
        }
        assert forall|i: int|
            0 <= i < m0.list.len() && (forall|j: int| 0 <= j < k ==> #[trigger] order[j] != i)
            implies #[trigger] m.list[i] == m0.list[i] by {
            assert(order[k - 1] != i);
            assert(p.list[i] == m0.list[i]);
        }
    }
}

/// What is typed at several cursors is undone in one step, which gives back
/// the text and the cursor of the mark.
pub proof fn typing_is_one_undo_step(
    v: BufferView,
    cursor: CursorSnapshot,
    list: Seq<Selection>,
    t: Seq<u8>,
)
    requires
        t.len() > 0,
        list.len() > 0,
    ensures
        typed(v.marked(cursor), list, t).buf.undo == v.marked(cursor).committed().undo,
        typed(v.marked(cursor), list, t).buf.undo.last().text == v.text,
        typed(v.marked(cursor), list, t).buf.undo.last().cursor == cursor,
        typed(v.marked(cursor), list, t).buf.redo.len() == 0,
{
    lemma_typed_history(start_multi(v.marked(cursor), list), text_order(list), list.len() as int, t);
}

proof fn lemma_typed_history(m: Multi, order: Seq<int>, k: int, t: Seq<u8>)
    requires
        t.len() > 0,
        k > 0,
        m.buf.pending is Some,
    ensures
        typed_upto(m, order, k, t).buf.undo == m.buf.committed().undo,
        typed_upto(m, order, k, t).buf.redo == m.buf.committed().redo,
        typed_upto(m, order, k, t).buf.pending is None,
    decreases k,
{
    if k > 1 {
        lemma_typed_history(m, order, k - 1, t);
    } else {
        assert(typed_upto(m, order, 0, t) == m);
    }
}

/// What is deleted at several cursors is undone in one step; deleting nothing
/// leaves the text and the history as they were.
pub proof fn cutting_is_one_undo_step(
    v: BufferView,
    cursor: CursorSnapshot,
    list: Seq<Selection>,
    cut: Cut,
)
    ensures
        ({
            let w = cut_all(v.marked(cursor), list, cut).buf;
            ||| w == v.marked(cursor)
            ||| w.undo == v.marked(cursor).committed().undo && w.undo.last().text == v.text
                && w.undo.last().cursor == cursor
        }),
{
    lemma_cut_history(start_multi(v.marked(cursor), list), text_order(list), list.len() as int, cut);
}

proof fn lemma_cut_history(m: Multi, order: Seq<int>, k: int, cut: Cut)
    requires
        m.buf.pending is Some,
    ensures
        ({
            let w = cut_upto(m, order, k, cut).buf;
            w == m.buf || w.undo == m.buf.committed().undo && w.pending is None
        }),
    decreases k,
{
    if k > 0 {
        lemma_cut_history(m, order, k - 1, cut);
    }
}

/// After deleting, every selection lies in the text and on characters.
pub proof fn deleting_leaves_selections_in_the_text(v: BufferView, sels: SelectionsView)
    requires
        sels.ok(),
        v.text.len() > 0,
        v.text.len() <= usize::MAX,
    ensures
        ({
            let (w, after) = deleted_all(v, sels);
            forall|i: int|
                0 <= i < after.list.len() ==> {
                    let sel = #[trigger] after.list[i];
                    &&& sel.head <= w.text.len() && sel.anchor <= w.text.len()
                    &&& w.text.len() > 0 ==> sel.head < w.text.len() && sel.anchor < w.text.len()
                    &&& snap_of(w.text, sel.head as int) == sel.head
                    &&& snap_of(w.text, sel.anchor as int) == sel.anchor
                }
        }),
{
    let m = cut_all(v.marked(snapshot(sels.prime())), sels.list, Cut::Selected);
    let (w, after) = deleted_all(v, sels);
    lemma_cut_shrinks(
        start_multi(v.marked(snapshot(sels.prime())), sels.list),
        text_order(sels.list),
        sels.list.len() as int,
    );
    assert forall|i: int| 0 <= i < after.list.len() implies ({
        let sel = #[trigger] after.list[i];
        &&& sel.head <= w.text.len() && sel.anchor <= w.text.len()
        &&& w.text.len() > 0 ==> sel.head < w.text.len() && sel.anchor < w.text.len()
        &&& snap_of(w.text, sel.head as int) == sel.head
        &&& snap_of(w.text, sel.anchor as int) == sel.anchor
    }) by {
        snap_is_idempotent(w.text, m.list[i].head as int);
        snap_is_idempotent(w.text, m.list[i].anchor as int);
    }
}

proof fn lemma_cut_shrinks(m: Multi, order: Seq<int>, k: int)
    ensures
        cut_upto(m, order, k, Cut::Selected).buf.text.len() <= m.buf.text.len(),
    decreases k,
{
    if k > 0 {
        lemma_cut_shrinks(m, order, k - 1);
        let p = cut_upto(m, order, k - 1, Cut::Selected);
        lemma_cut_span(p.buf.text, moved_by(p.list[order[k - 1]], p.shift), Cut::Selected);
    }
}

/// Changing replaces: what is typed after the selected text was taken out
/// stands in its place, between the text before and the text behind.
pub proof fn typing_replaces_what_is_changed(v: BufferView, sels: SelectionsView, t: Seq<u8>)
    requires
        sels.list.len() == 1,
        sels.primary == 0,
        sels.prime().anchor < v.text.len(),
        sels.prime().head < v.text.len(),
        t.len() > 0,
        v.text.len() <= usize::MAX,
    ensures
        ({
            let sel = sels.prime();
            let (w, after) = changed_all(v, sels);
            typed(w, after.list, t).buf.text == v.text.take(sel_min(sel)) + t + v.text.skip(
                sel_min(sel) + covered(v.text, sel),
            )
        }),
{
    let sel = sels.prime();
    let m0 = start_multi(v.marked(snapshot(sel)), sels.list);
    let (w, after) = changed_all(v, sels);
    text_order_is_sorted(sels.list);
    assert(text_order(sels.list)[0] == 0);
    assert(cut_upto(m0, text_order(sels.list), 0, Cut::Selected) == m0);
    assert(moved_by(sel, 0) == sel);
    assert(cut_upto(m0, text_order(sels.list), 1, Cut::Selected) == cut_one(m0, 0, Cut::Selected));
    let at = sel_min(sel);
    let end = at + covered(v.text, sel);
    assert(after.list.len() == 1 && after.list[0].head == at);
    text_order_is_sorted(after.list);
    assert(text_order(after.list)[0] == 0);
    let m1 = start_multi(w, after.list);
    assert(typed_upto(m1, text_order(after.list), 0, t) == m1);
    assert(typed_upto(m1, text_order(after.list), 1, t) == typed_one(m1, 0, t));
    assert(moved_by(after.list[0], 0) == after.list[0]);
    if at < end {
        assert(w.text == crate::buffer::cut_out(v.text, at, end));
    }
    assert(crate::buffer::spliced_in(w.text, at, t) =~= v.text.take(at) + t + v.text.skip(end));
}

/// Yanking and pasting back over a deletion gives the text back.
pub proof fn paste_takes_back_delete(v: BufferView, sel: Selection, reg: Seq<u8>)
    requires
        v.text.len() <= usize::MAX,
        covered(v.text, sel) > 0,
    ensures
        ({
            let w = after_delete(v, sel);
            pasted(w, sel, yanked(v.text, sel, reg), sel_min(sel)).0.text == v.text
        }),
{
    crate::buffer::insert_takes_back_delete(
        v.marked(snapshot(sel)),
        sel_min(sel),
        covered(v.text, sel),
    );
}

/// Pasting behind a selection puts the text in at the paste point and selects it
/// up to its last character; one undo takes it out again. Without anything to
/// paste nothing changes.
pub proof fn pasting_selects_what_is_pasted(
    v: BufferView,
    sel: Selection,
    reg: Seq<u8>,
    later: CursorSnapshot,
)
    requires
        valid_utf8(reg),
        v.text.len() + reg.len() <= usize::MAX,
    ensures
        reg.len() == 0 ==> pasted(v, sel, reg, paste_point(v.text, sel)) == (v, sel),
        reg.len() > 0 ==> ({
            let at = paste_point(v.text, sel);
            let (w, after) = pasted(v, sel, reg, at);
            &&& w.text == v.text.take(at) + reg + v.text.skip(at)
            &&& after.anchor == at
            &&& after.head == at + prev_char_of(reg, reg.len() as int)
            &&& w.undone(later).text == v.text
            &&& w.undo.last().cursor == snapshot(sel)
        }),
{
    if reg.len() > 0 {
        lemma_pasted(v, sel, reg, paste_point(v.text, sel));
    }
}

/// What pasting at an offset makes of the text and of the selection.
pub proof fn lemma_pasted(v: BufferView, sel: Selection, reg: Seq<u8>, at: int)
    requires
        valid_utf8(reg),
        reg.len() > 0,
        0 <= at <= v.text.len(),
        v.text.len() + reg.len() <= usize::MAX,
    ensures
        ({
            let (w, after) = pasted(v, sel, reg, at);
            &&& w.text == v.text.take(at) + reg + v.text.skip(at)
            &&& after.anchor == at
            &&& after.head == at + prev_char_of(reg, reg.len() as int)
            &&& w.undo.len() > 0
            &&& w.undo.last() == (Snapshot { text: v.text, cursor: snapshot(sel) })
        }),
{
    let w = pasted(v, sel, reg, at).0;
    lemma_first_char(reg);
    lemma_way_back_within(w.text, reg, at, reg.len() - 1);
    lemma_char_start_bounds(reg, reg.len() - 1);
}

/// The way back from inside a stretch that begins with a character stays in it.
proof fn lemma_way_back_within(s: Seq<u8>, t: Seq<u8>, at: int, q: int)
    requires
        0 <= at,
        at + t.len() <= s.len(),
        forall|j: int| 0 <= j < t.len() ==> #[trigger] s[at + j] == t[j],
        0 <= q < t.len(),
        !is_cont(t[0]),
    ensures
        char_start(s, at + q) == at + char_start(t, q),
    decreases q,
{
    assert(s[at + q] == t[q]);
    if q > 0 && is_cont(t[q]) {
        lemma_way_back_within(s, t, at, q - 1);
    }
}

/// A selection from character to character of a text.
pub open spec fn on_chars(s: Seq<u8>, sel: Selection) -> bool {
    &&& on_char(s, sel.anchor as int) && sel.anchor < s.len()
    &&& on_char(s, sel.head as int) && sel.head < s.len()
}

proof fn lemma_selected(s: Seq<u8>, sel: Selection)
    requires
        valid_utf8(s),
        on_chars(s, sel),
    ensures
        sel_max(sel) < sel_end(s, sel) <= s.len(),
        on_char(s, sel_end(s, sel)),
        prev_char_of(s, sel_end(s, sel)) == sel_max(sel),
        covered(s, sel) == sel_end(s, sel) - sel_min(sel),
        valid_utf8(s.subrange(sel_min(sel), sel_end(s, sel))),
{
    let m = sel_min(sel);
    let e = sel_end(s, sel);
    lemma_whole_char(s, sel_max(sel));
    lemma_prev_of_next(s, sel_max(sel));
    lemma_utf8_between(s, m, e);
}

/// A stretch of UTF-8 from character to character is UTF-8.
proof fn lemma_utf8_between(s: Seq<u8>, a: int, b: int)
    requires
        valid_utf8(s),
        on_char(s, a),
        on_char(s, b),
        a <= b,
    ensures
        valid_utf8(s.subrange(a, b)),
{
    let len = s.len() as int;
    vstd::utf8::is_char_boundary_start_end_of_seq(s);
    if b < len {
        vstd::utf8::is_char_boundary_iff_not_is_continuation_byte(s, b);
    }
    vstd::utf8::valid_utf8_split(s, b);
    let head = s.subrange(0, b);
    vstd::utf8::is_char_boundary_start_end_of_seq(head);
    if a < b {
        vstd::utf8::is_char_boundary_iff_not_is_continuation_byte(head, a);
    }
    vstd::utf8::valid_utf8_split(head, a);
    assert(head.subrange(a, b) =~= s.subrange(a, b));
}

/// Pasting before the cursor takes back a deletion that did not reach the end of
/// the text, and selects what came back up to its last character.
pub proof fn pasting_before_takes_back_delete(v: BufferView, sel: Selection, reg: Seq<u8>)
    requires
        valid_utf8(v.text),
        v.text.len() <= usize::MAX,
        on_chars(v.text, sel),
        sel_end(v.text, sel) < v.text.len(),
    ensures
        ({
            let w = after_delete(v, sel);
            let cursor = cursor_at(w.text, snap_of(w.text, sel_min(sel)));
            let (back, after) = pasted(
                w,
                cursor,
                yanked(v.text, sel, reg),
                sel_min(cursor),
            );
            &&& back.text == v.text
            &&& after.anchor == sel_min(sel)
            &&& after.head == prev_char_of(v.text, sel_end(v.text, sel))
        }),
{
    let s = v.text;
    let m = sel_min(sel);
    let e = sel_end(s, sel);
    let t = s.subrange(m, e);
    lemma_selected(s, sel);
    let w = after_delete(v, sel);
    assert(w.text =~= s.take(m) + s.skip(e));
    assert(w.text[m] == s[e]);
    let cursor = cursor_at(w.text, snap_of(w.text, m));
    assert(sel_min(cursor) == m);
    lemma_pasted(w, cursor, t, m);
    assert(w.text.take(m) + t + w.text.skip(m) =~= s);
    lemma_first_char(t);
    lemma_way_back_within(s, t, m, t.len() - 1);
}

/// Undoing a deletion gives back the text and the selection. With nothing to
/// undo nothing changes.
pub proof fn undo_takes_back_delete(v: BufferView, sel: Selection, now: Selection)
    requires
        valid_utf8(v.text),
        v.text.len() <= usize::MAX,
        on_chars(v.text, sel),
    ensures
        ({
            let w = after_delete(v, sel);
            &&& w.undone(snapshot(now)).text == v.text
            &&& undo_selection(w, now) == sel
        }),
        v.undo.len() == 0 ==> v.undone(snapshot(now)) == v && undo_selection(v, now) == now,
{
    lemma_selected(v.text, sel);
}

/// The byte at `p` is selected.
pub open spec fn selected_byte(s: Seq<u8>, list: Seq<Selection>, p: int) -> bool {
    exists|i: int|
        0 <= i < list.len() && sel_min(#[trigger] list[i]) <= p < sel_end(s, list[i])
}

/// The bytes before `n` that are not selected.
pub open spec fn unselected(s: Seq<u8>, list: Seq<Selection>, n: int) -> Seq<u8>
    decreases n,
{
    if n <= 0 {
        Seq::empty()
    } else if selected_byte(s, list, n - 1) {
        unselected(s, list, n - 1)
    } else {
        unselected(s, list, n - 1).push(s[n - 1])
    }
}

/// Selections from character to character, of which no two share a byte.
pub open spec fn apart(s: Seq<u8>, list: Seq<Selection>) -> bool {
    &&& forall|i: int| 0 <= i < list.len() ==> on_chars(s, #[trigger] list[i])
    &&& forall|i: int, j: int|
        0 <= i < list.len() && 0 <= j < list.len() && i != j ==> sel_end(s, #[trigger] list[i])
            <= sel_min(#[trigger] list[j]) || sel_end(s, list[j]) <= sel_min(list[i])
}

proof fn lemma_unselected_run(s: Seq<u8>, list: Seq<Selection>, a: int, b: int)
    requires
        0 <= a <= b <= s.len(),
        forall|p: int| a <= p < b ==> !#[trigger] selected_byte(s, list, p),
    ensures
        unselected(s, list, b) == unselected(s, list, a) + s.subrange(a, b),
    decreases b - a,
{
    if a < b {
        lemma_unselected_run(s, list, a, b - 1);
        assert(s.subrange(a, b) =~= s.subrange(a, b - 1).push(s[b - 1]));
        assert(unselected(s, list, b) =~= unselected(s, list, a) + s.subrange(a, b));
    } else {
        assert(unselected(s, list, b) =~= unselected(s, list, a) + s.subrange(a, b));
    }
}

proof fn lemma_selected_run(s: Seq<u8>, list: Seq<Selection>, a: int, b: int)
    requires
        0 <= a <= b,
        forall|p: int| a <= p < b ==> #[trigger] selected_byte(s, list, p),
    ensures
        unselected(s, list, b) == unselected(s, list, a),
    decreases b - a,
{
    if a < b {
        lemma_selected_run(s, list, a, b - 1);
    }
}

/// Where the `k` first selections in text order end.
spec fn done_upto(s: Seq<u8>, list: Seq<Selection>, k: int) -> int {
    if k <= 0 { 0 } else { sel_end(s, list[text_order(list)[k - 1]]) }
}

/// The selections in text order: each ends before the next begins.
proof fn lemma_in_order(s: Seq<u8>, list: Seq<Selection>, j: int, k: int)
    requires
        valid_utf8(s),
        apart(s, list),
        list.len() <= usize::MAX,
        0 <= j < k < list.len(),
    ensures
        sel_end(s, list[text_order(list)[j]]) <= sel_min(list[text_order(list)[k]]),
{
    text_order_is_sorted(list);
    let a = text_order(list)[j];
    let b = text_order(list)[k];
    lemma_selected(s, list[a]);
    lemma_selected(s, list[b]);
    assert(a != b);
}

/// Between the end of one selection and the start of the next nothing is
/// selected.
proof fn lemma_gap(s: Seq<u8>, list: Seq<Selection>, k: int, p: int)
    requires
        valid_utf8(s),
        apart(s, list),
        list.len() <= usize::MAX,
        0 <= k <= list.len(),
        done_upto(s, list, k) <= p,
        k < list.len() ==> p < sel_min(list[text_order(list)[k]]),
    ensures
        !selected_byte(s, list, p),
{
    text_order_is_sorted(list);
    if selected_byte(s, list, p) {
        let i = choose|i: int|
            0 <= i < list.len() && sel_min(#[trigger] list[i]) <= p < sel_end(s, list[i]);
        lemma_order_hits(list, i);
        let j = choose|j: int| 0 <= j < list.len() && text_order(list)[j] == i;
        if j < k - 1 {
            lemma_in_order(s, list, j, k - 1);
            lemma_selected(s, list[text_order(list)[k - 1]]);
        } else if j > k {
            lemma_in_order(s, list, k, j);
            lemma_selected(s, list[text_order(list)[k]]);
        }
    }
}

/// The cuts so far: the text is what is not selected up to there and all behind
/// it, and each cursor that was cut stands where its text was.
spec fn cut_so_far(m: Multi, s: Seq<u8>, list: Seq<Selection>, k: int) -> bool {
    let done = done_upto(s, list, k);
    &&& 0 <= done <= s.len()
    &&& m.buf.text == unselected(s, list, done) + s.skip(done)
    &&& m.shift == unselected(s, list, done).len() - done
    &&& m.list.len() == list.len()
    &&& forall|j: int|
        0 <= j < k ==> {
            let i = #[trigger] text_order(list)[j];
            let at = unselected(s, list, sel_min(list[i])).len();
            m.list[i].anchor == at && m.list[i].head == at
        }
    &&& forall|j: int|
        k <= j < list.len() ==> m.list[#[trigger] text_order(list)[j]] == list[text_order(list)[j]]
}

proof fn lemma_unselected_len(s: Seq<u8>, list: Seq<Selection>, n: int)
    ensures
        unselected(s, list, n).len() <= imax(n, 0),
    decreases n,
{
    if n > 0 {
        lemma_unselected_len(s, list, n - 1);
    }
}

/// One cut, where what stands before `done` has been cut to `kept` already.
#[verifier::spinoff_prover]
proof fn lemma_one_cut(m: Multi, s: Seq<u8>, c: int, kept: Seq<u8>, done: int)
    requires
        0 <= c < m.list.len(),
        0 <= done <= sel_min(m.list[c]),
        sel_max(m.list[c]) < s.len() <= usize::MAX,
        kept.len() <= done,
        m.buf.text == kept + s.skip(done),
        m.shift == kept.len() - done,
    ensures
        ({
            let sel = m.list[c];
            let (a, e) = (sel_min(sel), sel_end(s, sel));
            let after = cut_one(m, c, Cut::Selected);
            &&& after.buf.text == kept + s.subrange(done, a) + s.skip(e)
            &&& after.shift == m.shift - (e - a)
            &&& after.list.len() == m.list.len()
            &&& after.list[c].anchor == a + m.shift
            &&& after.list[c].head == a + m.shift
            &&& forall|i: int| 0 <= i < m.list.len() && i != c ==> #[trigger] after.list[i]
                == m.list[i]
        }),
{
    let sel = m.list[c];
    let (a, e) = (sel_min(sel), sel_end(s, sel));
    let text = m.buf.text;
    let moved = moved_by(sel, m.shift);
    assert(moved.anchor == sel.anchor + m.shift && moved.head == sel.head + m.shift);
    let top = sel_max(sel);
    assert(text[top + m.shift] == s[top]);
    assert(sel_end(text, moved) == e + m.shift);
    let after = cut_one(m, c, Cut::Selected);
    assert(after.buf.text == crate::buffer::cut_out(text, a + m.shift, e + m.shift));
    assert(after.buf.text =~= kept + s.subrange(done, a) + s.skip(e));
}

/// What is not selected up to the end of the `k`-th selection in text order.
proof fn lemma_unselected_upto(s: Seq<u8>, list: Seq<Selection>, k: int)
    requires
        valid_utf8(s),
        apart(s, list),
        list.len() <= usize::MAX,
        0 <= k < list.len(),
    ensures
        ({
            let sel = list[text_order(list)[k]];
            let done = done_upto(s, list, k);
            let (a, e) = (sel_min(sel), sel_end(s, sel));
            &&& 0 <= done <= a < e <= s.len()
            &&& unselected(s, list, a) == unselected(s, list, done) + s.subrange(done, a)
            &&& unselected(s, list, e) == unselected(s, list, a)
        }),
{
    text_order_is_sorted(list);
    let c = text_order(list)[k];
    let done = done_upto(s, list, k);
    let (a, e) = (sel_min(list[c]), sel_end(s, list[c]));
    lemma_selected(s, list[c]);
    if k > 0 {
        lemma_in_order(s, list, k - 1, k);
        lemma_selected(s, list[text_order(list)[k - 1]]);
    }
    assert forall|p: int| done <= p < a implies !#[trigger] selected_byte(s, list, p) by {
        lemma_gap(s, list, k, p);
    }
    lemma_unselected_run(s, list, done, a);
    assert forall|p: int| a <= p < e implies #[trigger] selected_byte(s, list, p) by {
        assert(sel_min(list[c]) <= p < sel_end(s, list[c]));
    }
    lemma_selected_run(s, list, a, e);
}

#[verifier::spinoff_prover]
proof fn lemma_cut_step(m: Multi, s: Seq<u8>, list: Seq<Selection>, k: int)
    requires
        valid_utf8(s),
        apart(s, list),
        list.len() <= usize::MAX,
        s.len() <= usize::MAX,
        0 <= k < list.len(),
        cut_so_far(m, s, list, k),
    ensures
        cut_so_far(cut_one(m, text_order(list)[k], Cut::Selected), s, list, k + 1),
{
    text_order_is_sorted(list);
    let order = text_order(list);
    let c = order[k];
    let sel = list[c];
    let done = done_upto(s, list, k);
    let kept = unselected(s, list, done);
    assert(m.list[order[k]] == list[order[k]]);
    assert(on_chars(s, sel));
    lemma_unselected_upto(s, list, k);
    lemma_unselected_len(s, list, done);
    lemma_one_cut(m, s, c, kept, done);
    let after = cut_one(m, c, Cut::Selected);
    assert(done_upto(s, list, k + 1) == sel_end(s, sel));
    assert forall|j: int| 0 <= j < k + 1 implies ({
        let i = #[trigger] order[j];
        let at = unselected(s, list, sel_min(list[i])).len();
        after.list[i].anchor == at && after.list[i].head == at
    }) by {
        if j < k {
            assert(order[j] != order[k]);
            assert(after.list[order[j]] == m.list[order[j]]);
        }
    }
    assert forall|j: int| k + 1 <= j < list.len() implies after.list[#[trigger] order[j]]
        == list[order[j]] by {
        assert(order[j] != order[k]);
        assert(after.list[order[j]] == m.list[order[j]]);
    }
}

proof fn lemma_cut_upto_selected(v: BufferView, list: Seq<Selection>, k: int)
    requires
        valid_utf8(v.text),
        apart(v.text, list),
        list.len() <= usize::MAX,
        v.text.len() <= usize::MAX,
        0 <= k <= list.len(),
    ensures
        cut_so_far(
            cut_upto(start_multi(v, list), text_order(list), k, Cut::Selected),
            v.text,
            list,
            k,
        ),
    decreases k,
{
    if k > 0 {
        lemma_cut_upto_selected(v, list, k - 1);
        lemma_cut_step(
            cut_upto(start_multi(v, list), text_order(list), k - 1, Cut::Selected),
            v.text,
            list,
            k - 1,
        );
    } else {
        text_order_is_sorted(list);
        assert(v.text =~= unselected(v.text, list, 0) + v.text.skip(0));
    }
}

/// Deleting at several selections that share no byte leaves the text without
/// exactly what was selected. There are as many cursors as before, in the same
/// order: each stands where its text was, or on the last character if that is
/// the end. One undo gives back the text and answers with the primary selection.
pub proof fn deleting_takes_out_what_is_selected(
    v: BufferView,
    sels: SelectionsView,
    later: CursorSnapshot,
)
    requires
        sels.ok(),
        sels.list.len() <= usize::MAX,
        valid_utf8(v.text),
        0 < v.text.len() <= usize::MAX,
        apart(v.text, sels.list),
    ensures
        ({
            let (w, after) = deleted_all(v, sels);
            &&& w.text == unselected(v.text, sels.list, v.text.len() as int)
            &&& after.list.len() == sels.list.len()
            &&& after.primary == sels.primary
            &&& forall|i: int|
                0 <= i < sels.list.len() ==> {
                    let at = unselected(v.text, sels.list, sel_min(sels.list[i])).len() as int;
                    #[trigger] after.list[i] == cursor_at(w.text, snap_of(w.text, at))
                }
            &&& w.undo.len() > 0
            &&& w.undo.last().cursor == snapshot(sels.prime())
            &&& w.undone(later).text == v.text
        }),
{
    let s = v.text;
    let list = sels.list;
    let n = list.len() as int;
    let marked = v.marked(snapshot(sels.prime()));
    let m = cut_all(marked, list, Cut::Selected);
    let (w, after) = deleted_all(v, sels);
    lemma_cut_upto_selected(marked, list, n);
    text_order_is_sorted(list);
    let done = done_upto(s, list, n);
    assert forall|p: int| done <= p < s.len() implies !#[trigger] selected_byte(s, list, p) by {
        lemma_gap(s, list, n, p);
    }
    lemma_unselected_run(s, list, done, s.len() as int);
    assert(s.skip(done) =~= s.subrange(done, s.len() as int));
    assert forall|i: int| 0 <= i < n implies #[trigger] after.list[i] == cursor_at(
        w.text,
        snap_of(w.text, unselected(s, list, sel_min(list[i])).len() as int),
    ) by {
        lemma_order_hits(list, i);
        let j = choose|j: int| 0 <= j < n && text_order(list)[j] == i;
        assert(text_order(list)[j] == i);
    }
    cutting_is_one_undo_step(v, snapshot(sels.prime()), list, Cut::Selected);
    let first = list[text_order(list)[n - 1]];
    lemma_selected(s, first);
    lemma_unselected_len(s, list, sel_min(first));
    assert forall|p: int| sel_min(first) <= p < sel_end(s, first) implies #[trigger] selected_byte(
        s,
        list,
        p,
    ) by {
        assert(sel_min(list[text_order(list)[n - 1]]) <= p);
    }
    lemma_selected_run(s, list, sel_min(first), sel_end(s, first));
    assert(w.text.len() < s.len());
}

/// Byte `p` lies in one of the stretches.
pub open spec fn in_stretch(spans: Seq<(int, int)>, p: int) -> bool {
    exists|i: int| 0 <= i < spans.len() && (#[trigger] spans[i]).0 <= p < spans[i].1
}

/// The bytes before `n` that lie in none of the stretches, in order.
pub open spec fn left_over(s: Seq<u8>, spans: Seq<(int, int)>, n: int) -> Seq<u8>
    decreases n,
{
    if n <= 0 {
        Seq::empty()
    } else if in_stretch(spans, n - 1) {
        left_over(s, spans, n - 1)
    } else {
        left_over(s, spans, n - 1).push(s[n - 1])
    }
}

/// What a key that deletes takes away at a cursor at `h`: the character before it,
/// the word before it, its line up to it, or the rest of its line and, where there
/// is no rest, the line break.
pub open spec fn taken_at(s: Seq<u8>, h: int, cut: Cut) -> (int, int) {
    match cut {
        Cut::Char => if h > 0 {
            (choose|p: int| #[trigger] on_char(s, p) && p < h && p + char_len(s[p]) == h, h)
        } else {
            (0, 0)
        },
        Cut::Word => (word_backward(s, h), h),
        Cut::LineStart => (line_start_of(s, h), h),
        Cut::LineEnd => if h < s.len() && s[h] == '\n' as u8 {
            (h, h + 1)
        } else {
            (h, line_end_of(s, h))
        },
        Cut::Selected => (h, next_char_or_end_of(s, h)),
    }
}

/// What is taken away at each of several cursors.
pub open spec fn taken_at_all(s: Seq<u8>, list: Seq<Selection>, cut: Cut) -> Seq<(int, int)> {
    list.map_values(|sel: Selection| taken_at(s, sel.head as int, cut))
}

/// Cursors that select nothing, on different characters of the text.
pub open spec fn lone_cursors(s: Seq<u8>, list: Seq<Selection>) -> bool {
    &&& forall|i: int|
        0 <= i < list.len() ==> (#[trigger] list[i]).anchor == list[i].head && on_char(
            s,
            list[i].head as int,
        )
    &&& forall|i: int, j: int|
        0 <= i < j < list.len() ==> (#[trigger] list[i]).head != (#[trigger] list[j]).head
}

/// No two of the stretches overlap. Words must not even touch: what is left of
/// them would be one.
pub open spec fn separate(spans: Seq<(int, int)>, cut: Cut) -> bool {
    forall|i: int, j: int|
        0 <= i < spans.len() && 0 <= j < spans.len() && i != j ==> {
            let (a, b) = (#[trigger] spans[i], #[trigger] spans[j]);
            if cut is Word {
                a.1 < b.0 || b.1 < a.0
            } else {
                a.1 <= b.0 || b.1 <= a.0
            }
        }
}

/// Where each cursor takes its own, the text is left without all of that.
pub open spec fn takes_at_cursors(
    before: Seq<u8>,
    list: Seq<Selection>,
    cut: Cut,
    after: Seq<u8>,
) -> bool {
    valid_utf8(before) && lone_cursors(before, list) && separate(
        taken_at_all(before, list, cut),
        cut,
    ) ==> after == left_over(before, taken_at_all(before, list, cut), before.len() as int)
}

proof fn lemma_takes_at_cursors(v: BufferView, list: Seq<Selection>, cut: Cut)
    requires
        !(cut is Selected),
        v.text.len() <= usize::MAX,
        list.len() <= usize::MAX,
    ensures
        takes_at_cursors(v.text, list, cut, cut_all(v, list, cut).buf.text),
{
    if valid_utf8(v.text) && lone_cursors(v.text, list) && separate(
        taken_at_all(v.text, list, cut),
        cut,
    ) {
        every_cursor_takes_its_own(v, list, cut);
    }
}

/// The character before a character starts where the way back leads.
proof fn lemma_char_before(s: Seq<u8>, h: int)
    requires
        valid_utf8(s),
        on_char(s, h),
        0 < h,
    ensures
        ({
            let p = prev_char_of(s, h);
            &&& 0 <= p < h
            &&& on_char(s, p)
            &&& p + char_len(s[p]) == h
            &&& taken_at(s, h, Cut::Char) == (p, h)
        }),
{
    lemma_first_char(s);
    lemma_back_on(s, h - 1);
    let p = prev_char_of(s, h);
    lemma_whole_char(s, p);
    if p + char_len(s[p]) < h {
        assert(is_cont(s[p + char_len(s[p])]));
    }
    if p + char_len(s[p]) > h {
        assert(is_cont(s[h]));
    }
    assert forall|q: int| #[trigger] on_char(s, q) && q < h && q + char_len(s[q]) == h implies q
        == p by {
        lemma_whole_char(s, q);
        if q < p {
            assert(is_cont(s[p]));
        } else if p < q {
            lemma_whole_char(s, p);
            assert(is_cont(s[q]));
        }
    }
    assert(on_char(s, p) && p < h && p + char_len(s[p]) == h);
}

proof fn lemma_back_on(s: Seq<u8>, q: int)
    requires
        0 <= q < s.len(),
        !is_cont(s[0]),
    ensures
        0 <= char_start(s, q) <= q,
        !is_cont(s[char_start(s, q)]),
        forall|j: int| char_start(s, q) < j <= q ==> is_cont(#[trigger] s[j]),
    decreases q,
{
    if q > 0 && is_cont(s[q]) {
        lemma_back_on(s, q - 1);
    }
}

/// `t` holds from `done + shift` on what `s` holds from `done` on.
spec fn moved_text(s: Seq<u8>, t: Seq<u8>, done: int, shift: int) -> bool {
    &&& 0 <= done <= s.len()
    &&& 0 <= done + shift
    &&& t.len() == s.len() + shift
    &&& forall|j: int| done <= j < s.len() ==> #[trigger] t[j + shift] == s[j]
}

proof fn lemma_char_start_moves(s: Seq<u8>, t: Seq<u8>, done: int, shift: int, q: int)
    requires
        moved_text(s, t, done, shift),
        done <= q < s.len(),
        done <= char_start(s, q),
        !is_cont(s[char_start(s, q)]),
    ensures
        char_start(t, q + shift) == char_start(s, q) + shift,
    decreases q,
{
    assert(t[q + shift] == s[q]);
    if q > 0 && is_cont(s[q]) {
        lemma_char_start_bounds(s, q - 1);
        lemma_char_start_moves(s, t, done, shift, q - 1);
    }
}

proof fn lemma_prev_moves(s: Seq<u8>, t: Seq<u8>, done: int, shift: int, h: int)
    requires
        valid_utf8(s),
        moved_text(s, t, done, shift),
        on_char(s, h),
        on_char(s, done),
        done < h,
    ensures
        prev_char_of(t, h + shift) == prev_char_of(s, h) + shift,
        done <= prev_char_of(s, h) < h,
        on_char(s, prev_char_of(s, h)),
{
    lemma_char_before(s, h);
    crate::text::lemma_back_not_past(s, done, h - 1);
    lemma_char_start_moves(s, t, done, shift, h - 1);
}

proof fn lemma_line_start_moves(s: Seq<u8>, t: Seq<u8>, done: int, shift: int, o: int)
    requires
        moved_text(s, t, done, shift),
        done <= line_start_of(s, o) <= o <= s.len(),
        line_start_of(s, o) == done && 0 < done + shift ==> t[done + shift - 1] == NL,
    ensures
        line_start_of(t, o + shift) == line_start_of(s, o) + shift,
    decreases o,
{
    if o > 0 && o > done {
        assert(t[o - 1 + shift] == s[o - 1]);
        if s[o - 1] != NL {
            lemma_line_start_bounds(s, o - 1);
            lemma_line_start_moves(s, t, done, shift, o - 1);
        }
    }
}

proof fn lemma_line_end_moves(s: Seq<u8>, t: Seq<u8>, done: int, shift: int, o: int)
    requires
        moved_text(s, t, done, shift),
        done <= o <= s.len(),
    ensures
        line_end_of(t, o + shift) == line_end_of(s, o) + shift,
    decreases s.len() - o,
{
    if o < s.len() {
        assert(t[o + shift] == s[o]);
        if s[o] != NL {
            lemma_line_end_moves(s, t, done, shift, o + 1);
        }
    }
}

proof fn lemma_skip_back_moves(s: Seq<u8>, t: Seq<u8>, done: int, shift: int, i: int)
    requires
        valid_utf8(s),
        moved_text(s, t, done, shift),
        on_char(s, done),
        on_char(s, i),
        done < crate::motion::skip_spaces_back(s, i),
        i < s.len(),
    ensures
        crate::motion::skip_spaces_back(t, i + shift) == crate::motion::skip_spaces_back(s, i)
            + shift,
        on_char(s, crate::motion::skip_spaces_back(s, i)),
        crate::motion::skip_spaces_back(s, i) <= i,
    decreases i,
{
    if i >= 0 {
        lemma_skip_back_bounds(s, i);
        assert(t[i + shift] == s[i]);
        if i > 0 && crate::motion::space_byte(s[i]) {
            lemma_char_before(s, i);
            lemma_skip_back_bounds(s, prev_char_of(s, i));
            lemma_prev_moves(s, t, done, shift, i);
            lemma_skip_back_moves(s, t, done, shift, prev_char_of(s, i));
        }
    }
}

proof fn lemma_run_start_moves(s: Seq<u8>, t: Seq<u8>, done: int, shift: int, i: int, word: bool)
    requires
        valid_utf8(s),
        moved_text(s, t, done, shift),
        on_char(s, done),
        on_char(s, i),
        done < crate::motion::run_start(s, i, word),
    ensures
        crate::motion::run_start(t, i + shift, word) == crate::motion::run_start(s, i, word) + shift,
    decreases i,
{
    lemma_run_start_bounds(s, i, word);
    lemma_char_before(s, i);
    lemma_prev_moves(s, t, done, shift, i);
    let p = prev_char_of(s, i);
    assert(t[p + shift] == s[p]);
    if !crate::motion::space_byte(s[p]) && crate::motion::word_byte(s[p]) == word {
        lemma_run_start_moves(s, t, done, shift, p, word);
    }
}

proof fn lemma_word_moves(s: Seq<u8>, t: Seq<u8>, done: int, shift: int, h: int)
    requires
        valid_utf8(s),
        moved_text(s, t, done, shift),
        on_char(s, done),
        on_char(s, h),
        done < word_backward(s, h),
    ensures
        word_backward(t, h + shift) == word_backward(s, h) + shift,
{
    lemma_word_backward_bounds(s, h);
    lemma_char_before(s, h);
    lemma_prev_moves(s, t, done, shift, h);
    let p = prev_char_of(s, h);
    lemma_skip_back_bounds(s, p);
    let i = crate::motion::skip_spaces_back(s, p);
    if i < s.len() {
        lemma_run_start_bounds(s, i, crate::motion::word_byte(s[i]));
    }
    lemma_skip_back_moves(s, t, done, shift, p);
    assert(t[i + shift] == s[i]);
    lemma_run_start_moves(s, t, done, shift, i, crate::motion::word_byte(s[i]));
}

/// A cut takes the same characters where the text before them has changed.
#[verifier::spinoff_prover]
proof fn lemma_cut_moves(
    s: Seq<u8>,
    t: Seq<u8>,
    done: int,
    shift: int,
    sel: Selection,
    cut: Cut,
)
    requires
        valid_utf8(s),
        s.len() <= usize::MAX,
        moved_text(s, t, done, shift),
        done == 0 ==> shift == 0,
        shift <= 0,
        on_char(s, done),
        sel.anchor == sel.head,
        on_char(s, sel.head as int),
        !(cut is Selected),
        done <= taken_at(s, sel.head as int, cut).0,
        cut is Word && done > 0 ==> done < taken_at(s, sel.head as int, cut).0,
        cut is LineStart && taken_at(s, sel.head as int, cut).0 == done && 0 < done + shift
            ==> t[done + shift - 1] == NL,
    ensures
        ({
            let (a, e) = taken_at(s, sel.head as int, cut);
            let moved = moved_by(sel, shift);
            &&& a <= e <= s.len()
            &&& on_char(s, e)
            &&& moved.head == sel.head + shift && moved.anchor == sel.head + shift
            &&& cut_span(t, moved, cut) == (a + shift, e + shift)
        }),
{
    let h = sel.head as int;
    let (a, e) = taken_at(s, h, cut);
    if done == 0 {
        assert(t =~= s) by {
            assert forall|j: int| 0 <= j < s.len() implies t[j] == s[j] by {
                assert(t[j + shift] == s[j]);
            }
        }
    }
    lemma_line_start_bounds(s, h);
    lemma_no_break_upto(s, h);
    lemma_word_backward_bounds(s, h);
    if h > 0 {
        lemma_char_before(s, h);
    }
    assert(a <= e);
    match cut {
        Cut::Char => {
            if h > 0 && done > 0 {
                lemma_prev_moves(s, t, done, shift, h);
            }
        },
        Cut::Word => {
            if done > 0 {
                lemma_word_moves(s, t, done, shift, h);
            }
        },
        Cut::LineStart => {
            lemma_line_start_moves(s, t, done, shift, h);
        },
        Cut::LineEnd => {
            lemma_line_end_moves(s, t, done, shift, h);
            if h < s.len() {
                assert(t[h + shift] == s[h]);
                if s[h] == NL {
                    lemma_whole_char(s, h);
                }
            }
            if e < s.len() && e == line_end_of(s, h) {
                assert(s[e] == NL);
            }
        },
        Cut::Selected => {},
    }
}

/// Where the first `k` stretches in text order end.
spec fn done_at(spans: Seq<(int, int)>, order: Seq<int>, k: int) -> int {
    if k <= 0 { 0 } else { spans[order[k - 1]].1 }
}

/// Number `i` occurs in the order.
spec fn visited(order: Seq<int>, i: int) -> bool {
    exists|k: int| 0 <= k < order.len() && #[trigger] order[k] == i
}

/// The stretches, visited in an order, come one behind the other.
spec fn one_by_one(spans: Seq<(int, int)>, order: Seq<int>, len: int) -> bool {
    &&& order.len() == spans.len()
    &&& forall|k: int| 0 <= k < order.len() ==> 0 <= #[trigger] order[k] < spans.len()
    &&& forall|i: int|
        0 <= i < spans.len() ==> 0 <= (#[trigger] spans[i]).0 <= spans[i].1 <= len
    &&& forall|j: int, k: int|
        0 <= j < k < order.len() ==> spans[#[trigger] order[j]].1 <= spans[#[trigger] order[k]].0
    &&& forall|i: int| 0 <= i < spans.len() ==> #[trigger] visited(order, i)
}

proof fn lemma_left_over_run(s: Seq<u8>, spans: Seq<(int, int)>, a: int, b: int)
    requires
        0 <= a <= b <= s.len(),
        forall|p: int| a <= p < b ==> !#[trigger] in_stretch(spans, p),
    ensures
        left_over(s, spans, b) == left_over(s, spans, a) + s.subrange(a, b),
    decreases b - a,
{
    if a < b {
        lemma_left_over_run(s, spans, a, b - 1);
        assert(s.subrange(a, b) =~= s.subrange(a, b - 1).push(s[b - 1]));
    }
    assert(left_over(s, spans, b) =~= left_over(s, spans, a) + s.subrange(a, b));
}

proof fn lemma_left_over_skips(s: Seq<u8>, spans: Seq<(int, int)>, a: int, b: int)
    requires
        0 <= a <= b,
        forall|p: int| a <= p < b ==> #[trigger] in_stretch(spans, p),
    ensures
        left_over(s, spans, b) == left_over(s, spans, a),
    decreases b - a,
{
    if a < b {
        lemma_left_over_skips(s, spans, a, b - 1);
    }
}

proof fn lemma_left_over_len(s: Seq<u8>, spans: Seq<(int, int)>, n: int)
    ensures
        left_over(s, spans, n).len() <= imax(n, 0),
    decreases n,
{
    if n > 0 {
        lemma_left_over_len(s, spans, n - 1);
    }
}

proof fn lemma_between_stretches(spans: Seq<(int, int)>, order: Seq<int>, len: int, k: int, p: int)
    requires
        one_by_one(spans, order, len),
        0 <= k <= order.len(),
        done_at(spans, order, k) <= p,
        k < order.len() ==> p < spans[order[k]].0,
    ensures
        !in_stretch(spans, p),
{
    if in_stretch(spans, p) {
        let i = choose|i: int| 0 <= i < spans.len() && (#[trigger] spans[i]).0 <= p < spans[i].1;
        assert(visited(order, i));
        let j = choose|j: int| 0 <= j < order.len() && #[trigger] order[j] == i;
        if j < k - 1 {
            assert(spans[order[j]].1 <= spans[order[k - 1]].0);
        } else if k < j {
            assert(spans[order[k]].1 <= spans[order[j]].0);
        }
    }
}

proof fn lemma_left_over_upto(s: Seq<u8>, spans: Seq<(int, int)>, order: Seq<int>, k: int)
    requires
        one_by_one(spans, order, s.len() as int),
        0 <= k < order.len(),
    ensures
        ({
            let (a, e) = spans[order[k]];
            let done = done_at(spans, order, k);
            &&& 0 <= done <= a <= e <= s.len()
            &&& left_over(s, spans, a) == left_over(s, spans, done) + s.subrange(done, a)
            &&& left_over(s, spans, e) == left_over(s, spans, a)
        }),
{
    let c = order[k];
    let (a, e) = spans[c];
    let done = done_at(spans, order, k);
    assert(0 <= spans[c].0);
    if k > 0 {
        assert(spans[order[k - 1]].1 <= spans[order[k]].0);
    }
    assert forall|p: int| done <= p < a implies !#[trigger] in_stretch(spans, p) by {
        lemma_between_stretches(spans, order, s.len() as int, k, p);
    }
    lemma_left_over_run(s, spans, done, a);
    assert forall|p: int| a <= p < e implies #[trigger] in_stretch(spans, p) by {
        assert(spans[c].0 <= p < spans[c].1);
    }
    lemma_left_over_skips(s, spans, a, e);
}

/// The cuts so far: the text is what is left up to there and all behind it, and
/// each cursor that was cut stands where its stretch began.
spec fn cuts_so_far(
    m: Multi,
    s: Seq<u8>,
    list: Seq<Selection>,
    spans: Seq<(int, int)>,
    order: Seq<int>,
    k: int,
) -> bool {
    let done = done_at(spans, order, k);
    &&& m.buf.text == left_over(s, spans, done) + s.skip(done)
    &&& m.shift == left_over(s, spans, done).len() - done
    &&& m.list.len() == list.len()
    &&& forall|j: int|
        0 <= j < k ==> {
            let at = left_over(s, spans, spans[#[trigger] order[j]].0).len();
            m.list[order[j]].anchor == at && m.list[order[j]].head == at
        }
    &&& forall|j: int|
        k <= j < order.len() ==> m.list[#[trigger] order[j]] == list[order[j]]
}

/// What stands before a line is not cut away with lines up to their cursors.
proof fn lemma_break_is_left(s: Seq<u8>, list: Seq<Selection>, ls: int)
    requires
        lone_cursors(s, list),
        0 < ls <= s.len(),
        s[ls - 1] == NL,
    ensures
        left_over(s, taken_at_all(s, list, Cut::LineStart), ls).len() > 0,
        left_over(s, taken_at_all(s, list, Cut::LineStart), ls).last() == NL,
{
    let spans = taken_at_all(s, list, Cut::LineStart);
    if in_stretch(spans, ls - 1) {
        let i = choose|i: int|
            0 <= i < spans.len() && (#[trigger] spans[i]).0 <= ls - 1 < spans[i].1;
        assert(on_char(s, list[i].head as int));
        lemma_no_break_before(s, list[i].head as int);
    }
}

/// One cut from `a` to `e`, where what stands before `done` has been cut to `kept`
/// already.
#[verifier::spinoff_prover]
proof fn lemma_cut_effect(
    m: Multi,
    s: Seq<u8>,
    c: int,
    kept: Seq<u8>,
    done: int,
    cut: Cut,
    a: int,
    e: int,
)
    requires
        0 <= c < m.list.len(),
        0 <= done <= a <= e <= s.len() <= usize::MAX,
        kept.len() <= done,
        m.buf.text == kept + s.skip(done),
        m.shift == kept.len() - done,
        moved_by(m.list[c], m.shift).anchor == moved_by(m.list[c], m.shift).head,
        cut_span(m.buf.text, moved_by(m.list[c], m.shift), cut) == (a + m.shift, e + m.shift),
        cut is LineEnd || moved_by(m.list[c], m.shift).head == e + m.shift,
    ensures
        ({
            let after = cut_one(m, c, cut);
            &&& after.buf.text == kept + s.subrange(done, a) + s.skip(e)
            &&& after.shift == m.shift - (e - a)
            &&& after.list.len() == m.list.len()
            &&& after.list[c].anchor == a + m.shift
            &&& after.list[c].head == a + m.shift
            &&& forall|i: int| 0 <= i < m.list.len() && i != c ==> #[trigger] after.list[i]
                == m.list[i]
        }),
{
    let after = cut_one(m, c, cut);
    let text = m.buf.text;
    assert(after.buf.text =~= kept + s.subrange(done, a) + s.skip(e)) by {
        if a < e {
            assert(after.buf.text == crate::buffer::cut_out(text, a + m.shift, e + m.shift));
        } else {
            assert(after.buf.text =~= text);
        }
    }
}

/// Where the `k`-th cursor in text order is cut, once those before it are.
#[verifier::spinoff_prover]
proof fn lemma_next_span(m: Multi, s: Seq<u8>, list: Seq<Selection>, cut: Cut, k: int)
    requires
        valid_utf8(s),
        s.len() <= usize::MAX,
        list.len() <= usize::MAX,
        lone_cursors(s, list),
        !(cut is Selected),
        separate(taken_at_all(s, list, cut), cut),
        one_by_one(taken_at_all(s, list, cut), text_order(list), s.len() as int),
        on_char(s, done_at(taken_at_all(s, list, cut), text_order(list), k)),
        0 <= k < list.len(),
        cuts_so_far(m, s, list, taken_at_all(s, list, cut), text_order(list), k),
    ensures
        ({
            let c = text_order(list)[k];
            let moved = moved_by(list[c], m.shift);
            let (a, e) = taken_at_all(s, list, cut)[c];
            &&& moved.head == moved.anchor
            &&& moved.head == list[c].head + m.shift
            &&& cut_span(m.buf.text, moved, cut) == (a + m.shift, e + m.shift)
            &&& on_char(s, e)
        }),
{
    let spans = taken_at_all(s, list, cut);
    let order = text_order(list);
    let c = order[k];
    let sel = list[c];
    let done = done_at(spans, order, k);
    let kept = left_over(s, spans, done);
    let a = spans[c].0;
    assert(0 <= done <= a) by {
        lemma_left_over_upto(s, spans, order, k);
    }
    lemma_left_over_len(s, spans, done);
    assert(spans[c] == taken_at(s, sel.head as int, cut));
    assert(sel.anchor == sel.head && on_char(s, sel.head as int));
    let t = m.buf.text;
    let shift = m.shift;
    assert(moved_text(s, t, done, shift)) by {
        assert forall|j: int| done <= j < s.len() implies #[trigger] t[j + shift] == s[j] by {}
    }
    if k > 0 && cut is Word {
        assert(order[k - 1] != order[k]) by {
            text_order_is_sorted(list);
        }
        assert(spans[order[k - 1]].1 <= spans[order[k]].0);
        assert(spans[order[k - 1]].0 <= spans[order[k - 1]].1);
        assert(spans[order[k]].0 <= spans[order[k]].1);
    }
    if cut is LineStart && a == done && 0 < done + shift {
        lemma_no_break_before(s, sel.head as int);
        assert(s[a - 1] == NL);
        lemma_break_is_left(s, list, done);
        assert(t[done + shift - 1] == kept.last());
    }
    lemma_cut_moves(s, t, done, shift, sel, cut);
}

#[verifier::spinoff_prover]
proof fn lemma_cuts_step(m: Multi, s: Seq<u8>, list: Seq<Selection>, cut: Cut, k: int)
    requires
        valid_utf8(s),
        s.len() <= usize::MAX,
        list.len() <= usize::MAX,
        lone_cursors(s, list),
        !(cut is Selected),
        separate(taken_at_all(s, list, cut), cut),
        one_by_one(taken_at_all(s, list, cut), text_order(list), s.len() as int),
        on_char(s, done_at(taken_at_all(s, list, cut), text_order(list), k)),
        0 <= k < list.len(),
        cuts_so_far(m, s, list, taken_at_all(s, list, cut), text_order(list), k),
    ensures
        cuts_so_far(
            cut_one(m, text_order(list)[k], cut),
            s,
            list,
            taken_at_all(s, list, cut),
            text_order(list),
            k + 1,
        ),
        on_char(s, done_at(taken_at_all(s, list, cut), text_order(list), k + 1)),
{
    let spans = taken_at_all(s, list, cut);
    let order = text_order(list);
    text_order_is_sorted(list);
    let c = order[k];
    let (a, e) = spans[c];
    let done = done_at(spans, order, k);
    let kept = left_over(s, spans, done);
    lemma_left_over_upto(s, spans, order, k);
    lemma_left_over_len(s, spans, done);
    assert(m.list[order[k]] == list[order[k]]);
    lemma_next_span(m, s, list, cut, k);
    assert(on_char(s, list[c].head as int));
    lemma_taken_bounds(s, list[c].head as int, cut);
    lemma_cut_effect(m, s, c, kept, done, cut, a, e);
    let after = cut_one(m, c, cut);
    assert(done_at(spans, order, k + 1) == e);
    assert forall|j: int| 0 <= j < k + 1 implies ({
        let at = left_over(s, spans, spans[#[trigger] order[j]].0).len();
        after.list[order[j]].anchor == at && after.list[order[j]].head == at
    }) by {
        if j < k {
            assert(order[j] != order[k]);
        }
    }
    assert forall|j: int| k + 1 <= j < order.len() implies after.list[#[trigger] order[j]]
        == list[order[j]] by {
        assert(order[k] != order[j]);
    }
}

proof fn lemma_taken_bounds(s: Seq<u8>, h: int, cut: Cut)
    requires
        valid_utf8(s),
        on_char(s, h),
        !(cut is Selected),
    ensures
        ({
            let (a, e) = taken_at(s, h, cut);
            &&& 0 <= a <= e <= s.len()
            &&& cut is LineEnd ==> a == h
            &&& !(cut is LineEnd) ==> e == h
        }),
{
    lemma_line_start_bounds(s, h);
    lemma_no_break_upto(s, h);
    lemma_word_backward_bounds(s, h);
    if h > 0 {
        lemma_char_before(s, h);
    }
}

proof fn lemma_taken_in_order(s: Seq<u8>, list: Seq<Selection>, cut: Cut)
    requires
        valid_utf8(s),
        list.len() <= usize::MAX,
        lone_cursors(s, list),
        !(cut is Selected),
        separate(taken_at_all(s, list, cut), cut),
    ensures
        one_by_one(taken_at_all(s, list, cut), text_order(list), s.len() as int),
{
    let spans = taken_at_all(s, list, cut);
    let order = text_order(list);
    text_order_is_sorted(list);
    assert forall|i: int| 0 <= i < spans.len() implies 0 <= (#[trigger] spans[i]).0 <= spans[i].1
        <= s.len() by {
        assert(on_char(s, list[i].head as int));
        lemma_taken_bounds(s, list[i].head as int, cut);
    }
    assert forall|j: int, k: int| 0 <= j < k < order.len() implies spans[#[trigger] order[j]].1
        <= spans[#[trigger] order[k]].0 by {
        let (x, y) = (order[j], order[k]);
        assert(list[x].anchor == list[x].head && list[y].anchor == list[y].head);
        lemma_taken_bounds(s, list[x].head as int, cut);
        lemma_taken_bounds(s, list[y].head as int, cut);
        assert(x != y);
        if x < y {
            assert(list[x].head != list[y].head);
        } else {
            assert(list[y].head != list[x].head);
        }
        assert(list[x].head < list[y].head);
        let (p, q) = (spans[x], spans[y]);
    }
    assert forall|i: int| 0 <= i < spans.len() implies #[trigger] visited(order, i) by {
        lemma_order_hits(list, i);
    }
}

proof fn lemma_cuts_upto(v: BufferView, list: Seq<Selection>, cut: Cut, k: int)
    requires
        valid_utf8(v.text),
        v.text.len() <= usize::MAX,
        list.len() <= usize::MAX,
        lone_cursors(v.text, list),
        !(cut is Selected),
        separate(taken_at_all(v.text, list, cut), cut),
        one_by_one(taken_at_all(v.text, list, cut), text_order(list), v.text.len() as int),
        0 <= k <= list.len(),
    ensures
        cuts_so_far(
            cut_upto(start_multi(v, list), text_order(list), k, cut),
            v.text,
            list,
            taken_at_all(v.text, list, cut),
            text_order(list),
            k,
        ),
        on_char(v.text, done_at(taken_at_all(v.text, list, cut), text_order(list), k)),
    decreases k,
{
    if k > 0 {
        lemma_cuts_upto(v, list, cut, k - 1);
        lemma_cuts_step(
            cut_upto(start_multi(v, list), text_order(list), k - 1, cut),
            v.text,
            list,
            cut,
            k - 1,
        );
    } else {
        lemma_first_char(v.text);
        text_order_is_sorted(list);
        assert(v.text =~= left_over(v.text, taken_at_all(v.text, list, cut), 0) + v.text.skip(0));
    }
}

/// A key that deletes at every cursor leaves the text without exactly what it
/// would have taken at each of them alone. Each cursor stands behind the bytes
/// that are left of those before its own stretch.
pub proof fn every_cursor_takes_its_own(v: BufferView, list: Seq<Selection>, cut: Cut)
    requires
        !(cut is Selected),
        valid_utf8(v.text),
        v.text.len() <= usize::MAX,
        list.len() <= usize::MAX,
        lone_cursors(v.text, list),
        separate(taken_at_all(v.text, list, cut), cut),
    ensures
        ({
            let spans = taken_at_all(v.text, list, cut);
            let m = cut_all(v, list, cut);
            &&& m.buf.text == left_over(v.text, spans, v.text.len() as int)
            &&& m.list.len() == list.len()
            &&& forall|i: int|
                0 <= i < list.len() ==> {
                    let at = left_over(v.text, spans, spans[i].0).len();
                    (#[trigger] m.list[i]).head == at && m.list[i].anchor == at
                }
        }),
{
    let s = v.text;
    let spans = taken_at_all(s, list, cut);
    let order = text_order(list);
    let n = list.len() as int;
    lemma_taken_in_order(s, list, cut);
    lemma_cuts_upto(v, list, cut, n);
    text_order_is_sorted(list);
    let done = done_at(spans, order, n);
    assert forall|p: int| done <= p < s.len() implies !#[trigger] in_stretch(spans, p) by {
        lemma_between_stretches(spans, order, s.len() as int, n, p);
    }
    lemma_left_over_run(s, spans, done, s.len() as int);
    assert(s.skip(done) =~= s.subrange(done, s.len() as int));
    let m = cut_all(v, list, cut);
    assert forall|i: int| 0 <= i < n implies ({
        let at = left_over(s, spans, spans[i].0).len();
        (#[trigger] m.list[i]).head == at && m.list[i].anchor == at
    }) by {
        lemma_order_hits(list, i);
        let j = choose|j: int| 0 <= j < n && order[j] == i;
        assert(order[j] == i);
    }
}

/// The characters before different cursors do not overlap.
proof fn lemma_characters_are_separate(s: Seq<u8>, list: Seq<Selection>)
    requires
        valid_utf8(s),
        lone_cursors(s, list),
    ensures
        separate(taken_at_all(s, list, Cut::Char), Cut::Char),
{
    let spans = taken_at_all(s, list, Cut::Char);
    assert forall|i: int, j: int|
        0 <= i < spans.len() && 0 <= j < spans.len() && i != j implies (#[trigger] spans[i]).1 <= (
    #[trigger] spans[j]).0 || spans[j].1 <= spans[i].0 by {
        let (x, y) = (list[i].head as int, list[j].head as int);
        assert(on_char(s, x) && on_char(s, y));
        assert(x != y) by {
            if i < j {
                assert(list[i].head != list[j].head);
            } else {
                assert(list[j].head != list[i].head);
            }
        }
        if x > 0 {
            lemma_char_before(s, x);
            lemma_whole_char(s, spans[i].0);
        }
        if y > 0 {
            lemma_char_before(s, y);
            lemma_whole_char(s, spans[j].0);
        }
        if x < y && spans[j].0 < x {
            assert(is_cont(s[x]));
        }
        if y < x && spans[i].0 < y {
            assert(is_cont(s[y]));
        }
    }
}

/// Backspace leaves the text without the characters just before the cursors, and
/// each cursor where its character stood.
pub proof fn backspace_takes_the_character_before_each_cursor(
    v: BufferView,
    list: Seq<Selection>,
)
    requires
        valid_utf8(v.text),
        v.text.len() <= usize::MAX,
        list.len() <= usize::MAX,
        lone_cursors(v.text, list),
    ensures
        ({
            let spans = taken_at_all(v.text, list, Cut::Char);
            let m = cut_all(v, list, Cut::Char);
            &&& m.buf.text == left_over(v.text, spans, v.text.len() as int)
            &&& m.list.len() == list.len()
            &&& forall|i: int|
                0 <= i < list.len() ==> {
                    let at = left_over(v.text, spans, spans[i].0).len();
                    (#[trigger] m.list[i]).head == at && m.list[i].anchor == at
                }
        }),
{
    lemma_characters_are_separate(v.text, list);
    every_cursor_takes_its_own(v, list, Cut::Char);
}

/// The bytes before `n`, with `t` before each byte that a cursor stands on.
pub open spec fn woven(s: Seq<u8>, list: Seq<Selection>, t: Seq<u8>, n: int) -> Seq<u8>
    decreases n,
{
    if n <= 0 {
        Seq::empty()
    } else {
        woven(s, list, t, n - 1) + copy_at(list, t, n - 1) + seq![s[n - 1]]
    }
}

/// `t` where a cursor stands, and nothing elsewhere.
pub open spec fn copy_at(list: Seq<Selection>, t: Seq<u8>, p: int) -> Seq<u8> {
    if exists|i: int| 0 <= i < list.len() && (#[trigger] list[i]).head == p {
        t
    } else {
        Seq::empty()
    }
}

/// Where no cursor stands, the text is as it was.
pub proof fn lemma_woven_run(s: Seq<u8>, list: Seq<Selection>, t: Seq<u8>, a: int, b: int)
    requires
        0 <= a <= b <= s.len(),
        forall|i: int|
            0 <= i < list.len() ==> (#[trigger] list[i]).head < a || list[i].head >= b,
    ensures
        woven(s, list, t, b) == woven(s, list, t, a) + s.subrange(a, b),
    decreases b - a,
{
    if a < b {
        lemma_woven_run(s, list, t, a, b - 1);
        assert(copy_at(list, t, b - 1) == Seq::<u8>::empty());
        assert(s.subrange(a, b) =~= s.subrange(a, b - 1) + seq![s[b - 1]]);
    }
    assert(woven(s, list, t, b) =~= woven(s, list, t, a) + s.subrange(a, b));
}

/// From one cursor to the next place, with no cursor between.
pub proof fn lemma_woven_on(s: Seq<u8>, list: Seq<Selection>, t: Seq<u8>, c: int, b: int)
    requires
        0 <= c < list.len(),
        list[c].head < b <= s.len(),
        forall|i: int|
            0 <= i < list.len() ==> (#[trigger] list[i]).head <= list[c].head || list[i].head >= b,
    ensures
        woven(s, list, t, b) == woven(s, list, t, list[c].head as int) + t + s.subrange(
            list[c].head as int,
            b,
        ),
{
    let h = list[c].head as int;
    lemma_woven_run(s, list, t, h + 1, b);
    assert(copy_at(list, t, h) == t);
    assert(s.subrange(h, b) =~= seq![s[h]] + s.subrange(h + 1, b));
    assert(woven(s, list, t, b) =~= woven(s, list, t, h) + t + s.subrange(h, b));
}

/// Different cursors stand at different places.
pub open spec fn heads_differ(list: Seq<Selection>) -> bool {
    forall|i: int, j: int|
        0 <= i < j < list.len() ==> (#[trigger] list[i]).head != (#[trigger] list[j]).head
}

/// Typing so far, at the first `k` cursors in text order.
spec fn typed_so_far(m: Multi, s: Seq<u8>, list: Seq<Selection>, t: Seq<u8>, k: int) -> bool {
    let order = text_order(list);
    &&& m.buf.text == if k <= 0 {
        s
    } else {
        let h = list[order[k - 1]].head as int;
        woven(s, list, t, h) + t + s.skip(h)
    }
    &&& k > 0 ==> woven(s, list, t, list[order[k - 1]].head as int).len() + t.len()
        == list[order[k - 1]].head + m.shift
    &&& k <= 0 ==> m.shift == 0
    &&& m.shift >= 0
    &&& m.list.len() == list.len()
    &&& forall|j: int|
        0 <= j < k ==> {
            let at = woven(s, list, t, list[#[trigger] order[j]].head as int).len();
            m.list[order[j]].anchor == at && m.list[order[j]].head == at + t.len()
        }
    &&& forall|j: int|
        k <= j < order.len() ==> m.list[#[trigger] order[j]] == list[order[j]]
}

/// The text up to the `k`-th cursor in text order.
proof fn lemma_woven_upto(s: Seq<u8>, list: Seq<Selection>, t: Seq<u8>, k: int)
    requires
        cursors_in(s, list),
        heads_differ(list),
        list.len() <= usize::MAX,
        0 <= k <= list.len(),
    ensures
        ({
            let order = text_order(list);
            let b = if k < list.len() { list[order[k]].head as int } else { s.len() as int };
            if k == 0 {
                woven(s, list, t, b) == s.subrange(0, b)
            } else {
                let h = list[order[k - 1]].head as int;
                &&& h <= b <= s.len()
                &&& k < list.len() ==> h < b
                &&& h < b ==> woven(s, list, t, b) == woven(s, list, t, h) + t + s.subrange(h, b)
            }
        }),
{
    let order = text_order(list);
    text_order_is_sorted(list);
    let b = if k < list.len() { list[order[k]].head as int } else { s.len() as int };
    assert forall|i: int| 0 <= i < list.len() implies (#[trigger] list[i]).head >= b || k > 0
        && list[i].head <= list[order[k - 1]].head by {
        lemma_order_hits(list, i);
        let j = choose|j: int| 0 <= j < list.len() && order[j] == i;
        assert(list[i].anchor == list[i].head);
        if k <= j {
            assert(list[order[k]].anchor == list[order[k]].head);
        } else {
            assert(list[order[k - 1]].anchor == list[order[k - 1]].head);
        }
    }
    if k < list.len() {
        assert(list[order[k]].head <= s.len());
    }
    if k == 0 {
        lemma_woven_run(s, list, t, 0, b);
        assert(woven(s, list, t, b) =~= s.subrange(0, b));
    } else {
        let c = order[k - 1];
        assert(list[c].anchor == list[c].head && list[c].head <= s.len());
        if k < list.len() {
            assert(order[k - 1] != order[k]);
            assert(list[order[k]].anchor == list[order[k]].head);
            if order[k - 1] < order[k] {
                assert(list[order[k - 1]].head != list[order[k]].head);
            } else {
                assert(list[order[k]].head != list[order[k - 1]].head);
            }
        }
        if list[c].head < b {
            lemma_woven_on(s, list, t, c, b);
        }
    }
}

#[verifier::spinoff_prover]
proof fn lemma_typed_step(m: Multi, s: Seq<u8>, list: Seq<Selection>, t: Seq<u8>, k: int)
    requires
        cursors_in(s, list),
        heads_differ(list),
        list.len() <= usize::MAX,
        s.len() + m.shift + t.len() <= usize::MAX,
        t.len() > 0,
        0 <= k < list.len(),
        typed_so_far(m, s, list, t, k),
    ensures
        typed_so_far(typed_one(m, text_order(list)[k], t), s, list, t, k + 1),
        typed_one(m, text_order(list)[k], t).shift == m.shift + t.len(),
{
    let order = text_order(list);
    text_order_is_sorted(list);
    let c = order[k];
    let h = list[c].head as int;
    assert(m.list[order[k]] == list[order[k]]);
    assert(list[c].anchor == list[c].head && list[c].head <= s.len());
    lemma_woven_upto(s, list, t, k);
    let at = h + m.shift;
    assert(woven(s, list, t, h).len() == at);
    assert(m.buf.text =~= woven(s, list, t, h) + s.skip(h));
    let after = typed_one(m, c, t);
    assert(after.buf.text =~= woven(s, list, t, h) + t + s.skip(h));
    assert forall|j: int| 0 <= j < k + 1 implies ({
        let w = woven(s, list, t, list[#[trigger] order[j]].head as int).len();
        after.list[order[j]].anchor == w && after.list[order[j]].head == w + t.len()
    }) by {
        if j < k {
            assert(order[j] != order[k]);
        }
    }
    assert forall|j: int| k + 1 <= j < order.len() implies after.list[#[trigger] order[j]]
        == list[order[j]] by {
        assert(order[k] != order[j]);
    }
}

proof fn lemma_typed_so_far(v: BufferView, list: Seq<Selection>, t: Seq<u8>, k: int)
    requires
        cursors_in(v.text, list),
        heads_differ(list),
        list.len() <= usize::MAX,
        has_room(v.text, (t.len() * list.len()) as int),
        t.len() > 0,
        0 <= k <= list.len(),
    ensures
        typed_so_far(
            typed_upto(start_multi(v, list), text_order(list), k, t),
            v.text,
            list,
            t,
            k,
        ),
        typed_upto(start_multi(v, list), text_order(list), k, t).shift == k * t.len(),
    decreases k,
{
    if k > 0 {
        lemma_typed_so_far(v, list, t, k - 1);
        assert((k - 1) * t.len() + t.len() == k * t.len()) by (nonlinear_arith);
        assert(k * t.len() <= t.len() * list.len()) by (nonlinear_arith)
            requires
                k <= list.len(),
        ;
        lemma_typed_step(
            typed_upto(start_multi(v, list), text_order(list), k - 1, t),
            v.text,
            list,
            t,
            k - 1,
        );
    } else {
        text_order_is_sorted(list);
    }
}

/// Typing puts one copy of the text where each cursor stands and changes nothing
/// else; each cursor selects from the start of its copy to behind it.
pub proof fn typing_puts_a_copy_at_each_cursor(v: BufferView, list: Seq<Selection>, t: Seq<u8>)
    requires
        cursors_in(v.text, list),
        heads_differ(list),
        0 < list.len() <= usize::MAX,
        has_room(v.text, (t.len() * list.len()) as int),
        t.len() > 0,
    ensures
        ({
            let m = typed(v, list, t);
            let n = v.text.len() as int;
            &&& m.buf.text == woven(v.text, list, t, n) + copy_at(list, t, n)
            &&& m.list.len() == list.len()
            &&& forall|i: int|
                0 <= i < list.len() ==> {
                    let at = woven(v.text, list, t, list[i].head as int).len();
                    (#[trigger] m.list[i]).anchor == at && m.list[i].head == at + t.len()
                }
        }),
{
    let s = v.text;
    let order = text_order(list);
    let n = list.len() as int;
    lemma_typed_so_far(v, list, t, n);
    lemma_woven_upto(s, list, t, n);
    text_order_is_sorted(list);
    let c = order[n - 1];
    let h = list[c].head as int;
    let len = s.len() as int;
    let m = typed(v, list, t);
    if h == len {
        assert(copy_at(list, t, len) == t);
    } else {
        assert forall|i: int| 0 <= i < n implies (#[trigger] list[i]).head != len by {
            lemma_order_hits(list, i);
            let j = choose|j: int| 0 <= j < n && order[j] == i;
            assert(list[i].anchor == list[i].head && list[c].anchor == list[c].head);
            assert(list[c].head <= s.len());
        }
        assert(copy_at(list, t, len) == Seq::<u8>::empty());
        assert(s.skip(h) =~= s.subrange(h, len));
    }
    assert(m.buf.text =~= woven(s, list, t, len) + copy_at(list, t, len));
    assert forall|i: int| 0 <= i < n implies ({
        let at = woven(s, list, t, list[i].head as int).len();
        (#[trigger] m.list[i]).anchor == at && m.list[i].head == at + t.len()
    }) by {
        lemma_order_hits(list, i);
        let j = choose|j: int| 0 <= j < n && order[j] == i;
        assert(order[j] == i);
    }
}

/// After deleting and changing every cursor aims at the column that it stands in.
pub proof fn cursors_aim_where_they_stand(v: BufferView, sels: SelectionsView, i: int)
    requires
        v.text.len() > 0,
        v.text.len() <= usize::MAX,
        0 <= i < sels.list.len(),
        0 <= i < deleted_all(v, sels).1.list.len(),
        0 <= i < changed_all(v, sels).1.list.len(),
    ensures
        ({
            let (w, after) = deleted_all(v, sels);
            let c = after.list[i];
            c.desired_col == column_at(w.text, c.head as int) as usize
        }),
        ({
            let (w, after) = changed_all(v, sels);
            let c = after.list[i];
            c.desired_col == column_at(w.text, c.head as int) as usize
        }),
{
    let m = cut_all(v.marked(snapshot(sels.prime())), sels.list, Cut::Selected);
    lemma_cut_shrinks(
        start_multi(v.marked(snapshot(sels.prime())), sels.list),
        text_order(sels.list),
        sels.list.len() as int,
    );
    snap_is_idempotent(m.buf.text, m.list[i].head as int);
}

}
