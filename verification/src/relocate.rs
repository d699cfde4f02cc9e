//! Moves that every selection makes alike.
use vstd::prelude::*;
use crate::edit::{cursor_at, sel_end};
use crate::input::Key;
use crate::motion::{
    apply_motion, find_char_on_line, find_on_line, line_moved, motion_word_backward,
    motion_word_forward, move_line_relative_cached, moved, paragraph_backward,
    paragraph_end_forward, paragraph_forward, paragraph_start_backward, word_backward,
    word_forward, FindOp, Motion,
};
use crate::object::{object_selected, select_object, ObjectKind};
use crate::selection::{sel_min, Selection, Selections, SelectionsView};
use crate::text::{
    display_col, indexes, line_end, line_end_of, line_start, line_start_of, next_char_or_end,
    next_char_or_end_of, prev_char, prev_char_of, text_fits,
};

verus! {

#[derive(Debug, Clone, Copy, PartialEq, Eq, Structural)]
pub enum Move {
    /// Select the object that a key names.
    Object(ObjectKind, Key),
    /// Search for a character on the line.
    Find(char, FindOp),
    /// Go this many lines down, or up when negative.
    Lines(i64),
    ParagraphEnd,
    ParagraphStart,
    /// Make a motion, extending the selection or not.
    Step(Motion, bool),
    /// Put the cursor at the selection's start.
    ToStart,
    /// Put the cursor behind the selection.
    PastEnd,
    /// Put the cursor at the start of the line.
    LineHead,
    /// Put the cursor at the end of the line.
    LineTail,
    /// Drop all of the selection but its head.
    Collapse,
    /// Make a motion without selecting anything.
    Walk(Motion),
    /// Move the insertion point.
    Point(Reach),
}

/// Where the line-editing keys of insert mode put the insertion point.
#[derive(Debug, Clone, Copy, PartialEq, Eq, Structural)]
pub enum Reach {
    WordBack,
    WordForward,
    LineStart,
    LineEnd,
    CharBack,
    CharForward,
}

pub open spec fn reach_target(s: Seq<u8>, h: int, reach: Reach) -> int {
    match reach {
        Reach::WordBack => word_backward(s, h),
        Reach::WordForward => next_char_or_end_of(s, word_forward(s, h)),
        Reach::LineStart => line_start_of(s, h),
        Reach::LineEnd => line_end_of(s, h),
        Reach::CharBack => prev_char_of(s, h),
        Reach::CharForward => next_char_or_end_of(s, h),
    }
}

/// The selection with its cursor put at `h`.
pub open spec fn placed_at(sel: Selection, h: int) -> Selection {
    Selection { anchor: h as usize, head: h as usize, desired_col: sel.desired_col }
}

pub open spec fn relocated(s: Seq<u8>, sel: Selection, mv: Move) -> Selection {
    let h = sel.head as int;
    match mv {
        Move::Object(kind, key) => object_selected(s, sel, kind, key),
        Move::Find(c, op) => match find_on_line(s, h, c, op) {
            None => sel,
            Some(o) => placed_at(sel, o),
        },
        Move::Lines(delta) => line_moved(s, sel, delta as int),
        Move::ParagraphEnd => cursor_at(s, paragraph_forward(s, h)),
        Move::ParagraphStart => cursor_at(s, paragraph_backward(s, h)),
        Move::Step(motion, extend) => moved(s, sel, motion, extend),
        Move::ToStart => placed_at(sel, sel_min(sel)),
        Move::PastEnd => placed_at(sel, sel_end(s, sel)),
        Move::LineHead => placed_at(sel, line_start_of(s, h)),
        Move::LineTail => placed_at(sel, line_end_of(s, h)),
        Move::Collapse => placed_at(sel, h),
        Move::Walk(motion) => {
            let r = moved(s, sel, motion, false);
            Selection { anchor: r.head, ..r }
        },
        Move::Point(reach) => cursor_at(s, reach_target(s, h, reach)),
    }
}

/// All selections moved alike.
pub open spec fn all_relocated(s: Seq<u8>, sels: SelectionsView, mv: Move) -> SelectionsView {
    SelectionsView {
        list: sels.list.map_values(|sel: Selection| relocated(s, sel, mv)),
        primary: sels.primary,
    }
}

fn put_at(sel: Selection, h: usize) -> (r: Selection)
    ensures
        r == placed_at(sel, h as int),
{
    Selection { anchor: h, head: h, desired_col: sel.desired_col }
}

pub fn cursor_on(bytes: &[u8], h: usize) -> (r: Selection)
    requires
        text_fits(bytes@),
    ensures
        r == cursor_at(bytes@, h as int),
{
    Selection { anchor: h, head: h, desired_col: display_col(bytes, line_start(bytes, h), h) }
}

pub fn relocate(bytes: &[u8], line_starts: &[usize], sel: Selection, mv: Move) -> (r: Selection)
    requires
        text_fits(bytes@),
        indexes(line_starts@, bytes@),
    ensures
        r == relocated(bytes@, sel, mv),
{
    match mv {
        Move::Object(kind, key) => select_object(bytes, sel, kind, key),
        Move::Find(c, op) => match find_char_on_line(bytes, sel.head, c, op) {
            None => sel,
            Some(o) => put_at(sel, o),
        },
        Move::Lines(delta) => {
            let mut r = sel;
            move_line_relative_cached(bytes, line_starts, &mut r, delta);
            r
        },
        Move::ParagraphEnd => cursor_on(bytes, paragraph_end_forward(bytes, sel.head)),
        Move::ParagraphStart => cursor_on(bytes, paragraph_start_backward(bytes, sel.head)),
        Move::Step(motion, extend) => {
            let mut r = sel;
            apply_motion(bytes, &mut r, motion, extend);
            r
        },
        Move::ToStart => put_at(sel, sel.min()),
        Move::PastEnd => put_at(sel, next_char_or_end(bytes, sel.max())),
        Move::LineHead => put_at(sel, line_start(bytes, sel.head)),
        Move::LineTail => put_at(sel, line_end(bytes, sel.head)),
        Move::Collapse => put_at(sel, sel.head),
        Move::Walk(motion) => {
            let mut r = sel;
            apply_motion(bytes, &mut r, motion, false);
            r.anchor = r.head;
            r
        },
        Move::Point(reach) => {
            let h: usize = match reach {
                Reach::WordBack => motion_word_backward(bytes, sel.head),
                Reach::WordForward => next_char_or_end(
                    bytes,
                    motion_word_forward(bytes, sel.head),
                ),
                Reach::LineStart => line_start(bytes, sel.head),
                Reach::LineEnd => line_end(bytes, sel.head),
                Reach::CharBack => prev_char(bytes, sel.head),
                Reach::CharForward => next_char_or_end(bytes, sel.head),
            };
            cursor_on(bytes, h)
        },
    }
}

/// Move all selections alike.
pub fn relocate_all(sels: &mut Selections, bytes: &[u8], line_starts: &[usize], mv: Move)
    requires
        old(sels).wf(),
        text_fits(bytes@),
        indexes(line_starts@, bytes@),
    ensures
        final(sels).wf(),
        final(sels)@ == all_relocated(bytes@, old(sels)@, mv),
{
    let ghost list0 = sels@.list;
    let n: usize = sels.len();
    let mut i: usize = 0;
    while i < n
        invariant
            i <= n == list0.len() == sels@.list.len(),
            list0 == old(sels)@.list,
            text_fits(bytes@),
            indexes(line_starts@, bytes@),
            sels@.primary == old(sels)@.primary,
            forall|j: int|
                0 <= j < i ==> #[trigger] sels@.list[j] == relocated(bytes@, list0[j], mv),
            forall|j: int| i <= j < n ==> #[trigger] sels@.list[j] == list0[j],
        decreases n - i,
    {
        let sel = relocate(bytes, line_starts, sels.get(i), mv);
        sels.set(i, sel);
        i += 1;
    }
    assert(sels@.list =~= all_relocated(bytes@, old(sels)@, mv).list);
}

}
