//! Normal mode: what each key does.
use vstd::prelude::*;
use vstd::utf8::valid_utf8;
use crate::action::{BracketDir, LspAction};
use crate::buffer::{Buffer, BufferView};
use crate::edit::{
    changed_all, cursor_at, deleted_all, has_room, op_change_multi, op_delete_multi, op_open_above,
    op_open_below, op_paste_after, op_paste_before, op_redo, op_undo, op_yank, opened,
    paste_point, pasted, redo_selection, sel_fits, undo_selection, yanked,
};
use crate::input::{Key, KeyEvent, Mods, ALT_BIT, CTRL_BIT, SHIFT_BIT};
use crate::motion::{last_line_start, last_start, FindOp, Motion};
use crate::object::ObjectKind;
use crate::relocate::{all_relocated, cursor_on, placed_at, relocate_all, Move};
use crate::search::{
    add_next_smart, find_and_select, found_next, smart_added, SearchKind, SearchState, SearchView,
};
use crate::selection::{
    sel_min, snapshot, snapshot_of, Mode, Registers, Selection, Selections, SelectionsView,
};
use crate::text::{
    imax, indexes, line_end_of, line_index, line_of, line_start_of, snap_of, snap_to_char_or_last,
    lemma_whole_char, on_char,
    text_fits,
};

verus! {

/// How far the half-page keys go.
pub const HALF_PAGE: i64 = 10;

/// What a command can change.
#[verifier::ext_equal]
pub struct CommandView {
    pub buf: BufferView,
    pub sels: SelectionsView,
    pub mode: Mode,
    pub register: Seq<u8>,
    pub find: Option<FindOp>,
    pub search: SearchView,
}

/// What a key in normal mode can change: what a command can, the keys that
/// are waiting for another one, a request for the language server and the
/// first visible line.
#[verifier::ext_equal]
pub struct NormalView {
    pub cmd: CommandView,
    pub g: bool,
    pub z: bool,
    pub object: Option<ObjectKind>,
    pub bracket: Option<BracketDir>,
    pub lsp: Option<LspAction>,
    pub top: int,
}

impl CommandView {
    pub open spec fn moving(self, mv: Move) -> CommandView {
        CommandView { sels: all_relocated(self.buf.text, self.sels, mv), ..self }
    }

    /// The primary selection alone, replaced by `sel`.
    pub open spec fn jumped(self, sel: Selection) -> CommandView {
        CommandView { sels: self.sels.only_prime().with_prime(sel), ..self }
    }

    /// All selections moved, and inserting begun.
    pub open spec fn inserting(self, mv: Move) -> CommandView {
        let v = self.moving(mv);
        CommandView { buf: v.buf.marked(snapshot(v.sels.prime())), mode: Mode::Insert, ..v }
    }

    pub open spec fn searching(self, kind: SearchKind) -> CommandView {
        let sels = if kind is Find { self.sels.only_prime() } else { self.sels };
        CommandView {
            sels,
            mode: Mode::Search,
            search: SearchView {
                start: Some(snapshot(sels.prime())),
                preview: None,
                kind,
                ..self.search
            },
            ..self
        }
    }

    /// The search repeated.
    pub open spec fn repeated(self, forward: bool) -> CommandView {
        match self.search.pattern {
            None => self,
            Some(p) => self.jumped(found_next(self.buf.text, self.sels.prime(), p, forward)),
        }
    }

    pub open spec fn adding(self, forward: bool) -> CommandView {
        let r = smart_added(self.buf.text, self.sels, self.search, forward);
        CommandView { sels: r.0, search: r.1, ..self }
    }

    pub open spec fn deleting(self) -> CommandView {
        let r = deleted_all(self.buf, self.sels);
        CommandView {
            buf: r.0,
            sels: r.1,
            register: yanked(self.buf.text, self.sels.prime(), self.register),
            ..self
        }
    }

    pub open spec fn changing(self) -> CommandView {
        let r = changed_all(self.buf, self.sels);
        CommandView {
            buf: r.0,
            sels: r.1,
            register: yanked(self.buf.text, self.sels.prime(), self.register),
            mode: Mode::Insert,
            ..self
        }
    }

    pub open spec fn pasting(self, at: int) -> CommandView {
        let r = pasted(self.buf, self.sels.prime(), self.register, at);
        CommandView { buf: r.0, sels: self.sels.only_prime().with_prime(r.1), ..self }
    }

    pub open spec fn opening(self, at: int, head: int) -> CommandView {
        let sel = self.sels.prime();
        CommandView {
            buf: opened(self.buf, sel, at),
            sels: self.sels.only_prime().with_prime(placed_at(sel, head)),
            mode: Mode::Insert,
            ..self
        }
    }
}

/// The motion of a key and whether it extends the selection.
pub open spec fn key_motion(k: KeyEvent) -> Option<(Motion, bool)> {
    let shift = k.mods.has(Mods(SHIFT_BIT));
    match k.key {
        Key::Char('h') => Some((Motion::Left, false)),
        Key::Char('H') => Some((Motion::Left, true)),
        Key::Char('l') => Some((Motion::Right, false)),
        Key::Char('L') => Some((Motion::Right, true)),
        Key::Char('k') => Some((Motion::Up, false)),
        Key::Char('K') => Some((Motion::Up, true)),
        Key::Char('j') => Some((Motion::Down, false)),
        Key::Char('J') => Some((Motion::Down, true)),
        Key::Char('w') => Some((Motion::NextWord, false)),
        Key::Char('W') => Some((Motion::NextWord, true)),
        Key::Char('b') => Some((Motion::PrevWord, false)),
        Key::Char('B') => Some((Motion::PrevWord, true)),
        Key::Char('e') => Some((Motion::EndWord, false)),
        Key::Char('E') => Some((Motion::EndWord, true)),
        Key::Left => Some((Motion::Left, shift)),
        Key::Right => Some((Motion::Right, shift)),
        Key::Up => Some((Motion::Up, shift)),
        Key::Down => Some((Motion::Down, shift)),
        Key::Home => Some((Motion::LineStart, shift)),
        Key::End => Some((Motion::LineEnd, shift)),
        _ => None,
    }
}

pub open spec fn motion_step(v: CommandView, k: KeyEvent) -> CommandView {
    match key_motion(k) {
        None => v,
        Some((m, extend)) => v.moving(Move::Step(m, extend)),
    }
}

/// The command of a key without modifiers.
pub open spec fn plain_step(v: CommandView, k: KeyEvent) -> CommandView {
    let s = v.buf.text;
    let p = v.sels.prime();
    match k.key {
        Key::Char('f') => CommandView { find: Some(FindOp::ForwardTo), ..v },
        Key::Char('F') => CommandView { find: Some(FindOp::BackwardTo), ..v },
        Key::Char('t') => CommandView { find: Some(FindOp::ForwardTill), ..v },
        Key::Char('T') => CommandView { find: Some(FindOp::BackwardTill), ..v },
        Key::Char('}') => v.moving(Move::ParagraphEnd),
        Key::Char('{') => v.moving(Move::ParagraphStart),
        Key::Char('q') => v,
        Key::Char('G') => v.jumped(cursor_at(s, snap_of(s, last_start(s)))),
        Key::Char('/') => v.searching(SearchKind::Find),
        Key::Char('s') => v.searching(SearchKind::SelectWithin),
        Key::Char('n') => v.repeated(true),
        Key::Char('N') => v.repeated(false),
        Key::Char(',') => CommandView { sels: v.sels.only_prime(), ..v },
        Key::Char('<') => CommandView { sels: v.sels.rotated(-1), ..v },
        Key::Char('>') => CommandView { sels: v.sels.rotated(1), ..v },
        Key::Char('i') => v.inserting(Move::ToStart),
        Key::Char('a') => v.inserting(Move::PastEnd),
        Key::Char('I') => v.inserting(Move::LineHead),
        Key::Char('A') => v.inserting(Move::LineTail),
        Key::Char('u') => CommandView {
            buf: v.buf.undone(snapshot(p)),
            ..v.jumped(undo_selection(v.buf, p))
        },
        Key::Char('U') => CommandView {
            buf: v.buf.redone(snapshot(p)),
            ..v.jumped(redo_selection(v.buf, p))
        },
        Key::Char(';') => v.moving(Move::Collapse),
        Key::Char(':') => CommandView { mode: Mode::Ex, ..v },
        Key::Char('d') => v.deleting(),
        Key::Char('c') => v.changing(),
        Key::Char('y') => CommandView { register: yanked(s, p, v.register), ..v },
        Key::Char('p') => v.pasting(paste_point(s, p)),
        Key::Char('P') => v.pasting(sel_min(p)),
        Key::Char('o') => v.opening(line_end_of(s, p.head as int), line_end_of(s, p.head as int) + 1),
        Key::Char('O') => v.opening(
            line_start_of(s, p.head as int),
            line_start_of(s, p.head as int),
        ),
        _ => motion_step(v, k),
    }
}

/// The command of a key.
pub open spec fn command_step(v: CommandView, k: KeyEvent) -> CommandView {
    if k.mods == Mods(0) {
        plain_step(v, k)
    } else if k.mods == Mods(CTRL_BIT) {
        match k.key {
            Key::Char('d') => v.moving(Move::Lines(HALF_PAGE)),
            Key::Char('u') => v.moving(Move::Lines((-HALF_PAGE) as i64)),
            Key::Char('j') => v.adding(true),
            Key::Char('k') => v.adding(false),
            _ => motion_step(v, k),
        }
    } else {
        motion_step(v, k)
    }
}

pub open spec fn is_plain(k: KeyEvent, c: char) -> bool {
    k.mods == Mods(0) && k.key == Key::Char(c)
}

pub open spec fn is_alt(k: KeyEvent, c: char) -> bool {
    k.mods == Mods(ALT_BIT) && k.key == Key::Char(c)
}

/// The second key of the `g` prefix.
pub open spec fn g_step(v: NormalView, k: KeyEvent) -> NormalView {
    let w = NormalView { g: false, ..v };
    if is_plain(k, 'g') {
        NormalView {
            cmd: v.cmd.jumped(Selection { anchor: 0, head: 0, desired_col: 1 }),
            ..w
        }
    } else if is_plain(k, 'd') {
        NormalView { lsp: Some(LspAction::GotoDefinition), ..w }
    } else {
        w
    }
}

/// What a key does in normal mode, `rows` being the height of the viewport.
/// A prefix key waits for the next key, which it swallows whatever it is.
pub open spec fn normal_step(v: NormalView, rows: int, k: KeyEvent) -> NormalView {
    if v.object is Some {
        NormalView {
            object: None,
            cmd: if k.mods == Mods(0) {
                v.cmd.moving(Move::Object(v.object.unwrap(), k.key))
            } else {
                v.cmd
            },
            ..v
        }
    } else if v.bracket is Some {
        NormalView {
            bracket: None,
            lsp: if is_plain(k, 'd') {
                Some(
                    match v.bracket.unwrap() {
                        BracketDir::Next => LspAction::NextDiagnostic,
                        BracketDir::Prev => LspAction::PrevDiagnostic,
                    },
                )
            } else {
                v.lsp
            },
            ..v
        }
    } else if is_plain(k, ']') {
        NormalView { bracket: Some(BracketDir::Next), ..v }
    } else if is_plain(k, '[') {
        NormalView { bracket: Some(BracketDir::Prev), ..v }
    } else if v.cmd.find is Some {
        let w = CommandView { find: None, ..v.cmd };
        NormalView {
            cmd: match k.key {
                Key::Char(c) => w.moving(Move::Find(c, v.cmd.find.unwrap())),
                _ => w,
            },
            ..v
        }
    } else if is_alt(k, 'i') {
        NormalView { object: Some(ObjectKind::Inner), ..v }
    } else if is_alt(k, 'a') {
        NormalView { object: Some(ObjectKind::Around), ..v }
    } else if v.g {
        g_step(v, k)
    } else if is_plain(k, 'g') {
        NormalView { g: true, ..v }
    } else if v.z {
        NormalView {
            z: false,
            top: if is_plain(k, 'z') {
                imax(line_of(v.cmd.buf.text, v.cmd.sels.prime().head as int) - rows / 2, 0)
            } else {
                v.top
            },
            ..v
        }
    } else if is_plain(k, 'z') {
        NormalView { z: true, ..v }
    } else {
        NormalView { cmd: command_step(v.cmd, k), ..v }
    }
}

/// No prefix key is waiting for this one.
pub open spec fn settled(v: NormalView) -> bool {
    v.object is None && v.bracket is None && v.cmd.find is None && !v.g && !v.z
}

/// The key asks to quit.
pub open spec fn is_quit(v: NormalView, k: KeyEvent) -> bool {
    settled(v) && is_plain(k, 'q')
}

/// The key asks for another occurrence of the primary selection.
pub open spec fn is_adding(k: KeyEvent) -> bool {
    k.mods == Mods(CTRL_BIT) && (k.key == Key::Char('j') || k.key == Key::Char('k'))
}

pub open spec fn command_view(
    buffer: Buffer,
    sels: Selections,
    mode: Mode,
    registers: Registers,
    find: Option<FindOp>,
    search: SearchState,
) -> CommandView {
    CommandView {
        buf: buffer@,
        sels: sels@,
        mode,
        register: registers.default@,
        find,
        search: search@,
    }
}

fn motion_of(k: KeyEvent) -> (r: Option<(Motion, bool)>)
    ensures
        r == key_motion(k),
{
    let shift: bool = k.mods.contains(Mods(SHIFT_BIT));
    match k.key {
        Key::Char('h') => Some((Motion::Left, false)),
        Key::Char('H') => Some((Motion::Left, true)),
        Key::Char('l') => Some((Motion::Right, false)),
        Key::Char('L') => Some((Motion::Right, true)),
        Key::Char('k') => Some((Motion::Up, false)),
        Key::Char('K') => Some((Motion::Up, true)),
        Key::Char('j') => Some((Motion::Down, false)),
        Key::Char('J') => Some((Motion::Down, true)),
        Key::Char('w') => Some((Motion::NextWord, false)),
        Key::Char('W') => Some((Motion::NextWord, true)),
        Key::Char('b') => Some((Motion::PrevWord, false)),
        Key::Char('B') => Some((Motion::PrevWord, true)),
        Key::Char('e') => Some((Motion::EndWord, false)),
        Key::Char('E') => Some((Motion::EndWord, true)),
        Key::Left => Some((Motion::Left, shift)),
        Key::Right => Some((Motion::Right, shift)),
        Key::Up => Some((Motion::Up, shift)),
        Key::Down => Some((Motion::Down, shift)),
        Key::Home => Some((Motion::LineStart, shift)),
        Key::End => Some((Motion::LineEnd, shift)),
        _ => None,
    }
}

/// Move every selection and begin inserting.
fn begin_insert(
    buffer: &mut Buffer,
    sels: &mut Selections,
    mode: &mut Mode,
    bytes: &[u8],
    line_starts: &[usize],
    mv: Move,
)
    requires
        old(buffer).wf(),
        old(sels).wf(),
        text_fits(bytes@),
        indexes(line_starts@, bytes@),
    ensures
        final(buffer).wf(),
        final(sels).wf(),
        final(sels)@ == all_relocated(bytes@, old(sels)@, mv),
        final(buffer)@ == old(buffer)@.marked(snapshot(final(sels)@.prime())),
        *final(mode) == Mode::Insert,
{
    relocate_all(sels, bytes, line_starts, mv);
    buffer.mark_commit_point(snapshot_of(sels.primary()));
    *mode = Mode::Insert;
}

/// Begin a search at the primary selection.
fn begin_search(sels: &mut Selections, mode: &mut Mode, search: &mut SearchState, kind: SearchKind)
    requires
        old(sels).wf(),
    ensures
        final(sels).wf(),
        final(sels)@ == (if kind is Find { old(sels)@.only_prime() } else { old(sels)@ }),
        *final(mode) == Mode::Search,
        final(search)@ == (SearchView {
            start: Some(snapshot(final(sels)@.prime())),
            preview: None,
            kind,
            ..old(search)@
        }),
{
    if kind == SearchKind::Find {
        sels.reduce_to_primary();
    }
    search.start = Some(snapshot_of(sels.primary()));
    search.preview = None;
    search.kind = kind;
    *mode = Mode::Search;
}

/// Go to the next or previous match of the last search.
fn repeat_search(sels: &mut Selections, search: &SearchState, bytes: &[u8], forward: bool)
    requires
        old(sels).wf(),
        text_fits(bytes@),
    ensures
        final(sels).wf(),
        final(sels)@ == (match search@.pattern {
            None => old(sels)@,
            Some(p) => old(sels)@.only_prime().with_prime(
                found_next(bytes@, old(sels)@.prime(), p, forward),
            ),
        }),
{
    match &search.pattern {
        None => {},
        Some(p) => {
            sels.reduce_to_primary();
            let _ = find_and_select(sels.primary_mut(), bytes, p.as_str(), forward);
        },
    }
}

/// Run the command of a key without modifiers. Only the keys that type, paste
/// or delete change the buffer.
fn run_plain(
    buffer: &mut Buffer,
    sels: &mut Selections,
    mode: &mut Mode,
    registers: &mut Registers,
    pending_find: &mut Option<FindOp>,
    search: &mut SearchState,
    bytes: &[u8],
    line_starts: &[usize],
    k: KeyEvent,
)
    requires
        old(buffer).wf(),
        old(sels).wf(),
        bytes@ == old(buffer)@.text,
        indexes(line_starts@, bytes@),
        has_room(bytes@, old(registers).default@.len() + 1int),
        sel_fits(old(sels)@.prime()),
    ensures
        final(buffer).wf(),
        final(sels).wf(),
        command_view(
            *final(buffer),
            *final(sels),
            *final(mode),
            *final(registers),
            *final(pending_find),
            *final(search),
        ) == plain_step(
            command_view(
                *old(buffer),
                *old(sels),
                *old(mode),
                *old(registers),
                *old(pending_find),
                *old(search),
            ),
            k,
        ),
{
    match k.key {
        Key::Char('f') => {
            *pending_find = Some(FindOp::ForwardTo);
        },
        Key::Char('F') => {
            *pending_find = Some(FindOp::BackwardTo);
        },
        Key::Char('t') => {
            *pending_find = Some(FindOp::ForwardTill);
        },
        Key::Char('T') => {
            *pending_find = Some(FindOp::BackwardTill);
        },
        Key::Char('}') => relocate_all(sels, bytes, line_starts, Move::ParagraphEnd),
        Key::Char('{') => relocate_all(sels, bytes, line_starts, Move::ParagraphStart),
        Key::Char('q') => {},
        Key::Char('G') => {
            sels.reduce_to_primary();
            let head: usize = snap_to_char_or_last(bytes, last_line_start(bytes));
            *sels.primary_mut() = cursor_on(bytes, head);
        },
        Key::Char('/') => begin_search(sels, mode, search, SearchKind::Find),
        Key::Char('s') => begin_search(sels, mode, search, SearchKind::SelectWithin),
        Key::Char('n') => repeat_search(sels, search, bytes, true),
        Key::Char('N') => repeat_search(sels, search, bytes, false),
        Key::Char(',') => sels.reduce_to_primary(),
        Key::Char('<') => sels.rotate_primary(-1),
        Key::Char('>') => sels.rotate_primary(1),
        Key::Char('i') => begin_insert(buffer, sels, mode, bytes, line_starts, Move::ToStart),
        Key::Char('a') => begin_insert(buffer, sels, mode, bytes, line_starts, Move::PastEnd),
        Key::Char('I') => begin_insert(buffer, sels, mode, bytes, line_starts, Move::LineHead),
        Key::Char('A') => begin_insert(buffer, sels, mode, bytes, line_starts, Move::LineTail),
        Key::Char('u') => {
            sels.reduce_to_primary();
            op_undo(buffer, sels.primary_mut());
        },
        Key::Char('U') => {
            sels.reduce_to_primary();
            op_redo(buffer, sels.primary_mut());
        },
        Key::Char(';') => relocate_all(sels, bytes, line_starts, Move::Collapse),
        Key::Char(':') => {
            *mode = Mode::Ex;
        },
        Key::Char('d') => op_delete_multi(buffer, sels, registers),
        Key::Char('c') => op_change_multi(buffer, sels, mode, registers),
        Key::Char('y') => op_yank(buffer, sels.primary(), registers),
        Key::Char('p') => {
            sels.reduce_to_primary();
            op_paste_after(buffer, sels.primary_mut(), registers);
        },
        Key::Char('P') => {
            sels.reduce_to_primary();
            op_paste_before(buffer, sels.primary_mut(), registers);
        },
        Key::Char('o') => {
            sels.reduce_to_primary();
            op_open_below(buffer, sels.primary_mut(), mode);
        },
        Key::Char('O') => {
            sels.reduce_to_primary();
            op_open_above(buffer, sels.primary_mut(), mode);
        },
        _ => run_motion(sels, bytes, line_starts, k),
    }
}

fn run_motion(sels: &mut Selections, bytes: &[u8], line_starts: &[usize], k: KeyEvent)
    requires
        old(sels).wf(),
        text_fits(bytes@),
        indexes(line_starts@, bytes@),
    ensures
        final(sels).wf(),
        final(sels)@ == (match key_motion(k) {
            None => old(sels)@,
            Some((m, extend)) => all_relocated(bytes@, old(sels)@, Move::Step(m, extend)),
        }),
{
    match motion_of(k) {
        None => {},
        Some((m, extend)) => relocate_all(sels, bytes, line_starts, Move::Step(m, extend)),
    }
}

/// Handle a key in normal mode. `cached_bytes` and `cached_line_starts` are
/// the buffer's text and its line index. Says whether the key asks to quit.
pub fn handle_normal(
    buffer: &mut Buffer,
    sels: &mut Selections,
    mode: &mut Mode,
    registers: &mut Registers,
    pending_g: &mut bool,
    pending_z: &mut bool,
    pending_object: &mut Option<ObjectKind>,
    pending_find: &mut Option<FindOp>,
    pending_bracket: &mut Option<BracketDir>,
    search: &mut SearchState,
    lsp_action: &mut Option<LspAction>,
    top_line: &mut usize,
    viewport_rows: usize,
    cached_bytes: &[u8],
    cached_line_starts: &[usize],
    k: KeyEvent,
) -> (quit: bool)
    requires
        old(buffer).wf(),
        old(sels).wf(),
        cached_bytes@ == old(buffer)@.text,
        indexes(cached_line_starts@, cached_bytes@),
        has_room(cached_bytes@, old(registers).default@.len() + 1int),
        sel_fits(old(sels)@.prime()),
        is_adding(k) && old(sels)@.prime().anchor != old(sels)@.prime().head
            && *old(pending_object) is None && *old(pending_bracket) is None
            && *old(pending_find) is None && !*old(pending_g) && !*old(pending_z) ==> sel_min(
            old(sels)@.prime(),
        ) <= cached_bytes@.len(),
    ensures
        final(buffer).wf(),
        final(sels).wf(),
        ({
            let before = NormalView {
                cmd: command_view(
                    *old(buffer),
                    *old(sels),
                    *old(mode),
                    *old(registers),
                    *old(pending_find),
                    *old(search),
                ),
                g: *old(pending_g),
                z: *old(pending_z),
                object: *old(pending_object),
                bracket: *old(pending_bracket),
                lsp: *old(lsp_action),
                top: *old(top_line) as int,
            };
            let after = NormalView {
                cmd: command_view(
                    *final(buffer),
                    *final(sels),
                    *final(mode),
                    *final(registers),
                    *final(pending_find),
                    *final(search),
                ),
                g: *final(pending_g),
                z: *final(pending_z),
                object: *final(pending_object),
                bracket: *final(pending_bracket),
                lsp: *final(lsp_action),
                top: *final(top_line) as int,
            };
            &&& after == normal_step(before, viewport_rows as int, k)
            &&& quit == is_quit(before, k)
        }),
{
    let bytes: &[u8] = cached_bytes;
    let line_starts: &[usize] = cached_line_starts;
    let plain: bool = k.mods.is_empty();

    match pending_object.take() {
        None => {},
        Some(kind) => {
            if plain {
                relocate_all(sels, bytes, line_starts, Move::Object(kind, k.key));
            }
            return false;
        },
    }
    match pending_bracket.take() {
        None => {},
        Some(dir) => {
            if plain && k.key == Key::Char('d') {
                *lsp_action = Some(
                    match dir {
                        BracketDir::Next => LspAction::NextDiagnostic,
                        BracketDir::Prev => LspAction::PrevDiagnostic,
                    },
                );
            }
            return false;
        },
    }
    if plain && k.key == Key::Char(']') {
        *pending_bracket = Some(BracketDir::Next);
        return false;
    }
    if plain && k.key == Key::Char('[') {
        *pending_bracket = Some(BracketDir::Prev);
        return false;
    }
    match pending_find.take() {
        None => {},
        Some(op) => {
            if let Key::Char(c) = k.key {
                relocate_all(sels, bytes, line_starts, Move::Find(c, op));
            }
            return false;
        },
    }
    if k.mods == Mods(ALT_BIT) && k.key == Key::Char('i') {
        *pending_object = Some(ObjectKind::Inner);
        return false;
    }
    if k.mods == Mods(ALT_BIT) && k.key == Key::Char('a') {
        *pending_object = Some(ObjectKind::Around);
        return false;
    }
    if *pending_g {
        *pending_g = false;
        if plain {
            match k.key {
                Key::Char('g') => {
                    sels.reduce_to_primary();
                    *sels.primary_mut() = Selection::new();
                },
                Key::Char('d') => {
                    *lsp_action = Some(LspAction::GotoDefinition);
                },
                _ => {},
            }
        }
        return false;
    }
    if plain && k.key == Key::Char('g') {
        *pending_g = true;
        return false;
    }
    if *pending_z {
        *pending_z = false;
        if plain && k.key == Key::Char('z') {
            let line: usize = line_index(bytes, sels.primary().head);
            *top_line = line.saturating_sub(viewport_rows / 2);
        }
        return false;
    }
    if plain && k.key == Key::Char('z') {
        *pending_z = true;
        return false;
    }
    if plain {
        run_plain(
            buffer,
            sels,
            mode,
            registers,
            pending_find,
            search,
            bytes,
            line_starts,
            k,
        );
        return k.key == Key::Char('q');
    }
    if k.mods == Mods(CTRL_BIT) {
        match k.key {
            Key::Char('d') => relocate_all(sels, bytes, line_starts, Move::Lines(HALF_PAGE)),
            Key::Char('u') => relocate_all(sels, bytes, line_starts, Move::Lines(-HALF_PAGE)),
            Key::Char('j') => add_next_smart(sels, bytes, search, true),
            Key::Char('k') => add_next_smart(sels, bytes, search, false),
            _ => run_motion(sels, bytes, line_starts, k),
        }
    } else {
        run_motion(sels, bytes, line_starts, k);
    }
    false
}

// ---------------------------------------------------------------------------
// Laws
// ---------------------------------------------------------------------------

/// A character key without modifiers.
pub open spec fn letter(c: char) -> KeyEvent {
    KeyEvent { key: Key::Char(c), mods: Mods(0) }
}

/// The letter that makes a motion; in upper case it extends the selection.
pub open spec fn letter_for(m: Motion, extend: bool) -> char {
    match (m, extend) {
        (Motion::Left, false) => 'h',
        (Motion::Left, true) => 'H',
        (Motion::Down, false) => 'j',
        (Motion::Down, true) => 'J',
        (Motion::Up, false) => 'k',
        (Motion::Up, true) => 'K',
        (Motion::Right, false) => 'l',
        (Motion::Right, true) => 'L',
        (Motion::NextWord, false) => 'w',
        (Motion::NextWord, true) => 'W',
        (Motion::PrevWord, false) => 'b',
        (Motion::PrevWord, true) => 'B',
        (Motion::EndWord, false) => 'e',
        (_, _) => 'E',
    }
}

/// The key with an arrow or a name that makes a motion.
pub open spec fn named_key_for(m: Motion) -> Key {
    match m {
        Motion::Left => Key::Left,
        Motion::Right => Key::Right,
        Motion::Up => Key::Up,
        Motion::Down => Key::Down,
        Motion::LineStart => Key::Home,
        _ => Key::End,
    }
}

/// Nothing but the selections differs.
pub open spec fn only_selections_differ(v: NormalView, w: NormalView) -> bool {
    w == NormalView { cmd: CommandView { sels: w.cmd.sels, ..v.cmd }, ..v }
}

/// Every selection makes the motion of a letter; in upper case it keeps its
/// anchor.
pub proof fn letters_move_every_selection(v: NormalView, rows: int, m: Motion, extend: bool)
    requires
        settled(v),
        !(m is LineStart) && !(m is LineEnd),
    ensures
        ({
            let w = normal_step(v, rows, letter(letter_for(m, extend)));
            &&& only_selections_differ(v, w)
            &&& w.cmd.sels.primary == v.cmd.sels.primary
            &&& w.cmd.sels.list.len() == v.cmd.sels.list.len()
            &&& forall|i: int|
                0 <= i < v.cmd.sels.list.len() ==> {
                    let (sel, after) = (v.cmd.sels.list[i], #[trigger] w.cmd.sels.list[i]);
                    let free = crate::motion::moved(v.cmd.buf.text, sel, m, false);
                    &&& after.head == free.head && after.desired_col == free.desired_col
                    &&& after.anchor == if extend { sel.anchor } else { free.anchor }
                }
        }),
{
}

/// Arrow keys, Home and End move every selection, and with Shift they keep its
/// anchor.
pub proof fn arrows_move_every_selection(
    v: NormalView,
    rows: int,
    m: Motion,
    extend: bool,
    mods: Mods,
)
    requires
        settled(v),
        mods == if extend { Mods(SHIFT_BIT) } else { Mods(0) },
        !(m is NextWord) && !(m is PrevWord) && !(m is EndWord),
    ensures
        ({
            let w = normal_step(v, rows, KeyEvent { key: named_key_for(m), mods });
            &&& only_selections_differ(v, w)
            &&& w.cmd.sels.primary == v.cmd.sels.primary
            &&& w.cmd.sels.list.len() == v.cmd.sels.list.len()
            &&& forall|i: int|
                0 <= i < v.cmd.sels.list.len() ==> {
                    let (sel, after) = (v.cmd.sels.list[i], #[trigger] w.cmd.sels.list[i]);
                    let free = crate::motion::moved(v.cmd.buf.text, sel, m, false);
                    &&& after.head == free.head && after.desired_col == free.desired_col
                    &&& after.anchor == if extend { sel.anchor } else { free.anchor }
                }
        }),
{
    assert(0u8 & 1 == 0 && 1u8 & 1 == 1) by (bit_vector);
}

/// Where a letter that begins inserting puts each cursor.
pub open spec fn insert_point(s: Seq<u8>, sel: Selection, c: char) -> int {
    let (lo, hi) = if sel.anchor < sel.head {
        (sel.anchor as int, sel.head as int)
    } else {
        (sel.head as int, sel.anchor as int)
    };
    if c == 'i' {
        lo
    } else if c == 'a' {
        crate::text::next_char_or_end_of(s, hi)
    } else if c == 'I' {
        line_start_of(s, sel.head as int)
    } else {
        line_end_of(s, sel.head as int)
    }
}

/// The letters that begin inserting collapse every selection: before what is
/// selected, behind it, at the start or at the end of the line. The text stays,
/// and what is typed is undone to here.
pub proof fn inserting_begins_at_every_selection(v: NormalView, rows: int, c: char)
    requires
        settled(v),
        v.cmd.sels.ok(),
        c == 'i' || c == 'a' || c == 'I' || c == 'A',
        v.cmd.buf.text.len() <= usize::MAX,
    ensures
        ({
            let w = normal_step(v, rows, letter(c));
            &&& w.cmd.mode == Mode::Insert
            &&& w.cmd.buf == v.cmd.buf.marked(snapshot(w.cmd.sels.prime()))
            &&& w.cmd.buf.text == v.cmd.buf.text
            &&& w.cmd.register == v.cmd.register
            &&& w.cmd.sels.primary == v.cmd.sels.primary
            &&& w.cmd.sels.list.len() == v.cmd.sels.list.len()
            &&& forall|i: int|
                0 <= i < v.cmd.sels.list.len() ==> {
                    let at = insert_point(v.cmd.buf.text, v.cmd.sels.list[i], c) as usize;
                    (#[trigger] w.cmd.sels.list[i]).head == at && w.cmd.sels.list[i].anchor == at
                }
        }),
{
}

/// The bytes of a selection: from its first to the end of its last character.
pub open spec fn selected_text(s: Seq<u8>, sel: Selection) -> Seq<u8> {
    let (lo, hi) = if sel.anchor < sel.head {
        (sel.anchor as int, sel.head as int)
    } else {
        (sel.head as int, sel.anchor as int)
    };
    s.subrange(lo, hi + crate::text::char_len(s[hi]))
}

/// Yanking, deleting and changing put what the primary selection covers into the
/// register. Yanking changes nothing else; deleting and changing take out what is
/// selected, and changing goes on to insert.
pub proof fn operators_fill_the_register(v: NormalView, rows: int, c: char)
    requires
        settled(v),
        v.cmd.sels.ok(),
        c == 'y' || c == 'd' || c == 'c',
        valid_utf8(v.cmd.buf.text),
        v.cmd.sels.prime().anchor < v.cmd.buf.text.len(),
        v.cmd.sels.prime().head < v.cmd.buf.text.len(),
        on_char(v.cmd.buf.text, v.cmd.sels.prime().anchor as int),
        on_char(v.cmd.buf.text, v.cmd.sels.prime().head as int),
    ensures
        ({
            let w = normal_step(v, rows, letter(c));
            let marked = v.cmd.buf.marked(snapshot(v.cmd.sels.prime()));
            &&& w.cmd.register == selected_text(v.cmd.buf.text, v.cmd.sels.prime())
            &&& w.cmd.mode == if c == 'c' { Mode::Insert } else { v.cmd.mode }
            &&& c == 'y' ==> w.cmd.buf == v.cmd.buf && w.cmd.sels == v.cmd.sels
            &&& c != 'y' ==> w.cmd.buf == crate::edit::cut_all(
                marked,
                v.cmd.sels.list,
                crate::edit::Cut::Selected,
            ).buf
            &&& w.cmd.find == v.cmd.find && w.cmd.search == v.cmd.search
        }),
{
    let s = v.cmd.buf.text;
    let p = v.cmd.sels.prime();
    lemma_whole_char(s, crate::selection::sel_max(p));
}

/// Pasting puts the register before what the primary selection covers or behind
/// it, and only the pasted text is then selected.
pub proof fn pasting_goes_before_or_behind(v: NormalView, rows: int, before: bool)
    requires
        settled(v),
        v.cmd.sels.ok(),
        valid_utf8(v.cmd.buf.text),
        valid_utf8(v.cmd.register),
        v.cmd.register.len() > 0,
        v.cmd.buf.text.len() + v.cmd.register.len() <= usize::MAX,
        v.cmd.sels.prime().anchor < v.cmd.buf.text.len(),
        v.cmd.sels.prime().head < v.cmd.buf.text.len(),
        on_char(v.cmd.buf.text, v.cmd.sels.prime().anchor as int),
        on_char(v.cmd.buf.text, v.cmd.sels.prime().head as int),
    ensures
        ({
            let w = normal_step(v, rows, letter(if before { 'P' } else { 'p' }));
            let s = v.cmd.buf.text;
            let p = v.cmd.sels.prime();
            let (lo, hi) = if p.anchor < p.head {
                (p.anchor as int, p.head as int)
            } else {
                (p.head as int, p.anchor as int)
            };
            let at = if before {
                lo
            } else if s[hi] == '\n' as u8 {
                hi
            } else {
                hi + crate::text::char_len(s[hi])
            };
            &&& w.cmd.buf.text == s.take(at) + v.cmd.register + s.skip(at)
            &&& w.cmd.sels.list.len() == 1
            &&& w.cmd.sels.prime().anchor == at
            &&& w.cmd.sels.prime().head == at + crate::text::prev_char_of(
                v.cmd.register,
                v.cmd.register.len() as int,
            )
            &&& w.cmd.register == v.cmd.register && w.cmd.mode == v.cmd.mode
        }),
{
    let s = v.cmd.buf.text;
    let p = v.cmd.sels.prime();
    lemma_whole_char(s, crate::selection::sel_max(p));
    let at = if before { sel_min(p) } else { paste_point(s, p) };
    crate::edit::lemma_pasted(v.cmd.buf, p, v.cmd.register, at);
}

/// Opening a line puts a line break behind or before the cursor's line, and the
/// cursor on the new line, to insert there.
pub proof fn opening_makes_a_line(v: NormalView, rows: int, below: bool)
    requires
        settled(v),
        v.cmd.sels.ok(),
        v.cmd.buf.text.len() < usize::MAX,
        v.cmd.sels.prime().head <= v.cmd.buf.text.len(),
    ensures
        ({
            let w = normal_step(v, rows, letter(if below { 'o' } else { 'O' }));
            let s = v.cmd.buf.text;
            let h = v.cmd.sels.prime().head as int;
            let at = if below { line_end_of(s, h) } else { line_start_of(s, h) };
            let t = w.cmd.buf.text;
            let c = w.cmd.sels.prime().head as int;
            &&& t == s.take(at) + seq!['\n' as u8] + s.skip(at)
            &&& w.cmd.mode == Mode::Insert
            &&& w.cmd.sels.list.len() == 1 && w.cmd.sels.prime().anchor == c
            &&& 0 <= c <= t.len()
            &&& c > 0 ==> t[c - 1] == '\n' as u8
            &&& c < t.len() ==> t[c] == '\n' as u8
            &&& line_of(t, c) == line_of(s, h) + if below { 1int } else { 0 }
        }),
{
    let s = v.cmd.buf.text;
    let h = v.cmd.sels.prime().head as int;
    crate::text::a_line_lies_between_breaks(s, h);
    let w = normal_step(v, rows, letter(if below { 'o' } else { 'O' }));
    let t = w.cmd.buf.text;
    let at = if below { line_end_of(s, h) } else { line_start_of(s, h) };
    assert(t =~= s.take(at) + seq!['\n' as u8] + s.skip(at));
    crate::text::lemma_newlines_prefix(s, t, at);
    crate::text::lemma_line_of(s, h);
    lemma_flat(s, line_start_of(s, h), h);
    lemma_flat(s, h, line_end_of(s, h));
}

proof fn lemma_flat(s: Seq<u8>, a: int, b: int)
    requires
        0 <= a <= b <= s.len(),
        forall|j: int| a <= j < b ==> #[trigger] s[j] != '\n' as u8,
    ensures
        crate::text::newlines_before(s, b) == crate::text::newlines_before(s, a),
    decreases b - a,
{
    if a < b {
        lemma_flat(s, a, b - 1);
    }
}

/// A search letter and a character after it go to the nearest such character on
/// the line: onto it, or one character short of it.
pub proof fn a_search_letter_waits_for_a_character(
    v: NormalView,
    rows: int,
    forward: bool,
    till: bool,
    c: char,
    mods: Mods,
    i: int,
    p: int,
)
    requires
        settled(v),
        0 <= i < v.cmd.sels.list.len(),
        v.cmd.sels.list[i].head < v.cmd.buf.text.len() <= usize::MAX,
        (c as int) < 128,
        p < v.cmd.buf.text.len(),
        !(mods == Mods(0) && (c == ']' || c == '[')),
    ensures
        ({
            let s = v.cmd.buf.text;
            let h = v.cmd.sels.list[i].head as int;
            let first = letter(
                match (forward, till) {
                    (true, false) => 'f',
                    (true, true) => 't',
                    (false, false) => 'F',
                    (false, true) => 'T',
                },
            );
            let w = normal_step(
                normal_step(v, rows, first),
                rows,
                KeyEvent { key: Key::Char(c), mods },
            );
            let after = w.cmd.sels.list[i];
            &&& settled(w) && w.cmd.buf == v.cmd.buf
            &&& forward && h < p < line_end_of(s, h) && s[p] == c as u8 && (forall|j: int|
                h < j < p ==> #[trigger] s[j] != c as u8) ==> after.head == after.anchor
                && after.head == if till {
                crate::text::prev_char_of(s, p)
            } else {
                p
            }
            &&& !forward && line_start_of(s, h) <= p < h && s[p] == c as u8 && (forall|j: int|
                p < j < h ==> #[trigger] s[j] != c as u8) ==> after.head == after.anchor
                && after.head == if till {
                crate::text::next_char_of(s, p)
            } else {
                p
            }
            &&& forward && (forall|j: int|
                h < j < line_end_of(s, h) ==> #[trigger] s[j] != c as u8) ==> after
                == v.cmd.sels.list[i]
            &&& !forward && (forall|j: int|
                line_start_of(s, h) <= j < h ==> #[trigger] s[j] != c as u8) ==> after
                == v.cmd.sels.list[i]
        }),
{
    let s = v.cmd.buf.text;
    let h = v.cmd.sels.list[i].head as int;
    crate::motion::the_nearest_character_is_found(s, h, c, p);
    crate::text::a_line_lies_between_breaks(s, h);
    if p > 0 {
        crate::text::lemma_char_start_bounds(s, p - 1);
    }
}

/// A prefix key swallows the next key, and no prefix then waits.
pub proof fn prefixes_swallow_one_key(v: NormalView, rows: int, prefix: KeyEvent, k: KeyEvent)
    requires
        settled(v),
        prefix == letter('g') || prefix == letter('z') || prefix == letter(']') || prefix == letter(
            '[',
        ) || prefix == (KeyEvent { key: Key::Char('i'), mods: Mods(ALT_BIT) }) || prefix
            == (KeyEvent { key: Key::Char('a'), mods: Mods(ALT_BIT) }),
        prefix == letter('g') || prefix == letter('z') ==> k != letter(']') && k != letter('[')
            && k.mods != Mods(ALT_BIT) && (prefix == letter('z') ==> k != letter('g')),
    ensures
        ({
            let (mid, w) = (
                normal_step(v, rows, prefix),
                normal_step(normal_step(v, rows, prefix), rows, k),
            );
            let plain = k.mods == Mods(0);
            let d = plain && k.key == Key::Char('d');
            &&& !settled(mid) && mid.cmd == v.cmd && mid.lsp == v.lsp && mid.top == v.top
            &&& settled(w) && w.cmd.buf == v.cmd.buf && w.cmd.register == v.cmd.register
                && w.cmd.mode == v.cmd.mode
            &&& w.lsp == if d && prefix == letter('g') {
                Some(LspAction::GotoDefinition)
            } else if d && prefix == letter(']') {
                Some(LspAction::NextDiagnostic)
            } else if d && prefix == letter('[') {
                Some(LspAction::PrevDiagnostic)
            } else {
                v.lsp
            }
            &&& w.top != v.top ==> prefix == letter('z') && k == letter('z')
            &&& w.cmd.sels != v.cmd.sels ==> prefix == letter('g') && k == letter('g')
                || prefix.mods == Mods(ALT_BIT) && plain
        }),
{
}

/// Twice `g` puts a single cursor at the start of the text, `G` one on the last
/// line that is not empty.
pub proof fn going_to_the_ends_leaves_one_cursor(v: NormalView, rows: int)
    requires
        settled(v),
        v.cmd.sels.ok(),
        valid_utf8(v.cmd.buf.text),
        0 < v.cmd.buf.text.len() <= usize::MAX,
    ensures
        ({
            let w = normal_step(normal_step(v, rows, letter('g')), rows, letter('g'));
            &&& only_selections_differ(v, w)
            &&& w.cmd.sels.list.len() == 1
            &&& w.cmd.sels.prime().head == 0 && w.cmd.sels.prime().anchor == 0
        }),
        ({
            let w = normal_step(v, rows, letter('G'));
            let h = w.cmd.sels.prime().head as int;
            &&& only_selections_differ(v, w)
            &&& w.cmd.sels.list.len() == 1
            &&& w.cmd.sels.prime().anchor == h
            &&& 0 <= h < v.cmd.buf.text.len()
            &&& h > 0 ==> v.cmd.buf.text[h - 1] == '\n' as u8 && v.cmd.buf.text[h] != '\n' as u8
            &&& forall|i: int|
                line_end_of(v.cmd.buf.text, h) <= i < v.cmd.buf.text.len()
                    ==> #[trigger] v.cmd.buf.text[i] == '\n' as u8
        }),
{
    let s = v.cmd.buf.text;
    crate::motion::the_last_line_is_not_empty(s);
    let last = crate::motion::last_inked(s, s.len() as int);
    lemma_inked_bound(s, s.len() as int);
    if last >= 0 {
        crate::text::a_line_lies_between_breaks(s, last);
        crate::text::lemma_line_start_on_char(s, last);
    }
    crate::text::lemma_first_char(s);
    let h = last_start(s);
    assert(0 <= h < s.len() && on_char(s, h));
    assert(snap_of(s, h) == h);
}

proof fn lemma_inked_bound(s: Seq<u8>, n: int)
    ensures
        -1 <= crate::motion::last_inked(s, n) < imax(n, 0),
    decreases n,
{
    if n > 0 {
        lemma_inked_bound(s, n - 1);
    }
}

/// Twice `z` puts the cursor's line in the middle of the viewport.
pub proof fn centering_puts_the_line_in_the_middle(v: NormalView, rows: int)
    requires
        settled(v),
        rows >= 1,
    ensures
        ({
            let w = normal_step(normal_step(v, rows, letter('z')), rows, letter('z'));
            let line = line_of(v.cmd.buf.text, v.cmd.sels.prime().head as int);
            &&& w == NormalView { top: w.top, ..v }
            &&& w.top >= 0
            &&& w.top > 0 ==> 0 <= (line - w.top) * 2 - (rows - 1) <= 1
            &&& w.top == 0 ==> line * 2 <= rows
        }),
{
}

/// The half-page keys go ten lines down and up.
pub proof fn half_pages_are_ten_lines(v: NormalView, rows: int, down: bool, i: int)
    requires
        settled(v),
        0 <= i < v.cmd.sels.list.len(),
        valid_utf8(v.cmd.buf.text),
        0 < v.cmd.buf.text.len() <= usize::MAX,
        v.cmd.sels.list[i].head <= v.cmd.buf.text.len(),
    ensures
        ({
            let s = v.cmd.buf.text;
            let w = normal_step(
                v,
                rows,
                KeyEvent {
                    key: Key::Char(if down { 'd' } else { 'u' }),
                    mods: Mods(CTRL_BIT),
                },
            );
            let line = line_of(s, v.cmd.sels.list[i].head as int);
            let after = line_of(s, w.cmd.sels.list[i].head as int);
            &&& only_selections_differ(v, w)
            &&& down && line + 10 <= line_of(s, s.len() as int) ==> after == line + 10
            &&& !down && line >= 10 ==> after == line - 10
        }),
{
    let (s, sel) = (v.cmd.buf.text, v.cmd.sels.list[i]);
    crate::text::lemma_newlines_monotone(s, sel.head as int, s.len() as int);
    crate::motion::moving_by_lines_counts_them(s, sel, 10);
    crate::motion::moving_by_lines_counts_them(s, sel, -10);
    assert((-HALF_PAGE) as i64 as int == -10);
}

/// The keys for the selections themselves: keep the primary one alone, make the
/// next or the one before it primary, drop what is selected but for the heads.
pub proof fn selection_keys_leave_the_text_alone(v: NormalView, rows: int, c: char)
    requires
        settled(v),
        v.cmd.sels.ok(),
        c == ',' || c == ';' || c == '<' || c == '>',
    ensures
        ({
            let w = normal_step(v, rows, letter(c));
            let (a, b) = (v.cmd.sels, w.cmd.sels);
            &&& only_selections_differ(v, w)
            &&& c == ',' ==> b.list == seq![a.list[a.primary]] && b.primary == 0
            &&& c == ';' ==> b.primary == a.primary && b.list.len() == a.list.len() && forall|i: int|
                0 <= i < a.list.len() ==> (#[trigger] b.list[i]).head == a.list[i].head
                    && b.list[i].anchor == a.list[i].head
            &&& c == '>' ==> b.list == a.list && b.primary == if a.primary + 1 == a.list.len() {
                0
            } else {
                a.primary + 1
            }
            &&& c == '<' ==> b.list == a.list && b.primary == if a.primary == 0 {
                a.list.len() - 1
            } else {
                a.primary - 1
            }
        }),
{
    let (p, n) = (v.cmd.sels.primary, v.cmd.sels.list.len() as int);
    assert((p + 1) % n == if p + 1 == n { 0 } else { p + 1 }) by (nonlinear_arith)
        requires
            0 <= p < n,
    ;
    assert((p - 1) % n == if p == 0 { n - 1 } else { p - 1 }) by (nonlinear_arith)
        requires
            0 <= p < n,
    ;
}

/// The keys that lead to another mode change nothing in the text.
pub proof fn mode_keys_lead_to_their_mode(v: NormalView, rows: int, c: char)
    requires
        settled(v),
        v.cmd.sels.ok(),
        c == ':' || c == '/' || c == 's',
    ensures
        ({
            let w = normal_step(v, rows, letter(c));
            &&& w.cmd.mode == if c == ':' { Mode::Ex } else { Mode::Search }
            &&& w.cmd.buf == v.cmd.buf && w.cmd.register == v.cmd.register
            &&& c != '/' ==> w.cmd.sels == v.cmd.sels
            &&& c == '/' ==> w.cmd.sels.list == seq![v.cmd.sels.prime()]
            &&& c == ':' ==> w.cmd.search == v.cmd.search
            &&& c != ':' ==> w.cmd.search.start == Some(snapshot(v.cmd.sels.prime()))
                && w.cmd.search.pattern == v.cmd.search.pattern
            &&& c == '/' ==> w.cmd.search.kind is Find
            &&& c == 's' ==> w.cmd.search.kind is SelectWithin
        }),
{
}

/// Undoing leads back to the text and the cursor of the last step, redoing leads
/// forward again; each leaves one selection.
pub proof fn undo_keys_walk_the_history(v: NormalView, rows: int)
    requires
        settled(v),
        v.cmd.sels.ok(),
        v.cmd.buf.undo.len() > 0,
        v.cmd.buf.undo.last().text.len() <= usize::MAX,
    ensures
        ({
            let w = normal_step(v, rows, letter('u'));
            let x = normal_step(w, rows, letter('U'));
            &&& w.cmd.buf.text == v.cmd.buf.undo.last().text
            &&& w.cmd.sels.list.len() == 1
            &&& w.cmd.sels.prime().head == snap_of(
                w.cmd.buf.text,
                v.cmd.buf.undo.last().cursor.head as int,
            )
            &&& w.cmd.sels.prime().anchor == snap_of(
                w.cmd.buf.text,
                v.cmd.buf.undo.last().cursor.anchor as int,
            )
            &&& w.cmd.mode == v.cmd.mode && w.cmd.register == v.cmd.register
            &&& x.cmd.buf.text == v.cmd.buf.text
            &&& x.cmd.sels.list.len() == 1
        }),
{
    let p = v.cmd.sels.prime();
    let w = normal_step(v, rows, letter('u'));
    let c = v.cmd.buf.undo.last().cursor;
    crate::text::snap_is_idempotent(w.cmd.buf.text, c.head as int);
    crate::text::snap_is_idempotent(w.cmd.buf.text, c.anchor as int);
    crate::buffer::redo_takes_back_undo(v.cmd.buf, snapshot(p), snapshot(w.cmd.sels.prime()));
}

/// The brace keys move every selection by paragraphs, forward and backward.
pub proof fn brace_keys_move_by_paragraphs(v: NormalView, rows: int, forward: bool, i: int)
    requires
        settled(v),
        0 <= i < v.cmd.sels.list.len(),
    ensures
        ({
            let s = v.cmd.buf.text;
            let h = v.cmd.sels.list[i].head as int;
            let w = normal_step(v, rows, letter(if forward { '}' } else { '{' }));
            let at = if forward {
                crate::motion::paragraph_forward(s, h)
            } else {
                crate::motion::paragraph_backward(s, h)
            };
            &&& only_selections_differ(v, w)
            &&& w.cmd.sels.list[i].head == at as usize && w.cmd.sels.list[i].anchor == at as usize
        }),
{
}

/// Alt with `i` or `a` and then a key select the object of that key, without or
/// with what surrounds it.
pub proof fn object_keys_select_the_object(v: NormalView, rows: int, around: bool, key: Key, i: int)
    requires
        settled(v),
        0 <= i < v.cmd.sels.list.len(),
    ensures
        ({
            let alt = KeyEvent {
                key: Key::Char(if around { 'a' } else { 'i' }),
                mods: Mods(ALT_BIT),
            };
            let w = normal_step(
                normal_step(v, rows, alt),
                rows,
                KeyEvent { key, mods: Mods(0) },
            );
            &&& only_selections_differ(v, w)
            &&& w.cmd.sels.list[i] == crate::object::object_selected(
                v.cmd.buf.text,
                v.cmd.sels.list[i],
                if around { ObjectKind::Around } else { ObjectKind::Inner },
                key,
            )
        }),
{
}

/// `n` repeats the search ahead, `N` the other way; without a search nothing
/// happens.
pub proof fn search_keys_repeat_the_search(v: NormalView, rows: int, ahead: bool)
    requires
        settled(v),
        v.cmd.sels.ok(),
    ensures
        ({
            let w = normal_step(v, rows, letter(if ahead { 'n' } else { 'N' }));
            &&& only_selections_differ(v, w)
            &&& v.cmd.search.pattern is None ==> w == v
            &&& v.cmd.search.pattern matches Some(p) ==> w.cmd.sels.list == seq![
                found_next(v.cmd.buf.text, v.cmd.sels.prime(), p, ahead),
            ]
        }),
{
}

/// Ctrl-j adds an occurrence ahead, Ctrl-k one behind.
pub proof fn occurrences_are_added_ahead_or_behind(v: NormalView, rows: int, ahead: bool)
    requires
        settled(v),
    ensures
        ({
            let k = KeyEvent {
                key: Key::Char(if ahead { 'j' } else { 'k' }),
                mods: Mods(CTRL_BIT),
            };
            let w = normal_step(v, rows, k);
            let (sels, search) = smart_added(v.cmd.buf.text, v.cmd.sels, v.cmd.search, ahead);
            &&& w.cmd.sels == sels && w.cmd.search == search
            &&& w.cmd.buf == v.cmd.buf && w.cmd.mode == v.cmd.mode && w.cmd.register
                == v.cmd.register
        }),
{
}

/// Only a plain `q` that no prefix waits for asks to quit, and it changes nothing.
pub proof fn only_a_plain_q_quits(v: NormalView, rows: int, k: KeyEvent)
    ensures
        is_quit(v, k) ==> k == letter('q') && normal_step(v, rows, k) == v,
        settled(v) && k == letter('q') ==> is_quit(v, k),
        !settled(v) ==> !is_quit(v, k),
{
}

}
