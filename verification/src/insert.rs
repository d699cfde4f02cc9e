//! Insert mode: typing, and the line-editing keys.
use vstd::prelude::*;
use vstd::utf8::{encode_utf8, valid_utf8};
use crate::buffer::{collect_bytes, Buffer, BufferView};
use crate::edit::{
    all_fit, backspace_multi, cut_all, delete_word_backward_multi, has_room, insert_text_multi,
    kill_to_line_end_multi, kill_to_line_start_multi, killed_end, killed_start,
    copy_at, cursors_in, heads_differ, left_over, lemma_typed_offsets, lone_cursors, sel_fits,
    separate, taken_at_all, typed, woven, Cut,
};
use crate::indent::{level_of, Indenter, INDENT_WIDTH};
use crate::input::{lemma_single_mods, Key, KeyEvent, Mods, ALT_BIT, CTRL_BIT, SHIFT_BIT};
use crate::motion::Motion;
use crate::relocate::{all_relocated, relocate_all, Move, Reach};
use crate::selection::{Mode, Registers, Selection, Selections, SelectionsView};
use crate::strings::text_bytes;
use crate::text::{
    char_len, line_end_of, line_start_of, next_char_or_end_of, on_char, prev_char, prev_char_of,
    snap_of, snap_to_char_or_last, text_fits, NL, SPACE, TAB,
};

verus! {

/// What a key in insert mode can change. `pending_j` is a typed `j` that may
/// yet turn out to be the first half of the two keys that leave insert mode.
#[verifier::ext_equal]
pub struct InsertView {
    pub buf: BufferView,
    pub sels: SelectionsView,
    pub mode: Mode,
    pub pending_j: bool,
    pub register: Seq<u8>,
}

/// A selection on leaving insert mode: the head steps back over what was
/// typed, and both ends go onto characters.
pub open spec fn landed(s: Seq<u8>, sel: Selection) -> Selection {
    let h = if sel.head > sel.anchor {
        prev_char_of(s, sel.head as int)
    } else {
        sel.head as int
    };
    Selection {
        head: snap_of(s, h) as usize,
        anchor: snap_of(s, sel.anchor as int) as usize,
        desired_col: sel.desired_col,
    }
}

impl InsertView {
    pub open spec fn exited(self) -> InsertView {
        InsertView {
            mode: Mode::Normal,
            sels: SelectionsView {
                list: self.sels.list.map_values(|sel: Selection| landed(self.buf.text, sel)),
                primary: self.sels.primary,
            },
            ..self
        }
    }

    pub open spec fn typing(self, t: Seq<u8>) -> InsertView {
        let m = typed(self.buf, self.sels.list, t);
        InsertView {
            buf: m.buf,
            sels: SelectionsView { list: m.list, primary: self.sels.primary },
            ..self
        }
    }

    pub open spec fn cutting(self, cut: Cut) -> InsertView {
        let m = cut_all(self.buf, self.sels.list, cut);
        InsertView {
            buf: m.buf,
            sels: SelectionsView { list: m.list, primary: self.sels.primary },
            ..self
        }
    }

    pub open spec fn moving(self, mv: Move) -> InsertView {
        InsertView { sels: all_relocated(self.buf.text, self.sels, mv), ..self }
    }
}

/// The keys that move the insertion point.
pub open spec fn point_key(k: KeyEvent, c: char) -> Option<Reach> {
    if k.mods.has(Mods(ALT_BIT)) {
        match c {
            'b' => Some(Reach::WordBack),
            'f' => Some(Reach::WordForward),
            _ => None,
        }
    } else {
        match c {
            'a' => Some(Reach::LineStart),
            'e' => Some(Reach::LineEnd),
            'b' => Some(Reach::CharBack),
            'f' => Some(Reach::CharForward),
            _ => None,
        }
    }
}

/// What a character does in insert mode.
pub open spec fn char_step(v: InsertView, k: KeyEvent, c: char) -> InsertView {
    let s = v.buf.text;
    let h = v.sels.prime().head as int;
    if k.mods.has(Mods(ALT_BIT)) || k.mods.has(Mods(CTRL_BIT)) {
        match point_key(k, c) {
            Some(reach) => v.moving(Move::Point(reach)),
            None => if k.mods.has(Mods(ALT_BIT)) {
                v
            } else if c == 'w' {
                v.cutting(Cut::Word)
            } else if c == 'k' {
                InsertView {
                    register: killed_end(s, h, v.register),
                    ..v.cutting(Cut::LineEnd)
                }
            } else if c == 'u' {
                InsertView {
                    register: killed_start(s, h, v.register),
                    ..v.cutting(Cut::LineStart)
                }
            } else {
                v
            },
        }
    } else if c == 'j' && k.mods == Mods(0) {
        InsertView { pending_j: true, ..v }
    } else {
        v.typing(encode_utf8(seq![c]))
    }
}

pub open spec fn arrow(key: Key) -> Option<Motion> {
    match key {
        Key::Left => Some(Motion::Left),
        Key::Right => Some(Motion::Right),
        Key::Up => Some(Motion::Up),
        Key::Down => Some(Motion::Down),
        Key::Home => Some(Motion::LineStart),
        Key::End => Some(Motion::LineEnd),
        _ => None,
    }
}

/// What a key does in insert mode when no `j` is pending.
pub open spec fn key_step(v: InsertView, k: KeyEvent) -> InsertView {
    match k.key {
        Key::Esc => v.exited(),
        Key::Enter => v.typing(seq![NL]),
        Key::Backspace => v.cutting(Cut::Char),
        Key::Tab => v.typing(seq![TAB]),
        Key::Char(c) => char_step(v, k, c),
        _ => match arrow(k.key) {
            Some(m) => v.moving(Move::Walk(m)),
            None => v,
        },
    }
}

/// The key completes the two keys that leave insert mode.
pub open spec fn leaves(k: KeyEvent) -> bool {
    k.key == Key::Char('f') && k.mods == Mods(0) || k.key is Esc
}

/// The state in which a key takes effect: a pending `j` that the key does not
/// complete is typed first.
pub open spec fn settled_j(v: InsertView, k: KeyEvent) -> InsertView {
    let w = InsertView { pending_j: false, ..v };
    if v.pending_j && !leaves(k) {
        w.typing(seq![0x6au8])
    } else {
        w
    }
}

/// What a key does in insert mode.
pub open spec fn insert_step(v: InsertView, k: KeyEvent) -> InsertView {
    if v.pending_j && leaves(k) {
        settled_j(v, k).exited()
    } else {
        key_step(settled_j(v, k), k)
    }
}

pub open spec fn insert_view(
    buffer: Buffer,
    sels: Selections,
    mode: Mode,
    pending_j: bool,
    registers: Registers,
) -> InsertView {
    InsertView { buf: buffer@, sels: sels@, mode, pending_j, register: registers.default@ }
}

/// Bytes that one key can type at one cursor.
pub open spec fn most_typed() -> int {
    5
}

/// The key kills to the start of the line.
pub open spec fn kills_to_start(k: KeyEvent) -> bool {
    k.key == Key::Char('u') && k.mods.has(Mods(CTRL_BIT)) && !k.mods.has(Mods(ALT_BIT))
}

/// Offsets that can still be moved when `extra` bytes are typed.
pub open spec fn all_fit_with(list: Seq<Selection>, extra: int) -> bool {
    forall|i: int|
        0 <= i < list.len() ==> 4 * ((#[trigger] list[i]).anchor + extra) < usize::MAX && 4 * (
        list[i].head + extra) < usize::MAX
}

/// Leave insert mode.
pub fn exit_insert_mode_multi(buffer: &Buffer, sels: &mut Selections, mode: &mut Mode)
    requires
        buffer.wf(),
        old(sels).wf(),
    ensures
        final(sels).wf(),
        final(sels)@.primary == old(sels)@.primary,
        final(sels)@.list == old(sels)@.list.map_values(
            |sel: Selection| landed(buffer@.text, sel),
        ),
        *final(mode) == Mode::Normal,
{
    *mode = Mode::Normal;
    let bytes = collect_bytes(buffer);
    let s = bytes.as_slice();
    let ghost list0 = sels@.list;
    let n: usize = sels.len();
    let mut i: usize = 0;
    while i < n
        invariant
            i <= n == list0.len() == sels@.list.len(),
            list0 == old(sels)@.list,
            s@ == buffer@.text,
            sels@.primary == old(sels)@.primary,
            forall|j: int| 0 <= j < i ==> #[trigger] sels@.list[j] == landed(s@, list0[j]),
            forall|j: int| i <= j < n ==> #[trigger] sels@.list[j] == list0[j],
        decreases n - i,
    {
        let sel = sels.get(i);
        let h: usize = if sel.head > sel.anchor { prev_char(s, sel.head) } else { sel.head };
        let head: usize = snap_to_char_or_last(s, h);
        let anchor: usize = snap_to_char_or_last(s, sel.anchor);
        sels.set(i, Selection { anchor, head, desired_col: sel.desired_col });
        i += 1;
    }
    assert(sels@.list =~= list0.map_values(|sel: Selection| landed(buffer@.text, sel)));
}

fn one_byte(b: u8) -> (r: Vec<u8>)
    ensures
        r@ == seq![b],
{
    let mut r: Vec<u8> = Vec::new();
    r.push(b);
    assert(r@ =~= seq![b]);
    r
}

/// The UTF-8 bytes of one character.
pub fn char_bytes(c: char) -> (r: Vec<u8>)
    ensures
        r@ == encode_utf8(seq![c]),
        r@.len() <= 4,
{
    let mut t = String::new();
    t.push(c);
    assert(t@ =~= seq![c]);
    let r = text_bytes(t.as_str());
    proof {
        reveal_with_fuel(encode_utf8, 2);
        assert(seq![c].drop_first() =~= Seq::<char>::empty());
    }
    r
}

/// Move every insertion point alike.
pub fn move_in_insert(buffer: &Buffer, sels: &mut Selections, mv: Move)
    requires
        buffer.wf(),
        old(sels).wf(),
        text_fits(buffer@.text),
    ensures
        final(sels).wf(),
        final(sels)@ == all_relocated(buffer@.text, old(sels)@, mv),
{
    let bytes = collect_bytes(buffer);
    relocate_all(sels, bytes.as_slice(), buffer.line_starts(), mv);
}

/// Handle a character typed with Ctrl or Alt.
fn control_char(
    buffer: &mut Buffer,
    sels: &mut Selections,
    registers: &mut Registers,
    k: KeyEvent,
    c: char,
)
    requires
        old(buffer).wf(),
        old(sels).wf(),
        text_fits(old(buffer)@.text),
        k.mods.has(Mods(ALT_BIT)) || k.mods.has(Mods(CTRL_BIT)),
        c == 'u' && !k.mods.has(Mods(ALT_BIT)) ==> old(sels)@.prime().head
            <= old(buffer)@.text.len(),
    ensures
        final(buffer).wf(),
        final(sels).wf(),
        forall|mode: Mode, pending_j: bool|
            insert_view(*final(buffer), *final(sels), mode, pending_j, *final(registers))
                == #[trigger] char_step(
                insert_view(*old(buffer), *old(sels), mode, pending_j, *old(registers)),
                k,
                c,
            ),
{
    if k.mods.contains(Mods(ALT_BIT)) {
        match c {
            'b' => move_in_insert(buffer, sels, Move::Point(Reach::WordBack)),
            'f' => move_in_insert(buffer, sels, Move::Point(Reach::WordForward)),
            _ => {},
        }
        return;
    }
    match c {
        'a' => move_in_insert(buffer, sels, Move::Point(Reach::LineStart)),
        'e' => move_in_insert(buffer, sels, Move::Point(Reach::LineEnd)),
        'b' => move_in_insert(buffer, sels, Move::Point(Reach::CharBack)),
        'f' => move_in_insert(buffer, sels, Move::Point(Reach::CharForward)),
        'w' => delete_word_backward_multi(buffer, sels),
        'k' => kill_to_line_end_multi(buffer, sels, registers),
        'u' => kill_to_line_start_multi(buffer, sels, registers),
        _ => {},
    }
}

fn arrow_of(key: Key) -> (r: Option<Motion>)
    ensures
        r == arrow(key),
{
    match key {
        Key::Left => Some(Motion::Left),
        Key::Right => Some(Motion::Right),
        Key::Up => Some(Motion::Up),
        Key::Down => Some(Motion::Down),
        Key::Home => Some(Motion::LineStart),
        Key::End => Some(Motion::LineEnd),
        _ => None,
    }
}

/// Handle a key when no `j` is pending.
fn insert_key(
    buffer: &mut Buffer,
    sels: &mut Selections,
    mode: &mut Mode,
    pending_j: &mut bool,
    registers: &mut Registers,
    k: KeyEvent,
)
    requires
        old(buffer).wf(),
        old(sels).wf(),
        all_fit(old(sels)@.list),
        has_room(old(buffer)@.text, (4 * old(sels)@.list.len()) as int),
        kills_to_start(k) ==> old(sels)@.prime().head <= old(buffer)@.text.len(),
    ensures
        final(buffer).wf(),
        final(sels).wf(),
        insert_view(
            *final(buffer),
            *final(sels),
            *final(mode),
            *final(pending_j),
            *final(registers),
        ) == key_step(
            insert_view(
                *old(buffer),
                *old(sels),
                *old(mode),
                *old(pending_j),
                *old(registers),
            ),
            k,
        ),
{
    let ghost n = sels@.list.len() as int;
    match k.key {
        Key::Esc => exit_insert_mode_multi(buffer, sels, mode),
        Key::Enter => {
            let t = one_byte(NL);
            assert(1 * n == n) by (nonlinear_arith);
            assert(t@.len() * sels@.list.len() == n);
            insert_text_multi(buffer, sels, t.as_slice());
        },
        Key::Backspace => backspace_multi(buffer, sels),
        Key::Tab => {
            let t = one_byte(TAB);
            assert(1 * n == n) by (nonlinear_arith);
            assert(t@.len() * sels@.list.len() == n);
            insert_text_multi(buffer, sels, t.as_slice());
        },
        Key::Char(c) => {
            if k.mods.contains(Mods(ALT_BIT)) || k.mods.contains(Mods(CTRL_BIT)) {
                control_char(buffer, sels, registers, k, c);
                assert(char_step(
                    insert_view(*old(buffer), *old(sels), *mode, *pending_j, *old(registers)),
                    k,
                    c,
                ) == insert_view(*buffer, *sels, *mode, *pending_j, *registers));
                return;
            }
            if c == 'j' && k.mods.is_empty() {
                *pending_j = true;
                return;
            }
            let t = char_bytes(c);
            proof {
                let tl = t@.len() as int;
                assert(tl * n <= 4 * n) by (nonlinear_arith)
                    requires
                        0 <= tl <= 4,
                        0 <= n,
                ;
            }
            insert_text_multi(buffer, sels, t.as_slice());
        },
        _ => {
            match arrow_of(k.key) {
                None => {},
                Some(m) => move_in_insert(buffer, sels, Move::Walk(m)),
            }
        },
    }
}

/// Handle a key in insert mode.
pub fn handle_insert(
    buffer: &mut Buffer,
    sels: &mut Selections,
    mode: &mut Mode,
    pending_j: &mut bool,
    registers: &mut Registers,
    k: KeyEvent,
)
    requires
        old(buffer).wf(),
        old(sels).wf(),
        all_fit_with(old(sels)@.list, old(sels)@.list.len() as int),
        has_room(old(buffer)@.text, most_typed() * old(sels)@.list.len()),
        kills_to_start(k) ==> ({
            let v = settled_j(
                insert_view(
                    *old(buffer),
                    *old(sels),
                    *old(mode),
                    *old(pending_j),
                    *old(registers),
                ),
                k,
            );
            v.sels.prime().head <= v.buf.text.len()
        }),
    ensures
        final(buffer).wf(),
        final(sels).wf(),
        insert_view(
            *final(buffer),
            *final(sels),
            *final(mode),
            *final(pending_j),
            *final(registers),
        ) == insert_step(
            insert_view(
                *old(buffer),
                *old(sels),
                *old(mode),
                *old(pending_j),
                *old(registers),
            ),
            k,
        ),
{
    let ghost list0 = sels@.list;
    let count: usize = sels.len();
    assert(all_fit(list0)) by {
        assert forall|i: int| 0 <= i < list0.len() implies sel_fits(#[trigger] list0[i]) by {}
    }
    if *pending_j {
        *pending_j = false;
        let leave: bool = match k.key {
            Key::Esc => true,
            Key::Char('f') => k.mods.is_empty(),
            _ => false,
        };
        if leave {
            exit_insert_mode_multi(buffer, sels, mode);
            return;
        }
        let t = one_byte(0x6a);
        proof {
            lemma_typed_offsets(buffer@, list0, t@);
        }
        insert_text_multi(buffer, sels, t.as_slice());
        assert(all_fit(sels@.list)) by {
            assert forall|i: int| 0 <= i < sels@.list.len() implies sel_fits(
                #[trigger] sels@.list[i],
            ) by {
                assert(4 * (list0[i].anchor + list0.len()) < usize::MAX);
            }
        }
    }
    insert_key(buffer, sels, mode, pending_j, registers, k);
}

/// A run of spaces.
pub open spec fn spaces(n: int) -> Seq<u8> {
    Seq::new(n as nat, |i: int| SPACE)
}

/// How many spaces indent the line that a single cursor stands on, by the rules of
/// the language; none with several cursors or without a language.
pub open spec fn indent_width(s: Seq<u8>, sels: SelectionsView, lang: Option<Seq<char>>) -> int {
    match lang {
        Some(l) => if sels.list.len() == 1 {
            level_of(l, s, sels.prime().head as int) * INDENT_WIDTH
        } else {
            0
        },
        None => 0,
    }
}

/// The line indented that was just opened.
pub open spec fn indented(buf: BufferView, sels: SelectionsView, lang: Option<Seq<char>>) -> (
    BufferView,
    SelectionsView,
) {
    let m = typed(buf, sels.list, spaces(indent_width(buf.text, sels, lang)));
    (m.buf, SelectionsView { list: m.list, ..sels })
}

pub open spec fn opt_lang(o: Option<&str>) -> Option<Seq<char>> {
    match o {
        Some(l) => Some(l@),
        None => None,
    }
}

/// Indent the line that a single cursor just opened.
pub fn indent_new_line(
    buffer: &mut Buffer,
    sels: &mut Selections,
    lang_id: Option<&str>,
    indenter: &Indenter,
)
    requires
        old(buffer).wf(),
        old(sels).wf(),
        all_fit(old(sels)@.list),
        has_room(
            old(buffer)@.text,
            indent_width(old(buffer)@.text, old(sels)@, opt_lang(lang_id)),
        ),
    ensures
        final(buffer).wf(),
        final(sels).wf(),
        (final(buffer)@, final(sels)@) == indented(old(buffer)@, old(sels)@, opt_lang(lang_id)),
{
    let ghost n = indent_width(buffer@.text, sels@, opt_lang(lang_id));
    let mut level: usize = 0;
    if let Some(lang) = lang_id {
        if sels.len() == 1 {
            let bytes = collect_bytes(buffer);
            level = indenter.level_for(lang, bytes.as_slice(), sels.primary().head);
        }
    }
    let mut indent: Vec<u8> = Vec::new();
    while indent.len() < level * INDENT_WIDTH
        invariant
            n == level * INDENT_WIDTH,
            4 * n < usize::MAX,
            indent@.len() <= n,
            indent@ == spaces(indent@.len() as int),
        decreases n - indent@.len(),
    {
        let ghost before = indent@;
        indent.push(SPACE);
        assert(indent@ =~= spaces((before.len() + 1) as int));
    }
    if indent.len() > 0 {
        assert(n * sels@.list.len() == n) by (nonlinear_arith)
            requires
                sels@.list.len() == 1,
        ;
        insert_text_multi(buffer, sels, indent.as_slice());
    }
}

// ---------------------------------------------------------------------------
// Laws
// ---------------------------------------------------------------------------

/// What a key types: its character, a line break or a tab.
pub open spec fn typed_by(k: KeyEvent) -> Seq<u8> {
    match k.key {
        Key::Char(c) => encode_utf8(seq![c]),
        Key::Enter => seq!['\n' as u8],
        _ => seq!['\t' as u8],
    }
}

/// A character, Enter and Tab put what they type where each cursor stands and
/// change nothing else.
pub proof fn keys_are_typed_at_every_cursor(v: InsertView, k: KeyEvent)
    requires
        !v.pending_j,
        k.mods == Mods(0) || k.mods == Mods(SHIFT_BIT),
        k.key is Char || k.key is Enter || k.key is Tab,
        k != (KeyEvent { key: Key::Char('j'), mods: Mods(0) }),
        cursors_in(v.buf.text, v.sels.list),
        heads_differ(v.sels.list),
        0 < v.sels.list.len() <= usize::MAX,
        typed_by(k).len() > 0,
        has_room(v.buf.text, (typed_by(k).len() * v.sels.list.len()) as int),
    ensures
        ({
            let w = insert_step(v, k);
            let (s, list, t) = (v.buf.text, v.sels.list, typed_by(k));
            &&& w.buf.text == woven(s, list, t, s.len() as int) + copy_at(list, t, s.len() as int)
            &&& w.mode == v.mode && w.register == v.register && !w.pending_j
            &&& w.sels.primary == v.sels.primary
            &&& w.sels.list.len() == list.len()
            &&& forall|i: int|
                0 <= i < list.len() ==> (#[trigger] w.sels.list[i]).head == woven(
                    s,
                    list,
                    t,
                    list[i].head as int,
                ).len() + t.len()
        }),
{
    lemma_single_mods();
    crate::edit::typing_puts_a_copy_at_each_cursor(v.buf, v.sels.list, typed_by(k));
    assert(seq!['\n' as u8] =~= seq![NL]);
    assert(seq!['\t' as u8] =~= seq![TAB]);
}

/// The key that deletes a character, a word or a part of the line before or
/// behind the cursor.
pub open spec fn key_for(cut: Cut) -> KeyEvent {
    match cut {
        Cut::Word => KeyEvent { key: Key::Char('w'), mods: Mods(CTRL_BIT) },
        Cut::LineStart => KeyEvent { key: Key::Char('u'), mods: Mods(CTRL_BIT) },
        Cut::LineEnd => KeyEvent { key: Key::Char('k'), mods: Mods(CTRL_BIT) },
        _ => KeyEvent { key: Key::Backspace, mods: Mods(0) },
    }
}

/// The keys that delete leave the text without what they take at each cursor.
/// Those that take a part of a line keep the primary cursor's part in the
/// register, if there is any.
pub proof fn deleting_keys_take_at_every_cursor(v: InsertView, cut: Cut)
    requires
        !v.pending_j,
        !(cut is Selected),
        v.sels.ok(),
        valid_utf8(v.buf.text),
        v.buf.text.len() <= usize::MAX,
        v.sels.list.len() <= usize::MAX,
        lone_cursors(v.buf.text, v.sels.list),
        separate(taken_at_all(v.buf.text, v.sels.list, cut), cut),
    ensures
        ({
            let w = insert_step(v, key_for(cut));
            let s = v.buf.text;
            let spans = taken_at_all(s, v.sels.list, cut);
            let (a, e) = spans[v.sels.primary];
            &&& w.buf.text == left_over(s, spans, s.len() as int)
            &&& w.mode == v.mode && !w.pending_j && w.sels.primary == v.sels.primary
            &&& w.register == if (cut is LineStart || cut is LineEnd) && a < e {
                s.subrange(a, e)
            } else {
                v.register
            }
            &&& w.sels.list.len() == v.sels.list.len()
            &&& forall|i: int|
                0 <= i < v.sels.list.len() ==> (#[trigger] w.sels.list[i]).head == left_over(
                    s,
                    spans,
                    spans[i].0,
                ).len()
        }),
{
    lemma_single_mods();
    crate::edit::every_cursor_takes_its_own(v.buf, v.sels.list, cut);
    let h = v.sels.list[v.sels.primary].head as int;
    assert(on_char(v.buf.text, h));
    crate::text::a_line_lies_between_breaks(v.buf.text, h);
}

/// `j` and then `f`, or Esc, leave insert mode, and neither key is typed.
pub proof fn j_and_f_leave_insert_mode(v: InsertView, k: KeyEvent)
    requires
        !v.pending_j,
        k == (KeyEvent { key: Key::Char('f'), mods: Mods(0) }) || k.key is Esc,
    ensures
        ({
            let j = KeyEvent { key: Key::Char('j'), mods: Mods(0) };
            let w = insert_step(insert_step(v, j), k);
            &&& w.mode == Mode::Normal && w.buf == v.buf && w.register == v.register && !w.pending_j
        }),
{
    lemma_single_mods();
}

/// A `j` that no `f` and no Esc follows is typed before the next key acts.
pub proof fn a_lone_j_is_typed(v: InsertView, k: KeyEvent)
    requires
        !v.pending_j,
        k != (KeyEvent { key: Key::Char('f'), mods: Mods(0) }),
        !(k.key is Esc),
    ensures
        ({
            let j = KeyEvent { key: Key::Char('j'), mods: Mods(0) };
            let m = typed(v.buf, v.sels.list, seq!['j' as u8]);
            insert_step(insert_step(v, j), k) == insert_step(
                InsertView {
                    buf: m.buf,
                    sels: SelectionsView { list: m.list, primary: v.sels.primary },
                    ..v
                },
                k,
            )
        }),
{
    lemma_single_mods();
    let j = KeyEvent { key: Key::Char('j'), mods: Mods(0) };
    assert(seq!['j' as u8] =~= seq![0x6au8]);
    let mid = insert_step(v, j);
    assert(mid == InsertView { pending_j: true, ..v });
    let m = typed(v.buf, v.sels.list, seq!['j' as u8]);
    let w = InsertView {
        buf: m.buf,
        sels: SelectionsView { list: m.list, primary: v.sels.primary },
        ..v
    };
    assert(settled_j(mid, k) == w);
    assert(settled_j(w, k) == w);
}

/// Leaving insert mode changes no text. A cursor behind what was typed steps back
/// onto its last character; others stay.
pub proof fn leaving_steps_back_onto_what_was_typed(v: InsertView, i: int)
    requires
        !v.pending_j,
        valid_utf8(v.buf.text),
        v.buf.text.len() <= usize::MAX,
        0 <= i < v.sels.list.len(),
        on_char(v.buf.text, v.sels.list[i].head as int),
        on_char(v.buf.text, v.sels.list[i].anchor as int),
        v.sels.list[i].anchor < v.buf.text.len(),
    ensures
        ({
            let w = insert_step(v, KeyEvent { key: Key::Esc, mods: Mods(0) });
            let (s, sel, after) = (v.buf.text, v.sels.list[i], w.sels.list[i]);
            &&& w.mode == Mode::Normal && w.buf == v.buf && w.register == v.register
            &&& after.anchor == sel.anchor
            &&& sel.head > sel.anchor ==> on_char(s, after.head as int) && after.head < sel.head
                && after.head + char_len(s[after.head as int]) == sel.head
            &&& sel.head <= sel.anchor ==> after.head == sel.head
        }),
{
    let (s, sel) = (v.buf.text, v.sels.list[i]);
    if sel.head > sel.anchor {
        crate::object::lemma_bytes_of_prev(s, sel.head as int);
    }
}

/// The named keys move the insertion points as they move selections in normal
/// mode, without selecting anything.
pub proof fn arrows_move_every_insertion_point(v: InsertView, m: Motion, mods: Mods, i: int)
    requires
        !v.pending_j,
        0 <= i < v.sels.list.len(),
        !(m is NextWord) && !(m is PrevWord) && !(m is EndWord),
    ensures
        ({
            let w = insert_step(v, KeyEvent { key: crate::normal::named_key_for(m), mods });
            let after = w.sels.list[i];
            &&& w == InsertView { sels: w.sels, ..v }
            &&& after.head == crate::motion::moved(v.buf.text, v.sels.list[i], m, false).head
            &&& after.anchor == after.head
        }),
{
}

/// Where a line-editing key puts the insertion point.
pub open spec fn edit_point(s: Seq<u8>, h: int, k: KeyEvent) -> int {
    let ctrl = k.mods == Mods(CTRL_BIT);
    if ctrl && k.key == Key::Char('a') {
        line_start_of(s, h)
    } else if ctrl && k.key == Key::Char('e') {
        line_end_of(s, h)
    } else if ctrl && k.key == Key::Char('b') {
        prev_char_of(s, h)
    } else if ctrl {
        next_char_or_end_of(s, h)
    } else if k.key == Key::Char('b') {
        crate::motion::word_backward(s, h)
    } else {
        next_char_or_end_of(s, crate::motion::word_forward(s, h))
    }
}

/// Ctrl with `a`, `e`, `b` and `f`, and Alt with `b` and `f`, move the insertion
/// points and select nothing.
pub proof fn line_editing_keys_move_the_point(v: InsertView, k: KeyEvent, i: int)
    requires
        !v.pending_j,
        0 <= i < v.sels.list.len(),
        k.mods == Mods(CTRL_BIT) && (k.key == Key::Char('a') || k.key == Key::Char('e') || k.key
            == Key::Char('b') || k.key == Key::Char('f')) || k.mods == Mods(ALT_BIT) && (k.key
            == Key::Char('b') || k.key == Key::Char('f')),
    ensures
        ({
            let w = insert_step(v, k);
            let after = w.sels.list[i];
            let at = edit_point(v.buf.text, v.sels.list[i].head as int, k) as usize;
            &&& w == InsertView { sels: w.sels, ..v }
            &&& after.head == at && after.anchor == at
        }),
{
    lemma_single_mods();
}

/// A new line under a single cursor is indented by four spaces for each level.
pub proof fn new_lines_are_indented(buf: BufferView, sels: SelectionsView, lang: Seq<char>)
    requires
        sels.list.len() == 1,
        sels.primary == 0,
        cursors_in(buf.text, sels.list),
        level_of(lang, buf.text, sels.prime().head as int) > 0,
        has_room(buf.text, 4 * level_of(lang, buf.text, sels.prime().head as int)),
    ensures
        ({
            let (w, after) = indented(buf, sels, Some(lang));
            let h = sels.prime().head as int;
            let n = 4 * level_of(lang, buf.text, h);
            &&& w.text.len() == buf.text.len() + n
            &&& w.text.take(h) == buf.text.take(h)
            &&& w.text.skip(h + n) == buf.text.skip(h)
            &&& forall|j: int| h <= j < h + n ==> #[trigger] w.text[j] == ' ' as u8
            &&& after.list.len() == 1 && after.prime().head == h + n
        }),
{
    let h = sels.prime().head as int;
    let s = buf.text;
    let list = sels.list;
    let n = 4 * level_of(lang, s, h);
    let t = spaces(n);
    assert(t.len() * list.len() == n) by (nonlinear_arith)
        requires
            t.len() == n,
            list.len() == 1,
    ;
    assert(list[0].head == h);
    crate::edit::typing_puts_a_copy_at_each_cursor(buf, list, t);
    crate::edit::lemma_woven_run(s, list, t, 0, h);
    assert(woven(s, list, t, h) =~= s.take(h));
    let (w, after) = indented(buf, sels, Some(lang));
    if h < s.len() {
        crate::edit::lemma_woven_on(s, list, t, 0, s.len() as int);
        assert(copy_at(list, t, s.len() as int) == Seq::<u8>::empty());
    } else {
        assert(copy_at(list, t, s.len() as int) == t);
    }
    assert(w.text =~= s.take(h) + t + s.skip(h));
    assert(w.text.take(h) =~= s.take(h));
    assert(w.text.skip(h + n) =~= s.skip(h));
}

/// Without a language, with several cursors or where no bracket is open, no new
/// line is indented.
pub proof fn other_lines_are_not_indented(
    buf: BufferView,
    sels: SelectionsView,
    lang: Option<Seq<char>>,
)
    requires
        sels.ok(),
        lang matches Some(l) ==> sels.list.len() > 1 || level_of(
            l,
            buf.text,
            sels.prime().head as int,
        ) == 0,
    ensures
        indented(buf, sels, lang) == (buf, sels),
{
    assert(spaces(0) =~= Seq::<u8>::empty());
}

}
