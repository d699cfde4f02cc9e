//! The completion popup of insert mode: what it shows, the keys that it takes,
//! and when it asks for more.
//!
//! Times are in milliseconds of whatever clock the caller reads.
use vstd::prelude::*;
use vstd::utf8::encode_utf8;
use crate::buffer::{collect_bytes, BufferView};
use crate::completion::{
    buffer_word_items, decision, detect, filter_items, fitting, ident_prefix_start, ident_start,
    is_buffer_source, items_of, parse_response, rules_of, triggers_for, word_items, CompletionItem,
    ItemView, TriggerDecision,
};
use crate::completion::{incomplete, listed, starting_with};
use crate::edit::{copy_range, cursor_at, has_room, sel_fits};
use crate::editor::{cursor_line_col, EditorBuffer, EditorView};
use crate::input::{Key, KeyEvent, Mods, ALT_BIT, CTRL_BIT};
use crate::json::{Json, JsonView};
use crate::path_complete::{
    ascii_white, sep_byte, separator_should_autotrigger, PathCompletion, PathView,
};
use crate::path_complete::opt_path;
use crate::protocol::CompletionTrigger;
use crate::selection::Selection;
use crate::sort::ranked;
use crate::strings::{lossy, text_from_utf8_lossy};
use crate::text::{display_col, imin, line_start, text_fits};

verus! {

/// How long after a key a request goes out.
pub const COMPLETION_DEBOUNCE: u64 = 50;

/// A request that waits for its time.
#[derive(Clone, Copy, Debug)]
pub struct PendingTrigger {
    /// Where the text to complete begins.
    pub anchor: usize,
    pub trigger: CompletionTrigger,
    pub deadline: u64,
}

/// The popup.
pub struct CompletionUi {
    /// The request whose answer is awaited; answers to others are dropped.
    pub request_id: Option<u64>,
    /// Where the text that an accepted item replaces begins.
    pub anchor: usize,
    /// That text.
    pub prefix: String,
    pub items: Vec<CompletionItem>,
    /// The indices of the items that fit the prefix.
    pub filtered: Vec<usize>,
    /// Which of those is selected.
    pub selected: usize,
    /// The server would answer differently once more is typed.
    pub is_incomplete: bool,
    pub pending: Option<PendingTrigger>,
    /// The items are names of files.
    pub is_path_session: bool,
    /// The quote before the path, if there is one.
    pub path_quote: Option<char>,
}

#[verifier::ext_equal]
pub struct UiView {
    pub request_id: Option<u64>,
    pub anchor: usize,
    pub prefix: Seq<char>,
    pub items: Seq<ItemView>,
    pub filtered: Seq<int>,
    pub selected: int,
    pub is_incomplete: bool,
    pub pending: Option<PendingTrigger>,
    pub is_path_session: bool,
    pub path_quote: Option<char>,
}

pub open spec fn numbers(v: Seq<usize>) -> Seq<int> {
    v.map_values(|x: usize| x as int)
}

impl View for CompletionUi {
    type V = UiView;

    open spec fn view(&self) -> UiView {
        UiView {
            request_id: self.request_id,
            anchor: self.anchor,
            prefix: self.prefix@,
            items: items_of(self.items@),
            filtered: numbers(self.filtered@),
            selected: self.selected as int,
            is_incomplete: self.is_incomplete,
            pending: self.pending,
            is_path_session: self.is_path_session,
            path_quote: self.path_quote,
        }
    }
}

impl UiView {
    /// What is shown are items of the list, and one of them is selected.
    pub open spec fn ok(self) -> bool {
        &&& forall|i: int|
            0 <= i < self.filtered.len() ==> 0 <= #[trigger] self.filtered[i] < self.items.len()
        &&& self.filtered.len() > 0 ==> 0 <= self.selected < self.filtered.len()
    }

    pub open spec fn visible(self) -> bool {
        self.filtered.len() > 0
    }

    /// The selected item.
    pub open spec fn chosen(self) -> Option<ItemView> {
        if 0 <= self.selected < self.filtered.len() {
            Some(self.items[self.filtered[self.selected]])
        } else {
            None
        }
    }

    pub open spec fn closed(self) -> UiView {
        UiView {
            request_id: None,
            prefix: Seq::empty(),
            items: Seq::empty(),
            filtered: Seq::empty(),
            selected: 0,
            is_incomplete: false,
            pending: None,
            is_path_session: false,
            path_quote: None,
            ..self
        }
    }

    /// Filled with items that need no answer.
    pub open spec fn filled(self, items: Seq<ItemView>, anchor: usize, prefix: Seq<char>) -> UiView {
        UiView {
            request_id: None,
            anchor,
            prefix,
            items,
            filtered: fitting(items, prefix),
            selected: 0,
            is_incomplete: false,
            is_path_session: false,
            path_quote: None,
            ..self
        }
    }

    /// Filled with the names of files, or closed where there are none.
    pub open spec fn offered(self, paths: Option<PathView>) -> UiView {
        match paths {
            Some(p) => UiView {
                is_path_session: true,
                path_quote: p.quote,
                ..self.filled(p.items, p.anchor as usize, p.prefix)
            },
            None => self.closed(),
        }
    }

    /// Filtered again for the text before the cursor.
    pub open spec fn refiltered(self, prefix: Seq<char>) -> UiView {
        UiView { prefix, filtered: fitting(self.items, prefix), ..self }
    }

    pub open spec fn armed(self, anchor: usize, trigger: CompletionTrigger, deadline: u64) -> UiView {
        UiView { pending: Some(PendingTrigger { anchor, trigger, deadline }), ..self }
    }
}

pub proof fn lemma_fitting(items: Seq<ItemView>, prefix: Seq<char>)
    ensures
        forall|i: int|
            0 <= i < fitting(items, prefix).len() ==> 0 <= #[trigger] fitting(items, prefix)[i]
                < items.len(),
{
    if prefix.len() > 0 {
        lemma_starting(
            items.map_values(|i: ItemView| crate::strings::lowercase(i.filter_text)),
            crate::strings::lowercase(prefix),
        );
    }
}

proof fn lemma_starting(texts: Seq<Seq<char>>, p: Seq<char>)
    ensures
        forall|i: int|
            0 <= i < starting_with(texts, p).len() ==> 0 <= #[trigger] starting_with(texts, p)[i]
                < texts.len(),
    decreases texts.len(),
{
    if texts.len() > 0 {
        let rest = starting_with(texts.drop_last(), p);
        let all = starting_with(texts, p);
        lemma_starting(texts.drop_last(), p);
        assert forall|i: int| 0 <= i < all.len() implies 0 <= #[trigger] all[i] < texts.len() by {
            if i < rest.len() {
                assert(all[i] == rest[i]);
            }
        }
    }
}

impl CompletionUi {
    pub open spec fn wf(&self) -> bool {
        self@.ok()
    }

    /// A closed popup.
    pub fn new() -> (r: CompletionUi)
        ensures
            r.wf(),
            r@ == (UiView {
                request_id: None,
                anchor: 0,
                prefix: Seq::empty(),
                items: Seq::empty(),
                filtered: Seq::empty(),
                selected: 0,
                is_incomplete: false,
                pending: None,
                is_path_session: false,
                path_quote: None,
            }),
    {
        let r = CompletionUi {
            request_id: None,
            anchor: 0,
            prefix: String::new(),
            items: Vec::new(),
            filtered: Vec::new(),
            selected: 0,
            is_incomplete: false,
            pending: None,
            is_path_session: false,
            path_quote: None,
        };
        assert(r@.items =~= Seq::<ItemView>::empty());
        assert(r@.filtered =~= Seq::<int>::empty());
        r
    }

    /// Whether there is anything to show.
    pub fn is_visible(&self) -> (r: bool)
        ensures
            r == self@.visible(),
    {
        self.filtered.len() > 0
    }

    /// Fill the popup with items that need no answer.
    pub fn set_items(&mut self, items: Vec<CompletionItem>, anchor: usize, prefix: String)
        ensures
            final(self).wf(),
            final(self)@ == old(self)@.filled(items_of(items@), anchor, prefix@),
    {
        self.request_id = None;
        self.is_incomplete = false;
        self.is_path_session = false;
        self.path_quote = None;
        self.anchor = anchor;
        self.filtered = filter_items(items.as_slice(), prefix.as_str());
        proof {
            lemma_fitting(items_of(items@), prefix@);
            assert(numbers(self.filtered@) =~= fitting(items_of(items@), prefix@));
        }
        self.prefix = prefix;
        self.items = items;
        self.selected = 0;
    }

    /// Fill the popup with the names of files.
    pub fn set_path_items(&mut self, pc: PathCompletion)
        ensures
            final(self).wf(),
            final(self)@ == old(self)@.offered(Some(pc@)),
    {
        let quote = pc.quote;
        self.set_items(pc.items, pc.anchor, pc.prefix);
        self.is_path_session = true;
        self.path_quote = quote;
    }

    /// Show the names of files, or close where there are none.
    pub fn offer_paths(&mut self, paths: Option<PathCompletion>)
        ensures
            final(self).wf(),
            final(self)@ == old(self)@.offered(opt_path(paths)),
    {
        match paths {
            Some(pc) => self.set_path_items(pc),
            None => self.close(),
        }
    }

    /// Close the popup and forget what it waits for.
    pub fn close(&mut self)
        ensures
            final(self).wf(),
            final(self)@ == old(self)@.closed(),
    {
        self.request_id = None;
        self.items.clear();
        self.filtered.clear();
        self.selected = 0;
        self.is_incomplete = false;
        self.pending = None;
        self.prefix = String::new();
        self.is_path_session = false;
        self.path_quote = None;
        assert(self@.items =~= Seq::<ItemView>::empty());
        assert(self@.filtered =~= Seq::<int>::empty());
    }

    fn refilter(&mut self, prefix: String)
        ensures
            final(self)@ == old(self)@.refiltered(prefix@),
            forall|i: int|
                0 <= i < final(self)@.filtered.len() ==> 0 <= #[trigger] final(self)@.filtered[i]
                    < final(self)@.items.len(),
    {
        self.filtered = filter_items(self.items.as_slice(), prefix.as_str());
        self.prefix = prefix;
        proof {
            lemma_fitting(items_of(self.items@), self.prefix@);
            assert(numbers(self.filtered@) =~= fitting(items_of(self.items@), self.prefix@));
        }
    }
}

// ---------------------------------------------------------------------------
// Accepting an item
// ---------------------------------------------------------------------------

/// The buffer once the bytes from `anchor` to `cursor` were replaced by `t`.
pub open spec fn replaced(doc: BufferView, anchor: int, cursor: int, t: Seq<u8>) -> BufferView {
    let cut = if cursor > anchor { doc.deleted(anchor, cursor - anchor) } else { doc };
    cut.inserted(anchor, t)
}

/// The cursor moved to `h`.
pub open spec fn cursor_moved(eb: EditorView, h: int) -> EditorView {
    EditorView { sels: eb.sels.with_prime(cursor_at(eb.doc.text, h)), ..eb }
}

/// The text before the cursor replaced by `t`, with the cursor behind it.
pub open spec fn completed(eb: EditorView, anchor: int, t: Seq<u8>) -> EditorView {
    cursor_moved(
        EditorView { doc: replaced(eb.doc, anchor, eb.head(), t), ..eb },
        anchor + t.len(),
    )
}

/// An item can be accepted: there is one cursor, and it stands behind the
/// anchor.
pub open spec fn can_accept(ui: UiView, eb: EditorView) -> bool {
    ui.chosen() is Some && eb.sels.list.len() <= 1 && ui.anchor <= eb.head()
}

/// The text stays countable when the selected item is accepted.
pub open spec fn room_to_accept(ui: UiView, eb: EditorView) -> bool {
    &&& sel_fits(eb.sels.prime())
    &&& text_fits(eb.doc.text)
    &&& ui.chosen() matches Some(item) ==> 4 * (eb.doc.text.len() + eb.head() + encode_utf8(
        item.insert_text,
    ).len() + 4) < usize::MAX
}

pub open spec fn accepted(ui: UiView, eb: EditorView) -> (UiView, EditorView) {
    (
        ui.closed(),
        if can_accept(ui, eb) {
            completed(eb, ui.anchor as int, encode_utf8(ui.chosen()->0.insert_text))
        } else {
            eb
        },
    )
}

fn move_cursor(eb: &mut EditorBuffer, head: usize)
    requires
        old(eb).wf(),
        text_fits(old(eb)@.doc.text),
    ensures
        final(eb).wf(),
        final(eb)@ == cursor_moved(old(eb)@, head as int),
{
    let bytes = collect_bytes(&eb.buffer);
    let col: usize = display_col(bytes.as_slice(), line_start(bytes.as_slice(), head), head);
    let p = eb.sels.primary_mut();
    *p = Selection { anchor: head, head, desired_col: col };
    assert(eb@.sels =~= cursor_moved(old(eb)@, head as int).sels);
}

proof fn lemma_replaced_len(doc: BufferView, anchor: int, cursor: int, t: Seq<u8>)
    requires
        0 <= anchor <= cursor,
    ensures
        replaced(doc, anchor, cursor, t).text.len() <= doc.text.len() + t.len(),
        doc.deleted(anchor, cursor - anchor).text.len() <= doc.text.len(),
{
}

fn replace_before_cursor(eb: &mut EditorBuffer, anchor: usize, text: &[u8])
    requires
        old(eb).wf(),
        anchor <= old(eb)@.head(),
        old(eb)@.doc.text.len() + text@.len() <= usize::MAX,
    ensures
        final(eb).wf(),
        final(eb)@ == (EditorView {
            doc: replaced(old(eb)@.doc, anchor as int, old(eb)@.head(), text@),
            ..old(eb)@
        }),
{
    let cursor: usize = eb.head();
    proof {
        lemma_replaced_len(eb@.doc, anchor as int, cursor as int, text@);
    }
    if cursor > anchor {
        eb.buffer.delete(anchor, cursor - anchor);
    }
    eb.buffer.insert(anchor, text);
}

/// Accept the selected item: it replaces the text from the anchor to the cursor,
/// and the popup closes. With several cursors, or before the anchor, it only
/// closes.
pub fn accept_completion(comp: &mut CompletionUi, eb: &mut EditorBuffer)
    requires
        old(comp).wf(),
        old(eb).wf(),
        room_to_accept(old(comp)@, old(eb)@),
    ensures
        final(comp).wf(),
        final(eb).wf(),
        (final(comp)@, final(eb)@) == accepted(old(comp)@, old(eb)@),
{
    if comp.selected >= comp.filtered.len() {
        comp.close();
        return;
    }
    let ghost ui = comp@;
    assert(ui.filtered[ui.selected] == comp.filtered@[comp.selected as int]);
    let item = comp.items[comp.filtered[comp.selected]].insert_text.clone();
    assert(ui.chosen()->0.insert_text == item@);
    let anchor: usize = comp.anchor;
    if eb.sels.len() > 1 || anchor > eb.head() {
        comp.close();
        return;
    }
    let text = item.as_str().as_bytes();
    proof {
        lemma_replaced_len(eb@.doc, anchor as int, eb@.head(), text@);
    }
    replace_before_cursor(eb, anchor, text);
    move_cursor(eb, anchor + text.len());
    comp.close();
}

/// A path that goes on: its last character is a separator.
pub open spec fn descends(t: Seq<char>) -> bool {
    t.len() > 0 && (t.last() == '/' || t.last() == '\\')
}

fn ends_with_separator(t: &str) -> (r: bool)
    ensures
        r == descends(t@),
{
    let chars = crate::strings::chars_of(t);
    let n: usize = chars.len();
    n > 0 && (chars[n - 1] == '/' || chars[n - 1] == '\\')
}

/// The low byte of a character's number.
pub open spec fn low_byte(c: char) -> int {
    c as int % 256
}

/// The quote is missing at `h`.
pub open spec fn quote_missing(text: Seq<u8>, h: int, quote: char) -> bool {
    !(0 <= h < text.len() && text[h] as int == low_byte(quote))
}

/// The buffer once a file name was accepted: a quote is closed behind it unless
/// it is closed already.
pub open spec fn closed_quote(eb: EditorView, quote: Option<char>) -> EditorView {
    match quote {
        Some(q) => if quote_missing(eb.doc.text, eb.head(), q) {
            cursor_moved(
                EditorView { doc: eb.doc.inserted(eb.head(), encode_utf8(seq![q])), ..eb },
                eb.head() + encode_utf8(seq![q]).len(),
            )
        } else {
            eb
        },
        None => eb,
    }
}

/// Accepting a file name: the popup, the buffer, and whether the names in a
/// directory are wanted next.
pub open spec fn path_accepted(ui: UiView, eb: EditorView) -> (UiView, EditorView, bool) {
    if can_accept(ui, eb) {
        let t = ui.chosen()->0.insert_text;
        let done = completed(eb, ui.anchor as int, encode_utf8(t));
        if descends(t) {
            (ui.closed(), done, true)
        } else {
            (ui.closed(), closed_quote(done, ui.path_quote), false)
        }
    } else {
        (ui.closed(), eb, false)
    }
}

fn char_text(c: char) -> (r: String)
    ensures
        r@ == seq![c],
        encode_utf8(r@).len() <= 4,
{
    let mut s = String::new();
    s.push(c);
    proof {
        assert(s@ =~= seq![c]);
        assert(s@.drop_first() =~= Seq::<char>::empty());
        assert(encode_utf8(s@.drop_first()) =~= Seq::<u8>::empty());
    }
    s
}

fn close_quote(eb: &mut EditorBuffer, q: char)
    requires
        old(eb).wf(),
        has_room(old(eb)@.doc.text, 4),
        4 * (old(eb)@.head() + 4) < usize::MAX,
    ensures
        final(eb).wf(),
        final(eb)@ == closed_quote(old(eb)@, Some(q)),
{
    let head: usize = eb.head();
    let here = collect_bytes(&eb.buffer);
    if head < here.len() && here[head] as u32 == q as u32 % 256 {
        return;
    }
    let s = char_text(q);
    let text = s.as_str().as_bytes();
    eb.buffer.insert(head, text);
    move_cursor(eb, head + text.len());
}

/// Accept the selected file name. A directory is followed by the names in it:
/// then `true` is the answer, and the names are to be offered. A file closes the
/// quote before the path.
pub fn accept_path_completion(comp: &mut CompletionUi, eb: &mut EditorBuffer) -> (r: bool)
    requires
        old(comp).wf(),
        old(eb).wf(),
        room_to_accept(old(comp)@, old(eb)@),
    ensures
        final(comp).wf(),
        final(eb).wf(),
        (final(comp)@, final(eb)@, r) == path_accepted(old(comp)@, old(eb)@),
{
    if comp.selected >= comp.filtered.len() {
        comp.close();
        return false;
    }
    let ghost ui = comp@;
    assert(ui.filtered[ui.selected] == comp.filtered@[comp.selected as int]);
    let item = comp.items[comp.filtered[comp.selected]].insert_text.clone();
    assert(ui.chosen()->0.insert_text == item@);
    let anchor: usize = comp.anchor;
    if eb.sels.len() > 1 || anchor > eb.head() {
        comp.close();
        return false;
    }
    let text = item.as_str().as_bytes();
    proof {
        lemma_replaced_len(eb@.doc, anchor as int, eb@.head(), text@);
    }
    replace_before_cursor(eb, anchor, text);
    move_cursor(eb, anchor + text.len());
    let descended: bool = ends_with_separator(item.as_str());
    if !descended {
        if let Some(q) = comp.path_quote {
            close_quote(eb, q);
        }
    }
    comp.close();
    descended
}

// ---------------------------------------------------------------------------
// Keys
// ---------------------------------------------------------------------------

/// What the popup did with a key.
#[derive(Clone, Copy, Debug, PartialEq, Eq, Structural)]
pub enum CompletionKeyOutcome {
    /// Nothing: the key goes on.
    NotIntercepted,
    /// It took the key and left the buffer as it is.
    InterceptedNoChange,
    /// It took the key and changed the buffer.
    InterceptedAccepted,
    /// It took the key and wants the file names that complete the text before
    /// the cursor: they go to `offer_paths`.
    NeedPaths,
}

pub open spec fn is_accept_key(k: KeyEvent) -> bool {
    k.mods == Mods(0) && (k.key == Key::Tab || k.key == Key::Enter)
}

pub open spec fn is_next_key(k: KeyEvent) -> bool {
    (k.mods == Mods(0) && k.key == Key::Down) || is_ctrl(k, 'n')
}

pub open spec fn is_previous_key(k: KeyEvent) -> bool {
    (k.mods == Mods(0) && k.key == Key::Up) || is_ctrl(k, 'p')
}

pub open spec fn is_ctrl(k: KeyEvent, c: char) -> bool {
    k.mods.has(Mods(CTRL_BIT)) && k.key == Key::Char(c)
}

/// What a key does to the popup and the buffer.
pub open spec fn key_taken(ui: UiView, eb: EditorView, k: KeyEvent, now: u64) -> (
    UiView,
    EditorView,
    CompletionKeyOutcome,
) {
    let n = ui.filtered.len() as int;
    if k.mods == Mods(ALT_BIT) && k.key == Key::Char('/') {
        if eb.sels.list.len() == 1 {
            (ui, eb, CompletionKeyOutcome::NeedPaths)
        } else {
            (ui.closed(), eb, CompletionKeyOutcome::InterceptedNoChange)
        }
    } else if ui.is_path_session && ui.visible() && is_accept_key(k) {
        let (after, done, more) = path_accepted(ui, eb);
        (
            after,
            done,
            if more {
                CompletionKeyOutcome::NeedPaths
            } else {
                CompletionKeyOutcome::InterceptedNoChange
            },
        )
    } else if !ui.visible() && is_ctrl(k, 'n') {
        let start = ident_start(eb.doc.text, imin(eb.head(), eb.doc.text.len() as int));
        (
            if eb.sels.list.len() == 1 {
                ui.armed(start as usize, CompletionTrigger::Invoked, now)
            } else {
                ui
            },
            eb,
            CompletionKeyOutcome::InterceptedNoChange,
        )
    } else if !ui.visible() {
        (ui, eb, CompletionKeyOutcome::NotIntercepted)
    } else if is_accept_key(k) {
        (accepted(ui, eb).0, accepted(ui, eb).1, CompletionKeyOutcome::InterceptedAccepted)
    } else if is_next_key(k) {
        (
            UiView { selected: (ui.selected + 1) % n, ..ui },
            eb,
            CompletionKeyOutcome::InterceptedNoChange,
        )
    } else if is_previous_key(k) {
        (
            UiView { selected: (ui.selected + n - 1) % n, ..ui },
            eb,
            CompletionKeyOutcome::InterceptedNoChange,
        )
    } else if k.key == Key::Esc {
        (ui.closed(), eb, CompletionKeyOutcome::InterceptedNoChange)
    } else {
        (ui, eb, CompletionKeyOutcome::NotIntercepted)
    }
}

fn accept_key(k: &KeyEvent) -> (r: bool)
    ensures
        r == is_accept_key(*k),
{
    k.mods.is_empty() && (match k.key {
        Key::Tab => true,
        Key::Enter => true,
        _ => false,
    })
}

fn ctrl_key(k: &KeyEvent, c: char) -> (r: bool)
    ensures
        r == is_ctrl(*k, c),
{
    k.mods.contains(Mods::ctrl()) && (match k.key {
        Key::Char(x) => x == c,
        _ => false,
    })
}

/// Give a key of insert mode to the popup. Tab and Enter accept, the arrows and
/// Ctrl-N and Ctrl-P select, Esc closes; Ctrl-N without a popup asks for
/// completion of the word before the cursor, and Alt-/ for file names.
pub fn handle_completion_keys(
    comp: &mut CompletionUi,
    eb: &mut EditorBuffer,
    k: KeyEvent,
    now: u64,
) -> (r: CompletionKeyOutcome)
    requires
        old(comp).wf(),
        old(eb).wf(),
        room_to_accept(old(comp)@, old(eb)@),
    ensures
        final(comp).wf(),
        final(eb).wf(),
        (final(comp)@, final(eb)@, r) == key_taken(old(comp)@, old(eb)@, k, now),
{
    let slash: bool = match k.key {
        Key::Char(c) => c == '/',
        _ => false,
    };
    if k.mods == Mods::alt() && slash {
        if eb.sels.len() == 1 {
            return CompletionKeyOutcome::NeedPaths;
        }
        comp.close();
        return CompletionKeyOutcome::InterceptedNoChange;
    }
    let visible: bool = comp.is_visible();
    if comp.is_path_session && visible && accept_key(&k) {
        if accept_path_completion(comp, eb) {
            return CompletionKeyOutcome::NeedPaths;
        }
        return CompletionKeyOutcome::InterceptedNoChange;
    }
    if !visible {
        if !ctrl_key(&k, 'n') {
            return CompletionKeyOutcome::NotIntercepted;
        }
        if eb.sels.len() == 1 {
            let bytes = collect_bytes(&eb.buffer);
            let anchor: usize = ident_prefix_start(bytes.as_slice(), eb.head());
            comp.pending = Some(
                PendingTrigger { anchor, trigger: CompletionTrigger::Invoked, deadline: now },
            );
        }
        return CompletionKeyOutcome::InterceptedNoChange;
    }
    if accept_key(&k) {
        accept_completion(comp, eb);
        return CompletionKeyOutcome::InterceptedAccepted;
    }
    let (down, up, esc): (bool, bool, bool) = match k.key {
        Key::Down => (k.mods.is_empty(), false, false),
        Key::Up => (false, k.mods.is_empty(), false),
        Key::Esc => (false, false, true),
        _ => (false, false, false),
    };
    let n: usize = comp.filtered.len();
    if down || ctrl_key(&k, 'n') {
        comp.selected = if comp.selected + 1 < n {
            comp.selected + 1
        } else {
            0
        };
        assert(comp@ =~= key_taken(old(comp)@, old(eb)@, k, now).0) by {
            lemma_wrap(old(comp)@.selected, n as int);
        }
        return CompletionKeyOutcome::InterceptedNoChange;
    }
    if up || ctrl_key(&k, 'p') {
        comp.selected = if comp.selected > 0 {
            comp.selected - 1
        } else {
            n - 1
        };
        assert(comp@ =~= key_taken(old(comp)@, old(eb)@, k, now).0) by {
            lemma_wrap(old(comp)@.selected, n as int);
        }
        return CompletionKeyOutcome::InterceptedNoChange;
    }
    if esc {
        comp.close();
        return CompletionKeyOutcome::InterceptedNoChange;
    }
    CompletionKeyOutcome::NotIntercepted
}

proof fn lemma_wrap(i: int, n: int)
    requires
        0 <= i < n,
    ensures
        (i + 1) % n == (if i + 1 < n { i + 1 } else { 0 }),
        (i + n - 1) % n == (if i > 0 { i - 1 } else { n - 1 }),
{
    if i + 1 < n {
        vstd::arithmetic::div_mod::lemma_small_mod((i + 1) as nat, n as nat);
    } else {
        assert((i + 1) % n == 0) by (nonlinear_arith)
            requires
                i + 1 == n,
                n > 0,
        ;
    }
    if i > 0 {
        vstd::arithmetic::div_mod::lemma_small_mod((i - 1) as nat, n as nat);
        vstd::arithmetic::div_mod::lemma_mod_add_multiples_vanish(i - 1, n);
    } else {
        vstd::arithmetic::div_mod::lemma_small_mod((n - 1) as nat, n as nat);
    }
}

// ---------------------------------------------------------------------------
// After a key changed the buffer
// ---------------------------------------------------------------------------

/// The text from `a` to `b`.
pub open spec fn text_between(text: Seq<u8>, a: int, b: int) -> Seq<char> {
    lossy(text.subrange(a, b))
}

/// The anchor still stands before the cursor.
pub open spec fn anchored(ui: UiView, eb: EditorView) -> bool {
    ui.anchor <= eb.head() <= eb.doc.text.len()
}

/// A separator stands before the cursor.
pub open spec fn behind_separator(eb: EditorView) -> bool {
    eb.head() > 0 && sep_byte(eb.doc.text[eb.head() - 1])
}

/// What is typed behind the anchor.
pub open spec fn typed(ui: UiView, eb: EditorView) -> Seq<char> {
    text_between(eb.doc.text, ui.anchor as int, eb.head())
}

/// A separator was typed that opens the popup by itself.
pub open spec fn opens_paths(eb: EditorView) -> bool {
    eb.head() >= 2 && behind_separator(eb) && !ascii_white(eb.doc.text[eb.head() - 2])
}

/// File names are needed before the popup can be brought up to date.
pub open spec fn paths_wanted(ui: UiView, eb: EditorView) -> bool {
    if ui.is_path_session {
        eb.sels.list.len() == 1 && anchored(ui, eb) && (behind_separator(eb) || ui.refiltered(
            typed(ui, eb),
        ).filtered.len() == 0)
    } else {
        eb.sels.list.len() <= 1 && opens_paths(eb)
    }
}

/// The text before the cursor is looked at, so the cursor has to stand in the
/// text.
pub open spec fn looked_at(ui: UiView, eb: EditorView) -> bool {
    !ui.is_path_session && eb.sels.list.len() == 1
}

/// Whether `update_completion_after_insert` needs the file names that complete
/// the text before the cursor.
pub fn wants_paths(comp: &CompletionUi, eb: &EditorBuffer) -> (r: bool)
    requires
        eb.wf(),
        looked_at(comp@, eb@) ==> eb@.head() <= eb@.doc.text.len(),
    ensures
        r == paths_wanted(comp@, eb@),
{
    let n: usize = eb.sels.len();
    let cursor: usize = eb.head();
    let bytes = collect_bytes(&eb.buffer);
    if !comp.is_path_session {
        return n <= 1 && separator_should_autotrigger(bytes.as_slice(), cursor);
    }
    if n != 1 || comp.anchor > cursor || cursor > bytes.len() {
        return false;
    }
    if cursor > 0 && (bytes[cursor - 1] == 0x2f || bytes[cursor - 1] == 0x5c) {
        return true;
    }
    let part = copy_range(bytes.as_slice(), comp.anchor, cursor);
    let prefix = text_from_utf8_lossy(part.as_slice());
    let fit = filter_items(comp.items.as_slice(), prefix.as_str());
    fit.len() == 0
}

/// The popup of file names after a key changed the buffer.
pub open spec fn path_updated(ui: UiView, eb: EditorView, paths: Option<PathView>) -> UiView {
    if eb.sels.list.len() != 1 || !anchored(ui, eb) {
        ui.closed()
    } else if behind_separator(eb) {
        ui.offered(paths)
    } else {
        let next = ui.refiltered(typed(ui, eb));
        if next.filtered.len() == 0 {
            next.offered(paths)
        } else {
            UiView { selected: 0, ..next }
        }
    }
}

/// The popup, filtered again; `true` if it stays open. It stays open without a
/// fitting item if the server would answer differently now.
pub open spec fn kept_open(ui: UiView, eb: EditorView) -> (UiView, bool) {
    if ui.items.len() == 0 {
        (ui, false)
    } else if !anchored(ui, eb) {
        (ui.closed(), false)
    } else {
        let next = ui.refiltered(typed(ui, eb));
        if next.filtered.len() == 0 && !ui.is_incomplete {
            (next.closed(), false)
        } else {
            (UiView { selected: 0, ..next }, true)
        }
    }
}

pub open spec fn later(now: u64) -> u64 {
    imin(now + COMPLETION_DEBOUNCE, u64::MAX as int) as u64
}

/// The popup of a language with completion after a key changed the buffer: a
/// trigger arms a request; so does an incomplete answer.
pub open spec fn language_updated(ui: UiView, eb: EditorView, d: TriggerDecision, now: u64) -> UiView {
    let (next, alive) = kept_open(ui, eb);
    match d {
        TriggerDecision::Trigger { anchor, trigger_char, .. } => next.armed(
            anchor,
            match trigger_char {
                Some(c) => CompletionTrigger::Character(c),
                None => CompletionTrigger::Invoked,
            },
            later(now),
        ),
        TriggerDecision::Nothing => if alive && next.is_incomplete {
            next.armed(next.anchor, CompletionTrigger::Incomplete, later(now))
        } else {
            next
        },
    }
}

/// The popup after a key changed the buffer. `paths` are the file names that
/// complete the text before the cursor.
pub open spec fn updated(ui: UiView, eb: EditorView, paths: Option<PathView>, now: u64) -> UiView {
    if ui.is_path_session {
        path_updated(ui, eb, paths)
    } else if eb.sels.list.len() > 1 {
        ui.closed()
    } else if opens_paths(eb) && paths is Some {
        ui.offered(paths)
    } else {
        match eb.lang {
            Some(lang) => match rules_of(lang) {
                Some((chars, min)) => language_updated(
                    ui,
                    eb,
                    decision(eb.doc.text, eb.head(), chars, min),
                    now,
                ),
                None => ui.closed(),
            },
            None => ui.closed(),
        }
    }
}

fn update_path_completion_after_insert(
    comp: &mut CompletionUi,
    eb: &EditorBuffer,
    paths: Option<PathCompletion>,
)
    requires
        old(comp).wf(),
        eb.wf(),
    ensures
        final(comp).wf(),
        final(comp)@ == path_updated(old(comp)@, eb@, opt_path(paths)),
{
    let cursor: usize = eb.head();
    let bytes = collect_bytes(&eb.buffer);
    if eb.sels.len() != 1 || comp.anchor > cursor || cursor > bytes.len() {
        comp.close();
        return;
    }
    if cursor > 0 && (bytes[cursor - 1] == 0x2f || bytes[cursor - 1] == 0x5c) {
        comp.offer_paths(paths);
        return;
    }
    let part = copy_range(bytes.as_slice(), comp.anchor, cursor);
    comp.refilter(text_from_utf8_lossy(part.as_slice()));
    if comp.filtered.len() == 0 {
        comp.offer_paths(paths);
    } else {
        comp.selected = 0;
    }
}

fn keep_open(comp: &mut CompletionUi, eb: &EditorBuffer) -> (alive: bool)
    requires
        old(comp).wf(),
        eb.wf(),
    ensures
        final(comp).wf(),
        (final(comp)@, alive) == kept_open(old(comp)@, eb@),
{
    if comp.items.len() == 0 {
        return false;
    }
    let cursor: usize = eb.head();
    let bytes = collect_bytes(&eb.buffer);
    if comp.anchor > cursor || cursor > bytes.len() {
        comp.close();
        return false;
    }
    let part = copy_range(bytes.as_slice(), comp.anchor, cursor);
    comp.refilter(text_from_utf8_lossy(part.as_slice()));
    if comp.filtered.len() == 0 && !comp.is_incomplete {
        comp.close();
        return false;
    }
    comp.selected = 0;
    true
}

/// Bring the popup up to date after a key changed the buffer. `paths` holds the
/// file names that complete the text before the cursor, where `wants_paths`
/// says that they are needed.
pub fn update_completion_after_insert(
    comp: &mut CompletionUi,
    eb: &EditorBuffer,
    paths: Option<PathCompletion>,
    now: u64,
)
    requires
        old(comp).wf(),
        eb.wf(),
        looked_at(old(comp)@, eb@) ==> eb@.head() <= eb@.doc.text.len(),
    ensures
        final(comp).wf(),
        final(comp)@ == updated(old(comp)@, eb@, opt_path(paths), now),
{
    if comp.is_path_session {
        update_path_completion_after_insert(comp, eb, paths);
        return;
    }
    if eb.sels.len() > 1 {
        comp.close();
        return;
    }
    let cursor: usize = eb.head();
    let bytes = collect_bytes(&eb.buffer);
    if separator_should_autotrigger(bytes.as_slice(), cursor) {
        if let Some(pc) = paths {
            comp.set_path_items(pc);
            return;
        }
    }
    let lang: &str = match eb.lang_id {
        Some(l) => l,
        None => {
            comp.close();
            return;
        },
    };
    let triggers = match triggers_for(lang) {
        Some(t) => t,
        None => {
            comp.close();
            return;
        },
    };
    let alive: bool = keep_open(comp, eb);
    match detect(bytes.as_slice(), cursor, &triggers) {
        TriggerDecision::Trigger { anchor, trigger_char, .. } => {
            let trigger = match trigger_char {
                Some(c) => CompletionTrigger::Character(c),
                None => CompletionTrigger::Invoked,
            };
            comp.pending = Some(
                PendingTrigger {
                    anchor,
                    trigger,
                    deadline: now.saturating_add(COMPLETION_DEBOUNCE),
                },
            );
        },
        TriggerDecision::Nothing => {
            if alive && comp.is_incomplete {
                comp.pending = Some(
                    PendingTrigger {
                        anchor: comp.anchor,
                        trigger: CompletionTrigger::Incomplete,
                        deadline: now.saturating_add(COMPLETION_DEBOUNCE),
                    },
                );
            }
        },
    }
}

// ---------------------------------------------------------------------------
// When the time has come
// ---------------------------------------------------------------------------

/// What to do about a waiting request.
pub enum Due {
    /// Nothing.
    Nothing,
    /// Ask the server of the buffer's language.
    Ask { pending: PendingTrigger, line: u32, character: u32 },
}

/// A waiting request whose time has come.
pub open spec fn ripe(ui: UiView, now: u64) -> Option<PendingTrigger> {
    match ui.pending {
        Some(p) => if p.deadline <= now {
            Some(p)
        } else {
            None
        },
        None => None,
    }
}

/// What becomes of a waiting request. It is dropped if there are several
/// cursors, if the cursor stands before it, or if the buffer has no language.
/// The words of the buffer itself are offered at once.
pub open spec fn due(ui: UiView, eb: EditorView, now: u64) -> (UiView, Due) {
    match ripe(ui, now) {
        None => (ui, Due::Nothing),
        Some(p) => {
            let idle = UiView { pending: None, ..ui };
            if eb.sels.list.len() > 1 || p.anchor > eb.head() || eb.lang is None {
                (idle, Due::Nothing)
            } else if eb.lang == Some("djot"@) {
                let prefix = text_between(eb.doc.text, p.anchor as int, eb.head());
                let items = word_items(eb.doc.text, encode_utf8(prefix));
                (
                    if items.len() == 0 {
                        idle
                    } else {
                        idle.filled(items, p.anchor, prefix)
                    },
                    Due::Nothing,
                )
            } else {
                (
                    idle,
                    Due::Ask {
                        pending: p,
                        line: eb.line_col().0,
                        character: eb.line_col().1,
                    },
                )
            }
        },
    }
}

/// The words of the buffer are to be offered, so the cursor has to stand in the
/// text.
pub open spec fn words_due(ui: UiView, eb: EditorView, now: u64) -> bool {
    &&& ripe(ui, now) matches Some(p) && p.anchor <= eb.head()
    &&& eb.sels.list.len() == 1
    &&& eb.lang == Some("djot"@)
}

/// See to a waiting request once its time has come.
pub fn maybe_fire_completion(comp: &mut CompletionUi, eb: &EditorBuffer, now: u64) -> (r: Due)
    requires
        old(comp).wf(),
        eb.wf(),
        words_due(old(comp)@, eb@, now) ==> eb@.head() <= eb@.doc.text.len(),
    ensures
        final(comp).wf(),
        (final(comp)@, r) == due(old(comp)@, eb@, now),
{
    let pending: PendingTrigger = match comp.pending {
        Some(p) => p,
        None => {
            return Due::Nothing;
        },
    };
    if pending.deadline > now {
        return Due::Nothing;
    }
    comp.pending = None;
    let cursor: usize = eb.head();
    if eb.sels.len() > 1 || pending.anchor > cursor {
        return Due::Nothing;
    }
    let lang: &str = match eb.lang_id {
        Some(l) => l,
        None => {
            return Due::Nothing;
        },
    };
    if is_buffer_source(lang) {
        let bytes = collect_bytes(&eb.buffer);
        let part = copy_range(bytes.as_slice(), pending.anchor, cursor);
        let prefix = text_from_utf8_lossy(part.as_slice());
        let items = buffer_word_items(bytes.as_slice(), prefix.as_str());
        assert(items_of(items@).len() == items@.len());
        if items.len() > 0 {
            comp.set_items(items, pending.anchor, prefix);
        }
        return Due::Nothing;
    }
    let (line, character) = cursor_line_col(eb);
    Due::Ask { pending, line, character }
}

impl UiView {
    /// Waiting for the answer to a request that went out. Items of an older
    /// answer stay only while it is completed.
    pub open spec fn asked(self, id: u64, pending: PendingTrigger) -> UiView {
        let waiting = UiView { request_id: Some(id), anchor: pending.anchor, ..self };
        if pending.trigger is Incomplete {
            waiting
        } else {
            UiView { items: Seq::empty(), filtered: Seq::empty(), selected: 0, ..waiting }
        }
    }

    /// Filled with an answer.
    pub open spec fn answered(self, v: JsonView, prefix: Seq<char>) -> UiView {
        let items = ranked(listed(v));
        UiView {
            request_id: None,
            prefix,
            items,
            filtered: fitting(items, prefix),
            selected: 0,
            is_incomplete: incomplete(v),
            ..self
        }
    }
}

impl CompletionUi {
    /// Note that a completion request went out.
    pub fn asked(&mut self, id: u64, pending: PendingTrigger)
        requires
            old(self).wf(),
        ensures
            final(self).wf(),
            final(self)@ == old(self)@.asked(id, pending),
    {
        self.request_id = Some(id);
        self.anchor = pending.anchor;
        match pending.trigger {
            CompletionTrigger::Incomplete => {},
            _ => {
                self.items.clear();
                self.filtered.clear();
                self.selected = 0;
                assert(self@.items =~= Seq::<ItemView>::empty());
                assert(self@.filtered =~= Seq::<int>::empty());
            },
        }
    }

    /// Fill the popup with an answer. The items are filtered by the text from
    /// the anchor to the cursor.
    pub fn fill(&mut self, answer: &Json, eb: &EditorBuffer)
        requires
            eb.wf(),
        ensures
            final(self).wf(),
            final(self)@ == old(self)@.answered(
                answer@,
                if anchored(old(self)@, eb@) {
                    typed(old(self)@, eb@)
                } else {
                    Seq::empty()
                },
            ),
    {
        let parsed = parse_response(answer);
        self.items = parsed.items;
        self.is_incomplete = parsed.is_incomplete;
        self.request_id = None;
        let cursor: usize = eb.head();
        let bytes = collect_bytes(&eb.buffer);
        let prefix: String = if self.anchor <= cursor && cursor <= bytes.len() {
            let part = copy_range(bytes.as_slice(), self.anchor, cursor);
            text_from_utf8_lossy(part.as_slice())
        } else {
            String::new()
        };
        self.refilter(prefix);
        let ghost shown = self@;
        self.selected = 0;
        assert(self@.filtered == shown.filtered && self@.items == shown.items);
    }
}

// ---------------------------------------------------------------------------
// Laws
// ---------------------------------------------------------------------------

/// Selecting the next item and then the one before leads back.
pub proof fn previous_takes_back_next(ui: UiView, eb: EditorView, next: KeyEvent, prev: KeyEvent, now: u64)
    requires
        ui.ok(),
        ui.visible(),
        is_next_key(next),
        is_previous_key(prev),
    ensures
        ({
            let there = key_taken(ui, eb, next, now).0;
            key_taken(there, eb, prev, now).0 == ui
        }),
{
    let n = ui.filtered.len() as int;
    lemma_wrap(ui.selected, n);
    lemma_wrap((ui.selected + 1) % n, n);
}

/// What is selected can be seen: no key leaves a selection that is not one of
/// the items shown.
pub proof fn the_selection_is_shown(ui: UiView, eb: EditorView, k: KeyEvent, now: u64)
    requires
        ui.ok(),
    ensures
        key_taken(ui, eb, k, now).0.ok(),
{
    let n = ui.filtered.len() as int;
    if n > 0 {
        lemma_wrap(ui.selected, n);
    }
}

/// An accepted item stands before the cursor, and the rest of the text is as it
/// was.
pub proof fn accepting_replaces_the_prefix(ui: UiView, eb: EditorView)
    requires
        ui.ok(),
        eb.sels.ok(),
        can_accept(ui, eb),
        eb.head() <= eb.doc.text.len(),
        room_to_accept(ui, eb),
    ensures
        ({
            let t = encode_utf8(ui.chosen()->0.insert_text);
            let after = accepted(ui, eb).1;
            &&& after.doc.text == eb.doc.text.take(ui.anchor as int) + t + eb.doc.text.skip(
                eb.head(),
            )
            &&& after.head() == ui.anchor + t.len()
        }),
{
    let t = encode_utf8(ui.chosen()->0.insert_text);
    let a = ui.anchor as int;
    let text = eb.doc.text;
    let cut = if eb.head() > a { eb.doc.deleted(a, eb.head() - a) } else { eb.doc };
    assert(cut.text =~= text.take(a) + text.skip(eb.head()));
    assert(cut.text.take(a) =~= text.take(a));
    assert(cut.text.skip(a) =~= text.skip(eb.head()));
    if t.len() == 0 {
        assert(cut.text =~= text.take(a) + t + text.skip(eb.head()));
    }
}

/// Where nothing is offered, keys go on, but for those that ask for completion;
/// Esc takes the offer away and changes no text.
pub proof fn keys_go_on_without_an_offer(ui: UiView, eb: EditorView, k: KeyEvent, now: u64)
    ensures
        ui.filtered.len() == 0 && !(k.key is Char) ==> key_taken(ui, eb, k, now) == (
            ui,
            eb,
            CompletionKeyOutcome::NotIntercepted,
        ),
        ui.filtered.len() > 0 && k.key is Esc ==> {
            let r = key_taken(ui, eb, k, now);
            &&& r.0.filtered.len() == 0 && r.0.items.len() == 0 && r.0.pending is None
                && r.0.request_id is None
            &&& r.1 == eb
            &&& r.2 is InterceptedNoChange
        },
        ui.filtered.len() > 0 && (k.key is Left || k.key is Right || k.key is Backspace)
            ==> key_taken(ui, eb, k, now) == (ui, eb, CompletionKeyOutcome::NotIntercepted),
{
}

/// Tab and Enter accept the selected item: the text from the anchor to the cursor
/// is replaced by what the item writes, and the cursor stands behind it.
pub proof fn accepting_keys_write_the_item(ui: UiView, eb: EditorView, k: KeyEvent, now: u64)
    requires
        ui.ok(),
        ui.filtered.len() > 0,
        !ui.is_path_session,
        eb.sels.ok(),
        eb.sels.list.len() == 1,
        k.mods == Mods(0),
        k.key is Tab || k.key is Enter,
        ui.anchor <= eb.head() <= eb.doc.text.len(),
        room_to_accept(ui, eb),
    ensures
        ({
            let r = key_taken(ui, eb, k, now);
            let t = encode_utf8(ui.items[ui.filtered[ui.selected]].insert_text);
            let s = eb.doc.text;
            let a = ui.anchor as int;
            &&& r.1.doc.text == s.take(a) + t + s.skip(eb.head())
            &&& t.len() + a <= usize::MAX ==> r.1.head() == a + t.len()
            &&& r.0.filtered.len() == 0
            &&& r.2 is InterceptedAccepted
        }),
{
    let t = encode_utf8(ui.items[ui.filtered[ui.selected]].insert_text);
    let s = eb.doc.text;
    let a = ui.anchor as int;
    let doc = replaced(eb.doc, a, eb.head(), t);
    assert(doc.text =~= s.take(a) + t + s.skip(eb.head()));
}

/// A trigger is answered only once its time has come; then it is used up.
pub proof fn triggers_wait_for_their_time(ui: UiView, eb: EditorView, now: u64)
    ensures
        ({
            let r = due(ui, eb, now);
            match ui.pending {
                None => r == (ui, Due::Nothing),
                Some(p) => if now < p.deadline {
                    r == (ui, Due::Nothing)
                } else {
                    &&& r.0.pending is None
                    &&& r.1 is Ask <==> eb.sels.list.len() <= 1 && p.anchor <= eb.head() && eb.lang
                        is Some && eb.lang->0 != "djot"@
                    &&& r.1 matches Due::Ask { pending, .. } ==> pending == p
                },
            }
        }),
{
}

/// An answer of the server replaces what was offered: its items in order of rank,
/// and of those the ones that fit what was typed, the first of them selected.
pub proof fn answers_are_offered_in_order(ui: UiView, v: JsonView, prefix: Seq<char>)
    ensures
        ({
            let r = ui.answered(v, prefix);
            &&& r.items.to_multiset() == listed(v).to_multiset()
            &&& crate::sort::is_ranked(r.items)
            &&& r.filtered == fitting(r.items, prefix)
            &&& r.selected == 0 && r.prefix == prefix && r.anchor == ui.anchor
            &&& r.request_id is None
        }),
{
    crate::sort::ranked_is_a_ranked_permutation(listed(v));
}

/// A path that goes on into a directory asks for more, and one to a file closes
/// the quote it began with, unless the quote is there already.
pub proof fn accepted_paths_close_their_quote(ui: UiView, eb: EditorView, q: char)
    requires
        ui.ok(),
        ui.filtered.len() > 0,
        ui.path_quote == Some(q),
        eb.sels.ok(),
        eb.sels.list.len() == 1,
        ui.anchor <= eb.head() <= eb.doc.text.len(),
        room_to_accept(ui, eb),
        (q as int) < 128,
    ensures
        ({
            let (after, done, more) = path_accepted(ui, eb);
            let name = ui.items[ui.filtered[ui.selected]].insert_text;
            let t = encode_utf8(name);
            let s = eb.doc.text;
            let a = ui.anchor as int;
            let h = eb.head();
            let plain = s.take(a) + t + s.skip(h);
            &&& more <==> name.len() > 0 && (name.last() == '/' || name.last() == '\\')
            &&& more ==> done.doc.text == plain
            &&& !more && h < s.len() && s[h] == q as u8 ==> done.doc.text == plain
            &&& !more && (h == s.len() || s[h] != q as u8) ==> done.doc.text == s.take(a) + t
                + encode_utf8(seq![q]) + s.skip(h)
            &&& after.filtered.len() == 0
        }),
{
    let name = ui.items[ui.filtered[ui.selected]].insert_text;
    let t = encode_utf8(name);
    let s = eb.doc.text;
    let a = ui.anchor as int;
    let h = eb.head();
    let doc = replaced(eb.doc, a, h, t);
    let plain = s.take(a) + t + s.skip(h);
    assert(doc.text =~= plain);
    let at = a + t.len();
    assert(plain.len() == at + s.len() - h);
    if h < s.len() {
        assert(plain[at] == s[h]);
    }
    let e = encode_utf8(seq![q]);
    assert(plain.take(at) + e + plain.skip(at) =~= s.take(a) + t + e + s.skip(h));
}

/// Down and Ctrl-n select the item that follows, Up and Ctrl-p the one before;
/// behind the last comes the first. The text stays as it is.
pub proof fn the_following_item_is_next(ui: UiView, eb: EditorView, down: bool, ctrl: bool, now: u64)
    requires
        ui.ok(),
        ui.filtered.len() > 0,
    ensures
        ({
            let k = match (down, ctrl) {
                (true, false) => KeyEvent { key: Key::Down, mods: Mods(0) },
                (false, false) => KeyEvent { key: Key::Up, mods: Mods(0) },
                (true, true) => KeyEvent { key: Key::Char('n'), mods: Mods(CTRL_BIT) },
                (false, true) => KeyEvent { key: Key::Char('p'), mods: Mods(CTRL_BIT) },
            };
            let (after, done, outcome) = key_taken(ui, eb, k, now);
            let last = ui.filtered.len() - 1;
            &&& done == eb && outcome is InterceptedNoChange
            &&& after == UiView { selected: after.selected, ..ui }
            &&& down ==> after.selected == if ui.selected == last { 0 } else { ui.selected + 1 }
            &&& !down ==> after.selected == if ui.selected == 0 { last } else { ui.selected - 1 }
        }),
{
    crate::input::lemma_single_mods();
    let n = ui.filtered.len() as int;
    let i = ui.selected;
    assert((i + 1) % n == if i + 1 == n { 0 } else { i + 1 }) by (nonlinear_arith)
        requires
            0 <= i < n,
    ;
    assert((i + n - 1) % n == if i == 0 { n - 1 } else { i - 1 }) by (nonlinear_arith)
        requires
            0 <= i < n,
    ;
}

/// While a name is typed on, the items are filtered by what stands between the
/// anchor and the cursor; where none fits any more, and the server would not know
/// others, the offer ends. It ends as well where the cursor goes before the anchor.
pub proof fn typing_on_filters_again(
    ui: UiView,
    eb: EditorView,
    lang: Seq<char>,
    now: u64,
)
    requires
        !ui.is_path_session,
        ui.items.len() > 0,
        eb.sels.ok(),
        eb.sels.list.len() == 1,
        !opens_paths(eb),
        eb.lang == Some(lang),
        rules_of(lang) matches Some((chars, min)) && decision(eb.doc.text, eb.head(), chars, min)
            is Nothing,
    ensures
        ({
            let r = updated(ui, eb, None, now);
            let (a, h) = (ui.anchor as int, eb.head());
            let inside = a <= h <= eb.doc.text.len();
            let prefix = lossy(eb.doc.text.subrange(a, h));
            let fit = fitting(ui.items, prefix);
            &&& inside && fit.len() > 0 ==> r.prefix == prefix && r.items == ui.items && r.filtered
                == fit && r.selected == 0 && r.anchor == ui.anchor
            &&& inside && fit.len() == 0 && !ui.is_incomplete ==> r.items.len() == 0
                && r.filtered.len() == 0
            &&& !inside ==> r.items.len() == 0 && r.filtered.len() == 0
        }),
{
}

/// Where the language asks for completion, the request is made fifty milliseconds
/// later, for the text from the anchor on.
pub proof fn asking_waits_a_moment(
    ui: UiView,
    eb: EditorView,
    lang: Seq<char>,
    at: usize,
    from: usize,
    c: Option<char>,
    now: u64,
)
    requires
        !ui.is_path_session,
        eb.sels.ok(),
        eb.sels.list.len() == 1,
        !opens_paths(eb),
        eb.lang == Some(lang),
        now + 50 <= u64::MAX,
        rules_of(lang) matches Some((chars, min)) && decision(eb.doc.text, eb.head(), chars, min) == (
        TriggerDecision::Trigger { position: at, anchor: from, trigger_char: c }),
    ensures
        updated(ui, eb, None, now).pending matches Some(p) && p.anchor == from && p.deadline == now + 50
            && (c matches Some(x) ==> p.trigger == CompletionTrigger::Character(x)) && (c is None
            ==> p.trigger is Invoked),
{
}

/// With several cursors, and in a language without rules, nothing is offered.
pub proof fn nothing_is_offered_to_several_cursors(ui: UiView, eb: EditorView, now: u64)
    requires
        !ui.is_path_session,
        eb.sels.list.len() > 1 || !opens_paths(eb) && eb.lang is None,
    ensures
        ({
            let r = updated(ui, eb, None, now);
            r.items.len() == 0 && r.filtered.len() == 0 && r.pending is None && r.request_id is None
        }),
{
}

/// While a path is typed on, its names are filtered by what stands between the
/// anchor and the cursor. Behind a separator, and where no name fits any more, the
/// names are those of the directory that was read anew.
pub proof fn typing_a_path_filters_again(
    ui: UiView,
    eb: EditorView,
    paths: Option<PathView>,
    now: u64,
)
    requires
        ui.is_path_session,
        eb.sels.ok(),
        eb.sels.list.len() == 1,
        ui.anchor <= eb.head() <= eb.doc.text.len(),
    ensures
        ({
            let r = updated(ui, eb, paths, now);
            let h = eb.head();
            let prefix = lossy(eb.doc.text.subrange(ui.anchor as int, h));
            let fit = fitting(ui.items, prefix);
            let behind = h > 0 && (eb.doc.text[h - 1] == '/' as u8 || eb.doc.text[h - 1]
                == '\\' as u8);
            &&& !behind && fit.len() > 0 ==> r.prefix == prefix && r.filtered == fit && r.selected
                == 0 && r.items == ui.items && r.is_path_session
            &&& behind || fit.len() == 0 ==> match paths {
                Some(p) => r.items == p.items && r.anchor == p.anchor as usize && r.prefix == p.prefix
                    && r.is_path_session && r.path_quote == p.quote && r.filtered == fitting(
                    p.items,
                    p.prefix,
                ),
                None => r.items.len() == 0 && !r.is_path_session,
            }
        }),
{
}

/// In Djot the words of the buffer are offered once the moment has come: those
/// that complete what stands between the trigger's anchor and the cursor.
pub proof fn words_are_offered_in_djot(ui: UiView, eb: EditorView, p: PendingTrigger, now: u64)
    requires
        ui.pending == Some(p),
        p.deadline <= now,
        eb.sels.list.len() == 1,
        p.anchor <= eb.head(),
        eb.lang == Some("djot"@),
    ensures
        ({
            let (r, asked) = due(ui, eb, now);
            let prefix = lossy(eb.doc.text.subrange(p.anchor as int, eb.head()));
            let items = word_items(eb.doc.text, encode_utf8(prefix));
            &&& asked is Nothing && r.pending is None
            &&& items.len() > 0 ==> r.items == items && r.anchor == p.anchor && r.prefix == prefix
                && r.filtered == fitting(items, prefix) && r.selected == 0
            &&& items.len() == 0 ==> r.items == ui.items && r.filtered == ui.filtered
        }),
{
}

/// A request that was sent is awaited, for the text from its anchor on. What was
/// offered before is kept only where the server is asked for more of it.
pub proof fn sent_requests_are_awaited(ui: UiView, id: u64, p: PendingTrigger)
    ensures
        ({
            let r = ui.asked(id, p);
            &&& r.request_id == Some(id) && r.anchor == p.anchor
            &&& p.trigger is Incomplete ==> r.items == ui.items && r.filtered == ui.filtered
            &&& !(p.trigger is Incomplete) ==> r.items.len() == 0 && r.filtered.len() == 0
        }),
{
}

/// A separator behind anything but white space opens path completion for a single
/// cursor.
pub proof fn separators_open_paths(ui: UiView, eb: EditorView)
    requires
        !ui.is_path_session,
        eb.sels.list.len() == 1,
        0 <= eb.head() <= eb.doc.text.len(),
    ensures
        ({
            let (s, h) = (eb.doc.text, eb.head());
            let white = |b: u8|
                b == ' ' as u8 || b == '\t' as u8 || b == '\n' as u8 || b == '\r' as u8 || b == 0x0c;
            paths_wanted(ui, eb) <==> h >= 2 && (s[h - 1] == '/' as u8 || s[h - 1] == '\\' as u8)
                && !white(s[h - 2])
        }),
{
}

}
