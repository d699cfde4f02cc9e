//! Questions that stand in the way: unsaved changes and conflicts with the disk.
//! The next key answers.
use vstd::prelude::*;
use crate::buffer::collect_bytes;
use crate::editor::{
    all_wf, changed_on_disk, close_buffer_at, list_of, outcome_of, quoted_name, views, DiskMeta,
    EditorBuffer, EditorView, ListView, PlanView, SavePlan, SaveView,
};
use crate::format::{decimal, push_decimal};
use crate::highlight::texts;
use crate::input::{Key, KeyEvent, Mods};
use crate::strings::glue;
use crate::text::imin;

verus! {

/// What a question is about.
#[derive(Clone, Copy, Debug, PartialEq, Eq, Structural)]
pub enum PromptKind {
    /// Quitting with unsaved changes.
    QuitConfirm,
    /// Closing a buffer with unsaved changes.
    CloseBufferConfirm { buffer_index: usize },
    /// A file that changed on disk and in its buffer.
    Conflict { buffer_index: usize },
}

/// A question over the whole screen.
pub struct Prompt {
    pub title: String,
    pub body: Vec<String>,
    /// The keys and what they do.
    pub choices: Vec<(&'static str, &'static str)>,
    pub kind: PromptKind,
}

#[verifier::ext_equal]
pub struct PromptView {
    pub title: Seq<char>,
    pub body: Seq<Seq<char>>,
    pub choices: Seq<(Seq<char>, Seq<char>)>,
    pub kind: PromptKind,
}

pub open spec fn choices_of(s: Seq<(&'static str, &'static str)>) -> Seq<(Seq<char>, Seq<char>)> {
    s.map_values(|c: (&'static str, &'static str)| (c.0@, c.1@))
}

impl View for Prompt {
    type V = PromptView;

    open spec fn view(&self) -> PromptView {
        PromptView {
            title: self.title@,
            body: texts(self.body@),
            choices: choices_of(self.choices@),
            kind: self.kind,
        }
    }
}

pub open spec fn opt_prompt(o: Option<Prompt>) -> Option<PromptView> {
    match o {
        Some(p) => Some(p@),
        None => None,
    }
}

fn three_choices(
    a: (&'static str, &'static str),
    b: (&'static str, &'static str),
    c: (&'static str, &'static str),
) -> (r: Vec<(&'static str, &'static str)>)
    ensures
        choices_of(r@) == seq![(a.0@, a.1@), (b.0@, b.1@), (c.0@, c.1@)],
{
    let mut r: Vec<(&'static str, &'static str)> = Vec::new();
    r.push(a);
    r.push(b);
    r.push(c);
    assert(choices_of(r@) =~= seq![(a.0@, a.1@), (b.0@, b.1@), (c.0@, c.1@)]);
    r
}

/// The names of the buffers with unsaved changes.
pub open spec fn dirty_names(s: Seq<EditorView>) -> Seq<Seq<char>>
    decreases s.len(),
{
    if s.len() == 0 {
        Seq::empty()
    } else {
        let rest = dirty_names(s.drop_last());
        if s.last().dirty() {
            rest.push(s.last().label())
        } else {
            rest
        }
    }
}

/// How many names are listed.
pub const MAX_NAMES: usize = 4;

/// How many there are, the first of their names, and how many more.
pub open spec fn quit_body(names: Seq<Seq<char>>) -> Seq<Seq<char>> {
    let shown = imin(names.len() as int, MAX_NAMES as int);
    let head = seq![decimal(names.len() as int) + " buffer(s) have unsaved changes:"@];
    let list = names.take(shown).map_values(|n: Seq<char>| "  • "@ + n);
    head + list + if names.len() > shown {
        seq!["  • … and "@ + decimal(names.len() - shown) + " more"@]
    } else {
        Seq::empty()
    }
}

pub open spec fn quit_prompt(s: Seq<EditorView>) -> PromptView {
    PromptView {
        title: "Unsaved changes"@,
        body: quit_body(dirty_names(s)),
        choices: seq![
            ("y"@, "save all & quit"@),
            ("n"@, "discard & quit"@),
            ("any other"@, "cancel"@),
        ],
        kind: PromptKind::QuitConfirm,
    }
}

fn collect_dirty_names(buffers: &[EditorBuffer]) -> (r: Vec<String>)
    ensures
        texts(r@) == dirty_names(views(buffers@)),
{
    let ghost all = views(buffers@);
    let mut names: Vec<String> = Vec::new();
    let mut i: usize = 0;
    assert(texts(names@) =~= dirty_names(all.take(0)));
    while i < buffers.len()
        invariant
            i <= buffers@.len(),
            all == views(buffers@),
            texts(names@) == dirty_names(all.take(i as int)),
        decreases buffers@.len() - i,
    {
        let ghost before = names@;
        assert(all.take(i + 1).drop_last() =~= all.take(i as int));
        assert(all.take(i + 1).last() == buffers@[i as int]@);
        if buffers[i].is_dirty() {
            let n = buffers[i].display_name();
            names.push(n);
            assert(texts(names@) =~= texts(before).push(n@));
        }
        i += 1;
    }
    assert(all.take(i as int) =~= all);
    names
}

/// The question before quitting with unsaved changes.
pub fn build_quit_prompt(buffers: &[EditorBuffer]) -> (r: Prompt)
    ensures
        r@ == quit_prompt(views(buffers@)),
{
    let names = collect_dirty_names(buffers);
    let ghost all = texts(names@);
    let ghost mark = |n: Seq<char>| "  • "@ + n;
    let n: usize = names.len();
    let shown: usize = if n < MAX_NAMES {
        n
    } else {
        MAX_NAMES
    };
    let mut body: Vec<String> = Vec::new();
    let mut first = String::new();
    push_decimal(&mut first, n as u64);
    first.append(" buffer(s) have unsaved changes:");
    body.push(first);
    let ghost head = seq![decimal(n as int) + " buffer(s) have unsaved changes:"@];
    assert(texts(body@) =~= head + all.take(0).map_values(mark));
    let mut i: usize = 0;
    while i < shown
        invariant
            i <= shown <= n,
            n == names@.len(),
            all == texts(names@),
            mark == (|n: Seq<char>| "  • "@ + n),
            texts(body@) == head + all.take(i as int).map_values(mark),
        decreases shown - i,
    {
        let ghost before = texts(body@);
        let line = glue("  • ", names[i].as_str());
        body.push(line);
        assert(texts(body@) =~= before.push(mark(all[i as int])));
        assert(head + all.take(i + 1).map_values(mark) =~= before.push(mark(all[i as int])));
        i += 1;
    }
    let ghost before = texts(body@);
    if n > shown {
        let mut more = String::from_str("  • … and ");
        push_decimal(&mut more, (n - shown) as u64);
        more.append(" more");
        body.push(more);
        assert(texts(body@) =~= before.push(more@));
    }
    assert(texts(body@) =~= quit_body(all));
    let choices = three_choices(
        ("y", "save all & quit"),
        ("n", "discard & quit"),
        ("any other", "cancel"),
    );
    Prompt {
        title: "Unsaved changes".to_owned(),
        body,
        choices,
        kind: PromptKind::QuitConfirm,
    }
}

/// What the `i`-th buffer is called.
pub open spec fn name_at(s: Seq<EditorView>, i: int) -> Seq<char> {
    if i < s.len() { s[i].label() } else { "?"@ }
}

fn buffer_name(buffers: &[EditorBuffer], i: usize) -> (r: String)
    ensures
        r@ == name_at(views(buffers@), i as int),
{
    if i < buffers.len() {
        assert(views(buffers@)[i as int] == buffers@[i as int]@);
        buffers[i].display_name()
    } else {
        "?".to_owned()
    }
}

pub open spec fn close_prompt(s: Seq<EditorView>, i: usize) -> PromptView {
    PromptView {
        title: "Close buffer with unsaved changes"@,
        body: seq![quoted_name(name_at(s, i as int), "\" has unsaved edits."@)],
        choices: seq![
            ("y"@, "save & close"@),
            ("n"@, "discard & close"@),
            ("any other"@, "cancel"@),
        ],
        kind: PromptKind::CloseBufferConfirm { buffer_index: i },
    }
}

fn in_quotes(name: &str, rest: &str) -> (r: String)
    ensures
        r@ == quoted_name(name@, rest@),
{
    let mut r = glue("\"", name);
    r.append(rest);
    r
}

/// The question before closing a buffer with unsaved changes.
pub fn build_close_buffer_prompt(buffers: &[EditorBuffer], buffer_index: usize) -> (r: Prompt)
    ensures
        r@ == close_prompt(views(buffers@), buffer_index),
{
    let name = buffer_name(buffers, buffer_index);
    let mut body: Vec<String> = Vec::new();
    body.push(in_quotes(name.as_str(), "\" has unsaved edits."));
    assert(texts(body@) =~= close_prompt(views(buffers@), buffer_index).body);
    let choices = three_choices(
        ("y", "save & close"),
        ("n", "discard & close"),
        ("any other", "cancel"),
    );
    Prompt {
        title: "Close buffer with unsaved changes".to_owned(),
        body,
        choices,
        kind: PromptKind::CloseBufferConfirm { buffer_index },
    }
}

pub open spec fn conflict_prompt(s: Seq<EditorView>, i: usize) -> PromptView {
    PromptView {
        title: "File changed on disk"@,
        body: seq![
            quoted_name(name_at(s, i as int), "\" was modified externally"@),
            "while you also have unsaved edits."@,
        ],
        choices: seq![
            ("r"@, "reload from disk (lose your edits)"@),
            ("o"@, "overwrite disk (lose external edits)"@),
            ("any other"@, "cancel"@),
        ],
        kind: PromptKind::Conflict { buffer_index: i },
    }
}

/// The question when a file changed on disk and in its buffer.
pub fn build_conflict_prompt(buffers: &[EditorBuffer], buffer_index: usize) -> (r: Prompt)
    ensures
        r@ == conflict_prompt(views(buffers@), buffer_index),
{
    let name = buffer_name(buffers, buffer_index);
    let mut body: Vec<String> = Vec::new();
    body.push(in_quotes(name.as_str(), "\" was modified externally"));
    body.push("while you also have unsaved edits.".to_owned());
    assert(texts(body@) =~= conflict_prompt(views(buffers@), buffer_index).body);
    let choices = three_choices(
        ("r", "reload from disk (lose your edits)"),
        ("o", "overwrite disk (lose external edits)"),
        ("any other", "cancel"),
    );
    Prompt {
        title: "File changed on disk".to_owned(),
        body,
        choices,
        kind: PromptKind::Conflict { buffer_index },
    }
}

/// Ask about a conflict, unless something is being asked already.
pub fn raise_conflict(
    prompt: &mut Option<Prompt>,
    buffers: &[EditorBuffer],
    conflict_index: Option<usize>,
)
    ensures
        opt_prompt(*final(prompt)) == (match (*old(prompt), conflict_index) {
            (None, Some(i)) => Some(conflict_prompt(views(buffers@), i)),
            _ => opt_prompt(*old(prompt)),
        }),
{
    if prompt.is_none() {
        if let Some(i) = conflict_index {
            *prompt = Some(build_conflict_prompt(buffers, i));
        }
    }
}

// ---------------------------------------------------------------------------
// Answers
// ---------------------------------------------------------------------------

/// What an answer leads to.
#[derive(Clone, Copy, Debug, PartialEq, Eq, Structural)]
pub enum PromptOutcome {
    /// Go on editing.
    Dismiss,
    /// End the editor.
    Quit,
    /// Save all buffers with unsaved changes, one after the other, and end the
    /// editor if that works.
    SaveAllAndQuit,
    /// Save this buffer, and close it if that works.
    SaveAndClose(usize),
    /// Read this buffer from disk again.
    Reload(usize),
    /// Write this buffer to disk, whatever is there.
    Overwrite(usize),
}

/// The key is this letter, small or capital.
pub open spec fn is_letter(k: KeyEvent, small: char, capital: char) -> bool {
    k.key == Key::Char(small) || k.key == Key::Char(capital)
}

/// The answer that a key gives: the list of buffers, the message and what is
/// next.
pub open spec fn answered(
    kind: PromptKind,
    k: KeyEvent,
    l: ListView,
    message: Seq<char>,
) -> (ListView, Seq<char>, PromptOutcome) {
    match kind {
        PromptKind::QuitConfirm => if is_letter(k, 'y', 'Y') {
            (l, message, PromptOutcome::SaveAllAndQuit)
        } else if is_letter(k, 'n', 'N') {
            (l, message, PromptOutcome::Quit)
        } else {
            (l, "quit cancelled"@, PromptOutcome::Dismiss)
        },
        PromptKind::CloseBufferConfirm { buffer_index } => if is_letter(k, 'y', 'Y') {
            (
                l,
                message,
                if buffer_index < l.list.len() {
                    PromptOutcome::SaveAndClose(buffer_index)
                } else {
                    PromptOutcome::Dismiss
                },
            )
        } else if is_letter(k, 'n', 'N') {
            (l.closed_at(buffer_index as int), message, after_closing(l))
        } else {
            (l, "close cancelled"@, PromptOutcome::Dismiss)
        },
        PromptKind::Conflict { buffer_index } => if is_letter(k, 'r', 'R') {
            (
                l,
                message,
                if buffer_index < l.list.len() {
                    PromptOutcome::Reload(buffer_index)
                } else {
                    PromptOutcome::Dismiss
                },
            )
        } else if is_letter(k, 'o', 'O') {
            (
                l,
                message,
                if buffer_index < l.list.len() {
                    PromptOutcome::Overwrite(buffer_index)
                } else {
                    PromptOutcome::Dismiss
                },
            )
        } else {
            (l, "conflict deferred — use :e! or :w! when ready"@, PromptOutcome::Dismiss)
        },
    }
}

/// Closing the last buffer ends the editor.
pub open spec fn after_closing(l: ListView) -> PromptOutcome {
    if l.list.len() <= 1 { PromptOutcome::Quit } else { PromptOutcome::Dismiss }
}

fn hit(k: &KeyEvent, small: char, capital: char) -> (r: bool)
    ensures
        r == is_letter(*k, small, capital),
{
    match k.key {
        Key::Char(c) => c == small || c == capital,
        _ => false,
    }
}

/// Answer a question with a key.
pub fn handle_prompt(
    prompt: &Prompt,
    k: KeyEvent,
    buffers: &mut Vec<EditorBuffer>,
    current: &mut usize,
    ex_message: &mut String,
) -> (r: PromptOutcome)
    requires
        all_wf(old(buffers)@),
    ensures
        all_wf(final(buffers)@),
        (list_of(final(buffers)@, *final(current)), final(ex_message)@, r) == answered(
            prompt.kind,
            k,
            list_of(old(buffers)@, *old(current)),
            old(ex_message)@,
        ),
{
    match prompt.kind {
        PromptKind::QuitConfirm => {
            if hit(&k, 'y', 'Y') {
                PromptOutcome::SaveAllAndQuit
            } else if hit(&k, 'n', 'N') {
                PromptOutcome::Quit
            } else {
                *ex_message = "quit cancelled".to_owned();
                PromptOutcome::Dismiss
            }
        },
        PromptKind::CloseBufferConfirm { buffer_index } => {
            if hit(&k, 'y', 'Y') {
                if buffer_index < buffers.len() {
                    PromptOutcome::SaveAndClose(buffer_index)
                } else {
                    PromptOutcome::Dismiss
                }
            } else if hit(&k, 'n', 'N') {
                close_answered(buffers, current, buffer_index)
            } else {
                *ex_message = "close cancelled".to_owned();
                PromptOutcome::Dismiss
            }
        },
        PromptKind::Conflict { buffer_index } => {
            if hit(&k, 'r', 'R') {
                if buffer_index < buffers.len() {
                    PromptOutcome::Reload(buffer_index)
                } else {
                    PromptOutcome::Dismiss
                }
            } else if hit(&k, 'o', 'O') {
                if buffer_index < buffers.len() {
                    PromptOutcome::Overwrite(buffer_index)
                } else {
                    PromptOutcome::Dismiss
                }
            } else {
                *ex_message = "conflict deferred — use :e! or :w! when ready".to_owned();
                PromptOutcome::Dismiss
            }
        },
    }
}

/// Close a buffer that was asked about. Closing the last one ends the editor.
pub fn close_answered(buffers: &mut Vec<EditorBuffer>, current: &mut usize, idx: usize) -> (r:
    PromptOutcome)
    requires
        all_wf(old(buffers)@),
    ensures
        all_wf(final(buffers)@),
        list_of(final(buffers)@, *final(current)) == list_of(
            old(buffers)@,
            *old(current),
        ).closed_at(idx as int),
        r == after_closing(list_of(old(buffers)@, *old(current))),
{
    let was_last: bool = buffers.len() <= 1;
    close_buffer_at(buffers, current, idx);
    if was_last {
        PromptOutcome::Quit
    } else {
        PromptOutcome::Dismiss
    }
}

// ---------------------------------------------------------------------------
// Saving everything before quitting
// ---------------------------------------------------------------------------

/// The first buffer with unsaved changes; none when it is safe to quit.
pub fn next_unsaved(buffers: &[EditorBuffer]) -> (r: Option<usize>)
    ensures
        match r {
            Some(i) => i < buffers@.len() && buffers@[i as int]@.dirty() && forall|j: int|
                0 <= j < i ==> !(#[trigger] buffers@[j])@.dirty(),
            None => forall|j: int|
                0 <= j < buffers@.len() ==> !(#[trigger] buffers@[j])@.dirty(),
        },
{
    let mut i: usize = 0;
    while i < buffers.len()
        invariant
            i <= buffers@.len(),
            forall|j: int| 0 <= j < i ==> !(#[trigger] buffers@[j])@.dirty(),
        decreases buffers@.len() - i,
    {
        if buffers[i].is_dirty() {
            return Some(i);
        }
        i += 1;
    }
    None
}

/// How a save before quitting begins: as any other, but with messages that say
/// why the editor stays.
pub open spec fn quit_save_begun(
    eb: EditorView,
    message: Seq<char>,
    now: Option<DiskMeta>,
) -> SaveView {
    match eb.path {
        None => SaveView {
            buffer: eb,
            message: quoted_name(eb.label(), "\" has no path — use :w <path> first"@),
            plan: PlanView::NoPath,
        },
        Some(path) => if changed_on_disk(eb.disk, now) {
            SaveView {
                buffer: EditorView { conflict: true, ..eb },
                message: quoted_name(path, "\" changed on disk — resolve with :w! or :e!"@),
                plan: PlanView::Changed,
            }
        } else {
            SaveView { buffer: eb, message, plan: PlanView::Write(eb.doc.text) }
        },
    }
}

/// Begin to save a buffer before quitting.
pub fn save_for_quit(eb: &mut EditorBuffer, now: Option<DiskMeta>, ex_message: &mut String) -> (r:
    SavePlan)
    requires
        old(eb).wf(),
    ensures
        final(eb).wf(),
        (SaveView { buffer: final(eb)@, message: final(ex_message)@, plan: r@ })
            == quit_save_begun(old(eb)@, old(ex_message)@, now),
{
    let changed: bool = match (eb.disk_meta, now) {
        (Some(a), Some(b)) => a != b,
        _ => false,
    };
    match &eb.path {
        None => {
            let name = eb.display_name();
            *ex_message = in_quotes(name.as_str(), "\" has no path — use :w <path> first");
            SavePlan::NoPath
        },
        Some(path) => {
            if changed {
                *ex_message = in_quotes(
                    path.as_str(),
                    "\" changed on disk — resolve with :w! or :e!",
                );
                eb.external_change_pending = true;
                SavePlan::Changed
            } else {
                SavePlan::Write(collect_bytes(&eb.buffer))
            }
        },
    }
}

/// How a save before quitting ends.
pub open spec fn quit_save_ended(
    eb: EditorView,
    message: Seq<char>,
    outcome: Result<(), Seq<char>>,
    after: Option<DiskMeta>,
) -> (EditorView, Seq<char>, bool) {
    match outcome {
        Ok(_) => (eb.written(after), message, true),
        Err(e) => (
            eb,
            "write "@ + (match eb.path {
                Some(p) => p,
                None => Seq::empty(),
            }) + " failed: "@ + e,
            false,
        ),
    }
}

/// Take in what became of writing a buffer before quitting.
pub fn finish_quit_save(
    eb: &mut EditorBuffer,
    outcome: Result<(), String>,
    after: Option<DiskMeta>,
    ex_message: &mut String,
) -> (r: bool)
    requires
        old(eb).wf(),
    ensures
        final(eb).wf(),
        (final(eb)@, final(ex_message)@, r) == quit_save_ended(
            old(eb)@,
            old(ex_message)@,
            outcome_of(outcome),
            after,
        ),
{
    match outcome {
        Ok(_) => {
            eb.saved_version = Some(eb.buffer.version());
            eb.disk_meta = after;
            eb.external_change_pending = false;
            true
        },
        Err(e) => {
            let mut m = String::from_str("write ");
            match &eb.path {
                Some(p) => {
                    m.append(p.as_str());
                },
                None => {
                    assert(m@ + Seq::<char>::empty() =~= m@);
                },
            }
            m.append(" failed: ");
            m.append(e.as_str());
            *ex_message = m;
            false
        },
    }
}

// ---------------------------------------------------------------------------
// Laws
// ---------------------------------------------------------------------------

/// The editor ends with unsaved changes only where the answer was to discard
/// them.
pub proof fn changes_are_dropped_only_when_told_to(
    kind: PromptKind,
    k: KeyEvent,
    l: ListView,
    message: Seq<char>,
)
    requires
        answered(kind, k, l, message).2 == PromptOutcome::Quit,
    ensures
        is_letter(k, 'n', 'N'),
{
}

/// Any other key leaves all buffers as they are, and the editor running.
pub proof fn other_keys_cancel(kind: PromptKind, k: KeyEvent, l: ListView, message: Seq<char>)
    requires
        !is_letter(k, 'y', 'Y'),
        !is_letter(k, 'n', 'N'),
        !is_letter(k, 'r', 'R'),
        !is_letter(k, 'o', 'O'),
    ensures
        answered(kind, k, l, message).0 == l,
        answered(kind, k, l, message).2 == PromptOutcome::Dismiss,
{
}

/// A letter in either case answers alike.
pub proof fn capital_letters_answer_alike(
    kind: PromptKind,
    c: char,
    mods: Mods,
    l: ListView,
    message: Seq<char>,
)
    requires
        c == 'y' || c == 'n' || c == 'r' || c == 'o',
    ensures
        ({
            let capital = if c == 'y' {
                'Y'
            } else if c == 'n' {
                'N'
            } else if c == 'r' {
                'R'
            } else {
                'O'
            };
            answered(kind, KeyEvent { key: Key::Char(c), mods }, l, message) == answered(
                kind,
                KeyEvent { key: Key::Char(capital), mods },
                l,
                message,
            )
        }),
{
}

/// Yes saves before it quits or closes, no does it without saving; a conflict is
/// settled by reading the file again or by writing over it. Each is about the very
/// buffer that was asked about.
pub proof fn answers_do_what_they_say(
    i: usize,
    l: ListView,
    message: Seq<char>,
    yes: KeyEvent,
    no: KeyEvent,
)
    requires
        i < l.list.len(),
        yes.key == Key::Char('y'),
        no.key == Key::Char('n'),
    ensures
        ({
            let close = PromptKind::CloseBufferConfirm { buffer_index: i };
            let conflict = PromptKind::Conflict { buffer_index: i };
            let reload = KeyEvent { key: Key::Char('r'), mods: yes.mods };
            let over = KeyEvent { key: Key::Char('o'), mods: yes.mods };
            &&& answered(PromptKind::QuitConfirm, yes, l, message) == (
                l,
                message,
                PromptOutcome::SaveAllAndQuit,
            )
            &&& answered(PromptKind::QuitConfirm, no, l, message) == (l, message, PromptOutcome::Quit)
            &&& answered(close, yes, l, message) == (l, message, PromptOutcome::SaveAndClose(i))
            &&& answered(close, no, l, message).0.list == l.list.remove(i as int)
            &&& answered(close, no, l, message).2 is Quit <==> l.list.len() == 1
            &&& answered(conflict, reload, l, message) == (l, message, PromptOutcome::Reload(i))
            &&& answered(conflict, over, l, message) == (l, message, PromptOutcome::Overwrite(i))
        }),
{
}

/// The buffers named in the question are exactly those with unsaved changes, in
/// order.
pub proof fn unsaved_buffers_are_named(s: Seq<EditorView>, eb: EditorView)
    ensures
        dirty_names(Seq::empty()).len() == 0,
        eb.dirty() ==> dirty_names(s.push(eb)) == dirty_names(s).push(eb.label()),
        !eb.dirty() ==> dirty_names(s.push(eb)) == dirty_names(s),
{
    assert(s.push(eb).drop_last() =~= s);
}

/// The question names up to four buffers, one in each line below the first, and
/// tells in one more line that there are others.
pub proof fn the_question_names_four_buffers(names: Seq<Seq<char>>, i: int)
    ensures
        names.len() <= 4 ==> quit_body(names).len() == names.len() + 1,
        names.len() > 4 ==> quit_body(names).len() == 6,
        0 <= i < names.len() && i < 4 ==> {
            let line = quit_body(names)[i + 1];
            line.len() >= names[i].len() && line.skip(line.len() - names[i].len()) == names[i]
        },
{
    if 0 <= i < names.len() && i < 4 {
        let line = quit_body(names)[i + 1];
        assert(line == "  • "@ + names[i]);
        assert(line.skip(line.len() - names[i].len()) =~= names[i]);
    }
}

/// Before quitting, a buffer is written exactly if it has a file that is as the
/// editor knows it; otherwise its text is kept and the reason is told.
pub proof fn quitting_overwrites_nothing_foreign(
    eb: EditorView,
    message: Seq<char>,
    now: Option<DiskMeta>,
)
    ensures
        ({
            let r = quit_save_begun(eb, message, now);
            let foreign = eb.disk is Some && now is Some && eb.disk != now;
            &&& r.buffer.doc == eb.doc && r.buffer.saved == eb.saved
            &&& eb.path is None ==> r.plan is NoPath
            &&& eb.path is Some && foreign ==> r.plan is Changed && r.buffer.conflict
            &&& eb.path is Some && !foreign ==> r.plan == PlanView::Write(eb.doc.text) && r.message
                == message
        }),
{
}

}
