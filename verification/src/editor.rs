//! Open files: a buffer with its selections, its place on screen and what is
//! known of the file behind it; and the list of them.
//!
//! Reading and writing files is the caller's part. Functions here say what has
//! to be written and take in what came of it.
use vstd::prelude::*;
use tree_sitter::Tree;
use crate::buffer::{collect_bytes, line_starts_scan, Buffer, BufferView};
use crate::completion::opt_text;
use crate::edit::cursor_at;
use crate::highlight::{
    extension_language, opt_str, shebang_language, Highlighter,
};
use crate::lsp::low_half;
use crate::selection::{Selection, Selections, SelectionsView};
use crate::strings::{glue, str_eq};
use crate::text::{
    byte_at_line, display_col, iclamp, imax, imin, indexes, line_index, line_of, line_start,
    nth_line, snap_of, snap_to_char_or_last, text_fits,
};
use crate::theme::ScopeId;

verus! {

/// What tells whether a file changed on disk: the time it was last written, in
/// nanoseconds, and its size.
#[derive(Clone, Copy, Debug, PartialEq, Eq, Structural)]
pub struct DiskMeta {
    pub mtime: i128,
    pub size: u64,
}

/// An open file, or a buffer without one.
pub struct EditorBuffer {
    pub buffer: Buffer,
    pub sels: Selections,
    /// The first line on screen.
    pub top_line: usize,
    /// Columns that are scrolled off the left edge.
    pub left_col: usize,
    pub path: Option<String>,
    /// The last part of the path.
    pub name: Option<String>,
    pub lang_id: Option<&'static str>,
    /// The latest parse.
    pub tree: Option<Tree>,
    /// The scope of each byte.
    pub flat_scopes: Vec<ScopeId>,
    /// The text as it was at `cached_version`, and its line index.
    pub cached_bytes: Vec<u8>,
    pub line_starts: Vec<usize>,
    pub cached_version: Option<u64>,
    /// The version that `flat_scopes` belongs to.
    pub highlight_version: Option<u64>,
    /// The version that the language server knows; `None` if it knows none.
    pub lsp_synced_version: Option<u64>,
    /// The version on disk; `None` if there is none.
    pub saved_version: Option<u64>,
    /// The file as it was last read or written.
    pub disk_meta: Option<DiskMeta>,
    /// The file changed on disk while the buffer held unsaved changes.
    pub external_change_pending: bool,
}

#[verifier::ext_equal]
pub struct EditorView {
    pub doc: BufferView,
    pub sels: SelectionsView,
    pub top_line: usize,
    pub left_col: usize,
    pub path: Option<Seq<char>>,
    pub name: Option<Seq<char>>,
    pub lang: Option<Seq<char>>,
    pub tree: Option<Tree>,
    pub scopes: Seq<ScopeId>,
    pub bytes: Seq<u8>,
    pub starts: Seq<usize>,
    pub cached: Option<u64>,
    pub highlighted: Option<u64>,
    pub synced: Option<u64>,
    pub saved: Option<u64>,
    pub disk: Option<DiskMeta>,
    pub conflict: bool,
}

impl View for EditorBuffer {
    type V = EditorView;

    open spec fn view(&self) -> EditorView {
        EditorView {
            doc: self.buffer@,
            sels: self.sels@,
            top_line: self.top_line,
            left_col: self.left_col,
            path: opt_text(self.path),
            name: opt_text(self.name),
            lang: opt_str(self.lang_id),
            tree: self.tree,
            scopes: self.flat_scopes@,
            bytes: self.cached_bytes@,
            starts: self.line_starts@,
            cached: self.cached_version,
            highlighted: self.highlight_version,
            synced: self.lsp_synced_version,
            saved: self.saved_version,
            disk: self.disk_meta,
            conflict: self.external_change_pending,
        }
    }
}

impl EditorView {
    /// There are changes that are not on disk.
    pub open spec fn dirty(self) -> bool {
        match self.saved {
            Some(v) => v != self.doc.version,
            None => self.doc.version != 0,
        }
    }

    /// What the buffer is called.
    pub open spec fn label(self) -> Seq<char> {
        match self.name {
            Some(n) => n,
            None => "[no name]"@,
        }
    }

    /// The cached text is right if it is that of this version.
    pub open spec fn cache_ok(self) -> bool {
        self.cached == Some(self.doc.version) ==> self.bytes == self.doc.text && indexes(
            self.starts,
            self.doc.text,
        )
    }

    pub open spec fn refreshed(self, starts: Seq<usize>) -> EditorView {
        EditorView {
            bytes: self.doc.text,
            starts,
            cached: Some(self.doc.version),
            ..self
        }
    }

    pub open spec fn head(self) -> int {
        self.sels.prime().head as int
    }

    /// One selection, collapsed at `o`.
    pub open spec fn with_cursor(self, o: int) -> EditorView {
        EditorView {
            sels: self.sels.only_prime().with_prime(cursor_at(self.doc.text, o)),
            ..self
        }
    }

    /// The line and the byte in it that the cursor is at, as far as 32 bits go.
    pub open spec fn line_col(self) -> (u32, u32) {
        let line = low_half(line_of(self.doc.text, self.head()) as u64);
        (line, low_half(imax(self.head() - nth_line(self.doc.text, line as int), 0) as u64))
    }

    /// The state once the text was written to disk.
    pub open spec fn written(self, after: Option<DiskMeta>) -> EditorView {
        EditorView { saved: Some(self.doc.version), disk: after, conflict: false, ..self }
    }
}

pub open spec fn views(s: Seq<EditorBuffer>) -> Seq<EditorView> {
    s.map_values(|b: EditorBuffer| b@)
}

impl EditorBuffer {
    pub open spec fn wf(&self) -> bool {
        self.buffer.wf() && self.sels.wf()
    }

    /// A buffer as it was opened. `extension` and `name` are those of its path.
    pub fn new(
        buffer: Buffer,
        path: Option<String>,
        name: Option<String>,
        extension: Option<&str>,
        disk_meta: Option<DiskMeta>,
    ) -> (r: EditorBuffer)
        requires
            buffer.wf(),
        ensures
            r.wf(),
            r@.doc == buffer@,
            r@.sels.list == seq![Selection { anchor: 0, head: 0, desired_col: 1 }],
            r@.sels.primary == 0,
            r@.top_line == 0,
            r@.left_col == 0,
            r@.path == opt_text(path),
            r@.name == opt_text(name),
            r@.lang == (match extension {
                Some(e) => match extension_language(e@) {
                    Some(l) => Some(l),
                    None => shebang_language(buffer@.text),
                },
                None => shebang_language(buffer@.text),
            }),
            r@.tree is None,
            r@.scopes == Seq::<ScopeId>::empty(),
            r@.bytes == Seq::<u8>::empty(),
            r@.starts == seq![0usize],
            r@.cached is None,
            r@.highlighted is None,
            r@.synced is None,
            r@.saved == (if path is Some { Some(0u64) } else { None }),
            r@.disk == disk_meta,
            !r@.conflict,
    {
        let by_name: Option<&'static str> = match extension {
            Some(e) => Highlighter::language_for_path(e),
            None => None,
        };
        let lang_id: Option<&'static str> = match by_name {
            Some(l) => Some(l),
            None => {
                let bytes = collect_bytes(&buffer);
                Highlighter::language_for_shebang(bytes.as_slice())
            },
        };
        let saved_version: Option<u64> = match &path {
            Some(_) => Some(0),
            None => None,
        };
        let mut line_starts: Vec<usize> = Vec::new();
        line_starts.push(0);
        assert(line_starts@ =~= seq![0usize]);
        EditorBuffer {
            buffer,
            sels: Selections::new(),
            top_line: 0,
            left_col: 0,
            path,
            name,
            lang_id,
            tree: None,
            flat_scopes: Vec::new(),
            cached_bytes: Vec::new(),
            line_starts,
            cached_version: None,
            highlight_version: None,
            lsp_synced_version: None,
            saved_version,
            disk_meta,
            external_change_pending: false,
        }
    }

    /// Whether there are changes that are not on disk.
    pub fn is_dirty(&self) -> (r: bool)
        ensures
            r == self@.dirty(),
    {
        match self.saved_version {
            Some(v) => v != self.buffer.version(),
            None => self.buffer.version() != 0,
        }
    }

    /// What the buffer is called.
    pub fn display_name(&self) -> (r: String)
        ensures
            r@ == self@.label(),
    {
        match &self.name {
            Some(n) => n.clone(),
            None => "[no name]".to_owned(),
        }
    }

    /// The cursor.
    pub fn head(&self) -> (r: usize)
        requires
            self.wf(),
        ensures
            r == self@.head(),
    {
        self.sels.primary().head
    }

    /// Put one cursor at the character that `target` is in, or at the last one.
    pub fn place_cursor(&mut self, target: usize)
        requires
            old(self).wf(),
            text_fits(old(self)@.doc.text),
        ensures
            final(self).wf(),
            final(self)@ == old(self)@.with_cursor(snap_of(old(self)@.doc.text, target as int)),
    {
        let bytes = collect_bytes(&self.buffer);
        let head: usize = snap_to_char_or_last(bytes.as_slice(), target);
        self.sels.reduce_to_primary();
        let col: usize = display_col(
            bytes.as_slice(),
            line_start(bytes.as_slice(), head),
            head,
        );
        let p = self.sels.primary_mut();
        *p = Selection { anchor: head, head, desired_col: col };
        assert(self@.sels =~= old(self)@.with_cursor(
            snap_of(old(self)@.doc.text, target as int),
        ).sels);
    }
}

/// Bring the cached text and its line index up to date.
pub fn refresh_bytes_cache(eb: &mut EditorBuffer)
    requires
        old(eb).wf(),
        old(eb)@.cache_ok(),
    ensures
        final(eb).wf(),
        final(eb)@.cache_ok(),
        final(eb)@ == old(eb)@.refreshed(final(eb)@.starts),
        indexes(final(eb)@.starts, final(eb)@.doc.text),
{
    let v: u64 = eb.buffer.version();
    match eb.cached_version {
        Some(c) => {
            if c == v {
                return;
            }
        },
        None => {},
    }
    eb.cached_bytes = collect_bytes(&eb.buffer);
    eb.line_starts = line_starts_scan(eb.cached_bytes.as_slice());
    eb.cached_version = Some(v);
}

fn low_of(n: usize) -> (r: u32)
    ensures
        r == low_half(n as u64),
{
    (n as u64 % 0x1_0000_0000) as u32
}

/// The line and the byte in it that the cursor is at.
pub fn cursor_line_col(eb: &EditorBuffer) -> (r: (u32, u32))
    requires
        eb.wf(),
    ensures
        r == eb@.line_col(),
{
    let bytes = collect_bytes(&eb.buffer);
    let head: usize = eb.head();
    let line: u32 = low_of(line_index(bytes.as_slice(), head));
    let start: usize = byte_at_line(bytes.as_slice(), line as usize);
    let character: u32 = low_of(head.saturating_sub(start));
    (line, character)
}

// ---------------------------------------------------------------------------
// The list of buffers
// ---------------------------------------------------------------------------

pub open spec fn all_wf(s: Seq<EditorBuffer>) -> bool {
    forall|i: int| 0 <= i < s.len() ==> (#[trigger] s[i]).wf()
}

/// The first buffer from the `i`-th on that has this path.
pub open spec fn index_by_path(s: Seq<EditorView>, path: Seq<char>, i: int) -> Option<int>
    decreases s.len() - i,
{
    if i >= s.len() {
        None
    } else if s[i].path == Some(path) {
        Some(i)
    } else {
        index_by_path(s, path, i + 1)
    }
}

pub open spec fn opt_index(o: Option<usize>) -> Option<int> {
    match o {
        Some(i) => Some(i as int),
        None => None,
    }
}

/// The buffer that has this path.
pub fn buffer_index_by_path(buffers: &[EditorBuffer], path: &str) -> (r: Option<usize>)
    ensures
        opt_index(r) == index_by_path(views(buffers@), path@, 0),
        r matches Some(i) ==> i < buffers@.len(),
{
    let mut i: usize = 0;
    while i < buffers.len()
        invariant
            i <= buffers@.len(),
            index_by_path(views(buffers@), path@, i as int) == index_by_path(
                views(buffers@),
                path@,
                0,
            ),
        decreases buffers@.len() - i,
    {
        assert(views(buffers@)[i as int] == buffers@[i as int]@);
        if let Some(p) = &buffers[i].path {
            if str_eq(p.as_str(), path) {
                return Some(i);
            }
        }
        i += 1;
    }
    None
}

/// The list of buffers and which of them is shown.
#[verifier::ext_equal]
pub struct ListView {
    pub list: Seq<EditorView>,
    pub current: int,
}

impl ListView {
    /// The shown buffer is one of the list, unless the list is empty.
    pub open spec fn ok(self) -> bool {
        0 <= self.current && (self.current < self.list.len() || (self.list.len() == 0
            && self.current == 0))
    }

    pub open spec fn closed_at(self, i: int) -> ListView {
        if i >= self.list.len() {
            self
        } else {
            let list = self.list.remove(i);
            ListView {
                list,
                current: iclamp(
                    if self.current >= i { self.current - 1 } else { self.current },
                    0,
                    imax(list.len() - 1, 0),
                ),
            }
        }
    }

    /// Whether the shown buffer has unsaved changes.
    pub open spec fn current_dirty(self) -> bool {
        self.current < self.list.len() && self.list[self.current].dirty()
    }

    pub open spec fn any_dirty(self) -> bool {
        exists|i: int| 0 <= i < self.list.len() && (#[trigger] self.list[i]).dirty()
    }
}

pub open spec fn list_of(buffers: Seq<EditorBuffer>, current: usize) -> ListView {
    ListView { list: views(buffers), current: current as int }
}

/// Close a buffer. If it was the one shown, the one to its left is shown, if
/// any; nothing happens where there is no such buffer.
pub fn close_buffer_at(buffers: &mut Vec<EditorBuffer>, current: &mut usize, idx: usize)
    requires
        all_wf(old(buffers)@),
    ensures
        all_wf(final(buffers)@),
        list_of(final(buffers)@, *final(current)) == list_of(
            old(buffers)@,
            *old(current),
        ).closed_at(idx as int),
{
    if idx >= buffers.len() {
        return;
    }
    let ghost before = buffers@;
    let _closed = buffers.remove(idx);
    assert(views(buffers@) =~= views(before).remove(idx as int));
    assert forall|i: int| 0 <= i < buffers@.len() implies (#[trigger] buffers@[i]).wf() by {
        if i < idx {
            assert(buffers@[i] == before[i]);
        } else {
            assert(buffers@[i] == before[i + 1]);
        }
    }
    let n: usize = buffers.len();
    if *current >= idx && *current > 0 {
        *current = *current - 1;
    }
    if n == 0 {
        *current = 0;
    } else if *current >= n {
        *current = n - 1;
    }
}

/// What a request to quit leads to.
#[derive(Clone, Copy, Debug, PartialEq, Eq, Structural)]
pub enum QuitOutcome {
    Quit,
    Prompt,
}

/// Quit, unless a buffer has unsaved changes.
pub fn attempt_quit(buffers: &[EditorBuffer]) -> (r: QuitOutcome)
    ensures
        r == (if list_of(buffers@, 0).any_dirty() {
            QuitOutcome::Prompt
        } else {
            QuitOutcome::Quit
        }),
{
    let ghost all = list_of(buffers@, 0).list;
    let mut i: usize = 0;
    while i < buffers.len()
        invariant
            i <= buffers@.len(),
            all == views(buffers@),
            forall|j: int| 0 <= j < i ==> !(#[trigger] all[j]).dirty(),
        decreases buffers@.len() - i,
    {
        assert(all[i as int] == buffers@[i as int]@);
        if buffers[i].is_dirty() {
            assert(list_of(buffers@, 0).list[i as int].dirty());
            return QuitOutcome::Prompt;
        }
        i += 1;
    }
    QuitOutcome::Quit
}

/// What a request to close a buffer leads to.
#[derive(Clone, Copy, Debug, PartialEq, Eq, Structural)]
pub enum CloseOutcome {
    Closed,
    QuitEditor,
    Prompt,
}

impl ListView {
    /// Closing the shown buffer: one with unsaved changes stays, and closing
    /// the last one ends the editor.
    pub open spec fn close_attempted(self) -> (ListView, CloseOutcome) {
        if self.current_dirty() {
            (self, CloseOutcome::Prompt)
        } else {
            (
                self.closed_at(self.current),
                if self.list.len() <= 1 {
                    CloseOutcome::QuitEditor
                } else {
                    CloseOutcome::Closed
                },
            )
        }
    }
}

/// Close the shown buffer unless it has unsaved changes.
pub fn attempt_close_current(buffers: &mut Vec<EditorBuffer>, current: &mut usize) -> (r:
    CloseOutcome)
    requires
        all_wf(old(buffers)@),
    ensures
        all_wf(final(buffers)@),
        (list_of(final(buffers)@, *final(current)), r) == list_of(
            old(buffers)@,
            *old(current),
        ).close_attempted(),
{
    let idx: usize = *current;
    if idx < buffers.len() {
        assert(views(buffers@)[idx as int] == buffers@[idx as int]@);
        if buffers[idx].is_dirty() {
            return CloseOutcome::Prompt;
        }
    }
    let was_last: bool = buffers.len() <= 1;
    close_buffer_at(buffers, current, idx);
    if was_last {
        CloseOutcome::QuitEditor
    } else {
        CloseOutcome::Closed
    }
}

// ---------------------------------------------------------------------------
// Saving and reloading
// ---------------------------------------------------------------------------

/// `"name" rest`
pub open spec fn quoted_name(name: Seq<char>, rest: Seq<char>) -> Seq<char> {
    "\""@ + name + rest
}

fn quoted(name: &str, rest: &str) -> (r: String)
    ensures
        r@ == quoted_name(name@, rest@),
{
    let mut r = glue("\"", name);
    r.append(rest);
    r
}

/// The file on disk is not the one that was last read or written.
pub open spec fn changed_on_disk(known: Option<DiskMeta>, now: Option<DiskMeta>) -> bool {
    known is Some && now is Some && known != now
}

fn differs(known: Option<DiskMeta>, now: Option<DiskMeta>) -> (r: bool)
    ensures
        r == changed_on_disk(known, now),
{
    match (known, now) {
        (Some(a), Some(b)) => a != b,
        _ => false,
    }
}

/// Whether a buffer can be saved, and what is said if it cannot.
pub enum SavePlan {
    /// There is nothing to save to.
    NoPath,
    /// The file changed on disk.
    Changed,
    /// These bytes are to be written.
    Write(Vec<u8>),
}

pub enum PlanView {
    NoPath,
    Changed,
    Write(Seq<u8>),
}

impl View for SavePlan {
    type V = PlanView;

    open spec fn view(&self) -> PlanView {
        match self {
            SavePlan::NoPath => PlanView::NoPath,
            SavePlan::Changed => PlanView::Changed,
            SavePlan::Write(b) => PlanView::Write(b@),
        }
    }
}

/// A saving under way: the buffer, the message line and what is next.
#[verifier::ext_equal]
pub struct SaveView {
    pub buffer: EditorView,
    pub message: Seq<char>,
    pub plan: PlanView,
}

/// How a save begins. `now` is the file as it is on disk, if that is known.
pub open spec fn save_begun(
    eb: EditorView,
    message: Seq<char>,
    force: bool,
    now: Option<DiskMeta>,
) -> SaveView {
    match eb.path {
        None => SaveView {
            buffer: eb,
            message: "no file name (use :w <path>)"@,
            plan: PlanView::NoPath,
        },
        Some(path) => if !force && changed_on_disk(eb.disk, now) {
            SaveView {
                buffer: EditorView { conflict: true, ..eb },
                message: quoted_name(path, "\" changed on disk — :w! overwrites, :e! reloads"@),
                plan: PlanView::Changed,
            }
        } else {
            SaveView { buffer: eb, message, plan: PlanView::Write(eb.doc.text) }
        },
    }
}

/// Begin to save a buffer. Unless it is forced, a file that changed on disk is
/// not overwritten.
pub fn save_current(
    eb: &mut EditorBuffer,
    force: bool,
    now: Option<DiskMeta>,
    ex_message: &mut String,
) -> (r: SavePlan)
    requires
        old(eb).wf(),
    ensures
        final(eb).wf(),
        (SaveView { buffer: final(eb)@, message: final(ex_message)@, plan: r@ }) == save_begun(
            old(eb)@,
            old(ex_message)@,
            force,
            now,
        ),
{
    let changed: bool = !force && differs(eb.disk_meta, now);
    match &eb.path {
        None => {
            *ex_message = "no file name (use :w <path>)".to_owned();
            SavePlan::NoPath
        },
        Some(path) => {
            if changed {
                *ex_message = quoted(
                    path.as_str(),
                    "\" changed on disk — :w! overwrites, :e! reloads",
                );
                eb.external_change_pending = true;
                SavePlan::Changed
            } else {
                SavePlan::Write(collect_bytes(&eb.buffer))
            }
        },
    }
}

/// What became of writing: nothing went wrong, or this did.
pub open spec fn outcome_of(r: Result<(), String>) -> Result<(), Seq<char>> {
    match r {
        Ok(_) => Ok(()),
        Err(e) => Err(e@),
    }
}

/// How a save ends.
pub open spec fn save_ended(
    eb: EditorView,
    outcome: Result<(), Seq<char>>,
    after: Option<DiskMeta>,
) -> (EditorView, Seq<char>, bool) {
    match outcome {
        Ok(_) => (
            eb.written(after),
            quoted_name(
                match eb.path {
                    Some(p) => p,
                    None => Seq::empty(),
                },
                "\" written"@,
            ),
            true,
        ),
        Err(e) => (eb, "write failed: "@ + e, false),
    }
}

/// Take in what became of writing a buffer; `after` is the file as it now is.
pub fn finish_save(
    eb: &mut EditorBuffer,
    outcome: Result<(), String>,
    after: Option<DiskMeta>,
    ex_message: &mut String,
) -> (r: bool)
    requires
        old(eb).wf(),
    ensures
        final(eb).wf(),
        (final(eb)@, final(ex_message)@, r) == save_ended(old(eb)@, outcome_of(outcome), after),
{
    match outcome {
        Ok(_) => {
            eb.saved_version = Some(eb.buffer.version());
            eb.disk_meta = after;
            eb.external_change_pending = false;
            *ex_message = match &eb.path {
                Some(p) => quoted(p.as_str(), "\" written"),
                None => quoted("", "\" written"),
            };
            proof {
                reveal_strlit("");
            }
            assert(""@ =~= Seq::<char>::empty());
            true
        },
        Err(e) => {
            *ex_message = glue("write failed: ", e.as_str());
            false
        },
    }
}

/// A selection moved into a text of length `n`.
pub open spec fn clamped(s: Selection, n: int) -> Selection {
    Selection {
        anchor: imin(s.anchor as int, n) as usize,
        head: imin(s.head as int, n) as usize,
        desired_col: s.desired_col,
    }
}

/// A buffer that was read from disk again: its history is gone and its view
/// starts at the top.
pub open spec fn reloaded(eb: EditorView, text: Seq<u8>, after: Option<DiskMeta>, starts: Seq<usize>) -> EditorView {
    EditorView {
        doc: BufferView {
            text,
            undo: Seq::empty(),
            redo: Seq::empty(),
            pending: None,
            version: 0,
            edits: Seq::empty(),
        },
        sels: eb.sels.only_prime().with_prime(clamped(eb.sels.prime(), text.len() as int)),
        top_line: 0,
        left_col: 0,
        tree: None,
        bytes: text,
        starts,
        cached: Some(0),
        highlighted: None,
        synced: None,
        saved: Some(0),
        disk: after,
        conflict: false,
        ..eb
    }
}

/// Take in a file that was read again, and what is known of it; unsaved changes
/// are lost. Without a path, or where reading failed, the buffer stays as it
/// is.
pub fn reload_from_disk(
    eb: &mut EditorBuffer,
    loaded: Result<Vec<u8>, String>,
    after: Option<DiskMeta>,
    ex_message: &mut String,
) -> (r: bool)
    requires
        old(eb).wf(),
    ensures
        final(eb).wf(),
        r == (old(eb).path is Some && loaded is Ok),
        r ==> final(eb)@ == reloaded(old(eb)@, loaded->Ok_0@, after, final(eb)@.starts)
            && indexes(final(eb)@.starts, loaded->Ok_0@) && final(ex_message)@ == old(
            ex_message,
        )@,
        !r ==> final(eb)@ == old(eb)@,
        old(eb).path is None ==> final(ex_message)@ == "no file to reload"@,
        old(eb).path is Some && loaded is Err ==> final(ex_message)@ == "reload failed: "@
            + loaded->Err_0@,
{
    if eb.path.is_none() {
        *ex_message = "no file to reload".to_owned();
        return false;
    }
    let bytes = match loaded {
        Ok(b) => b,
        Err(e) => {
            *ex_message = glue("reload failed: ", e.as_str());
            return false;
        },
    };
    let n: usize = bytes.len();
    eb.buffer = Buffer::from_bytes(bytes);
    eb.tree = None;
    eb.highlight_version = None;
    eb.lsp_synced_version = None;
    eb.saved_version = Some(0);
    eb.disk_meta = after;
    eb.external_change_pending = false;
    eb.sels.reduce_to_primary();
    let p = eb.sels.primary_mut();
    p.head = if p.head < n { p.head } else { n };
    p.anchor = if p.anchor < n { p.anchor } else { n };
    eb.top_line = 0;
    eb.left_col = 0;
    eb.cached_version = None;
    refresh_bytes_cache(eb);
    assert(eb@ =~= reloaded(old(eb)@, loaded->Ok_0@, after, eb@.starts));
    true
}

/// What a change on disk means for a buffer.
#[derive(Clone, Copy, Debug, PartialEq, Eq, Structural)]
pub enum DiskChange {
    /// Nothing: the file could not be looked at, or is as it was.
    Nothing,
    /// The file is to be read again.
    Reload,
    /// There are unsaved changes too.
    Conflict,
}

/// Of several conflicts, the first is the one to ask about.
pub fn first_conflict(seen: Option<usize>, change: DiskChange, index: usize) -> (r: Option<usize>)
    ensures
        r == (if seen is None && change == DiskChange::Conflict {
            Some(index)
        } else {
            seen
        }),
{
    match (seen, change) {
        (None, DiskChange::Conflict) => Some(index),
        _ => seen,
    }
}

pub open spec fn disk_change(eb: EditorView, now: Option<DiskMeta>) -> DiskChange {
    if now is None || now == eb.disk {
        DiskChange::Nothing
    } else if eb.dirty() {
        DiskChange::Conflict
    } else {
        DiskChange::Reload
    }
}

/// Take in that a buffer's file may have changed; `now` is what it is like, if
/// it can be looked at. A buffer with unsaved changes is marked.
pub fn note_disk_change(eb: &mut EditorBuffer, now: Option<DiskMeta>) -> (r: DiskChange)
    requires
        old(eb).wf(),
    ensures
        final(eb).wf(),
        r == disk_change(old(eb)@, now),
        final(eb)@ == (if r == DiskChange::Conflict {
            EditorView { conflict: true, ..old(eb)@ }
        } else {
            old(eb)@
        }),
{
    let same: bool = match (now, eb.disk_meta) {
        (None, _) => true,
        (Some(a), Some(b)) => a == b,
        (Some(_), None) => false,
    };
    if same {
        DiskChange::Nothing
    } else if eb.is_dirty() {
        eb.external_change_pending = true;
        DiskChange::Conflict
    } else {
        DiskChange::Reload
    }
}

/// The message for a buffer that was read again by itself.
pub fn reload_note(eb: &EditorBuffer) -> (r: String)
    ensures
        r@ == quoted_name(
            match eb@.path {
                Some(p) => p,
                None => Seq::empty(),
            },
            "\" auto-reloaded from disk"@,
        ),
{
    match &eb.path {
        Some(p) => quoted(p.as_str(), "\" auto-reloaded from disk"),
        None => {
            proof {
                reveal_strlit("");
            }
            assert(""@ =~= Seq::<char>::empty());
            quoted("", "\" auto-reloaded from disk")
        },
    }
}

// ---------------------------------------------------------------------------
// Laws
// ---------------------------------------------------------------------------

/// Closing a buffer leaves a buffer shown, if any is left, and all others as
/// they are. It is the one that was shown before, or the one to its left if
/// that was closed.
pub proof fn closing_keeps_the_others(l: ListView, i: int)
    requires
        l.ok(),
        0 <= i < l.list.len(),
    ensures
        l.closed_at(i).ok(),
        l.closed_at(i).list.len() == l.list.len() - 1,
        forall|j: int|
            0 <= j < l.list.len() && j != i ==> l.closed_at(i).list.contains(#[trigger] l.list[j]),
        l.current < i ==> l.closed_at(i).current == l.current,
        l.current > i ==> l.closed_at(i).list[l.closed_at(i).current] == l.list[l.current],
        l.current == i && i > 0 ==> l.closed_at(i).list[l.closed_at(i).current] == l.list[i - 1],
{
    let after = l.list.remove(i);
    assert forall|j: int| 0 <= j < l.list.len() && j != i implies l.closed_at(i).list.contains(
        #[trigger] l.list[j],
    ) by {
        if j < i {
            assert(after[j] == l.list[j]);
        } else {
            assert(after[j - 1] == l.list[j]);
        }
    }
}

/// Closing without being asked twice never drops unsaved changes: the closed
/// buffer had none.
pub proof fn closing_never_drops_changes(l: ListView)
    requires
        l.ok(),
        l.current < l.list.len(),
        l.close_attempted().1 != CloseOutcome::Prompt,
    ensures
        !l.list[l.current].dirty(),
{
}

/// A buffer whose text was written has no unsaved changes; the next change
/// makes some.
pub proof fn saving_makes_clean(eb: EditorView, after: Option<DiskMeta>, o: int, t: Seq<u8>)
    requires
        t.len() > 0,
    ensures
        !eb.written(after).dirty(),
        (EditorView { doc: eb.doc.inserted(o, t), ..eb.written(after) }).dirty(),
{
}

/// A file that changed on disk is not overwritten unless that is forced.
pub proof fn foreign_changes_are_not_overwritten(
    eb: EditorView,
    message: Seq<char>,
    now: Option<DiskMeta>,
)
    requires
        changed_on_disk(eb.disk, now),
    ensures
        !(save_begun(eb, message, false, now).plan is Write),
        eb.path is Some ==> save_begun(eb, message, true, now).plan == PlanView::Write(
            eb.doc.text,
        ),
{
}

/// Unsaved changes are not thrown away when the file changes on disk.
pub proof fn disk_changes_keep_unsaved_work(eb: EditorView, now: Option<DiskMeta>)
    requires
        eb.dirty(),
    ensures
        disk_change(eb, now) != DiskChange::Reload,
{
}

/// A file is found by its path: the first buffer that shows it, or none where no
/// buffer does.
pub proof fn files_are_found_by_path(s: Seq<EditorView>, path: Seq<char>, i: int)
    requires
        0 <= i,
    ensures
        match index_by_path(s, path, i) {
            Some(k) => i <= k < s.len() && s[k].path == Some(path) && forall|j: int|
                i <= j < k ==> (#[trigger] s[j]).path != Some(path),
            None => forall|j: int| i <= j < s.len() ==> (#[trigger] s[j]).path != Some(path),
        },
    decreases s.len() - i,
{
    if i < s.len() && s[i].path != Some(path) {
        files_are_found_by_path(s, path, i + 1);
    }
}

/// A buffer that was read again holds what is on disk, without unsaved changes and
/// without history; its cursor stays in the text.
pub proof fn reloading_shows_the_disk(
    eb: EditorView,
    text: Seq<u8>,
    after: Option<DiskMeta>,
    starts: Seq<usize>,
)
    requires
        eb.sels.ok(),
    ensures
        ({
            let r = reloaded(eb, text, after, starts);
            &&& r.doc.text == text && r.doc.undo.len() == 0 && r.doc.redo.len() == 0
            &&& !r.dirty() && !r.conflict && r.disk == after
            &&& r.path == eb.path && r.lang == eb.lang
            &&& r.sels.list.len() == 1 && r.sels.prime().head <= text.len()
                && r.sels.prime().anchor <= text.len()
            &&& eb.sels.prime().head <= text.len() ==> r.sels.prime().head == eb.sels.prime().head
        }),
{
}

/// A change on disk is followed by a buffer without unsaved changes and is a
/// conflict for one with them; where the file is as it was, nothing happens.
pub proof fn disk_changes_are_followed(eb: EditorView, now: DiskMeta)
    ensures
        eb.disk == Some(now) ==> disk_change(eb, Some(now)) is Nothing,
        eb.disk != Some(now) && eb.dirty() ==> disk_change(eb, Some(now)) is Conflict,
        eb.disk != Some(now) && !eb.dirty() ==> disk_change(eb, Some(now)) is Reload,
        disk_change(eb, None) is Nothing,
{
}

/// A buffer has unsaved changes once it differs in version from what was saved,
/// and one that was never saved once it was changed at all.
pub proof fn changes_make_dirty(eb: EditorView, o: int, t: Seq<u8>)
    requires
        t.len() > 0,
        eb.doc.version < u64::MAX,
        !eb.dirty(),
    ensures
        (EditorView { doc: eb.doc.inserted(o, t), ..eb }).dirty(),
        (EditorView { doc: eb.doc.inserted(o, Seq::empty()), ..eb }) == eb,
{
}

/// Saving hands out the whole text, unless the buffer has no file or the file
/// changed on disk; forcing it overwrites a changed file.
pub proof fn saving_writes_the_whole_text(
    eb: EditorView,
    message: Seq<char>,
    force: bool,
    now: Option<DiskMeta>,
)
    ensures
        ({
            let r = save_begun(eb, message, force, now);
            let foreign = eb.disk is Some && now is Some && eb.disk != now;
            &&& r.buffer.doc == eb.doc
            &&& eb.path is None ==> r.plan is NoPath && r.buffer == eb
            &&& eb.path is Some && (force || !foreign) ==> r.plan == PlanView::Write(eb.doc.text)
                && r.message == message && r.buffer == eb
            &&& eb.path is Some && foreign && !force ==> r.plan is Changed && r.buffer.conflict
        }),
{
}

}
