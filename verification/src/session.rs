//! What the editor does with requests and answers: commands on the list of
//! buffers, jumps, and the language server.
//!
//! Where something has to be read, written or sent, the functions say so and the
//! caller comes back with the outcome.
use std::collections::HashMap;
use vstd::prelude::*;
use crate::action::{ExAction, ExRequest, JumpAction, LspAction};
use crate::buffer::collect_bytes;
use crate::completion::opt_text;
use crate::editor::{
    all_wf, attempt_close_current, attempt_quit, buffer_index_by_path, close_buffer_at, cursor_line_col,
    index_by_path, list_of, opt_index, views, CloseOutcome, EditorBuffer, EditorView, ListView,
    QuitOutcome,
};
use crate::format::{decimal, push_decimal};
use crate::input::{plain_key, Key, KeyEvent, Mods, CTRL_BIT};
use crate::jumps::{last_place, opt_place, JumpEntry, JumpList, JumpView, Place};
use crate::lsp::{
    answer_of, diagnostics_of, opt_location, uri_to_path, DefinitionLocation, Diagnostic,
    DiagnosticView, ErrorView, EventView, LocationView, LspClient, LspError, LspEvent,
};
use crate::lsp::ClientView;
use crate::prompt::{
    build_close_buffer_prompt, build_quit_prompt, close_prompt, opt_prompt, quit_prompt, Prompt,
    PromptView,
};
use crate::protocol::{changed_json, notification_json, sent_as};
use crate::selection::Mode;
use crate::strings::{glue, has_prefix, lossy, str_eq, text_from_utf8_lossy};
use crate::suggest::{anchored, is_ctrl, typed, CompletionUi, UiView};
use crate::text::{byte_at_line, imin, nth_line, snap_of, text_fits};
use crate::text::{
    a_line_lies_between_breaks, lemma_line_of, lemma_newlines_bound, line_breaks_number_the_lines,
    line_of, on_char,
};

verus! {

broadcast use vstd::std_specs::hash::group_hash_axioms;

// ---------------------------------------------------------------------------
// Commands on the list of buffers
// ---------------------------------------------------------------------------

/// What a command leads to.
#[derive(Debug)]
pub enum AfterAction {
    Continue,
    /// End the editor.
    Quit,
    /// Show this file, and read it if it is not open.
    Open(String),
    /// Save the shown buffer.
    Save { force: bool, then_close: bool },
    /// Read the shown buffer from disk again.
    Reload,
}

pub enum AfterView {
    Continue,
    Quit,
    Open(Seq<char>),
    Save { force: bool, then_close: bool },
    Reload,
}

impl View for AfterAction {
    type V = AfterView;

    open spec fn view(&self) -> AfterView {
        match self {
            AfterAction::Continue => AfterView::Continue,
            AfterAction::Quit => AfterView::Quit,
            AfterAction::Open(p) => AfterView::Open(p@),
            AfterAction::Save { force, then_close } => AfterView::Save {
                force: *force,
                then_close: *then_close,
            },
            AfterAction::Reload => AfterView::Reload,
        }
    }
}

/// One entry of the list of buffers.
pub open spec fn list_entry(l: ListView, i: int) -> Seq<char> {
    (if i == l.current { "*"@ } else { " "@ }) + decimal(i + 1) + " "@ + l.list[i].label()
}

/// The first `n` entries of the list of buffers.
pub open spec fn listing_text(l: ListView, n: int) -> Seq<char>
    decreases n,
{
    if n <= 0 {
        Seq::empty()
    } else if n == 1 {
        list_entry(l, 0)
    } else {
        listing_text(l, n - 1) + "  "@ + list_entry(l, n - 1)
    }
}

/// What a command can change.
#[verifier::ext_equal]
pub struct CommandState {
    pub buffers: ListView,
    pub prompt: Option<PromptView>,
    pub message: Seq<char>,
}

pub open spec fn commanded(s: CommandState, action: ExRequest) -> (CommandState, AfterView) {
    let l = s.buffers;
    let n = l.list.len() as int;
    match action {
        ExRequest::OpenFile(path) => (s, AfterView::Open(path)),
        ExRequest::NextBuffer => (
            CommandState {
                buffers: ListView {
                    current: if n > 1 {
                        (l.current + 1) % n
                    } else {
                        l.current
                    },
                    ..l
                },
                ..s
            },
            AfterView::Continue,
        ),
        ExRequest::PrevBuffer => (
            CommandState {
                buffers: ListView {
                    current: if n > 1 {
                        (l.current + n - 1) % n
                    } else {
                        l.current
                    },
                    ..l
                },
                ..s
            },
            AfterView::Continue,
        ),
        ExRequest::ListBuffers => (
            CommandState { message: listing_text(l, n), ..s },
            AfterView::Continue,
        ),
        ExRequest::Save => (s, AfterView::Save { force: false, then_close: false }),
        ExRequest::ForceSave => (s, AfterView::Save { force: true, then_close: false }),
        ExRequest::SaveAndQuit => (s, AfterView::Save { force: false, then_close: true }),
        ExRequest::Quit => {
            let (after, outcome) = l.close_attempted();
            match outcome {
                CloseOutcome::Closed => (
                    CommandState { buffers: after, ..s },
                    AfterView::Continue,
                ),
                CloseOutcome::QuitEditor => (
                    CommandState { buffers: after, ..s },
                    AfterView::Quit,
                ),
                CloseOutcome::Prompt => (
                    CommandState {
                        prompt: Some(close_prompt(l.list, l.current as usize)),
                        ..s
                    },
                    AfterView::Continue,
                ),
            }
        },
        ExRequest::ForceQuit => (
            CommandState { buffers: l.closed_at(l.current), ..s },
            if n <= 1 {
                AfterView::Quit
            } else {
                AfterView::Continue
            },
        ),
        ExRequest::Reload => (s, AfterView::Reload),
    }
}

fn list_buffers(buffers: &[EditorBuffer], current: usize) -> (r: String)
    requires
        buffers@.len() < usize::MAX,
    ensures
        r@ == listing_text(list_of(buffers@, current), buffers@.len() as int),
{
    let mut out = String::new();
    let ghost l = list_of(buffers@, current);
    let mut i: usize = 0;
    while i < buffers.len()
        invariant
            i <= buffers@.len() < usize::MAX,
            l == list_of(buffers@, current),
            out@ == listing_text(l, i as int),
        decreases buffers@.len() - i,
    {
        let ghost before = out@;
        let mut entry = String::new();
        if i == current {
            entry.append("*");
        } else {
            entry.append(" ");
        }
        push_decimal(&mut entry, (i + 1) as u64);
        entry.append(" ");
        let name = buffers[i].display_name();
        entry.append(name.as_str());
        assert(l.list[i as int] == buffers@[i as int]@);
        assert(entry@ =~= list_entry(l, i as int));
        if i > 0 {
            out.append("  ");
        }
        out.append(entry.as_str());
        assert(out@ =~= listing_text(l, i + 1));
        i += 1;
    }
    out
}

proof fn lemma_next(c: int, n: int)
    requires
        0 <= c < n,
        n > 1,
    ensures
        (c + 1) % n == (if c + 1 < n { c + 1 } else { 0 }),
        (c + n - 1) % n == (if c > 0 { c - 1 } else { n - 1 }),
{
    if c + 1 < n {
        vstd::arithmetic::div_mod::lemma_small_mod((c + 1) as nat, n as nat);
    } else {
        assert((c + 1) % n == 0) by (nonlinear_arith)
            requires
                c + 1 == n,
                n > 0,
        ;
    }
    if c > 0 {
        vstd::arithmetic::div_mod::lemma_small_mod((c - 1) as nat, n as nat);
        vstd::arithmetic::div_mod::lemma_mod_add_multiples_vanish(c - 1, n);
    } else {
        vstd::arithmetic::div_mod::lemma_small_mod((n - 1) as nat, n as nat);
    }
}

/// Run a command on the list of buffers.
pub fn dispatch_ex_action(
    action: ExAction,
    buffers: &mut Vec<EditorBuffer>,
    current: &mut usize,
    prompt: &mut Option<Prompt>,
    ex_message: &mut String,
) -> (r: AfterAction)
    requires
        all_wf(old(buffers)@),
        *old(current) < old(buffers)@.len() < usize::MAX,
    ensures
        all_wf(final(buffers)@),
        (
            CommandState {
                buffers: list_of(final(buffers)@, *final(current)),
                prompt: opt_prompt(*final(prompt)),
                message: final(ex_message)@,
            },
            r@,
        ) == commanded(
            CommandState {
                buffers: list_of(old(buffers)@, *old(current)),
                prompt: opt_prompt(*old(prompt)),
                message: old(ex_message)@,
            },
            action@,
        ),
{
    let n: usize = buffers.len();
    match action {
        ExAction::OpenFile(path) => AfterAction::Open(path),
        ExAction::NextBuffer => {
            if n > 1 {
                proof {
                    lemma_next(*current as int, n as int);
                }
                *current = if *current + 1 < n {
                    *current + 1
                } else {
                    0
                };
            }
            AfterAction::Continue
        },
        ExAction::PrevBuffer => {
            if n > 1 {
                proof {
                    lemma_next(*current as int, n as int);
                }
                *current = if *current > 0 {
                    *current - 1
                } else {
                    n - 1
                };
            }
            AfterAction::Continue
        },
        ExAction::ListBuffers => {
            *ex_message = list_buffers(buffers.as_slice(), *current);
            AfterAction::Continue
        },
        ExAction::Save => AfterAction::Save { force: false, then_close: false },
        ExAction::ForceSave => AfterAction::Save { force: true, then_close: false },
        ExAction::SaveAndQuit => AfterAction::Save { force: false, then_close: true },
        ExAction::Quit => {
            match attempt_close_current(buffers, current) {
                CloseOutcome::Closed => AfterAction::Continue,
                CloseOutcome::QuitEditor => AfterAction::Quit,
                CloseOutcome::Prompt => {
                    *prompt = Some(build_close_buffer_prompt(buffers.as_slice(), *current));
                    AfterAction::Continue
                },
            }
        },
        ExAction::ForceQuit => {
            let idx: usize = *current;
            close_buffer_at(buffers, current, idx);
            if n <= 1 {
                AfterAction::Quit
            } else {
                AfterAction::Continue
            }
        },
        ExAction::Reload => AfterAction::Reload,
    }
}

/// Go on once the shown buffer was saved, or was not. Saving may be followed by
/// closing it, which ends the editor with the last one.
pub fn after_save(
    buffers: &mut Vec<EditorBuffer>,
    current: &mut usize,
    saved: bool,
    then_close: bool,
) -> (quit: bool)
    requires
        all_wf(old(buffers)@),
    ensures
        all_wf(final(buffers)@),
        ({
            let l = list_of(old(buffers)@, *old(current));
            let closing = saved && then_close;
            &&& list_of(final(buffers)@, *final(current)) == (if closing {
                l.close_attempted().0
            } else {
                l
            })
            &&& quit == (closing && l.close_attempted().1 == CloseOutcome::QuitEditor)
        }),
{
    if !saved || !then_close {
        return false;
    }
    match attempt_close_current(buffers, current) {
        CloseOutcome::QuitEditor => true,
        _ => false,
    }
}

// ---------------------------------------------------------------------------
// Opening
// ---------------------------------------------------------------------------

/// Show a file that is open already. `false` if it is not.
pub fn switch_to(buffers: &[EditorBuffer], current: &mut usize, path: &str) -> (r: bool)
    ensures
        match index_by_path(views(buffers@), path@, 0) {
            Some(i) => r && *final(current) == i,
            None => !r && *final(current) == *old(current),
        },
{
    match buffer_index_by_path(buffers, path) {
        Some(i) => {
            *current = i;
            true
        },
        None => false,
    }
}

pub open spec fn opened_view(r: Result<EditorBuffer, String>) -> Result<EditorView, Seq<char>> {
    match r {
        Ok(b) => Ok(b@),
        Err(e) => Err(e@),
    }
}

/// Take in a file that was opened: it is shown last in the list. Where opening
/// failed, the message says so.
pub fn add_opened(
    buffers: &mut Vec<EditorBuffer>,
    current: &mut usize,
    opened: Result<EditorBuffer, String>,
    ex_message: &mut String,
) -> (r: bool)
    requires
        all_wf(old(buffers)@),
        opened matches Ok(b) ==> b.wf(),
    ensures
        all_wf(final(buffers)@),
        match opened_view(opened) {
            Ok(b) => r && views(final(buffers)@) == views(old(buffers)@).push(b)
                && *final(current) == old(buffers)@.len() && final(ex_message)@ == old(
                ex_message,
            )@,
            Err(e) => !r && final(buffers)@ == old(buffers)@ && *final(current) == *old(current)
                && final(ex_message)@ == "open failed: "@ + e,
        },
{
    match opened {
        Ok(b) => {
            let ghost before = buffers@;
            *current = buffers.len();
            buffers.push(b);
            assert(views(buffers@) =~= views(before).push(b@));
            true
        },
        Err(e) => {
            *ex_message = glue("open failed: ", e.as_str());
            false
        },
    }
}

// ---------------------------------------------------------------------------
// Jumps
// ---------------------------------------------------------------------------

/// Where the cursor is, if the buffer has a file.
pub open spec fn place_of_cursor(eb: EditorView) -> Option<Place> {
    match eb.path {
        Some(path) => Some(Place { path, offset: eb.head() as usize }),
        None => None,
    }
}

fn current_place(eb: &EditorBuffer) -> (r: Option<JumpEntry>)
    requires
        eb.wf(),
    ensures
        opt_place(r) == place_of_cursor(eb@),
{
    match &eb.path {
        Some(p) => Some(JumpEntry { path: p.clone(), offset: eb.head() }),
        None => None,
    }
}

/// The jump list, the message and the place to go to.
pub open spec fn jumped(
    action: JumpAction,
    jumps: JumpView,
    here: Option<Place>,
    message: Seq<char>,
) -> (JumpView, Seq<char>, Option<Place>) {
    match action {
        JumpAction::Back => {
            let to = last_place(jumps.back);
            (
                jumps.went_back(here),
                if to is None {
                    "no earlier jumps"@
                } else {
                    message
                },
                to,
            )
        },
        JumpAction::Forward => {
            let to = last_place(jumps.forward);
            (
                jumps.went_forward(here),
                if to is None {
                    "no later jumps"@
                } else {
                    message
                },
                to,
            )
        },
    }
}

/// A key of normal mode that asks for more than the shown buffer.
#[derive(Debug, Clone, Copy, PartialEq, Eq, Structural)]
pub enum FrontKey {
    Jump(JumpAction),
    Ask(LspAction),
}

/// Ctrl-o steps back through the jump list, and Tab or Ctrl-i forward, where no
/// other key is being waited for; `h` behind `g` asks what stands at the cursor.
/// `settled` says that no key to search for, object or bracket is awaited.
pub open spec fn front_key_of(
    settled: bool,
    pending_g: bool,
    pending_z: bool,
    k: KeyEvent,
) -> Option<FrontKey> {
    if !settled {
        None
    } else if pending_g {
        if k == plain_key(Key::Char('h')) {
            Some(FrontKey::Ask(LspAction::Hover))
        } else {
            None
        }
    } else if pending_z {
        None
    } else if k.key == Key::Char('o') && k.mods == Mods(CTRL_BIT) {
        Some(FrontKey::Jump(JumpAction::Back))
    } else if k.key == Key::Tab || k.key == Key::Char('i') && k.mods == Mods(CTRL_BIT) {
        Some(FrontKey::Jump(JumpAction::Forward))
    } else {
        None
    }
}

/// What a key of normal mode asks for beyond the shown buffer.
pub fn front_key(settled: bool, pending_g: bool, pending_z: bool, k: KeyEvent) -> (r: Option<
    FrontKey,
>)
    ensures
        r == front_key_of(settled, pending_g, pending_z, k),
{
    if !settled {
        return None;
    }
    if pending_g {
        return if k.key == Key::Char('h') && k.mods.0 == 0 {
            Some(FrontKey::Ask(LspAction::Hover))
        } else {
            None
        };
    }
    if pending_z {
        return None;
    }
    let ctrl: bool = k.mods.0 == CTRL_BIT;
    if ctrl && k.key == Key::Char('o') {
        Some(FrontKey::Jump(JumpAction::Back))
    } else if k.key == Key::Tab || ctrl && k.key == Key::Char('i') {
        Some(FrontKey::Jump(JumpAction::Forward))
    } else {
        None
    }
}

/// What the key that quits leads to.
#[derive(Debug, Clone, Copy, PartialEq, Eq, Structural)]
pub enum QuitKey {
    /// It is another key.
    Other,
    /// There are unsaved changes, and a question is up.
    Asked,
    Quit,
}

/// Ctrl-c quits in every mode, and asks first if there are unsaved changes.
pub fn quit_key(k: KeyEvent, buffers: &[EditorBuffer], prompt: &mut Option<Prompt>) -> (r: QuitKey)
    ensures
        r == (if !is_ctrl(k, 'c') {
            QuitKey::Other
        } else if list_of(buffers@, 0).any_dirty() {
            QuitKey::Asked
        } else {
            QuitKey::Quit
        }),
        opt_prompt(*final(prompt)) == (if r == QuitKey::Asked {
            Some(quit_prompt(views(buffers@)))
        } else {
            opt_prompt(*old(prompt))
        }),
{
    if !(k.mods.contains(Mods::ctrl()) && k.key == Key::Char('c')) {
        return QuitKey::Other;
    }
    match attempt_quit(buffers) {
        QuitOutcome::Quit => QuitKey::Quit,
        QuitOutcome::Prompt => {
            *prompt = Some(build_quit_prompt(buffers));
            QuitKey::Asked
        },
    }
}

/// After a key of normal mode: a command line or a search that it opened starts
/// empty.
pub fn start_input(mode: Mode, ex_input: &mut String, search_input: &mut String)
    ensures
        final(ex_input)@ == (if mode == Mode::Ex {
            Seq::empty()
        } else {
            old(ex_input)@
        }),
        final(search_input)@ == (if mode == Mode::Search {
            Seq::empty()
        } else {
            old(search_input)@
        }),
{
    match mode {
        Mode::Ex => {
            *ex_input = String::new();
        },
        Mode::Search => {
            *search_input = String::new();
        },
        _ => {},
    }
}

/// After a burst of input: outside of insert mode no popup stays, and the server
/// is to be sent the text; then the result is `true`.
pub fn input_settled(comp: &mut CompletionUi, mode: Mode) -> (sync: bool)
    requires
        old(comp).wf(),
    ensures
        final(comp).wf(),
        sync == (mode != Mode::Insert),
        final(comp)@ == (if mode == Mode::Insert {
            old(comp)@
        } else {
            old(comp)@.closed()
        }),
{
    match mode {
        Mode::Insert => false,
        _ => {
            comp.close();
            true
        },
    }
}

/// Step through the jump list. The file of the place that comes back is to be
/// shown, and the cursor put there with `EditorBuffer::place_cursor`.
pub fn dispatch_jump(
    action: JumpAction,
    jumps: &mut JumpList,
    eb: &EditorBuffer,
    ex_message: &mut String,
) -> (r: Option<JumpEntry>)
    requires
        eb.wf(),
    ensures
        (final(jumps)@, final(ex_message)@, opt_place(r)) == jumped(
            action,
            old(jumps)@,
            place_of_cursor(eb@),
            old(ex_message)@,
        ),
{
    let here = current_place(eb);
    match action {
        JumpAction::Back => {
            let to = jumps.back(here);
            if to.is_none() {
                *ex_message = "no earlier jumps".to_owned();
            }
            to
        },
        JumpAction::Forward => {
            let to = jumps.forward(here);
            if to.is_none() {
                *ex_message = "no later jumps".to_owned();
            }
            to
        },
    }
}

// ---------------------------------------------------------------------------
// Requests to the language server
// ---------------------------------------------------------------------------

/// What has to be known of a request when its answer comes.
pub struct RequestMeta {
    /// The file that it was about.
    pub buf_path: Option<String>,
    /// The version of its text.
    pub buffer_version: u64,
    /// Where the cursor was, for requests that move it.
    pub pre_jump: Option<JumpEntry>,
}

#[verifier::ext_equal]
pub struct MetaView {
    pub path: Option<Seq<char>>,
    pub version: u64,
    pub pre_jump: Option<Place>,
}

impl View for RequestMeta {
    type V = MetaView;

    open spec fn view(&self) -> MetaView {
        MetaView {
            path: opt_text(self.buf_path),
            version: self.buffer_version,
            pre_jump: opt_place(self.pre_jump),
        }
    }
}

/// What has to be known of a request about this buffer.
pub fn request_meta(eb: &EditorBuffer, moves: bool) -> (r: RequestMeta)
    requires
        eb.wf(),
    ensures
        r@ == (MetaView {
            path: eb@.path,
            version: eb@.doc.version,
            pre_jump: if moves {
                place_of_cursor(eb@)
            } else {
                None
            },
        }),
{
    let buf_path: Option<String> = match &eb.path {
        Some(p) => Some(p.clone()),
        None => None,
    };
    let pre_jump: Option<JumpEntry> = if moves {
        current_place(eb)
    } else {
        None
    };
    RequestMeta { buf_path, buffer_version: eb.buffer.version(), pre_jump }
}

/// The server knows the buffer, but not as it is now.
pub open spec fn out_of_sync(eb: EditorView) -> bool {
    eb.path is Some && eb.lang is Some && (eb.synced matches Some(v) && v != eb.doc.version)
}

pub open spec fn opt_bytes(o: Option<Vec<u8>>) -> Option<Seq<u8>> {
    match o {
        Some(b) => Some(b@),
        None => None,
    }
}

/// The bytes that tell the server how a buffer is now, if it does not know. They
/// say nothing of a buffer that the server was never told of. Once they went
/// out, `mark_synced` is to be called.
pub fn sync_lsp_if_dirty(eb: &EditorBuffer, client: &LspClient, uri: &str) -> (r: Option<Vec<u8>>)
    requires
        eb.wf(),
    ensures
        opt_bytes(r) == (if out_of_sync(eb@) {
            Some(
                sent_as(
                    notification_json(
                        "textDocument/didChange"@,
                        changed_json(uri@, eb@.doc.version, lossy(eb@.doc.text)),
                    ),
                ),
            )
        } else {
            None
        }),
{
    if eb.path.is_none() || eb.lang_id.is_none() {
        return None;
    }
    let version: u64 = eb.buffer.version();
    match eb.lsp_synced_version {
        None => None,
        Some(v) => {
            if v == version {
                None
            } else {
                let bytes = collect_bytes(&eb.buffer);
                let text = text_from_utf8_lossy(bytes.as_slice());
                Some(client.did_change(uri, version, text.as_str()))
            }
        },
    }
}

/// Note that the server knows the buffer as it is now.
pub fn mark_synced(eb: &mut EditorBuffer)
    requires
        old(eb).wf(),
    ensures
        final(eb).wf(),
        final(eb)@ == (EditorView { synced: Some(old(eb)@.doc.version), ..old(eb)@ }),
{
    eb.lsp_synced_version = Some(eb.buffer.version());
}

/// What a key that asks for the language server leads to.
#[derive(Clone, Copy, Debug, PartialEq, Eq, Structural)]
pub enum LspStep {
    /// Nothing more.
    Done,
    /// Ask where the name at this place is defined.
    AskDefinition { line: u32, character: u32 },
    /// Ask about the name at this place.
    AskHover { line: u32, character: u32 },
}

/// The start of a diagnostic comes after this place.
pub open spec fn comes_after(d: DiagnosticView, line: u32, character: u32) -> bool {
    d.start_line > line || (d.start_line == line && d.start_character > character)
}

pub open spec fn comes_before(d: DiagnosticView, line: u32, character: u32) -> bool {
    d.start_line < line || (d.start_line == line && d.start_character < character)
}

/// The first diagnostic from the `i`-th on that comes after a place.
pub open spec fn first_after(s: Seq<DiagnosticView>, line: u32, character: u32, i: int) -> Option<int>
    decreases s.len() - i,
{
    if i >= s.len() {
        None
    } else if comes_after(s[i], line, character) {
        Some(i)
    } else {
        first_after(s, line, character, i + 1)
    }
}

/// The last of the first `i` diagnostics that comes before a place.
pub open spec fn last_before(s: Seq<DiagnosticView>, line: u32, character: u32, i: int) -> Option<int>
    decreases i,
{
    if i <= 0 {
        None
    } else if comes_before(s[i - 1], line, character) {
        Some(i - 1)
    } else {
        last_before(s, line, character, i - 1)
    }
}

/// The next diagnostic, from the start again behind the last one.
pub open spec fn next_diagnostic(s: Seq<DiagnosticView>, line: u32, character: u32) -> int {
    match first_after(s, line, character, 0) {
        Some(i) => i,
        None => 0,
    }
}

/// The diagnostic before, from the end again before the first one.
pub open spec fn previous_diagnostic(s: Seq<DiagnosticView>, line: u32, character: u32) -> int {
    match last_before(s, line, character, s.len() as int) {
        Some(i) => i,
        None => s.len() - 1,
    }
}

/// The cursor put at a line and a byte in it.
pub open spec fn landed(eb: EditorView, line: u32, character: u32) -> EditorView {
    let o = imin(nth_line(eb.doc.text, line as int) + character, usize::MAX as int);
    eb.with_cursor(snap_of(eb.doc.text, o))
}

/// Put the cursor at a line and a byte in it.
pub fn land_at(eb: &mut EditorBuffer, line: u32, character: u32)
    requires
        old(eb).wf(),
        text_fits(old(eb)@.doc.text),
    ensures
        final(eb).wf(),
        final(eb)@ == landed(old(eb)@, line, character),
{
    let bytes = collect_bytes(&eb.buffer);
    let start: usize = byte_at_line(bytes.as_slice(), line as usize);
    eb.place_cursor(start.saturating_add(character as usize));
}

fn find_diagnostic(diags: &[Diagnostic], line: u32, character: u32, next: bool) -> (r: usize)
    requires
        diags@.len() > 0,
    ensures
        r < diags@.len(),
        r == (if next {
            next_diagnostic(diagnostics_of(diags@), line, character)
        } else {
            previous_diagnostic(diagnostics_of(diags@), line, character)
        }),
{
    let ghost s = diagnostics_of(diags@);
    let n: usize = diags.len();
    if next {
        let mut i: usize = 0;
        while i < n
            invariant
                next,
                i <= n == diags@.len(),
                s == diagnostics_of(diags@),
                first_after(s, line, character, i as int) == first_after(s, line, character, 0),
            decreases n - i,
        {
            assert(s[i as int] == diags@[i as int]@);
            if diags[i].start_line > line || (diags[i].start_line == line
                && diags[i].start_character > character) {
                return i;
            }
            i += 1;
        }
        0
    } else {
        let mut i: usize = n;
        while i > 0
            invariant
                !next,
                i <= n == diags@.len(),
                s == diagnostics_of(diags@),
                last_before(s, line, character, i as int) == last_before(
                    s,
                    line,
                    character,
                    n as int,
                ),
            decreases i,
        {
            assert(s[i - 1] == diags@[i - 1]@);
            if diags[i - 1].start_line < line || (diags[i - 1].start_line == line
                && diags[i - 1].start_character < character) {
                return i - 1;
            }
            i -= 1;
        }
        n - 1
    }
}

pub open spec fn opt_client(o: Option<&LspClient>) -> Option<ClientView> {
    match o {
        Some(c) => Some(c@),
        None => None,
    }
}

pub open spec fn opt_uri(o: Option<&str>) -> Option<Seq<char>> {
    match o {
        Some(u) => Some(u@),
        None => None,
    }
}

/// What a key that asks for the language server does. `uri` is that of the
/// buffer's file; `client` is that of its language.
pub open spec fn lsp_dispatched(
    action: LspAction,
    eb: EditorView,
    client: Option<ClientView>,
    uri: Option<Seq<char>>,
    message: Seq<char>,
) -> (EditorView, Seq<char>, LspStep) {
    let (line, character) = eb.line_col();
    if eb.lang is None {
        (eb, "no LSP server for this file"@, LspStep::Done)
    } else if uri is None {
        (eb, "LSP: current buffer has no URI"@, LspStep::Done)
    } else if client is None {
        (eb, "no LSP server for this file"@, LspStep::Done)
    } else {
        match action {
            LspAction::GotoDefinition => (eb, message, LspStep::AskDefinition { line, character }),
            LspAction::Hover => (eb, message, LspStep::AskHover { line, character }),
            _ => {
                let found = (client->0).diagnostics_of(uri->0);
                if found.len() == 0 {
                    (eb, "no diagnostics"@, LspStep::Done)
                } else {
                    let d = found[if action is NextDiagnostic {
                        next_diagnostic(found, line, character)
                    } else {
                        previous_diagnostic(found, line, character)
                    }];
                    (landed(eb, d.start_line, d.start_character), message, LspStep::Done)
                }
            },
        }
    }
}

/// Serve a key that asks for the language server. Diagnostics are at hand: the
/// cursor goes to the next one or the one before. For a definition or a hover
/// text the server is to be told how the buffer is now, and then asked.
pub fn dispatch_lsp(
    action: LspAction,
    client: Option<&LspClient>,
    eb: &mut EditorBuffer,
    uri: Option<&str>,
    ex_message: &mut String,
) -> (r: LspStep)
    requires
        old(eb).wf(),
        text_fits(old(eb)@.doc.text),
    ensures
        final(eb).wf(),
        (final(eb)@, final(ex_message)@, r) == lsp_dispatched(
            action,
            old(eb)@,
            opt_client(client),
            opt_uri(uri),
            old(ex_message)@,
        ),
{
    if eb.lang_id.is_none() {
        *ex_message = "no LSP server for this file".to_owned();
        return LspStep::Done;
    }
    let uri: &str = match uri {
        Some(u) => u,
        None => {
            *ex_message = "LSP: current buffer has no URI".to_owned();
            return LspStep::Done;
        },
    };
    let client: &LspClient = match client {
        Some(c) => c,
        None => {
            *ex_message = "no LSP server for this file".to_owned();
            return LspStep::Done;
        },
    };
    let (line, character) = cursor_line_col(eb);
    let next: bool = match action {
        LspAction::GotoDefinition => {
            return LspStep::AskDefinition { line, character };
        },
        LspAction::Hover => {
            return LspStep::AskHover { line, character };
        },
        LspAction::NextDiagnostic => true,
        LspAction::PrevDiagnostic => false,
    };
    let diags = client.diagnostics_for(uri);
    assert(diagnostics_of(diags@).len() == diags@.len());
    if diags.len() == 0 {
        *ex_message = "no diagnostics".to_owned();
        return LspStep::Done;
    }
    let i: usize = find_diagnostic(diags, line, character, next);
    assert(diagnostics_of(diags@)[i as int] == diags@[i as int]@);
    land_at(eb, diags[i].start_line, diags[i].start_character);
    LspStep::Done
}

// ---------------------------------------------------------------------------
// Answers of the language server
// ---------------------------------------------------------------------------

/// What an answer leads to.
#[derive(Debug)]
pub enum EventStep {
    /// Nothing more.
    Done,
    /// Show this file, and put the cursor at this place in it.
    Goto { path: String, line: u32, character: u32 },
}

pub enum StepView {
    Done,
    Goto { path: Seq<char>, line: u32, character: u32 },
}

impl View for EventStep {
    type V = StepView;

    open spec fn view(&self) -> StepView {
        match self {
            EventStep::Done => StepView::Done,
            EventStep::Goto { path, line, character } => StepView::Goto {
                path: path@,
                line: *line,
                character: *character,
            },
        }
    }
}

/// What an answer can change.
#[verifier::ext_equal]
pub struct SessionView {
    pub buffers: ListView,
    pub hover: Option<Seq<char>>,
    pub jumps: JumpView,
    pub message: Seq<char>,
    pub popup: UiView,
}

/// The buffer that a request was about, if it is still open and as it was.
pub open spec fn fresh_buffer(s: Seq<EditorView>, meta: Option<MetaView>) -> Option<int> {
    match meta {
        Some(m) => match m.path {
            Some(path) => match index_by_path(s, path, 0) {
                Some(i) => if s[i].doc.version == m.version {
                    Some(i)
                } else {
                    None
                },
                None => None,
            },
            None => None,
        },
        None => None,
    }
}

/// A hover answer: the text is shown, or the message says why there is none.
pub open spec fn hover_answered(
    s: SessionView,
    meta: Option<MetaView>,
    result: Result<Option<Seq<char>>, ErrorView>,
) -> SessionView {
    if fresh_buffer(s.buffers.list, meta) is None {
        s
    } else {
        match result {
            Ok(Some(t)) => SessionView { hover: Some(t), ..s },
            Ok(None) => SessionView { message: "no hover info"@, ..s },
            Err(e) => SessionView { message: "LSP error: "@ + e.message, ..s },
        }
    }
}

/// A definition answer: the buffer that asked is shown again, the place where
/// the cursor was is remembered, and the cursor goes to the definition, in this
/// file or in another one.
pub open spec fn definition_answered(
    s: SessionView,
    meta: Option<MetaView>,
    result: Result<Option<LocationView>, ErrorView>,
    uris: Seq<Option<Seq<char>>>,
) -> (SessionView, StepView) {
    match fresh_buffer(s.buffers.list, meta) {
        None => (s, StepView::Done),
        Some(i) => match result {
            Err(e) => (
                SessionView { message: "LSP error: "@ + e.message, ..s },
                StepView::Done,
            ),
            Ok(None) => (SessionView { message: "no definition found"@, ..s }, StepView::Done),
            Ok(Some(loc)) => {
                let shown = SessionView {
                    buffers: ListView { current: i, ..s.buffers },
                    jumps: match (meta->0).pre_jump {
                        Some(p) => s.jumps.recorded(p),
                        None => s.jumps,
                    },
                    ..s
                };
                if uris[i] == Some(loc.uri) {
                    (
                        SessionView {
                            buffers: ListView {
                                list: s.buffers.list.update(
                                    i,
                                    landed(s.buffers.list[i], loc.line, loc.character),
                                ),
                                current: i,
                            },
                            ..shown
                        },
                        StepView::Done,
                    )
                } else if has_prefix(loc.uri, "file://"@) {
                    (
                        shown,
                        StepView::Goto {
                            path: loc.uri.skip("file://"@.len() as int),
                            line: loc.line,
                            character: loc.character,
                        },
                    )
                } else {
                    (
                        SessionView {
                            message: "LSP: cannot parse target URI: "@ + loc.uri,
                            ..shown
                        },
                        StepView::Done,
                    )
                }
            },
        },
    }
}

/// A completion answer. One that is not awaited any more changes nothing; one
/// that is out of date or an error only ends the waiting.
pub open spec fn completion_answered(
    s: SessionView,
    meta: Option<MetaView>,
    id: u64,
    result: Result<crate::json::JsonView, ErrorView>,
) -> SessionView {
    if s.popup.request_id != Some(id) || meta is None {
        s
    } else {
        match (fresh_buffer(s.buffers.list, meta), result) {
            (Some(i), Ok(v)) => {
                let eb = s.buffers.list[i];
                SessionView {
                    popup: s.popup.answered(
                        v,
                        if anchored(s.popup, eb) {
                            typed(s.popup, eb)
                        } else {
                            Seq::empty()
                        },
                    ),
                    ..s
                }
            },
            _ => SessionView { popup: UiView { request_id: None, ..s.popup }, ..s },
        }
    }
}

/// What an answer does, where `meta` is what was known of its request.
pub open spec fn event_handled(
    s: SessionView,
    meta: Option<MetaView>,
    event: EventView,
    uris: Seq<Option<Seq<char>>>,
) -> (SessionView, StepView) {
    match event {
        EventView::DiagnosticsUpdated { .. } => (s, StepView::Done),
        EventView::Hover { result, .. } => (hover_answered(s, meta, result), StepView::Done),
        EventView::Definition { result, .. } => definition_answered(s, meta, result, uris),
        EventView::Completion { id, result } => (
            completion_answered(s, meta, id, result),
            StepView::Done,
        ),
    }
}

pub open spec fn event_id(event: EventView) -> Option<u64> {
    match event {
        EventView::Hover { id, .. } => Some(id),
        EventView::Definition { id, .. } => Some(id),
        EventView::Completion { id, .. } => Some(id),
        EventView::DiagnosticsUpdated { .. } => None,
    }
}

/// What was known of the request that an event answers.
pub open spec fn meta_of(m: Map<u64, RequestMeta>, event: EventView) -> Option<MetaView> {
    match event_id(event) {
        Some(id) => if m.contains_key(id) {
            Some(m[id]@)
        } else {
            None
        },
        None => None,
    }
}

pub open spec fn uris_of(s: Seq<Option<String>>) -> Seq<Option<Seq<char>>> {
    s.map_values(|o: Option<String>| opt_text(o))
}

pub open spec fn opt_meta(o: Option<RequestMeta>) -> Option<MetaView> {
    match o {
        Some(m) => Some(m@),
        None => None,
    }
}

fn find_fresh(buffers: &[EditorBuffer], meta: &Option<RequestMeta>) -> (r: Option<usize>)
    ensures
        opt_index(r) == fresh_buffer(views(buffers@), opt_meta(*meta)),
        r matches Some(i) ==> i < buffers@.len(),
{
    match meta {
        Some(m) => match &m.buf_path {
            Some(path) => match buffer_index_by_path(buffers, path.as_str()) {
                Some(i) => {
                    assert(views(buffers@)[i as int] == buffers@[i as int]@);
                    if buffers[i].buffer.version() == m.buffer_version {
                        Some(i)
                    } else {
                        None
                    }
                },
                None => None,
            },
            None => None,
        },
        None => None,
    }
}

fn lsp_error(e: &LspError) -> (r: String)
    ensures
        r@ == "LSP error: "@ + e.message@,
{
    glue("LSP error: ", e.message.as_str())
}

pub open spec fn found_of(r: Result<Option<DefinitionLocation>, LspError>) -> Result<
    Option<LocationView>,
    ErrorView,
> {
    match r {
        Ok(l) => Ok(opt_location(l)),
        Err(e) => Err(e@),
    }
}

fn answer_definition(
    result: Result<Option<DefinitionLocation>, LspError>,
    meta: Option<RequestMeta>,
    buffers: &mut Vec<EditorBuffer>,
    current: &mut usize,
    uris: &[Option<String>],
    jumps: &mut JumpList,
    ex_message: &mut String,
) -> (r: EventStep)
    requires
        all_wf(old(buffers)@),
        uris@.len() == old(buffers)@.len(),
        forall|i: int| 0 <= i < old(buffers)@.len() ==> text_fits((#[trigger] old(buffers)@[i])@.doc.text),
    ensures
        all_wf(final(buffers)@),
        forall|hover: Option<Seq<char>>, popup: UiView|
            (
                SessionView {
                    buffers: list_of(final(buffers)@, *final(current)),
                    hover,
                    jumps: final(jumps)@,
                    message: final(ex_message)@,
                    popup,
                },
                r@,
            ) == #[trigger] definition_answered(
                SessionView {
                    buffers: list_of(old(buffers)@, *old(current)),
                    hover,
                    jumps: old(jumps)@,
                    message: old(ex_message)@,
                    popup,
                },
                opt_meta(meta),
                found_of(result),
                uris_of(uris@),
            ),
{
    let idx: usize = match find_fresh(buffers.as_slice(), &meta) {
        Some(i) => i,
        None => {
            return EventStep::Done;
        },
    };
    let loc: DefinitionLocation = match result {
        Err(e) => {
            *ex_message = lsp_error(&e);
            return EventStep::Done;
        },
        Ok(None) => {
            *ex_message = "no definition found".to_owned();
            return EventStep::Done;
        },
        Ok(Some(l)) => l,
    };
    *current = idx;
    if let Some(m) = meta {
        if let Some(p) = m.pre_jump {
            jumps.record(p);
        }
    }
    assert(uris_of(uris@)[idx as int] == opt_text(uris@[idx as int]));
    let here: bool = match &uris[idx] {
        Some(u) => str_eq(u.as_str(), loc.uri.as_str()),
        None => false,
    };
    if here {
        let ghost before = buffers@;
        land_at(&mut buffers[idx], loc.line, loc.character);
        assert(views(buffers@) =~= views(before).update(
            idx as int,
            landed(before[idx as int]@, loc.line, loc.character),
        ));
        return EventStep::Done;
    }
    match uri_to_path(loc.uri.as_str()) {
        Some(path) => EventStep::Goto { path, line: loc.line, character: loc.character },
        None => {
            *ex_message = glue("LSP: cannot parse target URI: ", loc.uri.as_str());
            EventStep::Done
        },
    }
}

fn answer_completion(
    id: u64,
    result: Result<crate::json::Json, LspError>,
    meta: Option<RequestMeta>,
    buffers: &[EditorBuffer],
    comp: &mut CompletionUi,
)
    requires
        all_wf(buffers@),
        old(comp).wf(),
    ensures
        final(comp).wf(),
        forall|s: SessionView|
            s.buffers.list == views(buffers@) && s.popup == old(comp)@ ==> (SessionView {
                popup: final(comp)@,
                ..s
            }) == #[trigger] completion_answered(s, opt_meta(meta), id, answer_of(result)),
{
    let awaited: bool = match comp.request_id {
        Some(r) => r == id,
        None => false,
    };
    if !awaited || meta.is_none() {
        return;
    }
    match (find_fresh(buffers, &meta), result) {
        (Some(i), Ok(v)) => {
            assert(views(buffers@)[i as int] == buffers@[i as int]@);
            comp.fill(&v, &buffers[i]);
        },
        _ => {
            comp.request_id = None;
        },
    }
}

/// Take in what the language server answered. `outstanding` holds what was
/// known of the open requests to this server; `uris` are those of the buffers'
/// files. An answer to an unknown request is dropped, and so is one about a
/// buffer that was closed or changed since.
pub fn handle_lsp_event(
    event: LspEvent,
    outstanding: &mut HashMap<u64, RequestMeta>,
    buffers: &mut Vec<EditorBuffer>,
    current: &mut usize,
    uris: &[Option<String>],
    hover: &mut Option<String>,
    jumps: &mut JumpList,
    ex_message: &mut String,
    comp: &mut CompletionUi,
) -> (r: EventStep)
    requires
        all_wf(old(buffers)@),
        uris@.len() == old(buffers)@.len(),
        forall|i: int| 0 <= i < old(buffers)@.len() ==> text_fits((#[trigger] old(buffers)@[i])@.doc.text),
        old(comp).wf(),
    ensures
        all_wf(final(buffers)@),
        final(comp).wf(),
        (
            SessionView {
                buffers: list_of(final(buffers)@, *final(current)),
                hover: opt_text(*final(hover)),
                jumps: final(jumps)@,
                message: final(ex_message)@,
                popup: final(comp)@,
            },
            r@,
        ) == event_handled(
            SessionView {
                buffers: list_of(old(buffers)@, *old(current)),
                hover: opt_text(*old(hover)),
                jumps: old(jumps)@,
                message: old(ex_message)@,
                popup: old(comp)@,
            },
            meta_of(old(outstanding)@, event@),
            event@,
            uris_of(uris@),
        ),
        final(outstanding)@ == (match event_id(event@) {
            Some(id) => old(outstanding)@.remove(id),
            None => old(outstanding)@,
        }),
{
    match event {
        LspEvent::DiagnosticsUpdated { .. } => EventStep::Done,
        LspEvent::Hover { id, result } => {
            let meta = outstanding.remove(&id);
            match find_fresh(buffers.as_slice(), &meta) {
                Some(_) => match result {
                    Ok(Some(t)) => {
                        *hover = Some(t);
                    },
                    Ok(None) => {
                        *ex_message = "no hover info".to_owned();
                    },
                    Err(e) => {
                        *ex_message = lsp_error(&e);
                    },
                },
                None => {},
            }
            EventStep::Done
        },
        LspEvent::Definition { id, result } => {
            let meta = outstanding.remove(&id);
            answer_definition(result, meta, buffers, current, uris, jumps, ex_message)
        },
        LspEvent::Completion { id, result } => {
            let meta = outstanding.remove(&id);
            answer_completion(id, result, meta, buffers.as_slice(), comp);
            EventStep::Done
        },
    }
}

// ---------------------------------------------------------------------------
// Laws
// ---------------------------------------------------------------------------

/// An answer about a buffer that changed since, or was closed, moves no cursor
/// and shows nothing.
pub proof fn stale_answers_change_nothing(
    s: SessionView,
    meta: Option<MetaView>,
    event: EventView,
    uris: Seq<Option<Seq<char>>>,
)
    requires
        fresh_buffer(s.buffers.list, meta) is None,
    ensures
        ({
            let (after, step) = event_handled(s, meta, event, uris);
            &&& step == StepView::Done
            &&& after.buffers == s.buffers
            &&& after.hover == s.hover
            &&& after.jumps == s.jumps
            &&& after.message == s.message
            &&& after.popup.items == s.popup.items
            &&& after.popup.filtered == s.popup.filtered
        }),
{
}

/// A completion answer that is not awaited any more changes nothing at all.
pub proof fn superseded_completions_are_dropped(
    s: SessionView,
    meta: Option<MetaView>,
    id: u64,
    result: Result<crate::json::JsonView, ErrorView>,
    uris: Seq<Option<Seq<char>>>,
)
    requires
        s.popup.request_id != Some(id),
    ensures
        event_handled(s, meta, EventView::Completion { id, result }, uris) == (s, StepView::Done),
{
}

/// Going to the next buffer and back leads to the same one.
pub proof fn previous_buffer_takes_back_next(s: CommandState)
    requires
        s.buffers.ok(),
        s.buffers.list.len() > 0,
    ensures
        commanded(commanded(s, ExRequest::NextBuffer).0, ExRequest::PrevBuffer).0 == s,
{
    let n = s.buffers.list.len() as int;
    if n > 1 {
        lemma_next(s.buffers.current, n);
        lemma_next((s.buffers.current + 1) % n, n);
    }
}

/// No command but a forced one closes a buffer with unsaved changes.
pub proof fn commands_keep_unsaved_buffers(s: CommandState, action: ExRequest)
    requires
        s.buffers.ok(),
        s.buffers.current_dirty(),
        !(action is ForceQuit),
    ensures
        commanded(s, action).0.buffers.list == s.buffers.list,
        !(commanded(s, action).1 is Quit),
{
}

/// A diagnostic starts before a place in the text.
pub open spec fn starts_before(d: DiagnosticView, place: (u32, u32)) -> bool {
    d.start_line < place.0 || d.start_line == place.0 && d.start_character < place.1
}

/// A diagnostic starts behind a place in the text.
pub open spec fn starts_behind(d: DiagnosticView, place: (u32, u32)) -> bool {
    d.start_line > place.0 || d.start_line == place.0 && d.start_character > place.1
}

proof fn lemma_first_after(s: Seq<DiagnosticView>, line: u32, character: u32, i: int)
    requires
        0 <= i <= s.len(),
    ensures
        match first_after(s, line, character, i) {
            Some(k) => i <= k < s.len() && starts_behind(s[k], (line, character)) && forall|j: int|
                i <= j < k ==> !starts_behind(#[trigger] s[j], (line, character)),
            None => forall|j: int|
                i <= j < s.len() ==> !starts_behind(#[trigger] s[j], (line, character)),
        },
    decreases s.len() - i,
{
    if i < s.len() && !comes_after(s[i], line, character) {
        lemma_first_after(s, line, character, i + 1);
    }
}

proof fn lemma_last_before(s: Seq<DiagnosticView>, line: u32, character: u32, i: int)
    requires
        0 <= i <= s.len(),
    ensures
        match last_before(s, line, character, i) {
            Some(k) => 0 <= k < i && starts_before(s[k], (line, character)) && forall|j: int|
                k < j < i ==> !starts_before(#[trigger] s[j], (line, character)),
            None => forall|j: int|
                0 <= j < i ==> !starts_before(#[trigger] s[j], (line, character)),
        },
    decreases i,
{
    if i > 0 && !comes_before(s[i - 1], line, character) {
        lemma_last_before(s, line, character, i - 1);
    }
}

/// The diagnostics of a buffer's file, where there are any.
pub open spec fn known_diagnostics(
    eb: EditorView,
    client: Option<ClientView>,
    uri: Option<Seq<char>>,
) -> Seq<DiagnosticView> {
    if eb.lang is Some && client is Some && uri is Some {
        (client->0).diagnostics_of(uri->0)
    } else {
        Seq::empty()
    }
}

/// The key for the next diagnostic puts the cursor where one starts behind it, and
/// none listed before that one does. Only if none starts behind the cursor is it
/// the first of all.
pub proof fn the_next_diagnostic_is_the_nearest(
    eb: EditorView,
    client: Option<ClientView>,
    uri: Option<Seq<char>>,
    message: Seq<char>,
)
    requires
        known_diagnostics(eb, client, uri).len() > 0,
    ensures
        ({
            let s = known_diagnostics(eb, client, uri);
            let place = eb.line_col();
            let (after, said, step) = lsp_dispatched(
                LspAction::NextDiagnostic,
                eb,
                client,
                uri,
                message,
            );
            &&& said == message && step == LspStep::Done
            &&& exists|k: int|
                {
                    &&& 0 <= k < s.len()
                    &&& after == landed(eb, (#[trigger] s[k]).start_line, s[k].start_character)
                    &&& forall|j: int| 0 <= j < k ==> !starts_behind(#[trigger] s[j], place)
                    &&& if exists|j: int| 0 <= j < s.len() && starts_behind(#[trigger] s[j], place) {
                        starts_behind(s[k], place)
                    } else {
                        k == 0
                    }
                }
        }),
{
    let s = known_diagnostics(eb, client, uri);
    let (line, character) = eb.line_col();
    lemma_first_after(s, line, character, 0);
    let k = next_diagnostic(s, line, character);
    assert(0 <= k < s.len());
    assert(lsp_dispatched(LspAction::NextDiagnostic, eb, client, uri, message).0 == landed(
        eb,
        s[k].start_line,
        s[k].start_character,
    ));
}

/// The key for the diagnostic before puts the cursor where one starts before it,
/// and none listed behind that one does. Only if none starts before the cursor is
/// it the last of all.
pub proof fn the_previous_diagnostic_is_the_nearest(
    eb: EditorView,
    client: Option<ClientView>,
    uri: Option<Seq<char>>,
    message: Seq<char>,
)
    requires
        known_diagnostics(eb, client, uri).len() > 0,
    ensures
        ({
            let s = known_diagnostics(eb, client, uri);
            let place = eb.line_col();
            let (after, said, step) = lsp_dispatched(
                LspAction::PrevDiagnostic,
                eb,
                client,
                uri,
                message,
            );
            &&& said == message && step == LspStep::Done
            &&& exists|k: int|
                {
                    &&& 0 <= k < s.len()
                    &&& after == landed(eb, (#[trigger] s[k]).start_line, s[k].start_character)
                    &&& forall|j: int|
                        k < j < s.len() ==> !starts_before(#[trigger] s[j], place)
                    &&& if exists|j: int| 0 <= j < s.len() && starts_before(#[trigger] s[j], place) {
                        starts_before(s[k], place)
                    } else {
                        k == s.len() - 1
                    }
                }
        }),
{
    let s = known_diagnostics(eb, client, uri);
    let (line, character) = eb.line_col();
    lemma_last_before(s, line, character, s.len() as int);
    let k = previous_diagnostic(s, line, character);
    assert(0 <= k < s.len());
    assert(lsp_dispatched(LspAction::PrevDiagnostic, eb, client, uri, message).0 == landed(
        eb,
        s[k].start_line,
        s[k].start_character,
    ));
}

/// The place that a server is asked about is that of the cursor: the line breaks
/// before it are counted, and the bytes since the last of them. Landing there
/// leads back to the cursor.
pub proof fn the_place_of_the_cursor_leads_back(eb: EditorView)
    requires
        eb.sels.ok(),
        eb.doc.text.len() < 0x1_0000_0000,
        eb.doc.text.len() <= usize::MAX,
        eb.head() < eb.doc.text.len(),
        on_char(eb.doc.text, eb.head()),
    ensures
        ({
            let (line, character) = eb.line_col();
            let from = eb.head() - character;
            &&& line == line_of(eb.doc.text, eb.head())
            &&& 0 <= from
            &&& from > 0 ==> eb.doc.text[from - 1] == '\n' as u8
            &&& forall|i: int| from <= i < eb.head() ==> #[trigger] eb.doc.text[i] != '\n' as u8
            &&& landed(eb, line, character).head() == eb.head()
        }),
{
    let s = eb.doc.text;
    let h = eb.head();
    a_line_lies_between_breaks(s, h);
    line_breaks_number_the_lines(s, h);
    lemma_line_of(s, h);
    lemma_newlines_bound(s, h);
}

/// The keys that the front end serves itself: Ctrl-o goes back, Tab and Ctrl-i go
/// forward, `g` and then `h` asks about the name at the cursor. None of them is
/// one while another prefix waits for its key.
pub proof fn front_keys_are_served(k: KeyEvent, pending_g: bool, pending_z: bool)
    ensures
        front_key_of(false, pending_g, pending_z, k) is None,
        front_key_of(true, false, true, k) is None,
        front_key_of(true, true, pending_z, KeyEvent { key: Key::Char('h'), mods: Mods(0) }) == Some(
            FrontKey::Ask(LspAction::Hover),
        ),
        k != (KeyEvent { key: Key::Char('h'), mods: Mods(0) }) ==> front_key_of(
            true,
            true,
            pending_z,
            k,
        ) is None,
        front_key_of(
            true,
            false,
            false,
            KeyEvent { key: Key::Char('o'), mods: Mods(CTRL_BIT) },
        ) == Some(FrontKey::Jump(JumpAction::Back)),
        front_key_of(
            true,
            false,
            false,
            KeyEvent { key: Key::Char('i'), mods: Mods(CTRL_BIT) },
        ) == Some(FrontKey::Jump(JumpAction::Forward)),
        front_key_of(true, false, false, KeyEvent { key: Key::Tab, mods: k.mods }) == Some(
            FrontKey::Jump(JumpAction::Forward),
        ),
        k.mods == Mods(0) && k.key is Char ==> front_key_of(true, false, false, k) is None,
{
}

/// What a command that saves, opens or reads again leaves to the caller; none of
/// them changes the list of buffers.
pub proof fn commands_leave_files_to_the_caller(s: CommandState, path: Seq<char>)
    ensures
        commanded(s, ExRequest::OpenFile(path)) == (s, AfterView::Open(path)),
        commanded(s, ExRequest::Save) == (s, AfterView::Save { force: false, then_close: false }),
        commanded(s, ExRequest::ForceSave) == (
            s,
            AfterView::Save { force: true, then_close: false },
        ),
        commanded(s, ExRequest::SaveAndQuit) == (
            s,
            AfterView::Save { force: false, then_close: true },
        ),
        commanded(s, ExRequest::Reload) == (s, AfterView::Reload),
{
}

/// Quitting closes the shown buffer: at once when it has no unsaved changes or
/// when forced, else after a question about that very buffer. The editor ends with
/// its last buffer.
pub proof fn quitting_closes_the_shown_buffer(s: CommandState)
    requires
        s.buffers.ok(),
        s.buffers.list.len() > 0,
        s.buffers.list.len() <= usize::MAX,
    ensures
        ({
            let l = s.buffers;
            let (quit, after) = commanded(s, ExRequest::Quit);
            let (forced, end) = commanded(s, ExRequest::ForceQuit);
            let dirty = l.list[l.current].dirty();
            &&& forced.buffers.list == l.list.remove(l.current) && forced.prompt == s.prompt
            &&& end is Quit <==> l.list.len() == 1
            &&& !dirty ==> quit == forced && after == end
            &&& dirty ==> after is Continue && quit.buffers == l && (quit.prompt matches Some(p)
                && p.kind == (crate::prompt::PromptKind::CloseBufferConfirm {
                buffer_index: l.current as usize,
            }))
        }),
{
}

/// The list of buffers marks the shown one, numbers all from one on and ends each
/// entry with the buffer's label.
pub proof fn listings_mark_the_shown_buffer(l: ListView, i: int)
    requires
        0 <= i < l.list.len(),
    ensures
        ({
            let e = list_entry(l, i);
            let label = l.list[i].label();
            &&& e.len() > label.len()
            &&& e[0] == (if i == l.current { '*' } else { ' ' })
            &&& e.skip(e.len() - label.len()) == label
            &&& e.take(e.len() - label.len()) == seq![e[0]] + decimal(i + 1) + seq![' ']
            &&& i > 0 ==> listing_text(l, i + 1) == listing_text(l, i) + "  "@ + e
        }),
{
    reveal_strlit("*");
    reveal_strlit(" ");
    assert("*"@ =~= seq!['*']);
    assert(" "@ =~= seq![' ']);
    let e = list_entry(l, i);
    let label = l.list[i].label();
    assert(e.skip(e.len() - label.len()) =~= label);
    assert(e.take(e.len() - label.len()) =~= seq![e[0]] + decimal(i + 1) + seq![' ']);
}

/// Jumping leads to the last place recorded, or tells that there is none and moves
/// nothing.
pub proof fn jumping_leads_to_the_last_place(
    jumps: JumpView,
    here: Option<Place>,
    message: Seq<char>,
)
    ensures
        ({
            let (after, told, to) = jumped(JumpAction::Back, jumps, here, message);
            &&& jumps.back.len() > 0 ==> to == Some(jumps.back.last()) && told == message
                && after.back == jumps.back.drop_last()
            &&& jumps.back.len() == 0 ==> to is None && after == jumps && told.len() > 0
        }),
        ({
            let (after, told, to) = jumped(JumpAction::Forward, jumps, here, message);
            &&& jumps.forward.len() > 0 ==> to == Some(jumps.forward.last()) && told == message
                && after.forward == jumps.forward.drop_last()
            &&& jumps.forward.len() == 0 ==> to is None && after == jumps && told.len() > 0
        }),
{
    reveal_strlit("no earlier jumps");
    reveal_strlit("no later jumps");
    assert("no earlier jumps"@.len() > 0 && "no later jumps"@.len() > 0);
}

/// A definition in the buffer that was asked from moves its cursor there; one in
/// another file is left to the caller, by the path in its URI. Either way the place
/// that was left is recorded.
pub proof fn definitions_are_gone_to(
    s: SessionView,
    meta: MetaView,
    loc: LocationView,
    uris: Seq<Option<Seq<char>>>,
    i: int,
    path: Seq<char>,
)
    requires
        fresh_buffer(s.buffers.list, Some(meta)) == Some(i),
        0 <= i < s.buffers.list.len(),
    ensures
        ({
            let (after, step) = definition_answered(s, Some(meta), Ok(Some(loc)), uris);
            &&& after.buffers.current == i
            &&& after.jumps == match meta.pre_jump {
                Some(p) => JumpView { back: s.jumps.back.push(p), forward: Seq::empty() },
                None => s.jumps,
            }
            &&& uris[i] == Some(loc.uri) ==> step is Done && after.buffers.list[i] == landed(
                s.buffers.list[i],
                loc.line,
                loc.character,
            ) && forall|j: int|
                0 <= j < s.buffers.list.len() && j != i ==> #[trigger] after.buffers.list[j]
                    == s.buffers.list[j]
            &&& uris[i] != Some(loc.uri) && loc.uri == "file://"@ + path ==> after.buffers.list
                == s.buffers.list && step == (StepView::Goto {
                path,
                line: loc.line,
                character: loc.character,
            })
        }),
{
    crate::lsp::uris_lead_back(path);
}

/// The text that a server shows for a name is shown if the buffer is as it was
/// when it was asked for.
pub proof fn hover_answers_are_shown(s: SessionView, meta: Option<MetaView>, t: Seq<char>)
    requires
        fresh_buffer(s.buffers.list, meta) is Some,
    ensures
        hover_answered(s, meta, Ok(Some(t))) == (SessionView { hover: Some(t), ..s }),
        hover_answered(s, meta, Ok(None)).hover == s.hover,
        hover_answered(s, meta, Ok(None)).message.len() > 0,
{
    reveal_strlit("no hover info");
    assert("no hover info"@.len() > 0);
}

/// An answer is fresh if the file that it is about is open and has the version
/// that it had when the request was sent.
pub proof fn answers_are_fresh_for_the_same_version(s: Seq<EditorView>, meta: MetaView)
    ensures
        match fresh_buffer(s, Some(meta)) {
            Some(i) => 0 <= i < s.len() && s[i].path == meta.path && meta.path is Some
                && s[i].doc.version == meta.version,
            None => true,
        },
        fresh_buffer(s, None) is None,
{
    if meta.path is Some {
        crate::editor::files_are_found_by_path(s, meta.path->0, 0);
    }
}

/// The next buffer is the one that follows, behind the last the first; the
/// previous one the other way round. The buffers stay as they are.
pub proof fn the_following_buffer_is_next(s: CommandState)
    requires
        s.buffers.ok(),
        s.buffers.list.len() > 0,
    ensures
        ({
            let l = s.buffers;
            let last = l.list.len() - 1;
            let next = commanded(s, ExRequest::NextBuffer);
            let prev = commanded(s, ExRequest::PrevBuffer);
            &&& next.0.buffers.list == l.list && prev.0.buffers.list == l.list
            &&& next.0.buffers.current == if l.current == last { 0 } else { l.current + 1 }
            &&& prev.0.buffers.current == if l.current == 0 { last } else { l.current - 1 }
            &&& next.1 is Continue && prev.1 is Continue
        }),
{
    let n = s.buffers.list.len() as int;
    let i = s.buffers.current;
    assert((i + 1) % n == if i + 1 == n { 0 } else { i + 1 }) by (nonlinear_arith)
        requires
            0 <= i < n,
    ;
    assert((i + n - 1) % n == if i == 0 { n - 1 } else { i - 1 }) by (nonlinear_arith)
        requires
            0 <= i < n,
    ;
}

}
