//! From a list of buffers to a frame: scrolling, the label and the spinner.
use vstd::prelude::*;
use tree_sitter::Tree;
use crate::buffer::collect_bytes;
use crate::editor::{list_of, refresh_bytes_cache, EditorBuffer, EditorView, ListView};
use crate::format::{decimal, push_decimal, push_text};
use crate::highlight::{flatten_to_byte_scopes, HighlightSpan, Highlighter};
use crate::highlight::{scope_at, HighlighterView};
use crate::input::KeyEvent;
use crate::lsp::{diagnostics_of, Diagnostic, DiagnosticView};
use crate::prompt::Prompt;
use crate::render::{
    opt_hover, opt_key, opt_question, preview_matches, preview_of, render, RenderView, MAX_SIDE,
};
use crate::search::SearchState;
use crate::selection::Mode;
use crate::suggest::CompletionUi;
use crate::syntax::{
    edit_tree_all, edited_all, parsable, parse_text, parsed, reusable, tree_to_reuse,
};
use crate::term::Screen;
use crate::text::{
    column_of, imax, imin, indexes, lemma_index_ascending, line_index_cached, slot_of, text_fits,
};
use crate::view::{
    ensure_visible_horizontal, ensure_visible_indexed, gutter_for, gutter_width, scrolled_left,
    scrolled_with_margin, visual_col_at,
};

verus! {

/// The spinner's character at a step.
pub open spec fn spinner_char(step: int) -> char {
    if step % 4 == 0 {
        '|'
    } else if step % 4 == 1 {
        '/'
    } else if step % 4 == 2 {
        '-'
    } else {
        '\\'
    }
}

/// The spinner while an answer is awaited.
pub fn spinner_glyph(busy: bool, step: usize) -> (r: Option<char>)
    ensures
        r == (if busy { Some(spinner_char(step as int)) } else { None }),
{
    if !busy {
        return None;
    }
    let k: usize = step % 4;
    Some(
        if k == 0 {
            '|'
        } else if k == 1 {
            '/'
        } else if k == 2 {
            '-'
        } else {
            '\\'
        },
    )
}

/// Where the line at index `line` ends: where the next one starts, or the end of
/// the text.
pub open spec fn line_stop(starts: Seq<usize>, line: int, len: int) -> int {
    if line + 1 < starts.len() { starts[line + 1] as int } else { len }
}

/// A column as far as it can be counted.
pub open spec fn counted(col: int) -> int {
    imin(col, u16::MAX as int)
}

/// The buffer scrolled so far that its cursor is on a screen of this size.
pub open spec fn scrolled(eb: EditorView, cols: int, rows: int, scrolloff: int) -> EditorView {
    let line = slot_of(eb.starts, eb.head());
    let from = eb.starts[line] as int;
    let content = cols - gutter_width(eb.starts.len() as int, cols);
    EditorView {
        top_line: scrolled_with_margin(line, eb.top_line as int, imax(rows - 1, 0), scrolloff) as usize,
        left_col: scrolled_left(
            counted(column_of(eb.bytes, from, eb.head())),
            counted(column_of(eb.bytes, from, line_stop(eb.starts, line, eb.bytes.len() as int))),
            eb.left_col as int,
            content,
        ) as usize,
        ..eb
    }
}

/// Bring the cached text up to date and scroll so far that the cursor is on a
/// screen of this size, with `scrolloff` lines above and below it where there is
/// room.
pub fn scroll_to_cursor(eb: &mut EditorBuffer, cols: u16, rows: u16, scrolloff: usize)
    requires
        old(eb).wf(),
        old(eb)@.cache_ok(),
        text_fits(old(eb)@.doc.text),
    ensures
        final(eb).wf(),
        final(eb)@.cache_ok(),
        indexes(final(eb)@.starts, final(eb)@.doc.text),
        final(eb)@ == scrolled(
            old(eb)@.refreshed(final(eb)@.starts),
            cols as int,
            rows as int,
            scrolloff as int,
        ),
{
    refresh_bytes_cache(eb);
    let ghost fresh = eb@;
    proof {
        lemma_index_ascending(eb.line_starts@, eb@.doc.text);
    }
    let head: usize = eb.head();
    let viewport_rows: usize = rows.saturating_sub(1) as usize;
    ensure_visible_indexed(
        eb.line_starts.as_slice(),
        head,
        &mut eb.top_line,
        viewport_rows,
        scrolloff,
    );
    let gutter: u16 = gutter_for(eb.line_starts.len(), cols);
    let line: usize = line_index_cached(eb.line_starts.as_slice(), head);
    let from: usize = eb.line_starts[line];
    let n: usize = eb.line_starts.len();
    let to: usize = if n > 1 && line < n - 1 {
        eb.line_starts[line + 1]
    } else {
        eb.cached_bytes.len()
    };
    let head_col: u16 = visual_col_at(eb.cached_bytes.as_slice(), from, head);
    let end_col: u16 = visual_col_at(eb.cached_bytes.as_slice(), from, to);
    ensure_visible_horizontal(head_col, end_col, &mut eb.left_col, cols - gutter);
    assert(eb@ =~= scrolled(fresh, cols as int, rows as int, scrolloff as int));
}

/// Whether the scopes are those of an older text.
pub fn needs_highlight(eb: &EditorBuffer) -> (r: bool)
    ensures
        r == (eb@.lang is Some && eb@.highlighted != Some(eb@.doc.version)),
{
    if eb.lang_id.is_none() {
        return false;
    }
    match eb.highlight_version {
        Some(v) => v != eb.buffer.version(),
        None => true,
    }
}

/// Take in the spans that were found in the text as it is now.
pub fn set_highlight(eb: &mut EditorBuffer, found: &[HighlightSpan])
    requires
        old(eb).wf(),
    ensures
        final(eb).wf(),
        final(eb)@ == (EditorView {
            scopes: final(eb)@.scopes,
            highlighted: Some(old(eb)@.doc.version),
            ..old(eb)@
        }),
        final(eb)@.scopes.len() == old(eb)@.doc.text.len(),
        forall|i: int|
            0 <= i < final(eb)@.scopes.len() ==> #[trigger] final(eb)@.scopes[i] == scope_at(
                found@,
                i,
            ),
{
    let n: usize = eb.buffer.len();
    eb.flat_scopes = flatten_to_byte_scopes(found, n);
    eb.highlight_version = Some(eb.buffer.version());
}

/// The buffer parsed and colored anew, if its text changed since the last time.
/// The changes that were logged are taken out of the log in any case but those in
/// which there is nothing to parse with, and applied to the tree of the last
/// parse. The new parse starts from that tree if it is one of the same grammar;
/// it stays if there is no new one.
pub open spec fn recolored(eb: EditorView, hl: HighlighterView) -> EditorView {
    let drained = EditorView { doc: eb.doc.drained(), ..eb };
    match eb.lang {
        None => eb,
        Some(lang) => if eb.highlighted == Some(eb.doc.version) {
            drained
        } else {
            match hl.parser(lang) {
                None => eb,
                Some(language) => {
                    let old_tree = match eb.tree {
                        Some(t) => Some(edited_all(t, eb.doc.edits)),
                        None => None,
                    };
                    match parsed(language, eb.doc.text, reusable(old_tree, language)) {
                        None => EditorView { tree: old_tree, ..drained },
                        Some(t) => EditorView {
                            tree: Some(t),
                            scopes: Seq::new(
                                eb.doc.text.len(),
                                |i: int| scope_at(hl.spans(lang, t, eb.doc.text), i),
                            ),
                            highlighted: Some(eb.doc.version),
                            ..drained
                        },
                    }
                },
            }
        },
    }
}

/// Parse a buffer that changed and color it anew.
pub fn reparse_and_highlight(eb: &mut EditorBuffer, hl: &Highlighter)
    requires
        old(eb).wf(),
        parsable(old(eb)@.doc.text.len() as int),
    ensures
        final(eb).wf(),
        final(eb)@ == recolored(old(eb)@, hl@),
{
    let lang_id = match eb.lang_id {
        Some(l) => l,
        None => {
            return;
        },
    };
    if !needs_highlight(eb) {
        let _ = eb.buffer.drain_pending_edits();
        return;
    }
    let language = match hl.parser_for(lang_id) {
        Some(p) => p,
        None => {
            return;
        },
    };
    let edits = eb.buffer.drain_pending_edits();
    let last: Option<Tree> = eb.tree.take();
    eb.tree = match last {
        Some(t) => {
            let mut t = t;
            edit_tree_all(&mut t, edits.as_slice());
            Some(t)
        },
        None => None,
    };
    let bytes = collect_bytes(&eb.buffer);
    let from = tree_to_reuse(eb.tree.as_ref(), language);
    let tree = match parse_text(language, bytes.as_slice(), from) {
        Some(t) => t,
        None => {
            return;
        },
    };
    let spans = hl.highlight(lang_id, &tree, bytes.as_slice());
    set_highlight(eb, spans.as_slice());
    eb.tree = Some(tree);
    assert(eb@ =~= recolored(old(eb)@, hl@));
}

/// Coloring a buffer that has not moved since the last time only empties its log,
/// and scopes that are set anew cover the text.
pub proof fn coloring_again_changes_nothing(eb: EditorView, hl: HighlighterView)
    ensures
        ({
            let once = recolored(eb, hl);
            &&& eb.lang is Some && eb.highlighted == Some(eb.doc.version) ==> once == (EditorView {
                doc: eb.doc.drained(),
                ..eb
            })
            &&& once.lang is Some && once.highlighted == Some(once.doc.version) ==> recolored(
                once,
                hl,
            ) == once
            &&& once.highlighted != eb.highlighted ==> once.scopes.len() == once.doc.text.len()
                && once.tree is Some
        }),
{
}

/// The label of the shown buffer: its number where there are several, its name,
/// and marks for unsaved changes and for changes on disk.
pub open spec fn label_of(l: ListView) -> Seq<char> {
    let eb = l.list[l.current];
    let n = l.list.len() as int;
    (if n > 1 {
        "["@ + decimal(l.current + 1) + "/"@ + decimal(n) + "] "@
    } else {
        Seq::empty()
    }) + eb.label() + (if eb.dirty() {
        " [+]"@
    } else {
        Seq::empty()
    }) + (if eb.conflict {
        " [disk!]"@
    } else {
        Seq::empty()
    })
}

/// The label of the shown buffer.
pub fn buffer_label(buffers: &[EditorBuffer], current: usize) -> (r: String)
    requires
        current < buffers@.len(),
    ensures
        r@ == label_of(list_of(buffers@, current)),
{
    let ghost l = list_of(buffers@, current);
    assert(l.list[current as int] == buffers@[current as int]@);
    let n: usize = buffers.len();
    let mut s = String::new();
    if n > 1 {
        push_text(&mut s, "[");
        push_decimal(&mut s, current as u64 + 1);
        push_text(&mut s, "/");
        push_decimal(&mut s, n as u64);
        push_text(&mut s, "] ");
    }
    let name = buffers[current].display_name();
    push_text(&mut s, name.as_str());
    if buffers[current].is_dirty() {
        push_text(&mut s, " [+]");
    }
    if buffers[current].external_change_pending {
        push_text(&mut s, " [disk!]");
    }
    assert(s@ =~= label_of(l));
    s
}

/// Diagnostics are not shown while the text is being typed.
pub open spec fn shown_diagnostics(mode: Mode, ds: Seq<DiagnosticView>) -> Seq<DiagnosticView> {
    if mode == Mode::Insert { Seq::empty() } else { ds }
}

/// Draw the shown buffer, with the matches of the search that is being typed.
/// `diagnostics` are those of its file. The cached text has to be up to date.
pub fn render_all(
    screen: &mut Screen,
    buffers: &[EditorBuffer],
    current: usize,
    mode: Mode,
    ex_input: &str,
    search_input: &str,
    search: &SearchState,
    ex_message: &str,
    last_key: Option<&KeyEvent>,
    last_bytes: &[u8],
    diagnostics: &[Diagnostic],
    prompt: Option<&Prompt>,
    hover: Option<&str>,
    spinner: Option<char>,
    comp: &CompletionUi,
)
    requires
        current < buffers@.len(),
        buffers@[current as int].wf(),
        indexes(buffers@[current as int]@.starts, buffers@[current as int]@.bytes),
        text_fits(buffers@[current as int]@.bytes),
        buffers@[current as int]@.top_line + 0x2_0000 <= usize::MAX,
        old(screen).cols <= MAX_SIDE,
        old(screen).rows <= MAX_SIDE,
        comp.wf(),
    ensures
        final(screen).cols == old(screen).cols,
        final(screen).rows == old(screen).rows,
        ({
            let eb = buffers@[current as int]@;
            final(screen)@ == (RenderView {
                text: eb.bytes,
                starts: eb.starts,
                sels: eb.sels,
                scopes: eb.scopes,
                mode,
                top_line: eb.top_line as int,
                left_col: eb.left_col as int,
                label: label_of(list_of(buffers@, current)),
                ex_input: ex_input@,
                search_input: search_input@,
                matches: preview_of(mode, search@.preview, eb.bytes),
                message: ex_message@,
                last_key: opt_key(last_key),
                last_bytes: last_bytes@,
                diags: shown_diagnostics(mode, diagnostics_of(diagnostics@)),
                prompt: opt_question(prompt),
                hover: opt_hover(hover),
                spinner,
                popup: comp@,
            }).frame(old(screen).cols as int, old(screen).rows as int)
        }),
{
    let eb = &buffers[current];
    let label = buffer_label(buffers, current);
    let matches = preview_matches(eb.cached_bytes.as_slice(), mode, search);
    let none: &[Diagnostic] = &[];
    assert(diagnostics_of(none@) =~= Seq::<DiagnosticView>::empty());
    let shown: &[Diagnostic] = match mode {
        Mode::Insert => none,
        _ => diagnostics,
    };
    render(
        screen,
        eb.cached_bytes.as_slice(),
        eb.line_starts.as_slice(),
        &eb.sels,
        eb.flat_scopes.as_slice(),
        mode,
        eb.top_line,
        eb.left_col,
        label.as_str(),
        ex_input,
        search_input,
        matches.as_slice(),
        ex_message,
        last_key,
        last_bytes,
        shown,
        prompt,
        hover,
        spinner,
        comp,
    );
}

/// After scrolling the cursor's line is on screen and its column in the window, as
/// far as columns are counted.
pub proof fn scrolling_shows_the_cursor(eb: EditorView, cols: int, rows: int, scrolloff: int)
    requires
        0 < eb.starts.len(),
        0 <= slot_of(eb.starts, eb.head()) < usize::MAX,
        1 < rows <= u16::MAX,
        0 <= scrolloff,
        gutter_width(eb.starts.len() as int, cols) < cols <= u16::MAX,
        ({
            let line = slot_of(eb.starts, eb.head());
            let from = eb.starts[line] as int;
            1 <= counted(column_of(eb.bytes, from, eb.head())) <= counted(
                column_of(eb.bytes, from, line_stop(eb.starts, line, eb.bytes.len() as int)),
            )
        }),
    ensures
        ({
            let r = scrolled(eb, cols, rows, scrolloff);
            let line = slot_of(eb.starts, eb.head());
            let col = counted(column_of(eb.bytes, eb.starts[line] as int, eb.head()));
            &&& r.top_line <= line < r.top_line + rows - 1
            &&& r.left_col < col <= r.left_col + cols - gutter_width(eb.starts.len() as int, cols)
            &&& r.doc == eb.doc && r.sels == eb.sels
        }),
{
    let line = slot_of(eb.starts, eb.head());
    let from = eb.starts[line] as int;
    crate::view::margin_scrolling_shows_the_line(line, eb.top_line as int, rows - 1, scrolloff);
    crate::view::horizontal_scrolling_shows_the_cursor(
        counted(column_of(eb.bytes, from, eb.head())),
        counted(column_of(eb.bytes, from, line_stop(eb.starts, line, eb.bytes.len() as int))),
        eb.left_col as int,
        cols - gutter_width(eb.starts.len() as int, cols),
    );
}

/// The label of a single buffer is its own where nothing is unsaved, and grows
/// where something is, or where the file changed on disk.
pub proof fn labels_tell_of_unsaved_changes(l: ListView)
    requires
        l.list.len() == 1,
        l.current == 0,
    ensures
        ({
            let eb = l.list[0];
            let (t, name) = (label_of(l), eb.label());
            &&& t.len() >= name.len() && t.take(name.len() as int) == name
            &&& t == name <==> !eb.dirty() && !eb.conflict
            &&& eb.dirty() && !eb.conflict ==> t == name + " [+]"@
            &&& eb.dirty() && eb.conflict ==> t == name + " [+]"@ + " [disk!]"@
            &&& !eb.dirty() && eb.conflict ==> t == name + " [disk!]"@
        }),
{
    reveal_strlit(" [+]");
    reveal_strlit(" [disk!]");
    assert(" [+]"@.len() == 4 && " [disk!]"@.len() == 8);
    let eb = l.list[0];
    let (t, name) = (label_of(l), eb.label());
    assert(t.take(name.len() as int) =~= name);
    if !eb.dirty() && !eb.conflict {
        assert(t =~= name);
    }
    if eb.dirty() && !eb.conflict {
        assert(t =~= name + " [+]"@);
    }
    if eb.dirty() && eb.conflict {
        assert(t =~= name + " [+]"@ + " [disk!]"@);
    }
    if !eb.dirty() && eb.conflict {
        assert(t =~= name + " [disk!]"@);
    }
}

/// The spinner turns: four steps bring it round, and fewer do not.
pub proof fn the_spinner_turns(step: int, n: int)
    requires
        0 <= step,
        0 < n < 4,
    ensures
        spinner_char(step + 4) == spinner_char(step),
        spinner_char(step + n) != spinner_char(step),
{
}

/// While inserting no diagnostics are shown; otherwise all are.
pub proof fn diagnostics_wait_while_inserting(mode: Mode, ds: Seq<DiagnosticView>)
    ensures
        mode == Mode::Insert ==> shown_diagnostics(mode, ds).len() == 0,
        mode != Mode::Insert ==> shown_diagnostics(mode, ds) == ds,
{
}

}
