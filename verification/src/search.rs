//! Regular-expression search: finding, incremental preview, and turning
//! matches into selections.
//!
//! A pattern is kept as its source text. Matching itself is the work of the
//! `regex` crate; what the editor makes of the matches is here.
use vstd::prelude::*;
use vstd::utf8::{decode_utf8, encode_utf8, valid_utf8};
use crate::buffer::{collect_bytes, Buffer, CursorSnapshot};
use crate::edit::{copy_range, sel_end};
use crate::input::{Key, KeyEvent, Mods, ALT_BIT, CTRL_BIT};
use crate::object::{covering, opt_span, select_range};
use crate::selection::{
    apply_snapshot, from_snapshot, sel_min, Mode, Selection, Selections, SelectionsView,
};
use crate::strings::{glue, text_from_utf8};
use crate::text::{
    char_len, imax, imin, lemma_whole_char, next_char_or_end, next_char_or_end_of, on_char,
    snap_is_idempotent, snap_of, text_fits,
};

verus! {

/// What a search is for.
#[derive(Debug, Clone, Copy, PartialEq, Eq, Structural)]
pub enum SearchKind {
    /// Jump to the next match.
    Find,
    /// Turn every match inside the primary selection into a selection.
    SelectWithin,
}

/// The last committed pattern, the pattern being typed, the cursor that the
/// search began at, and what it is for.
pub struct SearchState {
    pub pattern: Option<String>,
    pub preview: Option<String>,
    pub start: Option<CursorSnapshot>,
    pub kind: SearchKind,
}

#[verifier::ext_equal]
pub struct SearchView {
    pub pattern: Option<Seq<char>>,
    pub preview: Option<Seq<char>>,
    pub start: Option<CursorSnapshot>,
    pub kind: SearchKind,
}

pub open spec fn opt_text(o: Option<String>) -> Option<Seq<char>> {
    match o {
        Some(s) => Some(s@),
        None => None,
    }
}

impl View for SearchState {
    type V = SearchView;

    open spec fn view(&self) -> SearchView {
        SearchView {
            pattern: opt_text(self.pattern),
            preview: opt_text(self.preview),
            start: self.start,
            kind: self.kind,
        }
    }
}

impl Default for SearchState {
    fn default() -> (s: SearchState)
        ensures
            s@ == (SearchView {
                pattern: None,
                preview: None,
                start: None,
                kind: SearchKind::Find,
            }),
    {
        SearchState { pattern: None, preview: None, start: None, kind: SearchKind::Find }
    }
}

// ---------------------------------------------------------------------------
// The regex crate
// ---------------------------------------------------------------------------

/// What `RegexBuilder::build` says against a pattern, in multi-line mode;
/// `None` when it compiles.
pub uninterp spec fn pattern_error(pattern: Seq<char>) -> Option<Seq<char>>;

/// What `Regex::find_at` finds of a pattern, compiled in multi-line mode, in
/// `text` from `from` on; `None` also when the pattern does not compile.
pub uninterp spec fn match_from(pattern: Seq<char>, text: Seq<u8>, from: int) -> Option<(int, int)>;

/// All that `Regex::find_iter` yields for a pattern, compiled in multi-line
/// mode, on `text`; nothing when the pattern does not compile.
pub uninterp spec fn matches_in(pattern: Seq<char>, text: Seq<u8>) -> Seq<(int, int)>;

/// What `regex::escape` makes of a text.
pub uninterp spec fn escaped(text: Seq<char>) -> Seq<char>;

/// `RegexBuilder::new(pat).multi_line(true).build()`: whether the pattern
/// compiles, and the error's text when it does not.
#[verifier::external_body]
pub(crate) fn compile_search_regex(pat: &str) -> (r: Result<(), String>)
    ensures
        match r {
            Ok(_) => pattern_error(pat@) is None,
            Err(e) => pattern_error(pat@) == Some(e@),
        },
{
    match regex::bytes::RegexBuilder::new(pat).multi_line(true).build() {
        Ok(_) => Ok(()),
        Err(e) => Err(e.to_string()),
    }
}

/// `Regex::find_at`: the leftmost match that starts at or after `from`, as
/// the offsets of its first byte and behind its last. It lies in the text.
#[verifier::external_body]
pub(crate) fn regex_find_at(pat: &str, bytes: &[u8], from: usize) -> (r: Option<(usize, usize)>)
    requires
        from <= bytes@.len(),
    ensures
        opt_span(r) == match_from(pat@, bytes@, from as int),
        r matches Some((a, b)) ==> from <= a <= b <= bytes@.len(),
{
    match regex::bytes::RegexBuilder::new(pat).multi_line(true).build() {
        Ok(re) => re.find_at(bytes, from).map(|m| (m.start(), m.end())),
        Err(_) => None,
    }
}

/// `Regex::find_iter`: the successive matches. They lie in the text, in order,
/// and do not overlap.
#[verifier::external_body]
pub(crate) fn regex_find_iter(pat: &str, bytes: &[u8]) -> (r: Vec<(usize, usize)>)
    ensures
        spans(r@) == matches_in(pat@, bytes@),
        forall|i: int| 0 <= i < r@.len() ==> (#[trigger] r@[i]).0 <= r@[i].1 <= bytes@.len(),
        forall|i: int, j: int| 0 <= i < j < r@.len() ==> (#[trigger] r@[i]).1 <= (#[trigger] r@[j]).0,
{
    match regex::bytes::RegexBuilder::new(pat).multi_line(true).build() {
        Ok(re) => re.find_iter(bytes).map(|m| (m.start(), m.end())).collect(),
        Err(_) => Vec::new(),
    }
}

/// Every match of `pattern`, in whatever text, is exactly `bytes`.
pub open spec fn matches_only(pattern: Seq<char>, bytes: Seq<u8>) -> bool {
    &&& forall|t: Seq<u8>, f: int|
        0 <= f <= t.len() ==> (#[trigger] match_from(pattern, t, f) matches Some((a, b)) ==> 0 <= a
            <= b <= t.len() && t.subrange(a, b) == bytes)
    &&& forall|t: Seq<u8>, i: int|
        0 <= i < matches_in(pattern, t).len() ==> {
            let m = #[trigger] matches_in(pattern, t)[i];
            0 <= m.0 <= m.1 <= t.len() && t.subrange(m.0, m.1) == bytes
        }
}

/// `regex::escape`: a pattern for the text itself, so that nothing but the
/// text matches it.
#[verifier::external_body]
pub(crate) fn regex_escape(text: &str) -> (r: String)
    ensures
        r@ == escaped(text@),
        matches_only(r@, encode_utf8(text@)),
{
    regex::escape(text)
}

pub open spec fn spans(v: Seq<(usize, usize)>) -> Seq<(int, int)> {
    v.map_values(|p: (usize, usize)| (p.0 as int, p.1 as int))
}

/// All matches of a pattern, in order.
pub fn all_matches(bytes: &[u8], pattern: &str) -> (r: Vec<(usize, usize)>)
    ensures
        spans(r@) == matches_in(pattern@, bytes@),
        forall|i: int| 0 <= i < r@.len() ==> (#[trigger] r@[i]).0 <= r@[i].1 <= bytes@.len(),
        forall|i: int, j: int| 0 <= i < j < r@.len() ==> (#[trigger] r@[i]).1 <= (#[trigger] r@[j]).0,
{
    regex_find_iter(pattern, bytes)
}

// ---------------------------------------------------------------------------
// Which match
// ---------------------------------------------------------------------------

/// The match ahead, or else the first one of the text.
pub open spec fn wrapped(ahead: Option<(int, int)>, first: Option<(int, int)>) -> Option<(int, int)> {
    if ahead is Some { ahead } else { first }
}

/// How many of the matches from `i` on end at or before `before`, up to the
/// first that does not.
pub open spec fn leading(ms: Seq<(int, int)>, before: int, i: int) -> int
    decreases ms.len() - i,
{
    if 0 <= i < ms.len() && ms[i].1 <= before {
        leading(ms, before, i + 1)
    } else {
        i
    }
}

/// The last match that ends at or before `before`, or else the last one of
/// the text.
pub open spec fn last_before(ms: Seq<(int, int)>, before: int) -> Option<(int, int)> {
    let n = leading(ms, before, 0);
    if n > 0 {
        Some(ms[n - 1])
    } else if ms.len() > 0 {
        Some(ms.last())
    } else {
        None
    }
}

/// The match that searching from `from` forward, or from `before` backward,
/// leads to.
pub open spec fn sought(
    pattern: Seq<char>,
    s: Seq<u8>,
    forward: bool,
    from: int,
    before: int,
) -> Option<(int, int)> {
    if s.len() == 0 {
        None
    } else if forward {
        wrapped(match_from(pattern, s, from), match_from(pattern, s, 0))
    } else {
        last_before(matches_in(pattern, s), before)
    }
}

/// Choose between the match ahead and the first one of the text.
pub fn pick_forward(ahead: Option<(usize, usize)>, first: Option<(usize, usize)>) -> (r: Option<
    (usize, usize),
>)
    ensures
        opt_span(r) == wrapped(opt_span(ahead), opt_span(first)),
{
    match ahead {
        Some(m) => Some(m),
        None => first,
    }
}

/// Choose the last match that ends at or before `before`, or else the last of
/// all.
pub fn pick_backward(matches: &[(usize, usize)], before: usize) -> (r: Option<(usize, usize)>)
    ensures
        opt_span(r) == last_before(spans(matches@), before as int),
        r matches Some(m) ==> matches@.contains(m),
{
    let mut n: usize = 0;
    while n < matches.len() && matches[n].1 <= before
        invariant
            n <= matches@.len(),
            leading(spans(matches@), before as int, n as int) == leading(
                spans(matches@),
                before as int,
                0,
            ),
        decreases matches@.len() - n,
    {
        n += 1;
    }
    if n > 0 {
        Some(matches[n - 1])
    } else if matches.len() > 0 {
        Some(matches[matches.len() - 1])
    } else {
        None
    }
}

/// Search from `from` forward or from `before` backward, wrapping around.
fn seek(bytes: &[u8], pattern: &str, forward: bool, from: usize, before: usize) -> (r: Option<
    (usize, usize),
>)
    requires
        from <= bytes@.len(),
    ensures
        opt_span(r) == sought(pattern@, bytes@, forward, from as int, before as int),
        r matches Some((a, b)) ==> a <= b <= bytes@.len(),
{
    if bytes.len() == 0 {
        return None;
    }
    if forward {
        let ahead = regex_find_at(pattern, bytes, from);
        let first = regex_find_at(pattern, bytes, 0);
        pick_forward(ahead, first)
    } else {
        let all = regex_find_iter(pattern, bytes);
        pick_backward(all.as_slice(), before)
    }
}

// ---------------------------------------------------------------------------
// Selecting matches
// ---------------------------------------------------------------------------

/// The selection once it was put on a match, if there is one.
pub open spec fn on_match(s: Seq<u8>, sel: Selection, m: Option<(int, int)>) -> Selection {
    match m {
        None => sel,
        Some((a, b)) => covering(s, a, b),
    }
}

pub open spec fn found_next(s: Seq<u8>, sel: Selection, pattern: Seq<char>, forward: bool) -> Selection {
    on_match(
        s,
        sel,
        sought(pattern, s, forward, next_char_or_end_of(s, sel.head as int), sel_min(sel)),
    )
}

/// Put `sel` on a match.
pub fn apply_match(sel: &mut Selection, bytes: &[u8], start: usize, end: usize)
    requires
        text_fits(bytes@),
    ensures
        *final(sel) == covering(bytes@, start as int, end as int),
{
    *sel = select_range(bytes, start, end);
}

/// Move `sel` to the next match after its head, or to the previous one before
/// its start, wrapping around. Says whether there was one.
pub fn find_and_select(sel: &mut Selection, bytes: &[u8], pattern: &str, forward: bool) -> (r: bool)
    requires
        text_fits(bytes@),
    ensures
        *final(sel) == found_next(bytes@, *old(sel), pattern@, forward),
        r == (sought(
            pattern@,
            bytes@,
            forward,
            next_char_or_end_of(bytes@, old(sel).head as int),
            sel_min(*old(sel)),
        ) is Some),
{
    let from: usize = next_char_or_end(bytes, sel.head);
    let before: usize = sel.min();
    match seek(bytes, pattern, forward, from, before) {
        None => false,
        Some((a, b)) => {
            apply_match(sel, bytes, a, b);
            true
        },
    }
}

/// The first selection from index `i` on that covers exactly the text from
/// `a` to `b`.
pub open spec fn index_covering(s: Seq<u8>, list: Seq<Selection>, a: int, b: int, i: int) -> Option<
    int,
>
    decreases list.len() - i,
{
    if i < 0 || i >= list.len() {
        None
    } else if sel_min(list[i]) == a && sel_end(s, list[i]) == b {
        Some(i)
    } else {
        index_covering(s, list, a, b, i + 1)
    }
}

/// A match added to the selections as the primary one; nothing changes if it
/// is selected already.
pub open spec fn match_added(s: Seq<u8>, sels: SelectionsView, m: Option<(int, int)>) -> SelectionsView {
    match m {
        None => sels,
        Some((a, b)) => match index_covering(s, sels.list, a, b, 0) {
            Some(_) => sels,
            None => sels.appended(covering(s, a, b)),
        },
    }
}

/// Add a match to the selections and make it primary, unless it is selected
/// already.
pub fn add_match(sels: &mut Selections, bytes: &[u8], m: Option<(usize, usize)>)
    requires
        old(sels).wf(),
        text_fits(bytes@),
    ensures
        final(sels).wf(),
        final(sels)@ == match_added(bytes@, old(sels)@, opt_span(m)),
{
    let (a, b) = match m {
        None => {
            return;
        },
        Some(p) => p,
    };
    let n: usize = sels.len();
    let mut i: usize = 0;
    while i < n
        invariant
            i <= n == sels@.list.len(),
            sels.wf(),
            sels@ == old(sels)@,
            m == Some((a, b)),
            index_covering(bytes@, sels@.list, a as int, b as int, i as int) == index_covering(
                bytes@,
                sels@.list,
                a as int,
                b as int,
                0,
            ),
        decreases n - i,
    {
        let sel = sels.get(i);
        if sel.min() == a && next_char_or_end(bytes, sel.max()) == b {
            return;
        }
        i += 1;
    }
    sels.append_as_primary(select_range(bytes, a, b));
}

/// The selections after adding the next or the previous match of a pattern,
/// seen from the primary.
pub open spec fn next_added(s: Seq<u8>, sels: SelectionsView, pattern: Seq<char>, forward: bool) -> SelectionsView {
    let p = sels.prime();
    match_added(s, sels, sought(pattern, s, forward, sel_end(s, p), sel_min(p)))
}

/// Add the next or the previous match of a pattern as a selection.
pub fn add_next_match(sels: &mut Selections, bytes: &[u8], pattern: &str, forward: bool)
    requires
        old(sels).wf(),
        text_fits(bytes@),
    ensures
        final(sels).wf(),
        final(sels)@ == next_added(bytes@, old(sels)@, pattern@, forward),
{
    let primary = *sels.primary();
    let from: usize = next_char_or_end(bytes, primary.max());
    let before: usize = primary.min();
    let m = seek(bytes, pattern, forward, from, before);
    add_match(sels, bytes, m);
}

/// The text that a selection covers.
pub open spec fn sel_text(s: Seq<u8>, sel: Selection) -> Seq<u8> {
    s.subrange(sel_min(sel), sel_end(s, sel))
}

/// The pattern that adding a match goes by: the text of an extended primary
/// selection taken literally, or else the last pattern searched for.
pub open spec fn smart_pattern(s: Seq<u8>, sel: Selection, pattern: Option<Seq<char>>) -> Option<
    Seq<char>,
> {
    if sel.anchor != sel.head {
        if valid_utf8(sel_text(s, sel)) {
            let p = escaped(decode_utf8(sel_text(s, sel)));
            if pattern_error(p) is None { Some(p) } else { None }
        } else {
            None
        }
    } else {
        pattern
    }
}

pub open spec fn smart_added(s: Seq<u8>, sels: SelectionsView, search: SearchView, forward: bool) -> (
    SelectionsView,
    SearchView,
) {
    match smart_pattern(s, sels.prime(), search.pattern) {
        None => (sels, search),
        Some(p) => (
            next_added(s, sels, p, forward),
            SearchView { pattern: Some(p), ..search },
        ),
    }
}

/// Add the next or the previous occurrence of the primary selection's text,
/// or of the last search when the primary is a mere cursor. The pattern
/// becomes the one that repeating a search goes by.
pub fn add_next_smart(sels: &mut Selections, bytes: &[u8], search: &mut SearchState, forward: bool)
    requires
        old(sels).wf(),
        text_fits(bytes@),
        old(sels)@.prime().anchor != old(sels)@.prime().head ==> sel_min(old(sels)@.prime())
            <= bytes@.len(),
    ensures
        final(sels).wf(),
        (final(sels)@, final(search)@) == smart_added(bytes@, old(sels)@, old(search)@, forward),
        old(sels)@.prime().anchor != old(sels)@.prime().head ==> (smart_pattern(
            bytes@,
            old(sels)@.prime(),
            old(search)@.pattern,
        ) matches Some(p) ==> matches_only(p, sel_text(bytes@, old(sels)@.prime()))),
{
    let primary = *sels.primary();
    if primary.anchor != primary.head {
        let min: usize = primary.min();
        let last: usize = next_char_or_end(bytes, primary.max());
        let text = copy_range(bytes, min, last);
        let pat = match text_from_utf8(text.as_slice()) {
            None => {
                return;
            },
            Some(t) => regex_escape(t.as_str()),
        };
        if compile_search_regex(pat.as_str()).is_err() {
            return;
        }
        add_next_match(sels, bytes, pat.as_str(), forward);
        search.pattern = Some(pat);
    } else {
        match &search.pattern {
            None => {},
            Some(p) => {
                add_next_match(sels, bytes, p.as_str(), forward);
            },
        }
    }
}

// ---------------------------------------------------------------------------
// Search mode
// ---------------------------------------------------------------------------

/// The matches inside a stretch that starts at `base`, as selections of the
/// whole text.
pub open spec fn within(s: Seq<u8>, base: int, ms: Seq<(int, int)>) -> Seq<Selection> {
    ms.map_values(|m: (int, int)| covering(s, base + m.0, base + m.1))
}

pub fn selections_within(bytes: &[u8], base: usize, matches: &[(usize, usize)]) -> (r: Vec<
    Selection,
>)
    requires
        text_fits(bytes@),
        forall|i: int|
            0 <= i < matches@.len() ==> base + (#[trigger] matches@[i]).0 <= usize::MAX && base
                + matches@[i].1 <= usize::MAX,
    ensures
        r@ == within(bytes@, base as int, spans(matches@)),
{
    let mut r: Vec<Selection> = Vec::new();
    let mut i: usize = 0;
    while i < matches.len()
        invariant
            i <= matches@.len(),
            text_fits(bytes@),
            forall|i: int|
                0 <= i < matches@.len() ==> base + (#[trigger] matches@[i]).0 <= usize::MAX && base
                    + matches@[i].1 <= usize::MAX,
            r@ =~= within(bytes@, base as int, spans(matches@)).take(i as int),
        decreases matches@.len() - i,
    {
        let (a, b) = matches[i];
        r.push(select_range(bytes, base + a, base + b));
        i += 1;
    }
    assert(r@ =~= within(bytes@, base as int, spans(matches@)));
    r
}

/// Everything that a key in search mode can change.
#[verifier::ext_equal]
pub struct SearchPane {
    pub sels: SelectionsView,
    pub mode: Mode,
    pub input: Seq<char>,
    pub search: SearchView,
    pub message: Seq<char>,
}

/// The primary selection put back where the search began.
pub open spec fn put_back(sels: SelectionsView, start: Option<CursorSnapshot>) -> SelectionsView {
    match start {
        None => sels,
        Some(c) => sels.with_prime(from_snapshot(c)),
    }
}

/// Search mode left without a search.
pub open spec fn abandoned(v: SearchPane) -> SearchPane {
    SearchPane {
        sels: put_back(v.sels, v.search.start),
        mode: Mode::Normal,
        input: Seq::empty(),
        search: SearchView {
            start: None,
            preview: None,
            kind: SearchKind::Find,
            ..v.search
        },
        message: v.message,
    }
}

/// The stretch of text that a select-within search looks at.
pub open spec fn search_base(start: CursorSnapshot) -> int {
    sel_min(from_snapshot(start))
}

/// Search mode left with the typed pattern as the search.
pub open spec fn committed_search(s: Seq<u8>, v: SearchPane) -> SearchPane {
    let pat = v.input;
    let left = SearchPane {
        mode: Mode::Normal,
        input: Seq::empty(),
        search: SearchView { start: None, preview: None, kind: SearchKind::Find, ..v.search },
        ..v
    };
    let kept = SearchPane {
        search: SearchView { pattern: Some(pat), ..left.search },
        ..left
    };
    if pat.len() == 0 {
        left
    } else if pattern_error(pat) is Some {
        SearchPane { message: "regex error: "@ + pattern_error(pat).unwrap(), ..left }
    } else if v.search.kind is Find {
        if match_from(pat, s, 0) is None {
            SearchPane { message: "no match: /"@ + pat, ..kept }
        } else {
            kept
        }
    } else if v.search.start is None {
        kept
    } else {
        let orig = v.search.start.unwrap();
        let base = search_base(orig);
        let ms = matches_in(pat, sel_text(s, from_snapshot(orig)));
        if ms.len() == 0 {
            SearchPane { message: "no matches: s/"@ + pat + "/"@, ..kept }
        } else {
            SearchPane {
                sels: SelectionsView { list: within(s, base, ms), primary: 0 },
                ..kept
            }
        }
    }
}

/// The preview brought up to date with the typed pattern: for a jump the
/// primary goes to the first match at or after the head where the search
/// began.
pub open spec fn previewed(s: Seq<u8>, v: SearchPane) -> SearchPane {
    match v.search.start {
        None => v,
        Some(start) => {
            let home = v.sels.with_prime(from_snapshot(start));
            if v.input.len() == 0 {
                SearchPane {
                    sels: if v.search.kind is Find { home } else { v.sels },
                    search: SearchView { preview: None, ..v.search },
                    ..v
                }
            } else if pattern_error(v.input) is Some {
                SearchPane { search: SearchView { preview: None, ..v.search }, ..v }
            } else {
                let m = wrapped(
                    match_from(v.input, s, imin(start.head as int, s.len() as int)),
                    match_from(v.input, s, 0),
                );
                SearchPane {
                    sels: if v.search.kind is Find {
                        v.sels.with_prime(on_match(s, from_snapshot(start), m))
                    } else {
                        v.sels
                    },
                    search: SearchView { preview: Some(v.input), ..v.search },
                    ..v
                }
            }
        },
    }
}

/// What a key does in search mode.
pub open spec fn search_step(s: Seq<u8>, v: SearchPane, k: KeyEvent) -> SearchPane {
    match k.key {
        Key::Esc => abandoned(v),
        Key::Enter => committed_search(s, v),
        Key::Backspace => if v.input.len() == 0 {
            abandoned(v)
        } else {
            previewed(s, SearchPane { input: v.input.drop_last(), ..v })
        },
        Key::Char(c) => if k.mods.has(Mods(CTRL_BIT)) || k.mods.has(Mods(ALT_BIT)) {
            v
        } else {
            previewed(s, SearchPane { input: v.input.push(c), ..v })
        },
        _ => v,
    }
}

pub open spec fn search_pane(
    sels: Selections,
    mode: Mode,
    input: String,
    search: SearchState,
    message: String,
) -> SearchPane {
    SearchPane { sels: sels@, mode, input: input@, search: search@, message: message@ }
}

fn copy_opt(s: &str) -> (r: Option<String>)
    ensures
        opt_text(r) == Some(s@),
{
    Some(s.to_owned())
}

/// Bring the preview up to date with the typed pattern.
pub fn update_search_preview(
    buffer: &Buffer,
    sels: &mut Selections,
    search: &mut SearchState,
    input: &str,
)
    requires
        buffer.wf(),
        old(sels).wf(),
        text_fits(buffer@.text),
    ensures
        final(sels).wf(),
        forall|mode: Mode, message: Seq<char>|
            (SearchPane {
                sels: final(sels)@,
                mode,
                input: input@,
                search: final(search)@,
                message,
            }) == #[trigger] previewed(
                buffer@.text,
                SearchPane {
                    sels: old(sels)@,
                    mode,
                    input: input@,
                    search: old(search)@,
                    message,
                },
            ),
{
    let start = match search.start {
        None => {
            return;
        },
        Some(c) => c,
    };
    let ghost s = buffer@.text;
    if input.unicode_len() == 0 {
        if search.kind == SearchKind::Find {
            apply_snapshot(sels.primary_mut(), start);
        }
        search.preview = None;
        return;
    }
    if compile_search_regex(input).is_err() {
        search.preview = None;
        return;
    }
    let bytes = collect_bytes(buffer);
    if search.kind == SearchKind::Find {
        let from: usize = if start.head < bytes.len() { start.head } else { bytes.len() };
        let ahead = regex_find_at(input, bytes.as_slice(), from);
        let first = regex_find_at(input, bytes.as_slice(), 0);
        let m = pick_forward(ahead, first);
        let sel = sels.primary_mut();
        apply_snapshot(sel, start);
        match m {
            None => {},
            Some((a, b)) => {
                apply_match(sel, bytes.as_slice(), a, b);
            },
        }
    }
    search.preview = copy_opt(input);
}

/// Handle a key in search mode.
pub fn handle_search(
    buffer: &Buffer,
    sels: &mut Selections,
    mode: &mut Mode,
    search_input: &mut String,
    search: &mut SearchState,
    ex_message: &mut String,
    k: KeyEvent,
)
    requires
        buffer.wf(),
        old(sels).wf(),
        text_fits(buffer@.text),
        k.key is Enter && old(search).kind is SelectWithin && old(search).start is Some
            ==> search_base(old(search).start.unwrap()) <= buffer@.text.len(),
    ensures
        final(sels).wf(),
        search_pane(
            *final(sels),
            *final(mode),
            *final(search_input),
            *final(search),
            *final(ex_message),
        ) == search_step(
            buffer@.text,
            search_pane(
                *old(sels),
                *old(mode),
                *old(search_input),
                *old(search),
                *old(ex_message),
            ),
            k,
        ),
{
    match k.key {
        Key::Esc => {
            leave_search(sels, mode, search);
            *search_input = String::new();
        },
        Key::Enter => commit_search(buffer, sels, mode, search_input, search, ex_message),
        Key::Backspace => {
            if search_input.pop().is_none() {
                leave_search(sels, mode, search);
                return;
            }
            update_search_preview(buffer, sels, search, search_input.as_str());
        },
        Key::Char(c) => {
            if k.mods.contains(Mods(CTRL_BIT)) || k.mods.contains(Mods(ALT_BIT)) {
                return;
            }
            search_input.push(c);
            update_search_preview(buffer, sels, search, search_input.as_str());
        },
        _ => {},
    }
}

/// Go back to normal mode, with the primary where the search began.
fn leave_search(sels: &mut Selections, mode: &mut Mode, search: &mut SearchState)
    requires
        old(sels).wf(),
    ensures
        final(sels).wf(),
        final(sels)@ == put_back(old(sels)@, old(search)@.start),
        *final(mode) == Mode::Normal,
        final(search)@ == (SearchView {
            start: None,
            preview: None,
            kind: SearchKind::Find,
            ..old(search)@
        }),
{
    *mode = Mode::Normal;
    match search.start.take() {
        None => {},
        Some(start) => {
            apply_snapshot(sels.primary_mut(), start);
        },
    }
    search.preview = None;
    search.kind = SearchKind::Find;
}

/// Leave search mode with the typed pattern as the search.
fn commit_search(
    buffer: &Buffer,
    sels: &mut Selections,
    mode: &mut Mode,
    search_input: &mut String,
    search: &mut SearchState,
    ex_message: &mut String,
)
    requires
        buffer.wf(),
        old(sels).wf(),
        text_fits(buffer@.text),
        old(search).kind is SelectWithin && old(search).start is Some ==> search_base(
            old(search).start.unwrap(),
        ) <= buffer@.text.len(),
    ensures
        final(sels).wf(),
        search_pane(
            *final(sels),
            *final(mode),
            *final(search_input),
            *final(search),
            *final(ex_message),
        ) == committed_search(
            buffer@.text,
            search_pane(
                *old(sels),
                *old(mode),
                *old(search_input),
                *old(search),
                *old(ex_message),
            ),
        ),
{
    let pat = search_input.clone();
    *mode = Mode::Normal;
    *search_input = String::new();
    let kind = search.kind;
    let start = search.start.take();
    search.preview = None;
    search.kind = SearchKind::Find;
    if pat.as_str().unicode_len() == 0 {
        return;
    }
    match compile_search_regex(pat.as_str()) {
        Err(e) => {
            *ex_message = glue("regex error: ", e.as_str());
            return;
        },
        Ok(_) => {},
    }
    let bytes = collect_bytes(buffer);
    let s = bytes.as_slice();
    match kind {
        SearchKind::Find => {
            if regex_find_at(pat.as_str(), s, 0).is_none() {
                *ex_message = glue("no match: /", pat.as_str());
            }
        },
        SearchKind::SelectWithin => {
            match start {
                None => {},
                Some(orig) => {
                    let whole = Selection {
                        anchor: orig.anchor,
                        head: orig.head,
                        desired_col: orig.desired_col,
                    };
                    let base: usize = whole.min();
                    let end: usize = next_char_or_end(s, whole.max());
                    let part = copy_range(s, base, end);
                    let ms = regex_find_iter(pat.as_str(), part.as_slice());
                    if ms.len() == 0 {
                        *ex_message = glue(glue("no matches: s/", pat.as_str()).as_str(), "/");
                    } else {
                        let list = selections_within(s, base, ms.as_slice());
                        sels.replace(list, 0);
                    }
                },
            }
        },
    }
    search.pattern = Some(pat);
}

// ---------------------------------------------------------------------------
// Laws
// ---------------------------------------------------------------------------

/// Leaving a search leaves no trace of it but the committed pattern: the
/// primary is where it was when the search began.
pub proof fn escape_undoes_the_search(s: Seq<u8>, v: SearchPane, k: KeyEvent)
    requires
        k.key is Esc,
        v.sels.ok(),
        v.search.start is Some,
    ensures
        search_step(s, v, k).sels.prime() == from_snapshot(v.search.start.unwrap()),
        search_step(s, v, k).search.pattern == v.search.pattern,
        search_step(s, v, k).mode == Mode::Normal,
{
}

/// A match is never selected twice: adding it again changes nothing.
pub proof fn adding_a_match_makes_no_duplicate(s: Seq<u8>, sels: SelectionsView, a: int, b: int)
    requires
        0 <= a < b <= s.len() <= usize::MAX,
        next_char_or_end_of(s, imax(snap_of(s, b - 1), a)) == b,
    ensures
        match_added(s, match_added(s, sels, Some((a, b))), Some((a, b))) == match_added(
            s,
            sels,
            Some((a, b)),
        ),
{
    if index_covering(s, sels.list, a, b, 0) is None {
        let sel = covering(s, a, b);
        snap_is_idempotent(s, b - 1);
        lemma_index_appended(s, sels.list, sel, a, b, 0);
    }
}

proof fn lemma_index_appended(
    s: Seq<u8>,
    list: Seq<Selection>,
    sel: Selection,
    a: int,
    b: int,
    i: int,
)
    requires
        0 <= i <= list.len(),
        sel_min(sel) == a,
        sel_end(s, sel) == b,
    ensures
        index_covering(s, list.push(sel), a, b, i) is Some,
    decreases list.len() - i,
{
    if i < list.len() {
        lemma_index_appended(s, list, sel, a, b, i + 1);
    }
}

/// A literal pattern leads to nothing but copies of its text.
pub proof fn literal_search_finds_the_text(
    pattern: Seq<char>,
    text: Seq<u8>,
    s: Seq<u8>,
    forward: bool,
    from: int,
    before: int,
)
    requires
        matches_only(pattern, text),
        0 <= from <= s.len(),
    ensures
        sought(pattern, s, forward, from, before) matches Some((a, b)) ==> s.subrange(a, b) == text,
{
    lemma_leading(matches_in(pattern, s), before, 0);
}

proof fn lemma_leading(ms: Seq<(int, int)>, before: int, i: int)
    requires
        0 <= i <= ms.len(),
    ensures
        i <= leading(ms, before, i) <= ms.len(),
    decreases ms.len() - i,
{
    if i < ms.len() && ms[i].1 <= before {
        lemma_leading(ms, before, i + 1);
    }
}

/// Searching forward wraps around: a pattern that occurs at all is found from
/// everywhere.
pub proof fn searching_wraps_around(pattern: Seq<char>, s: Seq<u8>, from: int, before: int)
    requires
        s.len() > 0,
    ensures
        match_from(pattern, s, 0) is Some ==> sought(pattern, s, true, from, before) is Some,
        matches_in(pattern, s).len() > 0 ==> sought(pattern, s, false, from, before) is Some,
{
}

/// Matches as they come: in order, and none overlaps the next.
pub open spec fn in_order(ms: Seq<(int, int)>) -> bool {
    &&& forall|i: int| 0 <= i < ms.len() ==> (#[trigger] ms[i]).0 <= ms[i].1
    &&& forall|i: int, j: int|
        0 <= i < j < ms.len() ==> (#[trigger] ms[i]).1 <= (#[trigger] ms[j]).0
}

proof fn lemma_leading_end(ms: Seq<(int, int)>, before: int, i: int)
    requires
        in_order(ms),
        0 <= i <= ms.len(),
        forall|j: int| 0 <= j < i ==> (#[trigger] ms[j]).1 <= before,
    ensures
        ({
            let n = leading(ms, before, i);
            &&& i <= n <= ms.len()
            &&& forall|j: int| 0 <= j < n ==> (#[trigger] ms[j]).1 <= before
            &&& forall|j: int| n <= j < ms.len() ==> (#[trigger] ms[j]).1 > before
        }),
    decreases ms.len() - i,
{
    if i < ms.len() && ms[i].1 <= before {
        lemma_leading_end(ms, before, i + 1);
    } else if i < ms.len() {
        assert forall|j: int| i <= j < ms.len() implies (#[trigger] ms[j]).1 > before by {
            if j > i {
                assert(ms[i].1 <= ms[j].0);
            }
        }
    }
}

/// Searching backward leads to a match that ends at or before the place, with no
/// other between them: every match behind the chosen one ends behind the place.
/// Only if none ends before the place is it the last of all.
pub proof fn searching_backward_finds_the_nearest(
    pattern: Seq<char>,
    s: Seq<u8>,
    from: int,
    before: int,
)
    requires
        s.len() > 0,
        in_order(matches_in(pattern, s)),
    ensures
        ({
            let ms = matches_in(pattern, s);
            match sought(pattern, s, false, from, before) {
                None => ms.len() == 0,
                Some(m) => exists|k: int|
                    {
                        &&& 0 <= k < ms.len()
                        &&& #[trigger] ms[k] == m
                        &&& forall|j: int| k < j < ms.len() ==> (#[trigger] ms[j]).1 > before
                        &&& if exists|j: int| 0 <= j < ms.len() && (#[trigger] ms[j]).1 <= before {
                            m.1 <= before
                        } else {
                            k == ms.len() - 1
                        }
                    },
            }
        }),
{
    let ms = matches_in(pattern, s);
    lemma_leading_end(ms, before, 0);
    let n = leading(ms, before, 0);
    if n > 0 {
        assert(ms[n - 1].1 <= before);
    } else if ms.len() > 0 {
        assert(ms[ms.len() - 1] == ms.last());
    }
}

/// Repeating a search forward selects the match that the pattern has behind the
/// character under the head; if it has none there, the first of the text.
/// Backward it selects the nearest one before the selection.
pub proof fn repeating_a_search_selects_a_match(
    s: Seq<u8>,
    sel: Selection,
    pattern: Seq<char>,
    forward: bool,
)
    requires
        valid_utf8(s),
        0 < s.len() <= usize::MAX,
        on_char(s, sel.head as int),
        sel.head < s.len(),
    ensures
        ({
            let behind = sel.head + char_len(s[sel.head as int]);
            let after = found_next(s, sel, pattern, forward);
            let start = if sel.anchor < sel.head { sel.anchor } else { sel.head };
            &&& forward ==> match match_from(pattern, s, behind) {
                Some((a, b)) => after == covering(s, a, b),
                None => match match_from(pattern, s, 0) {
                    Some((a, b)) => after == covering(s, a, b),
                    None => after == sel,
                },
            }
            &&& !forward ==> match sought(pattern, s, false, 0, start as int) {
                Some((a, b)) => after == covering(s, a, b),
                None => after == sel,
            }
        }),
{
    lemma_whole_char(s, sel.head as int);
}

/// Taking back what was typed into a search leads back to the preview of what
/// stood there before.
pub proof fn backspace_takes_back_typing(s: Seq<u8>, v: SearchPane, c: char, k: KeyEvent)
    requires
        k.key is Backspace,
        v.search.start is Some,
    ensures
        ({
            let typed = search_step(s, v, KeyEvent { key: Key::Char(c), mods: Mods(0) });
            let back = search_step(s, typed, k);
            &&& typed.input == v.input.push(c)
            &&& back.input == v.input
            &&& back.mode == v.mode && typed.mode == v.mode
            &&& back.message == v.message
            &&& back.search == previewed(s, v).search
            &&& v.search.kind is SelectWithin ==> back.sels == v.sels
        }),
{
    assert(!(Mods(0).has(Mods(CTRL_BIT)))) by {
        assert(0u8 & CTRL_BIT == 0) by (bit_vector);
    }
    assert(!(Mods(0).has(Mods(ALT_BIT)))) by {
        assert(0u8 & ALT_BIT == 0) by (bit_vector);
    }
    assert(v.input.push(c).drop_last() =~= v.input);
}

/// While a pattern is being typed the primary selection is the first match at or
/// behind the head where the search began, or else the first of the text, or else
/// what was selected then.
pub proof fn the_preview_starts_where_the_search_began(s: Seq<u8>, v: SearchPane, c: char)
    requires
        v.sels.ok(),
        v.search.start is Some,
        v.search.kind is Find,
        (v.search.start->0).head <= s.len(),
        pattern_error(v.input.push(c)) is None,
    ensures
        ({
            let after = search_step(s, v, KeyEvent { key: Key::Char(c), mods: Mods(0) });
            let start = v.search.start->0;
            let pat = v.input.push(c);
            &&& after.search.preview == Some(pat)
            &&& after.search.start == v.search.start
            &&& after.search.pattern == v.search.pattern
            &&& after.sels.prime() == match match_from(pat, s, start.head as int) {
                Some((a, b)) => covering(s, a, b),
                None => match match_from(pat, s, 0) {
                    Some((a, b)) => covering(s, a, b),
                    None => from_snapshot(start),
                },
            }
        }),
{
    assert(!(Mods(0).has(Mods(CTRL_BIT)))) by {
        assert(0u8 & CTRL_BIT == 0) by (bit_vector);
    }
    assert(!(Mods(0).has(Mods(ALT_BIT)))) by {
        assert(0u8 & ALT_BIT == 0) by (bit_vector);
    }
}

/// Entering a pattern for the matches inside a selection leaves one selection for
/// each of them, in order, which lies inside; the first is primary. The pattern is
/// the one that later searches repeat.
pub proof fn entering_selects_every_match_inside(s: Seq<u8>, v: SearchPane, k: KeyEvent)
    requires
        k.key is Enter,
        v.search.kind is SelectWithin,
        v.search.start is Some,
        v.input.len() > 0,
        pattern_error(v.input) is None,
    ensures
        ({
            let whole = from_snapshot(v.search.start->0);
            let base = if whole.anchor < whole.head { whole.anchor as int } else { whole.head as int };
            let ms = matches_in(v.input, s.subrange(base, sel_end(s, whole)));
            let after = search_step(s, v, k);
            &&& after.mode == Mode::Normal
            &&& after.search.pattern == Some(v.input)
            &&& ms.len() == 0 ==> after.sels == v.sels
            &&& ms.len() > 0 ==> after.sels.primary == 0 && after.sels.list.len() == ms.len()
            &&& forall|i: int|
                0 <= i < ms.len() ==> #[trigger] after.sels.list[i] == covering(
                    s,
                    base + ms[i].0,
                    base + ms[i].1,
                )
        }),
{
}

/// A match that is not selected yet becomes the primary selection, and the others
/// stay; it is selected from its first byte to its last character.
pub proof fn an_added_match_is_primary(s: Seq<u8>, sels: SelectionsView, a: int, b: int)
    requires
        sels.ok(),
        valid_utf8(s),
        0 <= a < b <= s.len() <= usize::MAX,
        on_char(s, a),
        on_char(s, b),
        index_covering(s, sels.list, a, b, 0) is None,
    ensures
        ({
            let r = match_added(s, sels, Some((a, b)));
            let p = r.prime();
            &&& r.list.len() == sels.list.len() + 1
            &&& forall|i: int| 0 <= i < sels.list.len() ==> #[trigger] r.list[i] == sels.list[i]
            &&& r.primary == sels.list.len()
            &&& p.anchor == a && a <= p.head < b
            &&& on_char(s, p.head as int) && p.head + char_len(s[p.head as int]) == b
            &&& match_added(s, sels, None) == sels
        }),
{
    crate::object::lemma_bytes_of_prev(s, b);
    crate::text::lemma_back_not_past(s, a, b - 1);
}

/// A selection covers a match exactly if it begins where the match does and its
/// last character ends where the match ends.
pub proof fn selected_matches_are_found(s: Seq<u8>, list: Seq<Selection>, a: int, b: int, i: int)
    requires
        0 <= i,
    ensures
        match index_covering(s, list, a, b, i) {
            Some(k) => i <= k < list.len() && sel_min(list[k]) == a && sel_end(s, list[k]) == b,
            None => forall|k: int|
                i <= k < list.len() ==> !(sel_min(#[trigger] list[k]) == a && sel_end(s, list[k]) == b),
        },
    decreases list.len() - i,
{
    if i < list.len() && !(sel_min(list[i]) == a && sel_end(s, list[i]) == b) {
        selected_matches_are_found(s, list, a, b, i + 1);
    }
}

/// What is added is an occurrence of the selected text, taken literally, whichever
/// end of it the head is; where nothing is selected, of the pattern that was
/// searched for last.
pub proof fn the_selected_text_is_looked_for(
    s: Seq<u8>,
    sel: Selection,
    pattern: Option<Seq<char>>,
)
    requires
        valid_utf8(s),
        on_char(s, sel.anchor as int),
        on_char(s, sel.head as int),
        sel.anchor < s.len(),
        sel.head < s.len(),
    ensures
        sel.anchor == sel.head ==> smart_pattern(s, sel, pattern) == pattern,
        sel.anchor != sel.head ==> ({
            let (lo, hi) = if sel.anchor < sel.head {
                (sel.anchor as int, sel.head as int)
            } else {
                (sel.head as int, sel.anchor as int)
            };
            let t = s.subrange(lo, hi + char_len(s[hi]));
            valid_utf8(t) && pattern_error(escaped(decode_utf8(t))) is None ==> smart_pattern(
                s,
                sel,
                pattern,
            ) == Some(escaped(decode_utf8(t)))
        }),
        smart_pattern(s, sel, pattern) == smart_pattern(
            s,
            Selection { anchor: sel.head, head: sel.anchor, ..sel },
            pattern,
        ),
{
    lemma_whole_char(s, if sel.anchor < sel.head { sel.head as int } else { sel.anchor as int });
}

}
