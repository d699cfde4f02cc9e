//! Completion of file names in insert mode: which part of the line is a path,
//! which directory its names come from, and which of them fit.
//!
//! Both `/` and `\` separate. A path may hold blanks: the word before the
//! cursor is tried first, then it is widened to the left word by word, no
//! farther than `MAX_PATH_LOOKBACK` bytes. A quote on the line comes before
//! either: what follows it is tried first of all.
//!
//! Reading directories is the caller's part: `complete` says which one it needs
//! next until it has an answer.
use vstd::prelude::*;
use vstd::utf8::{decode_utf8, encode_scalar, encode_utf8, leading_byte_width_1, valid_utf8};
use crate::completion::{item_below, items_of, sort_items, CompletionItem, ItemView};
use crate::sort::{ranked, ranked_is_a_ranked_permutation};
use crate::strings::{
    chars_of, has_prefix, lossy, lowercase, starts_with, string_of, text_from_utf8,
    text_from_utf8_lossy, to_lowercase,
};
use crate::text::{imax, lemma_line_start_bounds, line_start, line_start_of};

verus! {

/// How far before the cursor a path may begin.
pub const MAX_PATH_LOOKBACK: usize = 200;

/// What path completion offers.
pub struct PathCompletion {
    /// Where the partial name begins: an accepted item replaces the text from
    /// here to the cursor.
    pub anchor: usize,
    /// The partial name.
    pub prefix: String,
    /// The names that fit, directories first.
    pub items: Vec<CompletionItem>,
    /// The quote that the path stands behind, if it was found by one.
    pub quote: Option<char>,
}

#[verifier::ext_equal]
pub struct PathView {
    pub anchor: int,
    pub prefix: Seq<char>,
    pub items: Seq<ItemView>,
    pub quote: Option<char>,
}

impl View for PathCompletion {
    type V = PathView;

    open spec fn view(&self) -> PathView {
        PathView {
            anchor: self.anchor as int,
            prefix: self.prefix@,
            items: items_of(self.items@),
            quote: self.quote,
        }
    }
}

/// A name in a directory.
pub struct DirEntry {
    pub name: String,
    pub is_dir: bool,
}

impl View for DirEntry {
    type V = (Seq<char>, bool);

    open spec fn view(&self) -> (Seq<char>, bool) {
        (self.name@, self.is_dir)
    }
}

pub open spec fn entries_of(s: Seq<DirEntry>) -> Seq<(Seq<char>, bool)> {
    s.map_values(|e: DirEntry| e@)
}

/// The directory whose names are wanted.
pub enum DirRequest {
    /// The working directory.
    Current,
    /// The root, as this separator names it.
    Root(char),
    /// What lies below the home directory under this path; the home directory
    /// itself where it is empty.
    Home(String),
    /// A path as it was typed: below the working directory unless it is
    /// absolute.
    Named(String),
}

pub enum RequestView {
    Current,
    Root(char),
    Home(Seq<char>),
    Named(Seq<char>),
}

impl View for DirRequest {
    type V = RequestView;

    open spec fn view(&self) -> RequestView {
        match self {
            DirRequest::Current => RequestView::Current,
            DirRequest::Root(c) => RequestView::Root(*c),
            DirRequest::Home(s) => RequestView::Home(s@),
            DirRequest::Named(s) => RequestView::Named(s@),
        }
    }
}

// ---------------------------------------------------------------------------
// Where a path may begin
// ---------------------------------------------------------------------------

pub open spec fn sep_byte(b: u8) -> bool {
    b == 0x2f || b == 0x5c
}

pub open spec fn blank_byte(b: u8) -> bool {
    b == 0x20 || b == 0x09
}

pub open spec fn quote_byte(b: u8) -> bool {
    b == 0x27 || b == 0x22 || b == 0x60
}

fn is_sep(b: u8) -> (r: bool)
    ensures
        r == sep_byte(b),
{
    b == 0x2f || b == 0x5c
}

fn is_blank(b: u8) -> (r: bool)
    ensures
        r == blank_byte(b),
{
    b == 0x20 || b == 0x09
}

fn is_quote(b: u8) -> (r: bool)
    ensures
        r == quote_byte(b),
{
    b == 0x27 || b == 0x22 || b == 0x60
}

/// The last quote in `s[from..p]`.
pub open spec fn quote_before(s: Seq<u8>, p: int, from: int) -> Option<int>
    decreases p - from,
{
    if p <= from {
        None
    } else if quote_byte(s[p - 1]) {
        Some(p - 1)
    } else {
        quote_before(s, p - 1, from)
    }
}

/// The last quote before `cursor` on its line, which begins at `line_start`.
pub fn nearest_quote_left(bytes: &[u8], cursor: usize, line_start: usize) -> (r: Option<usize>)
    requires
        cursor <= bytes@.len(),
    ensures
        match r {
            Some(q) => quote_before(bytes@, cursor as int, line_start as int) == Some(q as int)
                && line_start <= q < cursor && quote_byte(bytes@[q as int]),
            None => quote_before(bytes@, cursor as int, line_start as int) is None,
        },
{
    let mut p: usize = cursor;
    while p > line_start
        invariant
            p <= cursor <= bytes@.len(),
            quote_before(bytes@, p as int, line_start as int) == quote_before(
                bytes@,
                cursor as int,
                line_start as int,
            ),
        decreases p,
    {
        p -= 1;
        if is_quote(bytes[p]) {
            return Some(p);
        }
    }
    None
}

/// Start of the bytes before `p` that are not blank, no farther than `bound`.
pub open spec fn solid_left(s: Seq<u8>, p: int, bound: int) -> int
    decreases p - bound,
{
    if p > bound && !blank_byte(s[p - 1]) {
        solid_left(s, p - 1, bound)
    } else {
        p
    }
}

/// Start of the blanks before `p`, no farther than `bound`.
pub open spec fn blank_left(s: Seq<u8>, p: int, bound: int) -> int
    decreases p - bound,
{
    if p > bound && blank_byte(s[p - 1]) {
        blank_left(s, p - 1, bound)
    } else {
        p
    }
}

/// Start of the word that ends before `p`, with the blanks behind it.
pub open spec fn word_left(s: Seq<u8>, p: int, bound: int) -> int {
    solid_left(s, blank_left(s, p, bound), bound)
}

pub proof fn lemma_left(s: Seq<u8>, p: int, bound: int)
    ensures
        p >= bound ==> bound <= solid_left(s, p, bound) <= p,
        p >= bound ==> bound <= blank_left(s, p, bound) <= p,
        p > bound && blank_byte(s[p - 1]) ==> blank_left(s, p, bound) < p,
        p > bound && !blank_byte(s[p - 1]) ==> solid_left(s, p, bound) < p,
    decreases p - bound,
{
    if p > bound {
        lemma_left(s, p - 1, bound);
    }
}

pub proof fn lemma_word_left(s: Seq<u8>, p: int, bound: int)
    requires
        p > bound,
    ensures
        bound <= word_left(s, p, bound) < p,
{
    lemma_left(s, p, bound);
    lemma_left(s, blank_left(s, p, bound), bound);
}

/// Start of the word that ends at `cursor`.
pub fn token_start(bytes: &[u8], cursor: usize, bound: usize) -> (r: usize)
    requires
        cursor <= bytes@.len(),
    ensures
        r == solid_left(bytes@, cursor as int, bound as int),
        r <= cursor,
        bound <= cursor ==> bound <= r,
{
    let mut p: usize = cursor;
    while p > bound && !is_blank(bytes[p - 1])
        invariant
            p <= cursor <= bytes@.len(),
            bound <= cursor ==> bound <= p,
            solid_left(bytes@, p as int, bound as int) == solid_left(
                bytes@,
                cursor as int,
                bound as int,
            ),
        decreases p,
    {
        p -= 1;
    }
    p
}

/// One word farther to the left than `from`, if there is one.
pub fn expand_word_left(bytes: &[u8], from: usize, bound: usize) -> (r: Option<usize>)
    requires
        from <= bytes@.len(),
    ensures
        match r {
            Some(p) => p == word_left(bytes@, from as int, bound as int) && p < from && bound <= p,
            None => from <= bound,
        },
{
    let mut p: usize = from;
    proof {
        if from > bound {
            lemma_word_left(bytes@, from as int, bound as int);
        }
    }
    while p > bound && is_blank(bytes[p - 1])
        invariant
            p <= from <= bytes@.len(),
            blank_left(bytes@, p as int, bound as int) == blank_left(
                bytes@,
                from as int,
                bound as int,
            ),
        decreases p,
    {
        p -= 1;
    }
    let p = token_start(bytes, p, bound);
    if p == from {
        None
    } else {
        Some(p)
    }
}

/// A part of the line that may be a path: from `start` to the cursor.
#[derive(Clone, Copy)]
pub struct Candidate {
    pub start: usize,
    pub quote: Option<char>,
}

/// The word at `start` and the wider ones, as far as `bound`.
pub open spec fn widened(s: Seq<u8>, start: int, bound: int) -> Seq<Candidate>
    decreases start - bound,
{
    let here = seq![Candidate { start: start as usize, quote: None }];
    if start <= bound {
        here
    } else {
        proof {
            lemma_word_left(s, start, bound);
        }
        here + widened(s, word_left(s, start, bound), bound)
    }
}

/// What follows a quote on the line.
pub open spec fn quoted(s: Seq<u8>, cursor: int) -> Seq<Candidate> {
    match quote_before(s, cursor, line_start_of(s, cursor)) {
        Some(q) => seq![Candidate { start: (q + 1) as usize, quote: Some(s[q] as char) }],
        None => Seq::empty(),
    }
}

/// How far to the left a path may begin.
pub open spec fn lookback(s: Seq<u8>, cursor: int) -> int {
    imax(imax(cursor - MAX_PATH_LOOKBACK, 0), line_start_of(s, cursor))
}

/// The parts of the line to try, in order. Where no word ends at the cursor
/// nothing is widened.
pub open spec fn candidates_of(s: Seq<u8>, cursor: int) -> Seq<Candidate> {
    if cursor > s.len() {
        Seq::empty()
    } else {
        let bound = lookback(s, cursor);
        let start = solid_left(s, cursor, bound);
        quoted(s, cursor) + if start == cursor {
            seq![Candidate { start: start as usize, quote: None }]
        } else {
            widened(s, start, bound)
        }
    }
}

/// The parts of the line to try for a path, in order.
pub fn candidates(bytes: &[u8], cursor: usize) -> (r: Vec<Candidate>)
    requires
        bytes@.len() < usize::MAX,
    ensures
        r@ == candidates_of(bytes@, cursor as int),
        forall|i: int| 0 <= i < r@.len() ==> (#[trigger] r@[i]).start <= cursor,
        r@.len() > 0 ==> cursor <= bytes@.len(),
{
    let mut out: Vec<Candidate> = Vec::new();
    if cursor > bytes.len() {
        return out;
    }
    let ls: usize = line_start(bytes, cursor);
    if let Some(q) = nearest_quote_left(bytes, cursor, ls) {
        out.push(Candidate { start: q + 1, quote: Some(bytes[q] as char) });
    }
    assert(out@ =~= quoted(bytes@, cursor as int));
    let far: usize = if cursor > MAX_PATH_LOOKBACK {
        cursor - MAX_PATH_LOOKBACK
    } else {
        0
    };
    let bound: usize = if far > ls {
        far
    } else {
        ls
    };
    proof {
        assert(bound == lookback(bytes@, cursor as int));
    }
    let mut start: usize = token_start(bytes, cursor, bound);
    out.push(Candidate { start, quote: None });
    if start == cursor {
        return out;
    }
    let ghost all = quoted(bytes@, cursor as int) + widened(bytes@, start as int, bound as int);
    let ghost before = quoted(bytes@, cursor as int);
    assert(before.push(out@.last()) =~= out@);
    assert(before + widened(bytes@, start as int, bound as int) =~= all);
    while start > bound
        invariant
            bound <= start <= cursor <= bytes@.len(),
            out@ == before.push(Candidate { start, quote: None }),
            before + widened(bytes@, start as int, bound as int) == all,
            forall|i: int| 0 <= i < out@.len() ==> (#[trigger] out@[i]).start <= cursor,
        decreases start,
    {
        match expand_word_left(bytes, start, bound) {
            Some(p) => {
                let ghost held = out@;
                out.push(Candidate { start: p, quote: None });
                proof {
                    assert(before + (seq![Candidate { start, quote: None }] + widened(
                        bytes@,
                        p as int,
                        bound as int,
                    )) =~= held + widened(bytes@, p as int, bound as int));
                    before = held;
                }
                start = p;
            },
            None => {},
        }
    }
    assert(before + seq![Candidate { start, quote: None }] =~= out@);
    out
}

// ---------------------------------------------------------------------------
// What a candidate asks for
// ---------------------------------------------------------------------------

/// A path in its parts.
pub struct Split {
    /// What stands before the last separator.
    pub dir: String,
    /// Whether there is a separator.
    pub had_sep: bool,
    /// What stands behind the last separator; the whole where there is none.
    pub partial: String,
    /// The last separator; the platform's where there is none.
    pub sep: char,
    /// Where `partial` begins in the buffer.
    pub anchor: usize,
}

#[verifier::ext_equal]
pub struct SplitView {
    pub dir: Seq<char>,
    pub had_sep: bool,
    pub partial: Seq<char>,
    pub sep: char,
    pub anchor: int,
}

impl View for Split {
    type V = SplitView;

    open spec fn view(&self) -> SplitView {
        SplitView {
            dir: self.dir@,
            had_sep: self.had_sep,
            partial: self.partial@,
            sep: self.sep,
            anchor: self.anchor as int,
        }
    }
}

/// The last separator in `s[..i]`.
pub open spec fn last_sep(s: Seq<u8>, i: int) -> Option<int>
    decreases i,
{
    if i <= 0 {
        None
    } else if sep_byte(s[i - 1]) {
        Some(i - 1)
    } else {
        last_sep(s, i - 1)
    }
}

/// The text of bytes; nothing where they are not UTF-8.
pub open spec fn text_or_nothing(s: Seq<u8>) -> Seq<char> {
    if valid_utf8(s) { decode_utf8(s) } else { Seq::empty() }
}

/// `c` in its parts, where `dir` is the text of the bytes before the last
/// separator.
pub open spec fn split_at(
    c: Seq<u8>,
    start: int,
    platform: char,
    dir: Seq<char>,
) -> SplitView {
    match last_sep(c, c.len() as int) {
        Some(i) => SplitView {
            dir,
            had_sep: true,
            partial: text_or_nothing(c.skip(i + 1)),
            sep: c[i] as char,
            anchor: start + i + 1,
        },
        None => SplitView {
            dir: Seq::empty(),
            had_sep: false,
            partial: text_or_nothing(c),
            sep: platform,
            anchor: start,
        },
    }
}

/// The bytes before the last separator.
pub open spec fn dir_bytes(c: Seq<u8>) -> Seq<u8> {
    match last_sep(c, c.len() as int) {
        Some(i) => c.take(i),
        None => Seq::empty(),
    }
}

pub open spec fn split_of(c: Seq<u8>, start: int, platform: char) -> SplitView {
    split_at(c, start, platform, lossy(dir_bytes(c)))
}

/// Split the bytes at buffer offset `start` at their last separator.
pub fn split_candidate(candidate: &[u8], start: usize, platform: char) -> (r: Split)
    requires
        start + candidate@.len() <= usize::MAX,
    ensures
        r@ == split_of(candidate@, start as int, platform),
        valid_utf8(dir_bytes(candidate@)) && r.had_sep ==> r.dir@ == decode_utf8(
            dir_bytes(candidate@),
        ),
{
    let n: usize = candidate.len();
    let mut i: usize = n;
    while i > 0 && !is_sep(candidate[i - 1])
        invariant
            i <= n == candidate@.len(),
            last_sep(candidate@, i as int) == last_sep(candidate@, n as int),
        decreases i,
    {
        i -= 1;
    }
    if i == 0 {
        let partial = match text_from_utf8(candidate) {
            Some(t) => t,
            None => String::new(),
        };
        return Split {
            dir: String::new(),
            had_sep: false,
            partial,
            sep: platform,
            anchor: start,
        };
    }
    let before = vstd::slice::slice_subrange(candidate, 0, i - 1);
    let behind = vstd::slice::slice_subrange(candidate, i, n);
    assert(before@ =~= dir_bytes(candidate@));
    assert(behind@ =~= candidate@.skip(i as int));
    let partial = match text_from_utf8(behind) {
        Some(t) => t,
        None => String::new(),
    };
    Split {
        dir: text_from_utf8_lossy(before),
        had_sep: true,
        partial,
        sep: candidate[i - 1] as char,
        anchor: start + i,
    }
}

/// First index from `i` on that does not hold a separator.
pub open spec fn behind_seps(s: Seq<char>, i: int) -> int
    decreases s.len() - i,
{
    if i < s.len() && (s[i] == '/' || s[i] == '\\') {
        behind_seps(s, i + 1)
    } else {
        i
    }
}

/// The directory that a path names.
pub open spec fn dir_of(dir: Seq<char>, had_sep: bool, sep: char) -> RequestView {
    if !had_sep {
        RequestView::Current
    } else if dir.len() == 0 {
        RequestView::Root(sep)
    } else if dir[0] == '~' {
        RequestView::Home(dir.skip(behind_seps(dir, 1)))
    } else {
        RequestView::Named(dir)
    }
}

/// The directory that a path names: the working directory where it has no
/// separator, the root where it starts with one.
pub fn resolve_dir(dir: &str, had_sep: bool, sep: char) -> (r: DirRequest)
    ensures
        r@ == dir_of(dir@, had_sep, sep),
{
    if !had_sep {
        return DirRequest::Current;
    }
    let chars = chars_of(dir);
    if chars.len() == 0 {
        return DirRequest::Root(sep);
    }
    if chars[0] != '~' {
        return DirRequest::Named(dir.to_owned());
    }
    let mut i: usize = 1;
    while i < chars.len() && (chars[i] == '/' || chars[i] == '\\')
        invariant
            1 <= i <= chars@.len(),
            behind_seps(chars@, i as int) == behind_seps(chars@, 1),
        decreases chars@.len() - i,
    {
        i += 1;
    }
    let rest = string_of(chars.as_slice(), i, chars.len());
    assert(rest@ =~= dir@.skip(i as int));
    DirRequest::Home(rest)
}

// ---------------------------------------------------------------------------
// The names that fit
// ---------------------------------------------------------------------------

/// Whether a name is offered. `name` and `partial` come with their lower case
/// forms. Names that begin with a dot are offered only for a partial that does
/// so too.
pub open spec fn is_offered(
    name: Seq<char>,
    name_low: Seq<char>,
    partial: Seq<char>,
    partial_low: Seq<char>,
) -> bool {
    (has_prefix(name, "."@) ==> has_prefix(partial, "."@)) && has_prefix(name_low, partial_low)
}

/// The item for a name. A directory is shown and written with a separator
/// behind it, and comes before all files.
pub open spec fn entry_item(e: (Seq<char>, bool), low: Seq<char>, sep: char) -> ItemView {
    let display = if e.1 { e.0.push(sep) } else { e.0 };
    ItemView {
        label: display,
        filter_text: e.0,
        insert_text: display,
        sort_text: (if e.1 { seq!['0'] } else { seq!['1'] }) + low,
        detail: None,
    }
}

/// The items for the names that are offered, where `low` are the names in
/// lower case.
pub open spec fn offered_entries(
    entries: Seq<(Seq<char>, bool)>,
    low: Seq<Seq<char>>,
    partial: Seq<char>,
    partial_low: Seq<char>,
    sep: char,
) -> Seq<ItemView>
    decreases entries.len(),
{
    if entries.len() == 0 {
        Seq::empty()
    } else {
        let n = entries.len() - 1;
        let rest = offered_entries(entries.drop_last(), low, partial, partial_low, sep);
        if is_offered(entries[n].0, low[n], partial, partial_low) {
            rest.push(entry_item(entries[n], low[n], sep))
        } else {
            rest
        }
    }
}

pub open spec fn low_names(entries: Seq<(Seq<char>, bool)>) -> Seq<Seq<char>> {
    entries.map_values(|e: (Seq<char>, bool)| lowercase(e.0))
}

/// What a directory offers for a partial name.
pub open spec fn listing(
    entries: Seq<(Seq<char>, bool)>,
    partial: Seq<char>,
    sep: char,
) -> Seq<ItemView> {
    ranked(offered_entries(entries, low_names(entries), partial, lowercase(partial), sep))
}

pub open spec fn strings_of(v: Seq<String>) -> Seq<Seq<char>> {
    v.map_values(|s: String| s@)
}

/// What a directory offers for a partial name, given the lower case forms of
/// its names and of the partial.
pub fn list_lowered(
    entries: &[DirEntry],
    low: &[String],
    partial: &str,
    partial_low: &str,
    sep: char,
) -> (r: Vec<CompletionItem>)
    requires
        low@.len() == entries@.len(),
    ensures
        items_of(r@) == ranked(
            offered_entries(
                entries_of(entries@),
                strings_of(low@),
                partial@,
                partial_low@,
                sep,
            ),
        ),
{
    let want_hidden: bool = starts_with(partial, ".");
    let ghost all = entries_of(entries@);
    let ghost lows = strings_of(low@);
    let mut out: Vec<CompletionItem> = Vec::new();
    let mut i: usize = 0;
    assert(items_of(out@) =~= offered_entries(all.take(0), lows, partial@, partial_low@, sep));
    while i < entries.len()
        invariant
            i <= entries@.len() == low@.len(),
            want_hidden == has_prefix(partial@, "."@),
            all == entries_of(entries@),
            lows == strings_of(low@),
            items_of(out@) == offered_entries(
                all.take(i as int),
                lows,
                partial@,
                partial_low@,
                sep,
            ),
        decreases entries@.len() - i,
    {
        let e = &entries[i];
        let ghost before = out@;
        assert(all.take(i + 1).drop_last() =~= all.take(i as int));
        let hidden: bool = starts_with(e.name.as_str(), ".");
        if (!hidden || want_hidden) && starts_with(low[i].as_str(), partial_low) {
            let mut display = e.name.clone();
            if e.is_dir {
                display.push(sep);
            }
            let mut sort_text = String::new();
            sort_text.push(if e.is_dir { '0' } else { '1' });
            sort_text.append(low[i].as_str());
            assert(sort_text@ =~= entry_item(all[i as int], lows[i as int], sep).sort_text);
            let item = CompletionItem {
                label: display.clone(),
                filter_text: e.name.clone(),
                insert_text: display,
                sort_text,
                detail: None,
            };
            out.push(item);
            assert(items_of(out@) =~= items_of(before).push(
                entry_item(all[i as int], lows[i as int], sep),
            ));
        }
        i += 1;
    }
    assert(all.take(i as int) =~= all);
    sort_items(out)
}

/// What a directory offers for a partial name: the names that start with it,
/// whatever the case, directories first, each group in alphabetical order.
pub fn list_dir(entries: &[DirEntry], partial: &str, sep: char) -> (r: Vec<CompletionItem>)
    ensures
        items_of(r@) == listing(entries_of(entries@), partial@, sep),
{
    let mut low: Vec<String> = Vec::new();
    let mut i: usize = 0;
    while i < entries.len()
        invariant
            i <= entries@.len(),
            low@.len() == i,
            forall|k: int| 0 <= k < i ==> #[trigger] low@[k]@ == lowercase(entries@[k].name@),
        decreases entries@.len() - i,
    {
        low.push(to_lowercase(entries[i].name.as_str()));
        i += 1;
    }
    assert(strings_of(low@) =~= low_names(entries_of(entries@)));
    let p = to_lowercase(partial);
    list_lowered(entries, low.as_slice(), partial, p.as_str(), sep)
}

// ---------------------------------------------------------------------------
// Putting it together
// ---------------------------------------------------------------------------

/// The directory that a candidate names.
pub open spec fn request_of(s: Seq<u8>, cursor: int, platform: char, c: Candidate) -> RequestView {
    let sp = split_of(s.subrange(c.start as int, cursor), c.start as int, platform);
    dir_of(sp.dir, sp.had_sep, sp.sep)
}

/// What a candidate completes to, given the names in its directory.
pub open spec fn completion_of(
    s: Seq<u8>,
    cursor: int,
    platform: char,
    c: Candidate,
    entries: Seq<(Seq<char>, bool)>,
) -> Option<PathView> {
    let sp = split_of(s.subrange(c.start as int, cursor), c.start as int, platform);
    let items = listing(entries, sp.partial, sp.sep);
    if items.len() == 0 {
        None
    } else {
        Some(PathView { anchor: sp.anchor, prefix: sp.partial, items, quote: c.quote })
    }
}

pub open spec fn opt_path(o: Option<PathCompletion>) -> Option<PathView> {
    match o {
        Some(p) => Some(p@),
        None => None,
    }
}

/// What a candidate completes to, given the names in its directory; nothing
/// when none of them fits.
pub fn resolve_candidate(
    bytes: &[u8],
    cursor: usize,
    platform: char,
    c: Candidate,
    entries: &[DirEntry],
) -> (r: Option<PathCompletion>)
    requires
        c.start <= cursor <= bytes@.len(),
    ensures
        opt_path(r) == completion_of(bytes@, cursor as int, platform, c, entries_of(entries@)),
{
    let part = vstd::slice::slice_subrange(bytes, c.start, cursor);
    let sp = split_candidate(part, c.start, platform);
    let items = list_dir(entries, sp.partial.as_str(), sp.sep);
    assert(items_of(items@).len() == items@.len());
    if items.len() == 0 {
        None
    } else {
        Some(PathCompletion { anchor: sp.anchor, prefix: sp.partial, items, quote: c.quote })
    }
}

/// The next step of a completion: read a directory, or be done.
pub enum PathStep {
    Read(DirRequest),
    Done(Option<PathCompletion>),
}

pub enum StepView {
    Read(RequestView),
    Done(Option<PathView>),
}

impl View for PathStep {
    type V = StepView;

    open spec fn view(&self) -> StepView {
        match self {
            PathStep::Read(r) => StepView::Read(r@),
            PathStep::Done(o) => StepView::Done(opt_path(*o)),
        }
    }
}

pub open spec fn listings_of(s: Seq<Vec<DirEntry>>) -> Seq<Seq<(Seq<char>, bool)>> {
    s.map_values(|v: Vec<DirEntry>| entries_of(v@))
}

/// From the `i`-th candidate on: the first that completes to something. Where
/// a directory has not been read yet, that one is next.
pub open spec fn step_from(
    s: Seq<u8>,
    cursor: int,
    platform: char,
    read: Seq<Seq<(Seq<char>, bool)>>,
    i: int,
) -> StepView
    decreases candidates_of(s, cursor).len() - i,
{
    let cs = candidates_of(s, cursor);
    if i >= cs.len() {
        StepView::Done(None)
    } else if i >= read.len() {
        StepView::Read(request_of(s, cursor, platform, cs[i]))
    } else {
        match completion_of(s, cursor, platform, cs[i], read[i]) {
            Some(p) => StepView::Done(Some(p)),
            None => step_from(s, cursor, platform, read, i + 1),
        }
    }
}

/// Complete the path before `cursor`. `read` holds what was read so far: the
/// names in the directories that were asked for, in that order, with an empty
/// list for one that could not be read. The answer is what the first candidate
/// with fitting names completes to, nothing when there is none, or the
/// directory to read next.
pub fn complete(bytes: &[u8], cursor: usize, platform: char, read: &[Vec<DirEntry>]) -> (r: PathStep)
    requires
        bytes@.len() < usize::MAX,
    ensures
        r@ == step_from(bytes@, cursor as int, platform, listings_of(read@), 0),
{
    let cs = candidates(bytes, cursor);
    let ghost seen = listings_of(read@);
    let mut i: usize = 0;
    while i < cs.len()
        invariant
            i <= cs@.len(),
            cs@ == candidates_of(bytes@, cursor as int),
            forall|k: int| 0 <= k < cs@.len() ==> (#[trigger] cs@[k]).start <= cursor,
            cs@.len() > 0 ==> cursor <= bytes@.len(),
            seen == listings_of(read@),
            step_from(bytes@, cursor as int, platform, seen, i as int) == step_from(
                bytes@,
                cursor as int,
                platform,
                seen,
                0,
            ),
        decreases cs@.len() - i,
    {
        let c = cs[i];
        assert(cs@[i as int].start <= cursor);
        if i >= read.len() {
            let part = vstd::slice::slice_subrange(bytes, c.start, cursor);
            let sp = split_candidate(part, c.start, platform);
            return PathStep::Read(resolve_dir(sp.dir.as_str(), sp.had_sep, sp.sep));
        }
        assert(seen[i as int] == entries_of(read@[i as int]@));
        if let Some(p) = resolve_candidate(bytes, cursor, platform, c, read[i].as_slice()) {
            return PathStep::Done(Some(p));
        }
        i += 1;
    }
    PathStep::Done(None)
}

pub open spec fn ascii_white(b: u8) -> bool {
    b == 0x20 || b == 0x09 || b == 0x0a || b == 0x0c || b == 0x0d
}

/// Whether the separator just typed before `cursor` opens the popup by itself:
/// it does behind anything but white space and the start of the buffer.
pub fn separator_should_autotrigger(bytes: &[u8], cursor: usize) -> (r: bool)
    requires
        cursor <= bytes@.len(),
    ensures
        r == (cursor >= 2 && sep_byte(bytes@[cursor - 1]) && !ascii_white(bytes@[cursor - 2])),
{
    if cursor < 2 || !is_sep(bytes[cursor - 1]) {
        return false;
    }
    let b: u8 = bytes[cursor - 2];
    !(b == 0x20 || b == 0x09 || b == 0x0a || b == 0x0c || b == 0x0d)
}

// ---------------------------------------------------------------------------
// Laws
// ---------------------------------------------------------------------------

/// A path is looked for on the cursor's line only, and never behind the
/// cursor.
pub proof fn paths_begin_on_the_line(s: Seq<u8>, cursor: int)
    requires
        0 <= cursor <= s.len() < usize::MAX,
    ensures
        forall|i: int|
            0 <= i < candidates_of(s, cursor).len() ==> line_start_of(s, cursor)
                <= (#[trigger] candidates_of(s, cursor)[i]).start <= cursor,
{
    let ls = line_start_of(s, cursor);
    lemma_line_start_bounds(s, cursor);
    let bound = lookback(s, cursor);
    let start = solid_left(s, cursor, bound);
    lemma_left(s, cursor, bound);
    lemma_quote(s, cursor, ls);
    lemma_widened(s, start, bound);
    let cs = candidates_of(s, cursor);
    let q = quoted(s, cursor);
    assert forall|i: int| 0 <= i < cs.len() implies ls <= (#[trigger] cs[i]).start <= cursor by {
        if i < q.len() {
            assert(cs[i] == q[i]);
        } else if start != cursor {
            assert(cs[i] == widened(s, start, bound)[i - q.len()]);
        }
    }
}

proof fn lemma_quote(s: Seq<u8>, p: int, from: int)
    ensures
        quote_before(s, p, from) matches Some(q) ==> from <= q < p,
    decreases p - from,
{
    if p > from {
        lemma_quote(s, p - 1, from);
    }
}

proof fn lemma_widened(s: Seq<u8>, start: int, bound: int)
    requires
        0 <= bound <= start <= usize::MAX,
    ensures
        forall|i: int|
            0 <= i < widened(s, start, bound).len() ==> bound <= (#[trigger] widened(
                s,
                start,
                bound,
            )[i]).start <= start,
    decreases start - bound,
{
    if start > bound {
        lemma_word_left(s, start, bound);
        let next = word_left(s, start, bound);
        lemma_widened(s, next, bound);
        let w = widened(s, start, bound);
        assert forall|i: int| 0 <= i < w.len() implies bound <= (#[trigger] w[i]).start <= start by {
            if i > 0 {
                assert(w[i] == widened(s, next, bound)[i - 1]);
            }
        }
    }
}

/// Directories come before files, whatever their names.
pub proof fn directories_come_before_files(
    d: Seq<char>,
    d_low: Seq<char>,
    f: Seq<char>,
    f_low: Seq<char>,
    sep: char,
)
    ensures
        item_below(entry_item((d, true), d_low, sep), entry_item((f, false), f_low, sep)),
{
    let a = seq!['0'] + d_low;
    let b = seq!['1'] + f_low;
    assert(a.drop_first() =~= d_low);
    assert(b.drop_first() =~= f_low);
    assert(encode_scalar('0' as u32) == seq![0x30u8]) by {
        assert(leading_byte_width_1(0x30) == 0x30) by (bit_vector);
    }
    assert(encode_scalar('1' as u32) == seq![0x31u8]) by {
        assert(leading_byte_width_1(0x31) == 0x31) by (bit_vector);
    }
    assert(encode_utf8(a) == encode_scalar('0' as u32) + encode_utf8(d_low));
    assert(encode_utf8(b) == encode_scalar('1' as u32) + encode_utf8(f_low));
}

/// A name that begins with a dot is not offered for a partial that does not.
pub proof fn hidden_names_stay_hidden(
    name: Seq<char>,
    name_low: Seq<char>,
    partial: Seq<char>,
    partial_low: Seq<char>,
)
    requires
        has_prefix(name, "."@),
        !has_prefix(partial, "."@),
    ensures
        !is_offered(name, name_low, partial, partial_low),
{
}

/// What was typed of a path is cut at its last separator: what stands before it,
/// the separator and what stands behind it are the whole, and the part behind it
/// holds none.
pub proof fn paths_are_cut_at_the_last_separator(c: Seq<u8>, start: int, platform: char)
    requires
        valid_utf8(c),
        0 <= start,
    ensures
        ({
            let sp = split_of(c, start, platform);
            let tail = c.skip(sp.anchor - start);
            &&& start <= sp.anchor <= start + c.len()
            &&& forall|i: int|
                sp.anchor - start <= i < c.len() ==> #[trigger] c[i] != '/' as u8 && c[i]
                    != '\\' as u8
            &&& valid_utf8(tail) ==> sp.partial == decode_utf8(tail)
            &&& sp.had_sep <==> sp.anchor > start
            &&& sp.had_sep ==> {
                let i = sp.anchor - start - 1;
                &&& c[i] == '/' as u8 || c[i] == '\\' as u8
                &&& sp.sep == c[i] as char
                &&& sp.dir == lossy(c.take(i))
            }
            &&& !sp.had_sep ==> sp.dir.len() == 0 && sp.sep == platform
        }),
{
    lemma_last_sep(c, c.len() as int);
    if last_sep(c, c.len() as int) is None {
        assert(c.skip(0) =~= c);
    }
}

proof fn lemma_last_sep(s: Seq<u8>, i: int)
    requires
        i <= s.len(),
    ensures
        match last_sep(s, i) {
            Some(k) => 0 <= k < i && sep_byte(s[k]) && forall|j: int|
                k < j < i ==> !sep_byte(#[trigger] s[j]),
            None => forall|j: int| 0 <= j < i ==> !sep_byte(#[trigger] s[j]),
        },
    decreases i,
{
    if i > 0 && !sep_byte(s[i - 1]) {
        lemma_last_sep(s, i - 1);
    }
}

/// A partial without a separator is looked up in the working directory, one
/// behind a leading separator in the root, one behind a tilde below the home
/// directory, and any other where its path says.
pub proof fn directories_are_where_the_path_says(dir: Seq<char>, sep: char)
    ensures
        dir_of(dir, false, sep) is Current,
        dir_of(Seq::empty(), true, sep) == RequestView::Root(sep),
        dir.len() > 0 && dir[0] != '~' ==> dir_of(dir, true, sep) == RequestView::Named(dir),
        dir == seq!['~'] ==> dir_of(dir, true, sep) == RequestView::Home(Seq::empty()),
        dir.len() > 0 && dir[0] != '/' && dir[0] != '\\' ==> dir_of(seq!['~', '/'] + dir, true, sep)
            == RequestView::Home(dir),
{
    reveal_with_fuel(behind_seps, 3);
    if dir == seq!['~'] {
        assert(dir.skip(1) =~= Seq::<char>::empty());
    }
    if dir.len() > 0 && dir[0] != '/' && dir[0] != '\\' {
        let d = seq!['~', '/'] + dir;
        assert(d[0] == '~' && d[1] == '/' && d[2] == dir[0]);
        assert(behind_seps(d, 1) == 2);
        assert(d.skip(2) =~= dir);
    }
}

/// The name begins with a dot.
pub open spec fn hidden(name: Seq<char>) -> bool {
    name.len() > 0 && name[0] == '.'
}

/// An entry is offered: its name starts with the partial, whatever the case, and
/// it is not hidden unless the partial is.
pub open spec fn fits_partial(name: Seq<char>, partial: Seq<char>) -> bool {
    let (n, p) = (lowercase(name), lowercase(partial));
    &&& p.len() <= n.len() && forall|k: int| 0 <= k < p.len() ==> #[trigger] p[k] == n[k]
    &&& hidden(name) ==> hidden(partial)
}

proof fn lemma_fits_partial(name: Seq<char>, partial: Seq<char>)
    ensures
        is_offered(name, lowercase(name), partial, lowercase(partial)) == fits_partial(
            name,
            partial,
        ),
{
    let (n, p) = (lowercase(name), lowercase(partial));
    reveal_strlit(".");
    assert("."@ =~= seq!['.']);
    assert(has_prefix(name, "."@) == hidden(name)) by {
        if hidden(name) {
            assert(name.take(1) =~= "."@);
        }
        if has_prefix(name, "."@) {
            assert(name.take(1)[0] == '.');
        }
    }
    assert(has_prefix(partial, "."@) == hidden(partial)) by {
        if hidden(partial) {
            assert(partial.take(1) =~= "."@);
        }
        if has_prefix(partial, "."@) {
            assert(partial.take(1)[0] == '.');
        }
    }
    if has_prefix(n, p) {
        assert forall|k: int| 0 <= k < p.len() implies #[trigger] p[k] == n[k] by {
            assert(n.take(p.len() as int)[k] == p[k]);
        }
    }
    if p.len() <= n.len() && forall|k: int| 0 <= k < p.len() ==> #[trigger] p[k] == n[k] {
        assert(n.take(p.len() as int) =~= p);
    }
}

/// The item shows and writes the entry's name, a directory's with the separator
/// behind it.
pub open spec fn shows_entry(it: ItemView, e: (Seq<char>, bool), sep: char) -> bool {
    &&& it.filter_text == e.0
    &&& it.label == it.insert_text
    &&& it.insert_text == if e.1 { e.0.push(sep) } else { e.0 }
}

proof fn lemma_entries_offered(
    entries: Seq<(Seq<char>, bool)>,
    low: Seq<Seq<char>>,
    partial: Seq<char>,
    sep: char,
    i: int,
)
    requires
        low.len() >= entries.len(),
        0 <= i < entries.len(),
        forall|k: int| 0 <= k < entries.len() ==> low[k] == lowercase((#[trigger] entries[k]).0),
        fits_partial(entries[i].0, partial),
    ensures
        offered_entries(entries, low, partial, lowercase(partial), sep).contains(
            entry_item(entries[i], low[i], sep),
        ),
    decreases entries.len(),
{
    let n = entries.len() - 1;
    let t = entries.drop_last();
    let rest = offered_entries(t, low, partial, lowercase(partial), sep);
    let all = offered_entries(entries, low, partial, lowercase(partial), sep);
    assert(entries[i].0 == entries[i].0);
    if i == n {
        assert(low[n] == lowercase(entries[n].0));
        lemma_fits_partial(entries[n].0, partial);
        assert(all[rest.len() as int] == entry_item(entries[i], low[i], sep));
    } else {
        assert forall|k: int| 0 <= k < t.len() implies low[k] == lowercase((#[trigger] t[k]).0) by {
            assert(t[k] == entries[k]);
        }
        assert(t[i] == entries[i]);
        lemma_entries_offered(t, low, partial, sep, i);
        let j = choose|j: int| 0 <= j < rest.len() && rest[j] == entry_item(entries[i], low[i], sep);
        assert(all[j] == rest[j]);
    }
}

proof fn lemma_offered_are_entries(
    entries: Seq<(Seq<char>, bool)>,
    low: Seq<Seq<char>>,
    partial: Seq<char>,
    sep: char,
    j: int,
)
    requires
        low.len() >= entries.len(),
        forall|k: int| 0 <= k < entries.len() ==> low[k] == lowercase((#[trigger] entries[k]).0),
        0 <= j < offered_entries(entries, low, partial, lowercase(partial), sep).len(),
    ensures
        exists|i: int|
            0 <= i < entries.len() && fits_partial((#[trigger] entries[i]).0, partial) && offered_entries(
                entries,
                low,
                partial,
                lowercase(partial),
                sep,
            )[j] == entry_item(entries[i], low[i], sep),
    decreases entries.len(),
{
    if entries.len() > 0 {
        let n = entries.len() - 1;
        let t = entries.drop_last();
        let rest = offered_entries(t, low, partial, lowercase(partial), sep);
        if j < rest.len() {
            assert forall|k: int| 0 <= k < t.len() implies low[k] == lowercase((#[trigger] t[k]).0) by {
                assert(t[k] == entries[k]);
            }
            lemma_offered_are_entries(t, low, partial, sep, j);
            let i = choose|i: int|
                0 <= i < t.len() && fits_partial((#[trigger] t[i]).0, partial) && rest[j]
                    == entry_item(t[i], low[i], sep);
            assert(t[i] == entries[i]);
        } else {
            assert(low[n] == lowercase(entries[n].0));
            lemma_fits_partial(entries[n].0, partial);
        }
    }
}

/// A listing offers exactly the entries that fit what was typed.
pub proof fn listings_offer_what_fits(
    entries: Seq<(Seq<char>, bool)>,
    partial: Seq<char>,
    sep: char,
    i: int,
)
    ensures
        0 <= i < entries.len() && fits_partial(entries[i].0, partial) ==> exists|k: int|
            0 <= k < listing(entries, partial, sep).len() && shows_entry(
                #[trigger] listing(entries, partial, sep)[k],
                entries[i],
                sep,
            ),
        0 <= i < listing(entries, partial, sep).len() ==> exists|k: int|
            0 <= k < entries.len() && fits_partial((#[trigger] entries[k]).0, partial) && shows_entry(
                listing(entries, partial, sep)[i],
                entries[k],
                sep,
            ),
{
    broadcast use vstd::seq_lib::group_to_multiset_ensures;

    let low = low_names(entries);
    let off = offered_entries(entries, low, partial, lowercase(partial), sep);
    let all = listing(entries, partial, sep);
    ranked_is_a_ranked_permutation(off);
    if 0 <= i < entries.len() && fits_partial(entries[i].0, partial) {
        lemma_entries_offered(entries, low, partial, sep, i);
        let it = entry_item(entries[i], low[i], sep);
        assert(off.to_multiset().count(it) > 0);
        assert(all.contains(it));
        let k = choose|k: int| 0 <= k < all.len() && all[k] == it;
        assert(shows_entry(all[k], entries[i], sep));
    }
    if 0 <= i < all.len() {
        let it = all[i];
        assert(all.contains(it));
        assert(all.to_multiset().count(it) > 0);
        assert(off.contains(it));
        let j = choose|j: int| 0 <= j < off.len() && off[j] == it;
        lemma_offered_are_entries(entries, low, partial, sep, j);
        let k = choose|k: int|
            0 <= k < entries.len() && fits_partial((#[trigger] entries[k]).0, partial) && off[j]
                == entry_item(entries[k], low[k], sep);
        assert(shows_entry(all[i], entries[k], sep));
    }
}

/// A quote.
pub open spec fn opens_quote(b: u8) -> bool {
    b == '\'' as u8 || b == '"' as u8 || b == '`' as u8
}

proof fn lemma_nearest_quote(s: Seq<u8>, p: int, from: int)
    requires
        0 <= from,
        p <= s.len(),
    ensures
        match quote_before(s, p, from) {
            Some(q) => from <= q < p && opens_quote(s[q]) && forall|j: int|
                q < j < p ==> !opens_quote(#[trigger] s[j]),
            None => forall|j: int| from <= j < p ==> !opens_quote(#[trigger] s[j]),
        },
    decreases p - from,
{
    if p > from && !quote_byte(s[p - 1]) {
        lemma_nearest_quote(s, p - 1, from);
    }
}

proof fn lemma_solid_run(s: Seq<u8>, p: int, bound: int)
    requires
        0 <= bound <= p <= s.len(),
    ensures
        bound <= solid_left(s, p, bound) <= p,
        forall|j: int|
            solid_left(s, p, bound) <= j < p ==> #[trigger] s[j] != ' ' as u8 && s[j] != '\t' as u8,
        solid_left(s, p, bound) > bound ==> s[solid_left(s, p, bound) - 1] == ' ' as u8 || s[solid_left(
            s,
            p,
            bound,
        ) - 1] == '\t' as u8,
    decreases p - bound,
{
    if p > bound && !blank_byte(s[p - 1]) {
        lemma_solid_run(s, p - 1, bound);
    }
}

/// A path is first tried from right behind the nearest quote before the cursor on
/// its line, if there is one, and then from the start of the run without blanks
/// that the cursor ends.
pub proof fn paths_are_tried_behind_a_quote_first(s: Seq<u8>, cursor: int)
    requires
        0 <= cursor <= s.len() < usize::MAX,
    ensures
        ({
            let cs = candidates_of(s, cursor);
            let ls = line_start_of(s, cursor);
            let quoted = exists|q: int| ls <= q < cursor && opens_quote(#[trigger] s[q]);
            let first = if quoted { 1int } else { 0 };
            &&& cs.len() > first
            &&& quoted ==> {
                let q = cs[0].start - 1;
                &&& ls <= q < cursor && opens_quote(s[q])
                &&& forall|j: int| q < j < cursor ==> !opens_quote(#[trigger] s[j])
                &&& cs[0].quote == Some(s[q] as char)
            }
            &&& cs[first].quote is None
            &&& ls <= cs[first].start <= cursor
            &&& forall|j: int|
                cs[first].start <= j < cursor ==> #[trigger] s[j] != ' ' as u8 && s[j] != '\t' as u8
            &&& cs[first].start > ls && cs[first].start + 200 > cursor ==> s[cs[first].start - 1]
                == ' ' as u8 || s[cs[first].start - 1] == '\t' as u8
        }),
{
    let ls = line_start_of(s, cursor);
    lemma_line_start_bounds(s, cursor);
    let bound = lookback(s, cursor);
    lemma_nearest_quote(s, cursor, ls);
    lemma_solid_run(s, cursor, bound);
    let start = solid_left(s, cursor, bound);
    let q = quoted(s, cursor);
    let cs = candidates_of(s, cursor);
    assert(q.len() <= 1);
    assert(cs[q.len() as int].start == start);
    assert(cs[q.len() as int].quote is None);
}

/// Directories are read one after the other until one offers something: what it
/// offers is the completion.
pub proof fn the_first_directory_that_offers_wins(
    s: Seq<u8>,
    cursor: int,
    platform: char,
    read: Seq<Seq<(Seq<char>, bool)>>,
    i: int,
    k: int,
)
    requires
        0 <= i <= k < candidates_of(s, cursor).len(),
        k <= read.len(),
        forall|j: int|
            i <= j < k ==> completion_of(
                s,
                cursor,
                platform,
                candidates_of(s, cursor)[j],
                #[trigger] read[j],
            ) is None,
    ensures
        k == read.len() ==> step_from(s, cursor, platform, read, i) == StepView::Read(
            request_of(s, cursor, platform, candidates_of(s, cursor)[k]),
        ),
        k < read.len() && completion_of(
            s,
            cursor,
            platform,
            candidates_of(s, cursor)[k],
            read[k],
        ) is Some ==> step_from(s, cursor, platform, read, i) == StepView::Done(
            completion_of(s, cursor, platform, candidates_of(s, cursor)[k], read[k]),
        ),
    decreases k - i,
{
    if i < k {
        assert(completion_of(s, cursor, platform, candidates_of(s, cursor)[i], read[i]) is None);
        the_first_directory_that_offers_wins(s, cursor, platform, read, i + 1, k);
    }
}

/// Where a run without blanks is no path, the word before it is tried as well, and
/// so on to the left.
pub proof fn paths_are_tried_word_by_word(s: Seq<u8>, start: int, bound: int)
    requires
        0 <= bound < start <= s.len() <= usize::MAX,
    ensures
        ({
            let w = widened(s, start, bound);
            &&& w.len() >= 2
            &&& w[0].start == start && w[0].quote is None && w[1].quote is None
            &&& bound <= w[1].start < start
            &&& w[1].start > bound ==> s[w[1].start - 1] == ' ' as u8 || s[w[1].start - 1]
                == '\t' as u8
            &&& exists|m: int| #[trigger]
                word_and_blanks(s, w[1].start as int, m, start)
            &&& w.drop_first() == widened(s, w[1].start as int, bound)
        }),
{
    lemma_word_left(s, start, bound);
    let m = blank_left(s, start, bound);
    let next = word_left(s, start, bound);
    lemma_blank_run(s, start, bound);
    lemma_solid_run(s, m, bound);
    let w = widened(s, start, bound);
    let rest = widened(s, next, bound);
    assert(rest[0].start == next && rest[0].quote is None);
    assert(w[1] == rest[0]);
    assert(w.drop_first() =~= rest);
    assert(word_and_blanks(s, next, m, start));
}

/// No blank from `a` to before `m`, and nothing but blanks from there to `b`.
pub open spec fn word_and_blanks(s: Seq<u8>, a: int, m: int, b: int) -> bool {
    &&& a <= m <= b
    &&& forall|j: int| a <= j < m ==> #[trigger] s[j] != ' ' as u8 && s[j] != '\t' as u8
    &&& forall|j: int| m <= j < b ==> #[trigger] s[j] == ' ' as u8 || s[j] == '\t' as u8
}

proof fn lemma_blank_run(s: Seq<u8>, p: int, bound: int)
    requires
        0 <= bound <= p <= s.len(),
    ensures
        bound <= blank_left(s, p, bound) <= p,
        forall|j: int|
            blank_left(s, p, bound) <= j < p ==> #[trigger] s[j] == ' ' as u8 || s[j] == '\t' as u8,
    decreases p - bound,
{
    if p > bound && blank_byte(s[p - 1]) {
        lemma_blank_run(s, p - 1, bound);
    }
}

}
