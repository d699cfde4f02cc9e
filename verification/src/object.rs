//! Text objects: the word, paragraph, quotation or bracket group around a
//! cursor.
use vstd::prelude::*;
use vstd::utf8::valid_utf8;
use crate::input::Key;
use crate::motion::{
    first_at, is_word_byte, last_at, lemma_first_at, lemma_last_at, position_backward,
    position_forward, word_byte,
};
use crate::selection::Selection;
use crate::text::{
    bytes_left, char_len, column_at, display_col, imax, imin, lemma_char_start_bounds,
    lemma_line_end_bounds, lemma_line_start_bounds, line_end, line_end_of, line_start,
    line_start_of, prev_char, prev_char_of, snap_of, snap_to_char_or_last, text_fits, utf8_len, NL,
    SPACE,
};
use crate::text::{
    char_start, is_cont, lemma_first_char, lemma_no_break_before, lemma_no_break_upto,
    lemma_whole_char, on_char,
};

verus! {

#[derive(Debug, Clone, Copy, PartialEq, Eq, Structural)]
pub enum ObjectKind {
    Inner,
    Around,
}

/// A stretch of text: its first byte and the byte behind its last.
pub open spec fn opt_span(o: Option<(usize, usize)>) -> Option<(int, int)> {
    match o {
        Some((a, b)) => Some((a as int, b as int)),
        None => None,
    }
}

// ---------------------------------------------------------------------------
// Words
// ---------------------------------------------------------------------------

/// First character of the run of word characters that ends before `i`.
pub open spec fn word_first(s: Seq<u8>, i: int) -> int
    decreases i,
{
    if i > 0 && prev_char_of(s, i) < s.len() && word_byte(s[prev_char_of(s, i)]) {
        proof {
            lemma_char_start_bounds(s, i - 1);
        }
        word_first(s, prev_char_of(s, i))
    } else {
        i
    }
}

/// First offset past the run of word characters that starts at `i`.
pub open spec fn word_stop(s: Seq<u8>, i: int) -> int
    decreases bytes_left(s, i),
{
    if i < s.len() && word_byte(s[i]) {
        word_stop(s, i + char_len(s[i]))
    } else {
        i
    }
}

/// First offset from `i` on that does not hold `b`.
pub open spec fn past_run(s: Seq<u8>, i: int, b: u8) -> int
    decreases s.len() - i,
{
    if i < s.len() && s[i] == b {
        past_run(s, i + 1, b)
    } else {
        i
    }
}

/// The word at `o`, with the spaces behind it when taken around.
pub open spec fn word_span(s: Seq<u8>, o: int, kind: ObjectKind) -> Option<(int, int)> {
    if o >= s.len() || !word_byte(s[o]) {
        None
    } else {
        let end = word_stop(s, o);
        Some((word_first(s, o), if kind is Around { past_run(s, end, SPACE) } else { end }))
    }
}

fn past_bytes(bytes: &[u8], from: usize, b: u8) -> (r: usize)
    ensures
        r == past_run(bytes@, from as int, b),
        from <= r,
{
    let mut i: usize = from;
    while i < bytes.len() && bytes[i] == b
        invariant
            from <= i,
            past_run(bytes@, i as int, b) == past_run(bytes@, from as int, b),
        decreases bytes@.len() - i,
    {
        i += 1;
    }
    i
}

fn word_object(bytes: &[u8], offset: usize, kind: ObjectKind) -> (r: Option<(usize, usize)>)
    requires
        text_fits(bytes@),
    ensures
        opt_span(r) == word_span(bytes@, offset as int, kind),
{
    if offset >= bytes.len() || !is_word_byte(bytes[offset]) {
        return None;
    }
    let mut start: usize = offset;
    while start > 0
        invariant
            start <= offset < bytes@.len(),
            word_first(bytes@, start as int) == word_first(bytes@, offset as int),
        ensures
            start == word_first(bytes@, offset as int),
        decreases start,
    {
        let p: usize = prev_char(bytes, start);
        if !is_word_byte(bytes[p]) {
            break;
        }
        start = p;
    }
    let mut end: usize = offset;
    while end < bytes.len() && is_word_byte(bytes[end])
        invariant
            text_fits(bytes@),
            word_stop(bytes@, end as int) == word_stop(bytes@, offset as int),
        decreases bytes_left(bytes@, end as int),
    {
        end += utf8_len(bytes[end]);
    }
    if kind == ObjectKind::Around {
        end = past_bytes(bytes, end, SPACE);
    }
    Some((start, end))
}

// ---------------------------------------------------------------------------
// Paragraphs
// ---------------------------------------------------------------------------

/// Start of the first line of the paragraph whose line starts at `start`.
pub open spec fn paragraph_top(s: Seq<u8>, start: int) -> int
    decreases start,
{
    if start > 0 && line_start_of(s, start - 1) != start - 1 {
        proof {
            lemma_line_start_bounds(s, start - 1);
        }
        paragraph_top(s, line_start_of(s, start - 1))
    } else {
        start
    }
}

/// End of the last line of the paragraph whose line ends at `end`.
pub open spec fn paragraph_bottom(s: Seq<u8>, end: int) -> int
    decreases s.len() - end,
{
    if 0 <= end && end + 1 < s.len() && line_end_of(s, end + 1) != end + 1 {
        proof {
            lemma_line_end_bounds(s, end + 1);
        }
        paragraph_bottom(s, line_end_of(s, end + 1))
    } else {
        end
    }
}

/// The lines around `o` up to the nearest blank lines, with the line breaks
/// behind them when taken around.
pub open spec fn paragraph_span(s: Seq<u8>, o: int, kind: ObjectKind) -> Option<(int, int)> {
    if s.len() == 0 {
        None
    } else {
        let end = paragraph_bottom(s, line_end_of(s, o));
        Some(
            (
                paragraph_top(s, line_start_of(s, o)),
                if kind is Around { past_run(s, end, NL) } else { end },
            ),
        )
    }
}

fn paragraph_object(bytes: &[u8], offset: usize, kind: ObjectKind) -> (r: Option<(usize, usize)>)
    ensures
        opt_span(r) == paragraph_span(bytes@, offset as int, kind),
{
    if bytes.len() == 0 {
        return None;
    }
    let mut start: usize = line_start(bytes, offset);
    while start > 0
        invariant
            paragraph_top(bytes@, start as int) == paragraph_top(
                bytes@,
                line_start_of(bytes@, offset as int),
            ),
        ensures
            start == paragraph_top(bytes@, line_start_of(bytes@, offset as int)),
        decreases start,
    {
        let prev_start: usize = line_start(bytes, start - 1);
        if prev_start == start - 1 {
            break;
        }
        start = prev_start;
    }
    let mut end: usize = line_end(bytes, offset);
    while end < bytes.len() - 1
        invariant
            bytes@.len() > 0,
            end <= bytes@.len(),
            paragraph_bottom(bytes@, end as int) == paragraph_bottom(
                bytes@,
                line_end_of(bytes@, offset as int),
            ),
        ensures
            end == paragraph_bottom(bytes@, line_end_of(bytes@, offset as int)),
        decreases bytes@.len() - end,
    {
        let next_end: usize = line_end(bytes, end + 1);
        if next_end == end + 1 {
            break;
        }
        end = next_end;
    }
    if kind == ObjectKind::Around {
        end = past_bytes(bytes, end, NL);
    }
    Some((start, end))
}

// ---------------------------------------------------------------------------
// Quotations
// ---------------------------------------------------------------------------

pub open spec fn inside_or_around(left: int, right: int, kind: ObjectKind) -> (int, int) {
    match kind {
        ObjectKind::Inner => (left + 1, right),
        ObjectKind::Around => (left, right + 1),
    }
}

/// From the nearest quote at or before `o` to the next one after it.
pub open spec fn quoted_span(s: Seq<u8>, o: int, kind: ObjectKind, q: u8) -> Option<(int, int)> {
    match last_at(s, 0, imin(o + 1, s.len() as int), q) {
        None => None,
        Some(left) => match first_at(s, left + 1, s.len() as int, q) {
            None => None,
            Some(right) => Some(inside_or_around(left, right, kind)),
        },
    }
}

fn quoted_object(bytes: &[u8], offset: usize, kind: ObjectKind, q: u8) -> (r: Option<
    (usize, usize),
>)
    ensures
        opt_span(r) == quoted_span(bytes@, offset as int, kind, q),
{
    let stop: usize = if offset < bytes.len() { offset + 1 } else { bytes.len() };
    match position_backward(bytes, 0, stop, q) {
        None => None,
        Some(left) => {
            assert(left < bytes.len());
            match position_forward(bytes, left + 1, bytes.len(), q) {
                None => None,
                Some(right) => {
                    assert(right < bytes.len());
                    match kind {
                        ObjectKind::Inner => Some((left + 1, right)),
                        ObjectKind::Around => Some((left, right + 1)),
                    }
                },
            }
        },
    }
}

// ---------------------------------------------------------------------------
// Brackets
// ---------------------------------------------------------------------------

/// Walking left from `i` with `depth` groups still to be opened: the bracket
/// that opens the last of them.
pub open spec fn opener(s: Seq<u8>, i: int, depth: int, open: u8, close: u8) -> Option<int>
    decreases i + 1,
{
    if i < 0 {
        None
    } else if s[i] == close {
        opener(s, i - 1, depth + 1, open, close)
    } else if s[i] == open {
        if depth <= 1 {
            Some(i)
        } else {
            opener(s, i - 1, depth - 1, open, close)
        }
    } else {
        opener(s, i - 1, depth, open, close)
    }
}

/// Walking right from `i` with `depth` groups still to be closed: the bracket
/// that closes the last of them.
pub open spec fn closer(s: Seq<u8>, i: int, depth: int, open: u8, close: u8) -> Option<int>
    decreases s.len() - i,
{
    if i >= s.len() {
        None
    } else if s[i] == open {
        closer(s, i + 1, depth + 1, open, close)
    } else if s[i] == close {
        if depth <= 1 {
            Some(i)
        } else {
            closer(s, i + 1, depth - 1, open, close)
        }
    } else {
        closer(s, i + 1, depth, open, close)
    }
}

/// The bracket that opens the group around `o`. On a closing bracket that is
/// the group which it closes.
pub open spec fn opener_around(s: Seq<u8>, o: int, open: u8, close: u8) -> Option<int> {
    if o >= s.len() {
        None
    } else if s[o] == close {
        opener(s, o - 1, 1, open, close)
    } else {
        opener(s, o, 1, open, close)
    }
}

/// The innermost bracket group around `o`.
pub open spec fn bracket_span(
    s: Seq<u8>,
    o: int,
    kind: ObjectKind,
    open: u8,
    close: u8,
) -> Option<(int, int)> {
    match opener_around(s, o, open, close) {
        None => None,
        Some(left) => match closer(s, left + 1, 1, open, close) {
            None => None,
            Some(right) => Some(inside_or_around(left, right, kind)),
        },
    }
}

pub fn find_opener(bytes: &[u8], end: usize, open: u8, close: u8) -> (r: Option<usize>)
    requires
        end <= bytes@.len(),
    ensures
        r is Some <==> opener(bytes@, end - 1, 1, open, close) is Some,
        r matches Some(p) ==> p < end && opener(bytes@, end - 1, 1, open, close) == Some(p as int),
{
    let mut i: usize = end;
    let mut inner: usize = 0;
    while i > 0
        invariant
            i <= end <= bytes@.len(),
            inner <= end - i,
            opener(bytes@, i - 1, inner + 1, open, close) == opener(
                bytes@,
                end - 1,
                1,
                open,
                close,
            ),
        decreases i,
    {
        let b: u8 = bytes[i - 1];
        i -= 1;
        if b == close {
            inner += 1;
        } else if b == open {
            if inner == 0 {
                return Some(i);
            }
            inner -= 1;
        }
    }
    None
}

pub fn find_closer(bytes: &[u8], from: usize, open: u8, close: u8) -> (r: Option<usize>)
    requires
        from <= bytes@.len(),
    ensures
        r is Some <==> closer(bytes@, from as int, 1, open, close) is Some,
        r matches Some(p) ==> from <= p < bytes@.len() && closer(bytes@, from as int, 1, open, close)
            == Some(p as int),
{
    let mut i: usize = from;
    let mut inner: usize = 0;
    while i < bytes.len()
        invariant
            from <= i <= bytes@.len(),
            inner <= i - from,
            closer(bytes@, i as int, inner + 1, open, close) == closer(
                bytes@,
                from as int,
                1,
                open,
                close,
            ),
        decreases bytes@.len() - i,
    {
        let b: u8 = bytes[i];
        if b == open {
            inner += 1;
        } else if b == close {
            if inner == 0 {
                return Some(i);
            }
            inner -= 1;
        }
        i += 1;
    }
    None
}

fn bracket_object(
    bytes: &[u8],
    offset: usize,
    kind: ObjectKind,
    open: u8,
    close: u8,
) -> (r: Option<(usize, usize)>)
    requires
        open != close,
    ensures
        opt_span(r) == bracket_span(bytes@, offset as int, kind, open, close),
{
    if offset >= bytes.len() {
        return None;
    }
    let end: usize = if bytes[offset] == close { offset } else { offset + 1 };
    match find_opener(bytes, end, open, close) {
        None => None,
        Some(left) => match find_closer(bytes, left + 1, open, close) {
            None => None,
            Some(right) => {
                assert(right < bytes.len());
                match kind {
                    ObjectKind::Inner => Some((left + 1, right)),
                    ObjectKind::Around => Some((left, right + 1)),
                }
            },
        },
    }
}

// ---------------------------------------------------------------------------
// Selectors
// ---------------------------------------------------------------------------

/// The object that a selector key names.
pub open spec fn object_span(s: Seq<u8>, o: int, kind: ObjectKind, key: Key) -> Option<(int, int)> {
    match key {
        Key::Char('w') => word_span(s, o, kind),
        Key::Char('p') => paragraph_span(s, o, kind),
        Key::Char('"') => quoted_span(s, o, kind, 0x22),
        Key::Char('\'') => quoted_span(s, o, kind, 0x27),
        Key::Char('`') => quoted_span(s, o, kind, 0x60),
        Key::Char('(') | Key::Char(')') => bracket_span(s, o, kind, 0x28, 0x29),
        Key::Char('{') | Key::Char('}') => bracket_span(s, o, kind, 0x7b, 0x7d),
        Key::Char('[') | Key::Char(']') => bracket_span(s, o, kind, 0x5b, 0x5d),
        _ => None,
    }
}

/// The byte range of the object of the given kind around `offset`, if there
/// is one.
pub fn text_object(bytes: &[u8], offset: usize, kind: ObjectKind, key: Key) -> (r: Option<
    (usize, usize),
>)
    requires
        text_fits(bytes@),
    ensures
        opt_span(r) == object_span(bytes@, offset as int, kind, key),
{
    match key {
        Key::Char('w') => word_object(bytes, offset, kind),
        Key::Char('p') => paragraph_object(bytes, offset, kind),
        Key::Char('"') => quoted_object(bytes, offset, kind, 0x22),
        Key::Char('\'') => quoted_object(bytes, offset, kind, 0x27),
        Key::Char('`') => quoted_object(bytes, offset, kind, 0x60),
        Key::Char('(') | Key::Char(')') => bracket_object(bytes, offset, kind, 0x28, 0x29),
        Key::Char('{') | Key::Char('}') => bracket_object(bytes, offset, kind, 0x7b, 0x7d),
        Key::Char('[') | Key::Char(']') => bracket_object(bytes, offset, kind, 0x5b, 0x5d),
        _ => None,
    }
}

/// The selection of the text from `a` up to but not including `b`: its head is
/// the last character of it.
pub open spec fn covering(s: Seq<u8>, a: int, b: int) -> Selection {
    let head = if b > a { imax(snap_of(s, b - 1), a) } else { a };
    Selection { anchor: a as usize, head: head as usize, desired_col: column_at(s, head) as usize }
}

pub fn select_range(bytes: &[u8], a: usize, b: usize) -> (r: Selection)
    requires
        text_fits(bytes@),
    ensures
        r == covering(bytes@, a as int, b as int),
{
    let head: usize = if b > a {
        let h: usize = snap_to_char_or_last(bytes, b - 1);
        if h > a {
            h
        } else {
            a
        }
    } else {
        a
    };
    Selection { anchor: a, head, desired_col: display_col(bytes, line_start(bytes, head), head) }
}

/// The selection once it was put on the object around its head, if there is
/// one.
pub open spec fn object_selected(s: Seq<u8>, sel: Selection, kind: ObjectKind, key: Key) -> Selection {
    match object_span(s, sel.head as int, kind, key) {
        None => sel,
        Some((a, b)) => covering(s, a, b),
    }
}

pub fn select_object(bytes: &[u8], sel: Selection, kind: ObjectKind, key: Key) -> (r: Selection)
    requires
        text_fits(bytes@),
    ensures
        r == object_selected(bytes@, sel, kind, key),
{
    match text_object(bytes, sel.head, kind, key) {
        None => sel,
        Some((a, b)) => select_range(bytes, a, b),
    }
}

// ---------------------------------------------------------------------------
// Matching brackets
// ---------------------------------------------------------------------------

/// The partner of a bracket byte and whether the byte opens.
pub open spec fn bracket_pair(b: u8) -> Option<(u8, bool)> {
    if b == 0x28 {
        Some((0x29u8, true))
    } else if b == 0x29 {
        Some((0x28u8, false))
    } else if b == 0x5b {
        Some((0x5du8, true))
    } else if b == 0x5d {
        Some((0x5bu8, false))
    } else if b == 0x7b {
        Some((0x7du8, true))
    } else if b == 0x7d {
        Some((0x7bu8, false))
    } else {
        None
    }
}

/// The first bracket from `i` on before the line ends.
pub open spec fn bracket_ahead(s: Seq<u8>, i: int) -> Option<int>
    decreases s.len() - i,
{
    if i >= s.len() || s[i] == NL {
        None
    } else if bracket_pair(s[i]) is Some {
        Some(i)
    } else {
        bracket_ahead(s, i + 1)
    }
}

/// The bracket at or after `head` on its line, and the bracket that it pairs
/// with.
pub open spec fn pair_at(s: Seq<u8>, head: int) -> Option<(int, int)> {
    match bracket_ahead(s, head) {
        None => None,
        Some(p) => {
            let (other, opens) = bracket_pair(s[p]).unwrap();
            let q = if opens {
                closer(s, p + 1, 1, s[p], other)
            } else {
                opener(s, p - 1, 1, other, s[p])
            };
            match q {
                None => None,
                Some(q) => Some((p, q)),
            }
        },
    }
}

fn partner(b: u8) -> (r: Option<(u8, bool)>)
    ensures
        r == bracket_pair(b),
{
    match b {
        0x28 => Some((0x29, true)),
        0x29 => Some((0x28, false)),
        0x5b => Some((0x5d, true)),
        0x5d => Some((0x5b, false)),
        0x7b => Some((0x7d, true)),
        0x7d => Some((0x7b, false)),
        _ => None,
    }
}

/// The bracket at or right of `head` on its line and the one that it pairs
/// with, nesting taken into account.
pub fn match_bracket(bytes: &[u8], head: usize) -> (r: Option<(usize, usize)>)
    ensures
        opt_span(r) == pair_at(bytes@, head as int),
{
    let mut i: usize = head;
    while i < bytes.len() && bytes[i] != NL
        invariant
            bracket_ahead(bytes@, i as int) == bracket_ahead(bytes@, head as int),
        decreases bytes@.len() - i,
    {
        match partner(bytes[i]) {
            None => {},
            Some((other, opens)) => {
                let q = if opens {
                    find_closer(bytes, i + 1, bytes[i], other)
                } else {
                    find_opener(bytes, i, other, bytes[i])
                };
                return match q {
                    None => None,
                    Some(q) => Some((i, q)),
                };
            },
        }
        i += 1;
    }
    None
}

/// A stretch of text that a grammar delimits by two tokens: a bracket group,
/// or a keyword block and its `end`.
#[derive(Clone, Copy, Debug, PartialEq, Eq, Structural)]
pub struct Block {
    /// Where the opening token starts.
    pub start: usize,
    /// Just past the opening token.
    pub open_end: usize,
    /// Where the closing token starts.
    pub close_start: usize,
    /// Just past the closing token.
    pub end: usize,
}

impl Block {
    /// The tokens lie in the text, each with at least one byte.
    pub open spec fn wf(self) -> bool {
        self.start < self.open_end <= self.close_start < self.end
    }

    /// From the token that covers byte `i` to the far end of the other one.
    pub open spec fn jump(self, i: int) -> Option<(int, int)> {
        if self.start <= i < self.open_end {
            Some((self.start as int, self.end - 1))
        } else if self.close_start <= i < self.end {
            Some((self.end - 1, self.start as int))
        } else {
            None
        }
    }
}

/// The jump of the first block from `k` on that has a token over byte `i`.
pub open spec fn block_jump(blocks: Seq<Block>, k: int, i: int) -> Option<(int, int)>
    decreases blocks.len() - k,
{
    if k >= blocks.len() {
        None
    } else if blocks[k].jump(i) is Some {
        blocks[k].jump(i)
    } else {
        block_jump(blocks, k + 1, i)
    }
}

/// The jump from the first delimiting token from byte `i` on before the line
/// ends.
pub open spec fn block_ahead(s: Seq<u8>, blocks: Seq<Block>, i: int) -> Option<(int, int)>
    decreases s.len() - i,
{
    if i >= s.len() || s[i] == NL {
        None
    } else if block_jump(blocks, 0, i) is Some {
        block_jump(blocks, 0, i)
    } else {
        block_ahead(s, blocks, i + 1)
    }
}

fn jump_at(blocks: &[Block], i: usize) -> (r: Option<(usize, usize)>)
    requires
        forall|k: int| 0 <= k < blocks@.len() ==> (#[trigger] blocks@[k]).wf(),
    ensures
        opt_span(r) == block_jump(blocks@, 0, i as int),
{
    let mut k: usize = 0;
    while k < blocks.len()
        invariant
            k <= blocks@.len(),
            block_jump(blocks@, k as int, i as int) == block_jump(blocks@, 0, i as int),
            forall|k: int| 0 <= k < blocks@.len() ==> (#[trigger] blocks@[k]).wf(),
        decreases blocks@.len() - k,
    {
        let b = blocks[k];
        assert(blocks@[k as int].wf());
        if b.start <= i && i < b.open_end {
            return Some((b.start, b.end - 1));
        }
        if b.close_start <= i && i < b.end {
            return Some((b.end - 1, b.start));
        }
        k += 1;
    }
    None
}

/// What `%` selects: the delimiter at or right of `head` on its line, and its
/// match. With the blocks of a parsed text the delimiters are those of the
/// grammar; without them they are the brackets.
pub fn match_pair(bytes: &[u8], blocks: Option<&[Block]>, head: usize) -> (r: Option<
    (usize, usize),
>)
    requires
        blocks matches Some(bs) ==> forall|k: int|
            0 <= k < bs@.len() ==> (#[trigger] bs@[k]).wf(),
    ensures
        opt_span(r) == match blocks {
            None => pair_at(bytes@, head as int),
            Some(bs) => block_ahead(bytes@, bs@, head as int),
        },
{
    match blocks {
        None => match_bracket(bytes, head),
        Some(bs) => {
            let mut i: usize = head;
            while i < bytes.len() && bytes[i] != NL
                invariant
                    blocks == Some(bs),
                    block_ahead(bytes@, bs@, i as int) == block_ahead(bytes@, bs@, head as int),
                    forall|k: int| 0 <= k < bs@.len() ==> (#[trigger] bs@[k]).wf(),
                decreases bytes@.len() - i,
            {
                let found = jump_at(bs, i);
                if found.is_some() {
                    return found;
                }
                i += 1;
            }
            None
        },
    }
}

// ---------------------------------------------------------------------------
// Laws
// ---------------------------------------------------------------------------

/// How many more brackets open than close in `lo..hi`.
pub open spec fn balance(s: Seq<u8>, lo: int, hi: int, open: u8, close: u8) -> int
    decreases hi - lo,
{
    if lo >= hi {
        0
    } else {
        balance(s, lo, hi - 1, open, close) + (if s[hi - 1] == open {
            1int
        } else if s[hi - 1] == close {
            -1int
        } else {
            0int
        })
    }
}

/// `left` and `right` are a pair: the group opens at `left`, stays open all
/// the way, and is closed by `right`.
pub open spec fn paired(s: Seq<u8>, left: int, right: int, open: u8, close: u8) -> bool {
    &&& 0 <= left < right < s.len()
    &&& s[left] == open
    &&& s[right] == close
    &&& balance(s, left, right + 1, open, close) == 0
    &&& forall|k: int| left < k <= right ==> #[trigger] balance(s, left, k, open, close) >= 1
}

proof fn lemma_closer_pairs(s: Seq<u8>, left: int, i: int, depth: int, open: u8, close: u8)
    requires
        0 <= left < i <= s.len(),
        open != close,
        s[left] == open,
        depth >= 1,
        balance(s, left, i, open, close) == depth,
        forall|k: int| left < k <= i ==> #[trigger] balance(s, left, k, open, close) >= 1,
    ensures
        closer(s, i, depth, open, close) matches Some(r) ==> i <= r && paired(
            s,
            left,
            r,
            open,
            close,
        ),
    decreases s.len() - i,
{
    if i < s.len() {
        assert(balance(s, left, i + 1, open, close) == balance(s, left, i, open, close) + (if s[i]
            == open {
            1int
        } else if s[i] == close {
            -1int
        } else {
            0int
        }));
        if s[i] == open {
            lemma_closer_pairs(s, left, i + 1, depth + 1, open, close);
        } else if s[i] == close {
            if depth > 1 {
                lemma_closer_pairs(s, left, i + 1, depth - 1, open, close);
            }
        } else {
            lemma_closer_pairs(s, left, i + 1, depth, open, close);
        }
    }
}

proof fn lemma_opener_is_open(s: Seq<u8>, i: int, depth: int, open: u8, close: u8)
    requires
        i < s.len(),
    ensures
        opener(s, i, depth, open, close) matches Some(l) ==> 0 <= l <= i && s[l] == open,
    decreases i + 1,
{
    if i >= 0 {
        if s[i] == close {
            lemma_opener_is_open(s, i - 1, depth + 1, open, close);
        } else if s[i] == open {
            if depth > 1 {
                lemma_opener_is_open(s, i - 1, depth - 1, open, close);
            }
        } else {
            lemma_opener_is_open(s, i - 1, depth, open, close);
        }
    }
}

/// A bracket object lies between the two brackets of a pair, nesting taken
/// into account; taken around it includes them, and otherwise it does not.
pub proof fn bracket_objects_are_pairs(s: Seq<u8>, o: int, kind: ObjectKind, open: u8, close: u8)
    requires
        0 <= o,
        open != close,
    ensures
        bracket_span(s, o, kind, open, close) matches Some((a, b)) ==> match kind {
            ObjectKind::Inner => paired(s, a - 1, b, open, close),
            ObjectKind::Around => paired(s, a, b - 1, open, close),
        },
{
    if o < s.len() {
        let i = if s[o] == close { o - 1 } else { o };
        lemma_opener_is_open(s, i, 1, open, close);
        if let Some(left) = opener(s, i, 1, open, close) {
            assert(balance(s, left, left, open, close) == 0);
            assert(balance(s, left, left + 1, open, close) == 1);
            lemma_closer_pairs(s, left, left + 1, 1, open, close);
        }
    }
}

proof fn lemma_balance_splits(s: Seq<u8>, a: int, b: int, c: int, open: u8, close: u8)
    requires
        a <= b <= c,
    ensures
        balance(s, a, c, open, close) == balance(s, a, b, open, close) + balance(
            s,
            b,
            c,
            open,
            close,
        ),
    decreases c - b,
{
    if b < c {
        lemma_balance_splits(s, a, b, c - 1, open, close);
    }
}

/// Seen from the closing bracket of a pair, the group opens at the other one.
proof fn lemma_opener_of_pair(
    s: Seq<u8>,
    left: int,
    right: int,
    i: int,
    open: u8,
    close: u8,
)
    requires
        paired(s, left, right, open, close),
        open != close,
        left <= i < right,
    ensures
        opener(s, i, balance(s, left, i + 1, open, close), open, close) == Some(left),
    decreases i,
{
    if i == left {
        assert(balance(s, left, left, open, close) == 0);
    } else {
        assert(balance(s, left, i, open, close) >= 1);
        lemma_opener_of_pair(s, left, right, i - 1, open, close);
    }
}

/// What a backward search finds is the opening bracket of a pair, as a search
/// forward from it shows.
proof fn lemma_opener_pairs(s: Seq<u8>, right: int, i: int, depth: int, open: u8, close: u8)
    requires
        -1 <= i < right < s.len(),
        open != close,
        s[right] == close,
        depth >= 1,
        depth == 1 - balance(s, i + 1, right, open, close),
        forall|k: int| i < k <= right ==> #[trigger] balance(s, k, right, open, close) <= 0,
    ensures
        opener(s, i, depth, open, close) matches Some(l) ==> paired(s, l, right, open, close),
    decreases i + 1,
{
    if i >= 0 {
        lemma_balance_splits(s, i, i + 1, right, open, close);
        assert(balance(s, i, i, open, close) == 0);
        if s[i] == close {
            lemma_opener_pairs(s, right, i - 1, depth + 1, open, close);
        } else if s[i] == open {
            if depth > 1 {
                lemma_opener_pairs(s, right, i - 1, depth - 1, open, close);
            } else {
                assert(balance(s, i, right, open, close) == 1);
                assert(balance(s, i, right + 1, open, close) == 0);
                assert forall|k: int| i < k <= right implies #[trigger] balance(
                    s,
                    i,
                    k,
                    open,
                    close,
                ) >= 1 by {
                    lemma_balance_splits(s, i, k, right, open, close);
                    assert(balance(s, k, right, open, close) <= 0);
                }
            }
        } else {
            lemma_opener_pairs(s, right, i - 1, depth, open, close);
        }
    }
}

/// Seen from the opening bracket of a pair, the group closes at the other one.
proof fn lemma_closer_of_pair(
    s: Seq<u8>,
    left: int,
    right: int,
    i: int,
    open: u8,
    close: u8,
)
    requires
        paired(s, left, right, open, close),
        open != close,
        left < i <= right,
    ensures
        closer(s, i, balance(s, left, i, open, close), open, close) == Some(right),
    decreases right - i,
{
    if i < right {
        assert(balance(s, left, i + 1, open, close) >= 1);
        lemma_closer_of_pair(s, left, right, i + 1, open, close);
    } else {
        assert(balance(s, left, right + 1, open, close) == balance(s, left, right, open, close) - 1);
    }
}

/// Matching twice comes back: from the bracket that a bracket pairs with, the
/// match is that bracket.
pub proof fn matching_twice_comes_back(s: Seq<u8>, head: int)
    requires
        0 <= head,
    ensures
        pair_at(s, head) matches Some((p, q)) ==> pair_at(s, q) == Some((q, p)),
{
    if let Some((p, q)) = pair_at(s, head) {
        lemma_bracket_ahead(s, head);
        let (other, opens) = bracket_pair(s[p]).unwrap();
        if opens {
            let (open, close) = (s[p], other);
            assert(balance(s, p, p, open, close) == 0);
            assert(balance(s, p, p + 1, open, close) == 1);
            lemma_closer_pairs(s, p, p + 1, 1, open, close);
            assert(balance(s, p, q, open, close) == 1) by {
                assert(balance(s, p, q + 1, open, close) == 0);
            }
            lemma_opener_of_pair(s, p, q, q - 1, open, close);
        } else {
            let (open, close) = (other, s[p]);
            assert(balance(s, p, p, open, close) == 0);
            lemma_opener_pairs(s, p, p - 1, 1, open, close);
            assert(balance(s, q, q, open, close) == 0);
            assert(balance(s, q, q + 1, open, close) == 1);
            lemma_closer_of_pair(s, q, p, q + 1, open, close);
        }
    }
}

proof fn lemma_bracket_ahead(s: Seq<u8>, i: int)
    requires
        0 <= i,
    ensures
        bracket_ahead(s, i) matches Some(p) ==> i <= p < s.len() && s[p] != NL && bracket_pair(
            s[p],
        ) is Some,
    decreases s.len() - i,
{
    if i < s.len() && s[i] != NL && bracket_pair(s[i]) is None {
        lemma_bracket_ahead(s, i + 1);
    }
}

/// Walking left past what a group holds, to the bracket that opens it: the
/// group is open all the way.
proof fn lemma_open_all_the_way(s: Seq<u8>, i: int, depth: int, top: int, open: u8, close: u8)
    requires
        -1 <= i < top <= s.len(),
        open != close,
        depth >= 1,
        depth == 1 - balance(s, i + 1, top, open, close),
        forall|k: int| i < k <= top ==> #[trigger] balance(s, k, top, open, close) <= 0,
    ensures
        opener(s, i, depth, open, close) matches Some(l) ==> 0 <= l <= i && s[l] == open && balance(
            s,
            l,
            top,
            open,
            close,
        ) == 1 && forall|k: int| l < k <= top ==> #[trigger] balance(s, l, k, open, close) >= 1,
    decreases i + 1,
{
    if i >= 0 {
        lemma_balance_splits(s, i, i + 1, top, open, close);
        assert(balance(s, i, i, open, close) == 0);
        if s[i] == close {
            lemma_open_all_the_way(s, i - 1, depth + 1, top, open, close);
        } else if s[i] == open {
            if depth > 1 {
                lemma_open_all_the_way(s, i - 1, depth - 1, top, open, close);
            } else {
                assert forall|k: int| i < k <= top implies #[trigger] balance(
                    s,
                    i,
                    k,
                    open,
                    close,
                ) >= 1 by {
                    lemma_balance_splits(s, i, k, top, open, close);
                    assert(balance(s, k, top, open, close) <= 0);
                }
            }
        } else {
            lemma_open_all_the_way(s, i - 1, depth, top, open, close);
        }
    }
}

/// What closes a group lies behind everything up to which it is open.
proof fn lemma_closer_behind(s: Seq<u8>, left: int, i: int, top: int, open: u8, close: u8)
    requires
        0 <= left < i <= top <= s.len(),
        open != close,
        forall|k: int| left < k <= top ==> #[trigger] balance(s, left, k, open, close) >= 1,
    ensures
        closer(s, i, balance(s, left, i, open, close), open, close) matches Some(r) ==> top <= r,
    decreases s.len() - i,
{
    if i < top {
        assert(balance(s, left, i + 1, open, close) >= 1);
        lemma_closer_behind(s, left, i + 1, top, open, close);
    } else {
        lemma_closer_at_or_after(s, i, balance(s, left, i, open, close), open, close);
    }
}

proof fn lemma_closer_at_or_after(s: Seq<u8>, i: int, depth: int, open: u8, close: u8)
    ensures
        closer(s, i, depth, open, close) matches Some(r) ==> i <= r,
    decreases s.len() - i,
{
    if i < s.len() {
        if s[i] == open {
            lemma_closer_at_or_after(s, i + 1, depth + 1, open, close);
        } else if s[i] == close {
            lemma_closer_at_or_after(s, i + 1, depth - 1, open, close);
        } else {
            lemma_closer_at_or_after(s, i + 1, depth, open, close);
        }
    }
}

proof fn lemma_bracket_span_contains(s: Seq<u8>, o: int, open: u8, close: u8)
    requires
        0 <= o < s.len(),
        open != close,
    ensures
        opener_around(s, o, open, close) matches Some(left) ==> left <= o && (closer(
            s,
            left + 1,
            1,
            open,
            close,
        ) matches Some(right) ==> o <= right),
{
    let i = if s[o] == close { o - 1 } else { o };
    let top = i + 1;
    assert(balance(s, top, top, open, close) == 0);
    lemma_open_all_the_way(s, i, 1, top, open, close);
    if let Some(left) = opener(s, i, 1, open, close) {
        assert(balance(s, left, left, open, close) == 0);
        assert(balance(s, left, left + 1, open, close) == 1);
        lemma_closer_behind(s, left, left + 1, top, open, close);
    }
}

proof fn lemma_word_first_bounds(s: Seq<u8>, i: int)
    requires
        0 <= i,
    ensures
        0 <= word_first(s, i) <= i,
    decreases i,
{
    if i > 0 && prev_char_of(s, i) < s.len() && word_byte(s[prev_char_of(s, i)]) {
        lemma_char_start_bounds(s, i - 1);
        lemma_word_first_bounds(s, prev_char_of(s, i));
    }
}

proof fn lemma_word_stop_bounds(s: Seq<u8>, i: int)
    ensures
        i <= word_stop(s, i),
    decreases bytes_left(s, i),
{
    if i < s.len() && word_byte(s[i]) {
        lemma_word_stop_bounds(s, i + char_len(s[i]));
    }
}

proof fn lemma_past_run_bounds(s: Seq<u8>, i: int, b: u8)
    ensures
        i <= past_run(s, i, b),
    decreases s.len() - i,
{
    if i < s.len() && s[i] == b {
        lemma_past_run_bounds(s, i + 1, b);
    }
}

proof fn lemma_paragraph_bounds(s: Seq<u8>, start: int, end: int)
    requires
        0 <= start,
        0 <= end,
    ensures
        paragraph_top(s, start) <= start,
        end <= paragraph_bottom(s, end),
    decreases start, s.len() - end,
{
    if start > 0 && line_start_of(s, start - 1) != start - 1 {
        lemma_line_start_bounds(s, start - 1);
        lemma_paragraph_bounds(s, line_start_of(s, start - 1), end);
    } else if end + 1 < s.len() && line_end_of(s, end + 1) != end + 1 {
        lemma_line_end_bounds(s, end + 1);
        lemma_paragraph_bounds(s, start, line_end_of(s, end + 1));
    }
}

/// An object contains the offset that it is looked up for. Without its
/// delimiters it may leave out the one that stands there, and a paragraph without
/// its surroundings the line break behind it.
pub proof fn objects_contain_the_offset(s: Seq<u8>, o: int, kind: ObjectKind, key: Key)
    requires
        0 <= o < s.len(),
    ensures
        object_span(s, o, kind, key) matches Some((a, b)) ==> if key == Key::Char('w') {
            a <= o < b
        } else if kind is Around {
            a <= o < b
        } else if key == Key::Char('p') {
            a <= o <= b
        } else {
            a - 1 <= o <= b
        },
{
    lemma_word_first_bounds(s, o);
    if word_byte(s[o]) {
        lemma_word_stop_bounds(s, o + char_len(s[o]));
    }
    lemma_past_run_bounds(s, word_stop(s, o), SPACE);
    lemma_line_start_bounds(s, o);
    lemma_line_end_bounds(s, o);
    lemma_paragraph_bounds(s, line_start_of(s, o), line_end_of(s, o));
    let bottom = paragraph_bottom(s, line_end_of(s, o));
    lemma_past_run_bounds(s, bottom, NL);
    lemma_past_run_bounds(s, bottom + 1, NL);
    if bottom == o {
        assert(s[o] == NL);
    }
    lemma_quoted_contains(s, o, 0x22);
    lemma_quoted_contains(s, o, 0x27);
    lemma_quoted_contains(s, o, 0x60);
    lemma_bracket_span_contains(s, o, 0x28, 0x29);
    lemma_bracket_span_contains(s, o, 0x7b, 0x7d);
    lemma_bracket_span_contains(s, o, 0x5b, 0x5d);
}

proof fn lemma_quoted_contains(s: Seq<u8>, o: int, q: u8)
    requires
        0 <= o < s.len(),
    ensures
        last_at(s, 0, o + 1, q) matches Some(left) ==> left <= o && (first_at(
            s,
            left + 1,
            s.len() as int,
            q,
        ) matches Some(right) ==> o < right),
{
    lemma_last_at(s, 0, o + 1, q);
    if let Some(left) = last_at(s, 0, o + 1, q) {
        lemma_first_at(s, left + 1, s.len() as int, q);
    }
}

/// A quotation has the quote at both ends and none inside.
pub proof fn quotations_have_no_quote_inside(s: Seq<u8>, o: int, q: u8)
    requires
        0 <= o,
    ensures
        quoted_span(s, o, ObjectKind::Inner, q) matches Some((a, b)) ==> 0 < a <= b < s.len()
            && s[a - 1] == q && s[b] == q && a - 1 <= o && forall|i: int| a <= i < b ==> s[i] != q,
{
    lemma_last_at(s, 0, imin(o + 1, s.len() as int), q);
    if let Some(left) = last_at(s, 0, imin(o + 1, s.len() as int), q) {
        lemma_first_at(s, left + 1, s.len() as int, q);
    }
}

/// The opening and the closing bracket of the pair that a key belongs to.
pub open spec fn brackets_of(key: Key) -> Option<(u8, u8)> {
    if key == Key::Char('(') || key == Key::Char(')') {
        Some(('(' as u8, ')' as u8))
    } else if key == Key::Char('[') || key == Key::Char(']') {
        Some(('[' as u8, ']' as u8))
    } else if key == Key::Char('{') || key == Key::Char('}') {
        Some(('{' as u8, '}' as u8))
    } else {
        None
    }
}

/// The quote that a key is.
pub open spec fn quote_of(key: Key) -> Option<u8> {
    if key == Key::Char('"') {
        Some('"' as u8)
    } else if key == Key::Char('\'') {
        Some('\'' as u8)
    } else if key == Key::Char('`') {
        Some('`' as u8)
    } else {
        None
    }
}

/// Where the two delimiters of an object stand, which it includes when it was
/// taken around.
pub open spec fn delimiters(kind: ObjectKind, a: int, b: int) -> (int, int) {
    if kind is Around { (a, b - 1) } else { (a - 1, b) }
}

proof fn lemma_opener_is_last(s: Seq<u8>, i: int, depth: int, top: int, open: u8, close: u8)
    requires
        -1 <= i < top <= s.len(),
        open != close,
        depth >= 1,
        depth == 1 - balance(s, i + 1, top, open, close),
        forall|k: int| i < k <= top ==> #[trigger] balance(s, k, top, open, close) <= 0,
    ensures
        match opener(s, i, depth, open, close) {
            Some(l) => 0 <= l <= i && forall|k: int|
                l < k <= top ==> #[trigger] balance(s, k, top, open, close) <= 0,
            None => forall|k: int|
                0 <= k <= top ==> #[trigger] balance(s, k, top, open, close) <= 0,
        },
    decreases i + 1,
{
    if i >= 0 {
        lemma_balance_splits(s, i, i + 1, top, open, close);
        assert(balance(s, i, i, open, close) == 0);
        if s[i] == close {
            lemma_opener_is_last(s, i - 1, depth + 1, top, open, close);
        } else if s[i] == open {
            if depth > 1 {
                lemma_opener_is_last(s, i - 1, depth - 1, top, open, close);
            }
        } else {
            lemma_opener_is_last(s, i - 1, depth, top, open, close);
        }
    }
}

proof fn lemma_closer_is_first(
    s: Seq<u8>,
    left: int,
    i: int,
    depth: int,
    last: int,
    open: u8,
    close: u8,
)
    requires
        0 <= left < i <= s.len(),
        last < s.len(),
        open != close,
        depth >= 1,
        balance(s, left, i, open, close) == depth,
        forall|k: int| left < k <= i ==> #[trigger] balance(s, left, k, open, close) >= 1,
        left <= last,
        balance(s, left, last + 1, open, close) <= 0,
    ensures
        closer(s, i, depth, open, close) is Some,
        closer(s, i, depth, open, close)->0 <= last,
    decreases s.len() - i,
{
    if last < i {
        assert(balance(s, left, last + 1, open, close) >= 1);
    }
    assert(balance(s, left, i + 1, open, close) == balance(s, left, i, open, close) + (if s[i]
        == open {
        1int
    } else if s[i] == close {
        -1int
    } else {
        0int
    }));
    if s[i] == open {
        lemma_closer_is_first(s, left, i + 1, depth + 1, last, open, close);
    } else if s[i] == close {
        if depth > 1 {
            lemma_closer_is_first(s, left, i + 1, depth - 1, last, open, close);
        }
    } else {
        lemma_closer_is_first(s, left, i + 1, depth, last, open, close);
    }
}

/// A pair around `o` encloses the group that is found there, which exists.
proof fn lemma_pair_encloses(s: Seq<u8>, o: int, open: u8, close: u8, l: int, r: int)
    requires
        0 <= o < s.len(),
        open != close,
        paired(s, l, r, open, close),
        l <= o <= r,
    ensures
        ({
            let i = if s[o] == close { o - 1 } else { o };
            &&& opener(s, i, 1, open, close) matches Some(left) && l <= left
            &&& closer(
                s,
                opener(s, i, 1, open, close)->0 + 1,
                1,
                open,
                close,
            ) matches Some(right) && right <= r
        }),
{
    let i = if s[o] == close { o - 1 } else { o };
    let top = i + 1;
    assert(balance(s, top, top, open, close) == 0);
    lemma_opener_is_last(s, i, 1, top, open, close);
    assert(l < top <= r);
    assert(balance(s, l, top, open, close) >= 1);
    let left = opener(s, i, 1, open, close)->0;
    assert(opener(s, i, 1, open, close) is Some);
    assert(l <= left);
    lemma_opener_is_open(s, i, 1, open, close);
    assert(balance(s, left, left, open, close) == 0);
    assert(balance(s, left, left + 1, open, close) == 1);
    lemma_balance_splits(s, l, left, r + 1, open, close);
    if l < left {
        assert(balance(s, l, left, open, close) >= 1);
    } else {
        assert(balance(s, l, left, open, close) == 0);
    }
    lemma_closer_is_first(s, left, left + 1, 1, r, open, close);
}

/// The object of a bracket key lies between two brackets of that key's own pair
/// that belong together. They enclose the offset, and no tighter pair does; there
/// is no object only where no pair encloses the offset.
pub proof fn bracket_keys_take_the_tightest_pair(s: Seq<u8>, o: int, kind: ObjectKind, key: Key)
    requires
        0 <= o < s.len(),
        brackets_of(key) is Some,
    ensures
        ({
            let (open, close) = brackets_of(key)->0;
            match object_span(s, o, kind, key) {
                Some((a, b)) => {
                    let (l, r) = delimiters(kind, a, b);
                    &&& paired(s, l, r, open, close)
                    &&& l <= o <= r
                    &&& forall|l2: int, r2: int| #[trigger]
                        paired(s, l2, r2, open, close) && l2 <= o <= r2 ==> l2 <= l && r <= r2
                },
                None => forall|l2: int, r2: int| #[trigger]
                    paired(s, l2, r2, open, close) ==> !(l2 <= o <= r2),
            }
        }),
{
    let (open, close) = brackets_of(key)->0;
    assert(object_span(s, o, kind, key) == bracket_span(s, o, kind, open, close));
    bracket_objects_are_pairs(s, o, kind, open, close);
    lemma_bracket_span_contains(s, o, open, close);
    assert forall|l2: int, r2: int| #[trigger]
        paired(s, l2, r2, open, close) && l2 <= o <= r2 implies (match object_span(s, o, kind, key) {
        Some((a, b)) => l2 <= delimiters(kind, a, b).0 && delimiters(kind, a, b).1 <= r2,
        None => false,
    }) by {
        lemma_pair_encloses(s, o, open, close, l2, r2);
    }
}

/// The object of a quote key lies between two of that very quote, one at or
/// before the offset and one behind it, with none between them; there is no object
/// only where no such two are.
pub proof fn quote_keys_take_the_quotation(s: Seq<u8>, o: int, kind: ObjectKind, key: Key)
    requires
        0 <= o < s.len(),
        quote_of(key) is Some,
    ensures
        ({
            let q = quote_of(key)->0;
            match object_span(s, o, kind, key) {
                Some((a, b)) => {
                    let (l, r) = delimiters(kind, a, b);
                    &&& 0 <= l <= o < r < s.len()
                    &&& s[l] == q && s[r] == q
                    &&& forall|i: int| l < i < r ==> #[trigger] s[i] != q
                },
                None => forall|l: int, r: int|
                    0 <= l <= o < r < s.len() ==> !(#[trigger] s[l] == q && #[trigger] s[r] == q),
            }
        }),
{
    let q = quote_of(key)->0;
    assert(object_span(s, o, kind, key) == quoted_span(s, o, kind, q));
    lemma_last_at(s, 0, o + 1, q);
    if let Some(left) = last_at(s, 0, o + 1, q) {
        lemma_first_at(s, left + 1, s.len() as int, q);
    }
}

/// Letters, digits, the underscore and everything outside ASCII.
pub open spec fn in_words(b: u8) -> bool {
    'a' as u8 <= b <= 'z' as u8 || 'A' as u8 <= b <= 'Z' as u8 || '0' as u8 <= b <= '9' as u8 || b
        == '_' as u8 || b >= 0x80
}

/// The character before a character, and its bytes.
pub proof fn lemma_bytes_of_prev(s: Seq<u8>, i: int)
    requires
        valid_utf8(s),
        on_char(s, i),
        0 < i,
    ensures
        ({
            let p = prev_char_of(s, i);
            &&& 0 <= p < i
            &&& on_char(s, p)
            &&& p + char_len(s[p]) == i
            &&& s[p] < 0x80 ==> p == i - 1
            &&& s[p] >= 0x80 ==> forall|j: int| p <= j < i ==> #[trigger] s[j] >= 0x80
        }),
{
    lemma_first_char(s);
    lemma_back_on_char(s, i - 1);
    let p = prev_char_of(s, i);
    lemma_whole_char(s, p);
    if p + char_len(s[p]) < i {
        assert(is_cont(s[p + char_len(s[p])]));
    }
    if p + char_len(s[p]) > i {
        assert(is_cont(s[i]));
    }
}

/// The way back ends on a character and passes only the rest of it.
proof fn lemma_back_on_char(s: Seq<u8>, q: int)
    requires
        0 <= q < s.len(),
        !is_cont(s[0]),
    ensures
        0 <= char_start(s, q) <= q,
        !is_cont(s[char_start(s, q)]),
        forall|j: int| char_start(s, q) < j <= q ==> is_cont(#[trigger] s[j]),
    decreases q,
{
    if q > 0 && is_cont(s[q]) {
        lemma_back_on_char(s, q - 1);
    }
}

proof fn lemma_word_start(s: Seq<u8>, i: int)
    requires
        valid_utf8(s),
        on_char(s, i),
    ensures
        ({
            let a = word_first(s, i);
            &&& 0 <= a <= i
            &&& forall|j: int| a <= j < i ==> in_words(#[trigger] s[j])
            &&& a > 0 ==> !in_words(s[a - 1])
        }),
    decreases i,
{
    if i > 0 {
        lemma_bytes_of_prev(s, i);
        let p = prev_char_of(s, i);
        if word_byte(s[p]) {
            lemma_word_start(s, p);
        }
    }
}

proof fn lemma_word_end(s: Seq<u8>, i: int)
    requires
        valid_utf8(s),
        on_char(s, i),
    ensures
        ({
            let b = word_stop(s, i);
            &&& i <= b <= s.len()
            &&& forall|j: int| i <= j < b ==> in_words(#[trigger] s[j])
            &&& b < s.len() ==> !in_words(s[b])
        }),
    decreases s.len() - i,
{
    if i < s.len() && word_byte(s[i]) {
        lemma_whole_char(s, i);
        lemma_word_end(s, i + char_len(s[i]));
    }
}

proof fn lemma_run_of(s: Seq<u8>, i: int, b: u8)
    requires
        0 <= i <= s.len(),
    ensures
        ({
            let e = past_run(s, i, b);
            &&& i <= e <= s.len()
            &&& forall|j: int| i <= j < e ==> #[trigger] s[j] == b
            &&& e < s.len() ==> s[e] != b
        }),
    decreases s.len() - i,
{
    if i < s.len() && s[i] == b {
        lemma_run_of(s, i + 1, b);
    }
}

/// The object of the word key is the whole run of word characters that the
/// offset is in, with the spaces behind it when taken around; there is none off
/// words.
pub proof fn the_word_key_takes_the_whole_word(s: Seq<u8>, o: int, kind: ObjectKind)
    requires
        valid_utf8(s),
        on_char(s, o),
        o < s.len(),
    ensures
        match object_span(s, o, kind, Key::Char('w')) {
            Some((a, b)) => exists|e: int|
                {
                    &&& 0 <= a <= o < e <= b <= s.len()
                    &&& forall|j: int| a <= j < e ==> in_words(#[trigger] s[j])
                    &&& a > 0 ==> !in_words(s[a - 1])
                    &&& #[trigger] at_word_end(s, e)
                    &&& kind is Inner ==> b == e
                    &&& forall|j: int| e <= j < b ==> #[trigger] s[j] == ' ' as u8
                    &&& kind is Around && b < s.len() ==> s[b] != ' ' as u8
                },
            None => !in_words(s[o]),
        },
{
    lemma_word_start(s, o);
    lemma_word_end(s, o);
    let e = word_stop(s, o);
    lemma_run_of(s, e, SPACE);
    if word_byte(s[o]) {
        assert(at_word_end(s, e));
        lemma_whole_char(s, o);
        lemma_word_end(s, o + char_len(s[o]));
    }
}

/// A word does not go on at `e`.
pub open spec fn at_word_end(s: Seq<u8>, e: int) -> bool {
    e < s.len() ==> !in_words(s[e])
}

/// Byte `i` is the line break of a blank line, seen from `from`.
pub open spec fn blank_at(s: Seq<u8>, from: int, i: int) -> bool {
    s[i] == NL && (i == from || s[i - 1] == NL)
}

proof fn lemma_top(s: Seq<u8>, start: int)
    requires
        0 <= start <= s.len(),
        start > 0 ==> s[start - 1] == NL,
    ensures
        ({
            let a = paragraph_top(s, start);
            &&& 0 <= a <= start
            &&& a > 0 ==> s[a - 1] == NL
            &&& a > 1 ==> s[a - 2] == NL
            &&& forall|i: int| a <= i < start ==> !#[trigger] blank_at(s, a, i)
        }),
    decreases start,
{
    if start > 0 {
        lemma_line_start_bounds(s, start - 1);
        lemma_no_break_before(s, start - 1);
        let x = line_start_of(s, start - 1);
        if x != start - 1 {
            lemma_top(s, x);
            let a = paragraph_top(s, x);
            assert forall|i: int| a <= i < start implies !#[trigger] blank_at(s, a, i) by {
                if i < x {
                    assert(!blank_at(s, a, i));
                } else if i == start - 1 {
                    assert(s[i - 1] != NL);
                } else {
                    assert(s[i] != NL);
                }
            }
        }
    }
}

proof fn lemma_bottom(s: Seq<u8>, end: int)
    requires
        0 <= end <= s.len(),
        end < s.len() ==> s[end] == NL,
    ensures
        ({
            let b = paragraph_bottom(s, end);
            &&& end <= b <= s.len()
            &&& b < s.len() ==> s[b] == NL
            &&& b + 1 < s.len() ==> s[b + 1] == NL
            &&& forall|i: int| end < i < b ==> !(#[trigger] s[i] == NL && s[i - 1] == NL)
            &&& end < b ==> s[b - 1] != NL
        }),
    decreases s.len() - end,
{
    if end + 1 < s.len() {
        lemma_no_break_upto(s, end + 1);
        let e = line_end_of(s, end + 1);
        if e != end + 1 {
            lemma_bottom(s, e);
            let b = paragraph_bottom(s, e);
            assert forall|i: int| end < i < b implies !(#[trigger] s[i] == NL && s[i - 1] == NL) by {
                if i == e {
                    assert(s[e - 1] != NL);
                }
            }
            assert(s[e - 1] != NL);
        }
    }
}

/// The object of the paragraph key goes from line to line: above and below it
/// stand blank lines or the ends of the text. Where the offset is not on a blank
/// line, none is inside. Taken around it includes the line breaks behind.
pub proof fn the_paragraph_key_stops_at_blank_lines(s: Seq<u8>, o: int, kind: ObjectKind)
    requires
        0 <= o < s.len(),
    ensures
        object_span(s, o, kind, Key::Char('p')) matches Some((a, b)) && exists|e: int|
            {
                &&& 0 <= a <= o <= e <= b <= s.len()
                &&& a > 0 ==> s[a - 1] == NL
                &&& a > 1 ==> s[a - 2] == NL
                &&& #[trigger] paragraph_ends(s, e)
                &&& s[o] != NL || o > 0 && s[o - 1] != NL ==> forall|i: int|
                    a <= i < e ==> !#[trigger] blank_at(s, a, i)
                &&& kind is Inner ==> b == e
                &&& forall|i: int| e <= i < b ==> #[trigger] s[i] == NL
                &&& kind is Around && b < s.len() ==> s[b] != NL
            },
{
    let ls = line_start_of(s, o);
    let le = line_end_of(s, o);
    lemma_line_start_bounds(s, o);
    lemma_no_break_before(s, o);
    lemma_no_break_upto(s, o);
    lemma_top(s, ls);
    lemma_bottom(s, le);
    let a = paragraph_top(s, ls);
    let e = paragraph_bottom(s, le);
    lemma_run_of(s, e, NL);
    assert(paragraph_ends(s, e));
    if s[o] != NL || o > 0 && s[o - 1] != NL {
        assert(ls < le);
        assert forall|i: int| a <= i < e implies !#[trigger] blank_at(s, a, i) by {
            if i < ls {
            } else if i < le {
                if i >= o {
                    assert(s[i] != NL);
                }
            } else if i == le {
                assert(s[le - 1] != NL);
            }
        }
    }
}

/// A line ends at `e`, and the next one is blank or there is none.
pub open spec fn paragraph_ends(s: Seq<u8>, e: int) -> bool {
    (e < s.len() ==> s[e] == NL) && (e + 1 < s.len() ==> s[e + 1] == NL)
}

/// A bracket, and what it pairs with: the other bracket of its kind.
pub open spec fn mates(a: u8, b: u8) -> bool {
    ||| a == '(' as u8 && b == ')' as u8
    ||| a == '[' as u8 && b == ']' as u8
    ||| a == '{' as u8 && b == '}' as u8
}

/// Some bracket pairs with this byte.
pub open spec fn is_bracket(b: u8) -> bool {
    exists|c: u8| #[trigger] mates(b, c) || mates(c, b)
}

proof fn lemma_is_bracket(b: u8)
    ensures
        is_bracket(b) == (bracket_pair(b) is Some),
        bracket_pair(b) matches Some((c, opens)) ==> if opens {
            mates(b, c)
        } else {
            mates(c, b)
        },
{
    if let Some((c, opens)) = bracket_pair(b) {
        assert(mates(b, c) || mates(c, b));
    }
}

proof fn lemma_first_bracket(s: Seq<u8>, i: int)
    requires
        0 <= i,
    ensures
        match bracket_ahead(s, i) {
            Some(p) => i <= p < s.len() && is_bracket(s[p]) && s[p] != NL && forall|j: int|
                i <= j < p ==> !is_bracket(#[trigger] s[j]) && s[j] != NL,
            None => forall|p: int|
                i <= p < s.len() && is_bracket(#[trigger] s[p]) ==> exists|j: int|
                    i <= j < p && #[trigger] s[j] == NL,
        },
    decreases s.len() - i,
{
    if i < s.len() {
        lemma_is_bracket(s[i]);
        if s[i] == NL {
            assert(!is_bracket(s[i]));
        } else if !is_bracket(s[i]) {
            lemma_first_bracket(s, i + 1);
            if bracket_ahead(s, i + 1) is None {
                assert forall|p: int| i <= p < s.len() && is_bracket(#[trigger] s[p]) implies exists|
                    j: int,
                |
                    i <= j < p && #[trigger] s[j] == NL by {
                    assert(p >= i + 1);
                }
            }
        }
    }
}

/// The percent key pairs the first bracket at or behind the head on its line with
/// the other bracket of its kind that belongs to it. It finds nothing only where
/// the line has no bracket from there on, or the first has no partner.
pub proof fn the_first_bracket_is_matched(s: Seq<u8>, head: int)
    requires
        0 <= head,
    ensures
        match pair_at(s, head) {
            Some((p, q)) => {
                &&& head <= p < s.len()
                &&& forall|j: int| head <= j < p ==> !is_bracket(#[trigger] s[j]) && s[j] != NL
                &&& 0 <= q < s.len()
                &&& mates(s[p], s[q]) && paired(s, p, q, s[p], s[q]) || mates(s[q], s[p]) && paired(
                    s,
                    q,
                    p,
                    s[q],
                    s[p],
                )
            },
            None => forall|p: int, q: int|
                head <= p < s.len() && 0 <= q < s.len() && (forall|j: int|
                    head <= j < p ==> !is_bracket(#[trigger] s[j]) && s[j] != NL) ==> !(mates(
                    #[trigger] s[p],
                    #[trigger] s[q],
                ) && paired(s, p, q, s[p], s[q])) && !(mates(s[q], s[p]) && paired(
                    s,
                    q,
                    p,
                    s[q],
                    s[p],
                )),
        },
{
    lemma_first_bracket(s, head);
    if let Some(p) = bracket_ahead(s, head) {
        lemma_is_bracket(s[p]);
        let (other, opens) = bracket_pair(s[p]).unwrap();
        if opens {
            assert(balance(s, p, p, s[p], other) == 0);
            assert(balance(s, p, p + 1, s[p], other) == 1);
            lemma_closer_pairs(s, p, p + 1, 1, s[p], other);
        } else {
            assert(balance(s, p, p, other, s[p]) == 0);
            lemma_opener_pairs(s, p, p - 1, 1, other, s[p]);
        }
        if pair_at(s, head) is None {
            assert forall|x: int, q: int|
                head <= x < s.len() && 0 <= q < s.len() && (forall|j: int|
                    head <= j < x ==> !is_bracket(#[trigger] s[j]) && s[j] != NL) implies !(mates(
                #[trigger] s[x],
                #[trigger] s[q],
            ) && paired(s, x, q, s[x], s[q])) && !(mates(s[q], s[x]) && paired(
                s,
                q,
                x,
                s[q],
                s[x],
            )) by {
                if mates(s[x], s[q]) && paired(s, x, q, s[x], s[q]) || mates(s[q], s[x]) && paired(
                    s,
                    q,
                    x,
                    s[q],
                    s[x],
                ) {
                    assert(is_bracket(s[x]));
                    assert(x == p);
                    if opens {
                        lemma_closer_of_pair(s, p, q, p + 1, s[p], other);
                    } else {
                        assert(balance(s, q, q, other, s[p]) == 0);
                        assert(balance(s, q, p + 1, other, s[p]) == balance(s, q, p, other, s[p]) - 1);
                        lemma_opener_of_pair(s, q, p, p - 1, other, s[p]);
                    }
                }
            }
        }
    } else {
        assert forall|x: int, q: int|
            head <= x < s.len() && 0 <= q < s.len() && (forall|j: int|
                head <= j < x ==> !is_bracket(#[trigger] s[j]) && s[j] != NL) implies !(mates(
            #[trigger] s[x],
            #[trigger] s[q],
        )) && !mates(s[q], s[x]) by {
            if mates(s[x], s[q]) || mates(s[q], s[x]) {
                assert(is_bracket(s[x]));
            }
        }
    }
}

/// Selecting a stretch of whole characters selects exactly that stretch.
pub proof fn a_selected_stretch_is_covered(s: Seq<u8>, a: int, b: int)
    requires
        valid_utf8(s),
        s.len() <= usize::MAX,
        on_char(s, a),
        on_char(s, b),
        a < b,
    ensures
        ({
            let sel = covering(s, a, b);
            &&& sel.anchor == a
            &&& a <= sel.head < b
            &&& on_char(s, sel.head as int)
            &&& sel.head + char_len(s[sel.head as int]) == b
        }),
{
    lemma_bytes_of_prev(s, b);
    lemma_whole_char(s, a);
    let p = prev_char_of(s, b);
    if p < a {
        lemma_whole_char(s, p);
        assert(is_cont(s[a]));
    }
}

}
