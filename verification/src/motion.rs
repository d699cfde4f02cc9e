//! Cursor motions: by character, word, line, paragraph and character search.
use vstd::prelude::*;
use vstd::utf8::valid_utf8;
use crate::object::in_words;
use crate::selection::Selection;
use crate::text::{
    blank_line, column_of, breaks_of, byte_at_line, byte_at_line_cached, bytes_left, cached_line_is_line, char_len,
    column_at, display_col, end_of_line, end_of_line_of, iclamp, imin, indexes, seek_column,
    lemma_breaks, lemma_char_start_bounds, lemma_index_ascending, lemma_line_end_bounds, lemma_newlines_monotone,
    line_end, line_end_of, line_index, line_index_cached, line_of, line_start, line_start_of, line_starts_of, next_char,
    next_char_of, next_char_or_end, next_char_or_end_of, nth_line, offset_at_col, offset_at_column,
    prev_char, prev_char_of, slot_of, text_fits, utf8_len, CR, NL, SPACE, TAB,
};
use crate::text::{
    lemma_back_not_past, lemma_first_char, lemma_prev_of_next, lemma_whole_char, on_char,
    snap_is_idempotent,
};

verus! {

#[derive(Debug, Clone, Copy, PartialEq, Eq, Structural)]
pub enum Motion {
    Left,
    Right,
    Up,
    Down,
    LineStart,
    LineEnd,
    NextWord,
    PrevWord,
    EndWord,
}

/// Character search within a line: onto the character, or one short of it.
#[derive(Debug, Clone, Copy, PartialEq, Eq, Structural)]
pub enum FindOp {
    ForwardTo,
    BackwardTo,
    ForwardTill,
    BackwardTill,
}

// ---------------------------------------------------------------------------
// Words
// ---------------------------------------------------------------------------

/// ASCII letters, digits, the underscore and everything outside ASCII.
pub open spec fn word_byte(b: u8) -> bool {
    0x30 <= b <= 0x39 || 0x41 <= b <= 0x5a || 0x61 <= b <= 0x7a || b == 0x5f || b >= 0x80
}

pub open spec fn space_byte(b: u8) -> bool {
    b == SPACE || b == TAB || b == NL || b == CR
}

pub fn is_word_byte(b: u8) -> (r: bool)
    ensures
        r == word_byte(b),
{
    (0x30 <= b && b <= 0x39) || (0x41 <= b && b <= 0x5a) || (0x61 <= b && b <= 0x7a) || b == 0x5f
        || b >= 0x80
}

pub fn is_whitespace_byte(b: u8) -> (r: bool)
    ensures
        r == space_byte(b),
{
    b == SPACE || b == TAB || b == NL || b == CR
}

/// First offset from `i` on that is not white space.
pub open spec fn skip_spaces(s: Seq<u8>, i: int) -> int
    decreases s.len() - i,
{
    if i < s.len() && space_byte(s[i]) {
        skip_spaces(s, i + 1)
    } else {
        i
    }
}

/// First offset past the run of characters from `i` on that are all word
/// characters, or all neither word characters nor white space.
pub open spec fn run_end(s: Seq<u8>, i: int, word: bool) -> int
    decreases bytes_left(s, i),
{
    if i < s.len() && !space_byte(s[i]) && word_byte(s[i]) == word {
        run_end(s, i + char_len(s[i]), word)
    } else {
        i
    }
}

/// The last character of that run; `last` if the run is empty.
pub open spec fn run_last(s: Seq<u8>, i: int, last: int, word: bool) -> int
    decreases bytes_left(s, i),
{
    if i < s.len() && !space_byte(s[i]) && word_byte(s[i]) == word {
        run_last(s, i + char_len(s[i]), i, word)
    } else {
        last
    }
}

/// Where word motions start to look: past the current character and the white
/// space behind it.
pub open spec fn next_run(s: Seq<u8>, from: int) -> int {
    skip_spaces(
        s,
        if from < s.len() { next_char_or_end_of(s, from) } else { from },
    )
}

/// The last character before the word after next, so that the selection spans
/// up to it.
pub open spec fn word_forward(s: Seq<u8>, from: int) -> int {
    if s.len() == 0 {
        0
    } else {
        let i = next_run(s, from);
        let j = if i < s.len() { run_end(s, i, word_byte(s[i])) } else { i };
        if j > from { prev_char_of(s, j) } else { from }
    }
}

pub open spec fn word_end(s: Seq<u8>, from: int) -> int {
    if s.len() == 0 {
        0
    } else {
        let i = next_run(s, from);
        if i < s.len() {
            run_last(s, i, i, word_byte(s[i]))
        } else {
            prev_char_of(s, s.len() as int)
        }
    }
}

/// The first character at or before `i` that is not white space; 0 if there
/// is none.
pub open spec fn skip_spaces_back(s: Seq<u8>, i: int) -> int
    decreases i,
{
    if i > 0 && i < s.len() && space_byte(s[i]) {
        proof {
            lemma_char_start_bounds(s, i - 1);
        }
        skip_spaces_back(s, prev_char_of(s, i))
    } else {
        i
    }
}

pub open spec fn run_start(s: Seq<u8>, i: int, word: bool) -> int
    decreases i,
{
    if i > 0 && prev_char_of(s, i) < s.len() && !space_byte(s[prev_char_of(s, i)]) && word_byte(
        s[prev_char_of(s, i)],
    ) == word {
        proof {
            lemma_char_start_bounds(s, i - 1);
        }
        run_start(s, prev_char_of(s, i), word)
    } else {
        i
    }
}

pub open spec fn word_backward(s: Seq<u8>, from: int) -> int {
    if from <= 0 {
        0
    } else {
        let i = skip_spaces_back(s, prev_char_of(s, from));
        if i < s.len() { run_start(s, i, word_byte(s[i])) } else { i }
    }
}

fn first_of_next_run(bytes: &[u8], from: usize) -> (r: usize)
    ensures
        r == next_run(bytes@, from as int),
{
    let mut i: usize = if from < bytes.len() { next_char_or_end(bytes, from) } else { from };
    let ghost start = i as int;
    while i < bytes.len() && is_whitespace_byte(bytes[i])
        invariant
            skip_spaces(bytes@, i as int) == skip_spaces(bytes@, start),
        decreases bytes@.len() - i,
    {
        i += 1;
    }
    i
}

pub fn motion_word_forward(bytes: &[u8], from: usize) -> (r: usize)
    requires
        text_fits(bytes@),
    ensures
        r == word_forward(bytes@, from as int),
{
    if bytes.len() == 0 {
        return 0;
    }
    let mut i: usize = first_of_next_run(bytes, from);
    if i < bytes.len() {
        let word: bool = is_word_byte(bytes[i]);
        let ghost start = i as int;
        while i < bytes.len() && !is_whitespace_byte(bytes[i]) && is_word_byte(bytes[i]) == word
            invariant
                text_fits(bytes@),
                run_end(bytes@, i as int, word) == run_end(bytes@, start, word),
            decreases bytes_left(bytes@, i as int),
        {
            i += utf8_len(bytes[i]);
        }
    }
    if i > from {
        prev_char(bytes, i)
    } else {
        from
    }
}

pub fn motion_word_backward(bytes: &[u8], from: usize) -> (r: usize)
    ensures
        r == word_backward(bytes@, from as int),
{
    if from == 0 {
        return 0;
    }
    let mut i: usize = prev_char(bytes, from);
    let ghost start = i as int;
    while i > 0 && i < bytes.len() && is_whitespace_byte(bytes[i])
        invariant
            skip_spaces_back(bytes@, i as int) == skip_spaces_back(bytes@, start),
        decreases i,
    {
        i = prev_char(bytes, i);
    }
    if i >= bytes.len() {
        return i;
    }
    let word: bool = is_word_byte(bytes[i]);
    let ghost mid = i as int;
    while i > 0
        invariant
            run_start(bytes@, i as int, word) == run_start(bytes@, mid, word),
            i < bytes@.len(),
            i <= mid,
        ensures
            i == run_start(bytes@, mid, word),
        decreases i,
    {
        let p: usize = prev_char(bytes, i);
        if is_whitespace_byte(bytes[p]) || is_word_byte(bytes[p]) != word {
            break;
        }
        i = p;
    }
    i
}

pub fn motion_word_end(bytes: &[u8], from: usize) -> (r: usize)
    requires
        text_fits(bytes@),
    ensures
        r == word_end(bytes@, from as int),
{
    if bytes.len() == 0 {
        return 0;
    }
    let mut i: usize = first_of_next_run(bytes, from);
    if i >= bytes.len() {
        return prev_char(bytes, bytes.len());
    }
    let word: bool = is_word_byte(bytes[i]);
    let mut last: usize = i;
    let ghost start = i as int;
    while i < bytes.len() && !is_whitespace_byte(bytes[i]) && is_word_byte(bytes[i]) == word
        invariant
            text_fits(bytes@),
            run_last(bytes@, i as int, last as int, word) == run_last(bytes@, start, start, word),
        decreases bytes_left(bytes@, i as int),
    {
        last = i;
        i += utf8_len(bytes[i]);
    }
    last
}

// ---------------------------------------------------------------------------
// Character search within a line
// ---------------------------------------------------------------------------

/// The first offset in `lo..hi` that holds `b`.
pub open spec fn first_at(s: Seq<u8>, lo: int, hi: int, b: u8) -> Option<int>
    decreases hi - lo,
{
    if lo >= hi {
        None
    } else if s[lo] == b {
        Some(lo)
    } else {
        first_at(s, lo + 1, hi, b)
    }
}

/// The last offset in `lo..hi` that holds `b`.
pub open spec fn last_at(s: Seq<u8>, lo: int, hi: int, b: u8) -> Option<int>
    decreases hi - lo,
{
    if lo >= hi {
        None
    } else if s[hi - 1] == b {
        Some(hi - 1)
    } else {
        last_at(s, lo, hi - 1, b)
    }
}

pub open spec fn opt_int(o: Option<usize>) -> Option<int> {
    match o {
        Some(x) => Some(x as int),
        None => None,
    }
}

/// Where a character search from `from` lands: on the match, or one character
/// short of it; only ASCII characters are found, and only on the same line.
pub open spec fn find_on_line(s: Seq<u8>, from: int, target: char, op: FindOp) -> Option<int> {
    if target as int >= 128 {
        None
    } else {
        let needle = target as u8;
        let le = line_end_of(s, from);
        match op {
            FindOp::ForwardTo => first_at(s, imin(from + 1, le), le, needle),
            FindOp::ForwardTill => match first_at(s, imin(from + 1, le), le, needle) {
                Some(p) => Some(prev_char_of(s, p)),
                None => None,
            },
            FindOp::BackwardTo => last_at(s, line_start_of(s, from), imin(from, le), needle),
            FindOp::BackwardTill => match last_at(
                s,
                line_start_of(s, from),
                imin(from, le),
                needle,
            ) {
                Some(p) => Some(next_char_of(s, p)),
                None => None,
            },
        }
    }
}

pub fn position_forward(bytes: &[u8], lo: usize, hi: usize, b: u8) -> (r: Option<usize>)
    requires
        hi <= bytes@.len(),
    ensures
        opt_int(r) == first_at(bytes@, lo as int, hi as int, b),
        r matches Some(p) ==> lo <= p < hi && bytes@[p as int] == b,
{
    let mut i: usize = lo;
    while i < hi
        invariant
            hi <= bytes@.len(),
            lo <= i,
            first_at(bytes@, i as int, hi as int, b) == first_at(bytes@, lo as int, hi as int, b),
        decreases hi - i,
    {
        if bytes[i] == b {
            return Some(i);
        }
        i += 1;
    }
    None
}

pub fn position_backward(bytes: &[u8], lo: usize, hi: usize, b: u8) -> (r: Option<usize>)
    requires
        hi <= bytes@.len(),
    ensures
        opt_int(r) == last_at(bytes@, lo as int, hi as int, b),
        r matches Some(p) ==> lo <= p < hi && bytes@[p as int] == b,
{
    let mut i: usize = hi;
    while i > lo
        invariant
            i <= hi <= bytes@.len(),
            last_at(bytes@, lo as int, i as int, b) == last_at(bytes@, lo as int, hi as int, b),
        decreases i,
    {
        if bytes[i - 1] == b {
            return Some(i - 1);
        }
        i -= 1;
    }
    None
}

/// Search for `target` on the line of `from`, not counting `from` itself.
pub fn find_char_on_line(bytes: &[u8], from: usize, target: char, op: FindOp) -> (r: Option<usize>)
    ensures
        opt_int(r) == find_on_line(bytes@, from as int, target, op),
{
    if target as u32 >= 128 {
        return None;
    }
    let needle: u8 = target as u8;
    let ls: usize = line_start(bytes, from);
    let le: usize = line_end(bytes, from);
    match op {
        FindOp::ForwardTo | FindOp::ForwardTill => {
            let start: usize = if from < le { from + 1 } else { le };
            match position_forward(bytes, start, le, needle) {
                None => None,
                Some(p) => {
                    if op == FindOp::ForwardTill {
                        Some(prev_char(bytes, p))
                    } else {
                        Some(p)
                    }
                },
            }
        },
        FindOp::BackwardTo | FindOp::BackwardTill => {
            let end: usize = if from < le { from } else { le };
            match position_backward(bytes, ls, end, needle) {
                None => None,
                Some(p) => {
                    if op == FindOp::BackwardTill {
                        Some(next_char(bytes, p))
                    } else {
                        Some(p)
                    }
                },
            }
        },
    }
}

/// A found character stands on the line that the search began on.
pub proof fn found_on_the_same_line(s: Seq<u8>, from: int, target: char)
    requires
        0 <= from,
    ensures
        find_on_line(s, from, target, FindOp::ForwardTo) matches Some(p) ==> from < p < line_end_of(
            s,
            from,
        ) && s[p] == target as u8,
        find_on_line(s, from, target, FindOp::BackwardTo) matches Some(p) ==> line_start_of(s, from)
            <= p < from && s[p] == target as u8,
{
    let le = line_end_of(s, from);
    lemma_first_at(s, imin(from + 1, le), le, target as u8);
    lemma_last_at(s, line_start_of(s, from), imin(from, le), target as u8);
}

pub proof fn lemma_first_at(s: Seq<u8>, lo: int, hi: int, b: u8)
    ensures
        first_at(s, lo, hi, b) matches Some(p) ==> lo <= p < hi && s[p] == b && (forall|i: int|
            lo <= i < p ==> s[i] != b),
        first_at(s, lo, hi, b) is None ==> forall|i: int| lo <= i < hi ==> s[i] != b,
    decreases hi - lo,
{
    if lo < hi && s[lo] != b {
        lemma_first_at(s, lo + 1, hi, b);
    }
}

pub proof fn lemma_last_at(s: Seq<u8>, lo: int, hi: int, b: u8)
    ensures
        last_at(s, lo, hi, b) matches Some(p) ==> lo <= p < hi && s[p] == b && (forall|i: int|
            p < i < hi ==> s[i] != b),
        last_at(s, lo, hi, b) is None ==> forall|i: int| lo <= i < hi ==> s[i] != b,
    decreases hi - lo,
{
    if lo < hi && s[hi - 1] != b {
        lemma_last_at(s, lo, hi - 1, b);
    }
}

// ---------------------------------------------------------------------------
// Lines and paragraphs
// ---------------------------------------------------------------------------

pub open spec fn last_line_of(s: Seq<u8>) -> int {
    line_of(s, s.len() as int)
}

/// First line from `line` on, up to one past the last, that is not blank.
pub open spec fn skip_blank_lines(s: Seq<u8>, line: int) -> int
    decreases last_line_of(s) + 1 - line,
{
    if line <= last_line_of(s) && blank_line(s, line) {
        skip_blank_lines(s, line + 1)
    } else {
        line
    }
}

/// Last line of the paragraph that `line` is in.
pub open spec fn paragraph_last(s: Seq<u8>, line: int) -> int
    decreases last_line_of(s) - line,
{
    if line < last_line_of(s) && !blank_line(s, line + 1) {
        paragraph_last(s, line + 1)
    } else {
        line
    }
}

/// Last line at or before `line`, down to the first, that is not blank.
pub open spec fn skip_blank_lines_back(s: Seq<u8>, line: int) -> int
    decreases line,
{
    if line > 0 && blank_line(s, line) {
        skip_blank_lines_back(s, line - 1)
    } else {
        line
    }
}

/// First line of the paragraph that `line` is in.
pub open spec fn paragraph_first(s: Seq<u8>, line: int) -> int
    decreases line,
{
    if line > 0 && !blank_line(s, line - 1) {
        paragraph_first(s, line - 1)
    } else {
        line
    }
}

/// Last line of the paragraph that `from` is in or, from there, of the next
/// one; `from` itself when there is no paragraph ahead.
pub open spec fn paragraph_forward(s: Seq<u8>, from: int) -> int {
    if s.len() == 0 {
        from
    } else {
        let total = last_line_of(s);
        let start = line_of(s, from);
        let line = skip_blank_lines(s, start);
        if line > total {
            from
        } else {
            let end = paragraph_last(s, line);
            if end != start {
                nth_line(s, end)
            } else if end >= total {
                from
            } else {
                let next = skip_blank_lines(s, end + 1);
                if next > total { from } else { nth_line(s, paragraph_last(s, next)) }
            }
        }
    }
}

/// First line of the paragraph that `from` is in or, from there, of the one
/// before; `from` itself when there is none.
pub open spec fn paragraph_backward(s: Seq<u8>, from: int) -> int {
    if s.len() == 0 {
        0
    } else {
        let start = line_of(s, from);
        let line = skip_blank_lines_back(s, start);
        if blank_line(s, line) {
            from
        } else {
            let first = paragraph_first(s, line);
            if first != start {
                nth_line(s, first)
            } else if first == 0 {
                from
            } else {
                let prev = skip_blank_lines_back(s, first - 1);
                if blank_line(s, prev) {
                    from
                } else {
                    nth_line(s, paragraph_first(s, prev))
                }
            }
        }
    }
}

fn line_is_blank(bytes: &[u8], line: usize) -> (r: bool)
    ensures
        r == blank_line(bytes@, line as int),
{
    let s: usize = byte_at_line(bytes, line);
    let e: usize = line_end(bytes, s);
    s == e
}

fn skip_blank(bytes: &[u8], line: usize, total: usize) -> (r: usize)
    requires
        total == last_line_of(bytes@),
        line <= total,
        total < usize::MAX,
    ensures
        r == skip_blank_lines(bytes@, line as int),
        line <= r <= total + 1,
{
    let mut l: usize = line;
    while l <= total && line_is_blank(bytes, l)
        invariant
            total == last_line_of(bytes@),
            total < usize::MAX,
            line <= l <= total + 1,
            skip_blank_lines(bytes@, l as int) == skip_blank_lines(bytes@, line as int),
        decreases total + 1 - l,
    {
        l += 1;
    }
    l
}

fn to_paragraph_last(bytes: &[u8], line: usize, total: usize) -> (r: usize)
    requires
        total == last_line_of(bytes@),
        line <= total,
    ensures
        r == paragraph_last(bytes@, line as int),
        line <= r <= total,
{
    let mut l: usize = line;
    while l < total && !line_is_blank(bytes, l + 1)
        invariant
            total == last_line_of(bytes@),
            line <= l <= total,
            paragraph_last(bytes@, l as int) == paragraph_last(bytes@, line as int),
        decreases total - l,
    {
        l += 1;
    }
    l
}

fn skip_blank_back(bytes: &[u8], line: usize) -> (r: usize)
    ensures
        r == skip_blank_lines_back(bytes@, line as int),
        r <= line,
{
    let mut l: usize = line;
    while l > 0 && line_is_blank(bytes, l)
        invariant
            l <= line,
            skip_blank_lines_back(bytes@, l as int) == skip_blank_lines_back(bytes@, line as int),
        decreases l,
    {
        l -= 1;
    }
    l
}

fn to_paragraph_first(bytes: &[u8], line: usize) -> (r: usize)
    ensures
        r == paragraph_first(bytes@, line as int),
        r <= line,
{
    let mut l: usize = line;
    while l > 0 && !line_is_blank(bytes, l - 1)
        invariant
            l <= line,
            paragraph_first(bytes@, l as int) == paragraph_first(bytes@, line as int),
        decreases l,
    {
        l -= 1;
    }
    l
}

/// Start of the last line of the next paragraph. Never a blank line; `from`
/// when there is no paragraph ahead.
pub fn paragraph_end_forward(bytes: &[u8], from: usize) -> (r: usize)
    requires
        text_fits(bytes@),
    ensures
        r == paragraph_forward(bytes@, from as int),
{
    if bytes.len() == 0 {
        return from;
    }
    let total: usize = line_index(bytes, bytes.len());
    let start: usize = line_index(bytes, from);
    proof {
        lemma_newlines_monotone(
            bytes@,
            imin(from as int, bytes@.len() as int),
            bytes@.len() as int,
        );
    }
    let line: usize = skip_blank(bytes, start, total);
    if line > total {
        return from;
    }
    let end: usize = to_paragraph_last(bytes, line, total);
    if end != start {
        return byte_at_line(bytes, end);
    }
    if end >= total {
        return from;
    }
    let next: usize = skip_blank(bytes, end + 1, total);
    if next > total {
        return from;
    }
    byte_at_line(bytes, to_paragraph_last(bytes, next, total))
}

/// Start of the first line of the current paragraph or, from there, of the
/// one before.
pub fn paragraph_start_backward(bytes: &[u8], from: usize) -> (r: usize)
    ensures
        r == paragraph_backward(bytes@, from as int),
{
    if bytes.len() == 0 {
        return 0;
    }
    let start: usize = line_index(bytes, from);
    let line: usize = skip_blank_back(bytes, start);
    if line_is_blank(bytes, line) {
        return from;
    }
    let first: usize = to_paragraph_first(bytes, line);
    if first != start {
        return byte_at_line(bytes, first);
    }
    if first == 0 {
        return from;
    }
    let prev: usize = skip_blank_back(bytes, first - 1);
    if line_is_blank(bytes, prev) {
        return from;
    }
    byte_at_line(bytes, to_paragraph_first(bytes, prev))
}

/// The last byte before `n` that is no line break, or -1.
pub open spec fn last_inked(s: Seq<u8>, n: int) -> int
    decreases n,
{
    if n <= 0 {
        -1
    } else if s[n - 1] != NL {
        n - 1
    } else {
        last_inked(s, n - 1)
    }
}

/// Start of the last line that is not empty; 0 where all are.
pub open spec fn last_start(s: Seq<u8>) -> int {
    let last = last_inked(s, s.len() as int);
    if last < 0 { 0 } else { line_start_of(s, last) }
}

/// Start of the last line that is not empty.
pub fn last_line_start(bytes: &[u8]) -> (r: usize)
    ensures
        r == last_start(bytes@),
        r <= bytes@.len(),
{
    let mut n: usize = bytes.len();
    while n > 0 && bytes[n - 1] == NL
        invariant
            n <= bytes@.len(),
            last_inked(bytes@, n as int) == last_inked(bytes@, bytes@.len() as int),
        decreases n,
    {
        n -= 1;
    }
    if n == 0 {
        return 0;
    }
    line_start(bytes, n - 1)
}

/// The selection once it was moved `delta` lines down (up when negative),
/// keeping its desired column and clamped to the text.
pub open spec fn line_moved(s: Seq<u8>, sel: Selection, delta: int) -> Selection {
    if s.len() == 0 {
        sel
    } else {
        let line = iclamp(line_of(s, sel.head as int) + delta, 0, last_line_of(s));
        let head = offset_at_column(s, nth_line(s, line), sel.desired_col as int) as usize;
        Selection { head, anchor: head, desired_col: sel.desired_col }
    }
}

fn clamped_line(current: usize, delta: i64, total: usize) -> (r: usize)
    requires
        current <= total,
    ensures
        r == iclamp(current + delta, 0, total as int),
{
    if delta >= 0 {
        let room: u64 = (total - current) as u64;
        if room <= delta as u64 {
            total
        } else {
            current + delta as usize
        }
    } else {
        let up: u64 = (-(delta + 1)) as u64;
        if current as u64 <= up {
            0
        } else {
            current - up as usize - 1
        }
    }
}

pub fn move_line_relative(bytes: &[u8], sel: &mut Selection, delta: i64)
    requires
        text_fits(bytes@),
    ensures
        *final(sel) == line_moved(bytes@, *old(sel), delta as int),
{
    if bytes.len() == 0 {
        return;
    }
    let total: usize = line_index(bytes, bytes.len());
    let current: usize = line_index(bytes, sel.head);
    proof {
        lemma_newlines_monotone(
            bytes@,
            imin(sel.head as int, bytes@.len() as int),
            bytes@.len() as int,
        );
    }
    let target: usize = clamped_line(current, delta, total);
    let start: usize = byte_at_line(bytes, target);
    let head: usize = offset_at_col(bytes, start, sel.desired_col);
    sel.head = head;
    sel.anchor = head;
}

/// The same selection by lookup in a line index.
pub open spec fn line_moved_by_index(
    s: Seq<u8>,
    v: Seq<usize>,
    sel: Selection,
    delta: int,
) -> Selection {
    if s.len() == 0 {
        sel
    } else {
        let line = iclamp(slot_of(v, sel.head as int) + delta, 0, v.len() - 1);
        let head = offset_at_column(s, v[line] as int, sel.desired_col as int) as usize;
        Selection { head, anchor: head, desired_col: sel.desired_col }
    }
}

/// Moving by lookup in the text's line index ends where moving by counting line
/// breaks ends.
pub proof fn an_index_changes_no_line_motion(s: Seq<u8>, v: Seq<usize>, sel: Selection, delta: int)
    requires
        indexes(v, s),
    ensures
        line_moved_by_index(s, v, sel, delta) == line_moved(s, sel, delta),
{
    if s.len() > 0 {
        let o = imin(sel.head as int, s.len() as int);
        lemma_index_ascending(v, s);
        cached_line_is_line(v, s, o);
        lemma_newlines_monotone(s, o, s.len() as int);
        lemma_slot_clamps(v, s, sel.head as int);
        let line = iclamp(slot_of(v, sel.head as int) + delta, 0, v.len() - 1);
        assert(v[line] == line_starts_of(s)[line]);
    }
}

/// The same motion by lookup in a line index.
pub fn move_line_relative_cached(
    bytes: &[u8],
    line_starts: &[usize],
    sel: &mut Selection,
    delta: i64,
)
    requires
        text_fits(bytes@),
        indexes(line_starts@, bytes@),
    ensures
        *final(sel) == line_moved_by_index(bytes@, line_starts@, *old(sel), delta as int),
        *final(sel) == line_moved(bytes@, *old(sel), delta as int),
{
    proof {
        an_index_changes_no_line_motion(bytes@, line_starts@, *sel, delta as int);
    }
    if bytes.len() == 0 {
        return;
    }
    proof {
        lemma_index_ascending(line_starts@, bytes@);
        let o = imin(sel.head as int, bytes@.len() as int);
        cached_line_is_line(line_starts@, bytes@, o);
        lemma_newlines_monotone(bytes@, o, bytes@.len() as int);
        lemma_slot_clamps(line_starts@, bytes@, sel.head as int);
    }
    let total: usize = line_starts.len() - 1;
    let current: usize = line_index_cached(line_starts, sel.head);
    let target: usize = clamped_line(current, delta, total);
    let start: usize = byte_at_line_cached(line_starts, target, bytes.len());
    assert(start == line_starts_of(bytes@)[target as int]);
    let head: usize = offset_at_col(bytes, start, sel.desired_col);
    sel.head = head;
    sel.anchor = head;
}

proof fn lemma_slot_clamps(v: Seq<usize>, s: Seq<u8>, o: int)
    requires
        indexes(v, s),
        0 <= o,
    ensures
        slot_of(v, o) == slot_of(v, imin(o, s.len() as int)),
{
    lemma_index_ascending(v, s);
    if o > s.len() && v.len() > 1 {
        assert(v[v.len() - 1] <= s.len());
    }
}

// ---------------------------------------------------------------------------
// Motions of one selection
// ---------------------------------------------------------------------------

/// Where a motion takes the head; `None` when it does not move at all.
pub open spec fn motion_target(s: Seq<u8>, sel: Selection, motion: Motion) -> Option<int> {
    let h = sel.head as int;
    match motion {
        Motion::Left => Some(prev_char_of(s, h)),
        Motion::Right => Some(next_char_of(s, h)),
        Motion::Up => {
            let ls = line_start_of(s, h);
            if ls == 0 {
                None
            } else {
                Some(offset_at_column(s, line_start_of(s, ls - 1), sel.desired_col as int))
            }
        },
        Motion::Down => {
            let le = line_end_of(s, h);
            if le >= s.len() {
                None
            } else {
                Some(offset_at_column(s, le + 1, sel.desired_col as int))
            }
        },
        Motion::LineStart => Some(line_start_of(s, h)),
        Motion::LineEnd => Some(end_of_line_of(s, h)),
        Motion::NextWord => Some(word_forward(s, h)),
        Motion::PrevWord => Some(word_backward(s, h)),
        Motion::EndWord => Some(word_end(s, h)),
    }
}

pub open spec fn vertical(motion: Motion) -> bool {
    motion is Up || motion is Down
}

pub open spec fn by_word(motion: Motion) -> bool {
    motion is NextWord || motion is PrevWord || motion is EndWord
}

/// The selection after a motion. Word motions select what they pass over,
/// others collapse the selection, and extending keeps the anchor; vertical
/// motions keep the desired column.
pub open spec fn moved(s: Seq<u8>, sel: Selection, motion: Motion, extend: bool) -> Selection {
    match motion_target(s, sel, motion) {
        None => sel,
        Some(h) => Selection {
            head: h as usize,
            anchor: if extend {
                sel.anchor
            } else if by_word(motion) {
                sel.head
            } else {
                h as usize
            },
            desired_col: if vertical(motion) {
                sel.desired_col
            } else {
                column_at(s, h) as usize
            },
        },
    }
}

pub fn apply_motion(bytes: &[u8], sel: &mut Selection, motion: Motion, extend: bool)
    requires
        text_fits(bytes@),
    ensures
        *final(sel) == moved(bytes@, *old(sel), motion, extend),
{
    let old_head: usize = sel.head;
    let new_head: usize = match motion {
        Motion::Left => prev_char(bytes, old_head),
        Motion::Right => next_char(bytes, old_head),
        Motion::Up => {
            let ls: usize = line_start(bytes, old_head);
            if ls == 0 {
                return;
            }
            let prev_ls: usize = line_start(bytes, ls - 1);
            offset_at_col(bytes, prev_ls, sel.desired_col)
        },
        Motion::Down => {
            let le: usize = line_end(bytes, old_head);
            if le >= bytes.len() {
                return;
            }
            offset_at_col(bytes, le + 1, sel.desired_col)
        },
        Motion::LineStart => line_start(bytes, old_head),
        Motion::LineEnd => end_of_line(bytes, old_head),
        Motion::NextWord => motion_word_forward(bytes, old_head),
        Motion::PrevWord => motion_word_backward(bytes, old_head),
        Motion::EndWord => motion_word_end(bytes, old_head),
    };
    sel.head = new_head;
    if !extend {
        sel.anchor = match motion {
            Motion::NextWord | Motion::PrevWord | Motion::EndWord => old_head,
            _ => new_head,
        };
    }
    match motion {
        Motion::Up | Motion::Down => {},
        _ => {
            sel.desired_col = display_col(bytes, line_start(bytes, new_head), new_head);
        },
    }
}

// ---------------------------------------------------------------------------
// Laws
// ---------------------------------------------------------------------------

proof fn lemma_skip_blank_lines(s: Seq<u8>, line: int)
    ensures
        line <= skip_blank_lines(s, line),
        skip_blank_lines(s, line) <= last_line_of(s) ==> !blank_line(s, skip_blank_lines(s, line)),
    decreases last_line_of(s) + 1 - line,
{
    if line <= last_line_of(s) && blank_line(s, line) {
        lemma_skip_blank_lines(s, line + 1);
    }
}

proof fn lemma_paragraph_last(s: Seq<u8>, line: int)
    requires
        !blank_line(s, line),
    ensures
        !blank_line(s, paragraph_last(s, line)),
    decreases last_line_of(s) - line,
{
    if line < last_line_of(s) && !blank_line(s, line + 1) {
        lemma_paragraph_last(s, line + 1);
    }
}

proof fn lemma_paragraph_first(s: Seq<u8>, line: int)
    requires
        !blank_line(s, line),
    ensures
        !blank_line(s, paragraph_first(s, line)),
    decreases line,
{
    if line > 0 && !blank_line(s, line - 1) {
        lemma_paragraph_first(s, line - 1);
    }
}

/// A line that is not blank starts with a character.
proof fn lemma_inked_line(s: Seq<u8>, line: int)
    requires
        !blank_line(s, line),
    ensures
        0 <= nth_line(s, line) < s.len(),
        s[nth_line(s, line)] != NL,
{
    lemma_breaks(s);
    if 0 < line < line_starts_of(s).len() {
        assert(nth_line(s, line) == breaks_of(s)[line - 1]);
    }
}

/// Moving by paragraphs never stops on a blank line: the cursor stays where it
/// is or lands on a character that is no line break.
pub proof fn paragraph_motions_avoid_blank_lines(s: Seq<u8>, from: int)
    requires
        s.len() > 0,
    ensures
        ({
            let r = paragraph_forward(s, from);
            r != from ==> r < s.len() && s[r] != NL
        }),
        ({
            let r = paragraph_backward(s, from);
            r != from ==> r < s.len() && s[r] != NL
        }),
{
    let start = line_of(s, from);
    let line = skip_blank_lines(s, start);
    lemma_skip_blank_lines(s, start);
    if line <= last_line_of(s) {
        lemma_paragraph_last(s, line);
        lemma_inked_line(s, paragraph_last(s, line));
        let next = skip_blank_lines(s, paragraph_last(s, line) + 1);
        lemma_skip_blank_lines(s, paragraph_last(s, line) + 1);
        if next <= last_line_of(s) {
            lemma_paragraph_last(s, next);
            lemma_inked_line(s, paragraph_last(s, next));
        }
    }
    let back = skip_blank_lines_back(s, start);
    if !blank_line(s, back) {
        lemma_paragraph_first(s, back);
        lemma_inked_line(s, paragraph_first(s, back));
        let prev = skip_blank_lines_back(s, paragraph_first(s, back) - 1);
        if !blank_line(s, prev) {
            lemma_paragraph_first(s, prev);
            lemma_inked_line(s, paragraph_first(s, prev));
        }
    }
}

/// The last line that is not empty starts with a character, and nothing but
/// line breaks comes behind it; where every line is empty, it is the first.
pub proof fn the_last_line_is_not_empty(s: Seq<u8>)
    ensures
        last_start(s) == 0 || last_start(s) < s.len() && s[last_start(s)] != NL,
        forall|i: int| line_end_of(s, last_start(s)) <= i < s.len() ==> #[trigger] s[i] == NL,
{
    lemma_last_inked(s, s.len() as int);
    let last = last_inked(s, s.len() as int);
    lemma_line_end_bounds(s, 0);
    if last >= 0 {
        lemma_unbroken(s, last);
        lemma_end_of_unbroken(s, line_start_of(s, last), last);
    }
}

proof fn lemma_last_inked(s: Seq<u8>, n: int)
    requires
        n <= s.len(),
    ensures
        last_inked(s, n) < 0 || last_inked(s, n) < n && s[last_inked(s, n)] != NL,
        forall|i: int| last_inked(s, n) < i < n && 0 <= i ==> #[trigger] s[i] == NL,
    decreases n,
{
    if n > 0 && s[n - 1] == NL {
        lemma_last_inked(s, n - 1);
    }
}

/// No line break stands between the start of a line and a byte on it.
proof fn lemma_unbroken(s: Seq<u8>, o: int)
    requires
        0 <= o < s.len(),
    ensures
        0 <= line_start_of(s, o) <= o,
        forall|i: int| line_start_of(s, o) <= i < o ==> #[trigger] s[i] != NL,
    decreases o,
{
    if o > 0 && s[o - 1] != NL {
        lemma_unbroken(s, o - 1);
    }
}

/// The line goes on past `last` if no break comes before.
proof fn lemma_end_of_unbroken(s: Seq<u8>, o: int, last: int)
    requires
        0 <= o <= last < s.len(),
        forall|i: int| o <= i <= last ==> #[trigger] s[i] != NL,
    ensures
        last < line_end_of(s, o),
    decreases last - o,
{
    if o < last {
        lemma_end_of_unbroken(s, o + 1, last);
    } else {
        lemma_line_end_bounds(s, o + 1);
    }
}

/// Extending a motion never moves the anchor, and a motion that does not
/// extend ends where the extending one does.
pub proof fn extending_only_keeps_the_anchor(s: Seq<u8>, sel: Selection, motion: Motion)
    ensures
        moved(s, sel, motion, true).anchor == sel.anchor,
        moved(s, sel, motion, true).head == moved(s, sel, motion, false).head,
        moved(s, sel, motion, true).desired_col == moved(s, sel, motion, false).desired_col,
{
}

proof fn lemma_skip_spaces_on_char(s: Seq<u8>, i: int)
    requires
        valid_utf8(s),
        on_char(s, i),
    ensures
        on_char(s, skip_spaces(s, i)),
        i <= skip_spaces(s, i) <= s.len(),
        skip_spaces(s, i) < s.len() ==> !space_byte(s[skip_spaces(s, i)]),
        (forall|j: int| i <= j < s.len() ==> space_byte(#[trigger] s[j])) ==> skip_spaces(s, i)
            == s.len(),
    decreases s.len() - i,
{
    if i < s.len() && space_byte(s[i]) {
        lemma_whole_char(s, i);
        lemma_skip_spaces_on_char(s, i + 1);
    }
}

proof fn lemma_run_last_before_end(s: Seq<u8>, i: int, last: int, word: bool)
    requires
        valid_utf8(s),
        on_char(s, i),
        i < s.len(),
        !space_byte(s[i]),
        word_byte(s[i]) == word,
    ensures
        prev_char_of(s, run_end(s, i, word)) == run_last(s, i, last, word),
        i < run_end(s, i, word) <= s.len(),
        i <= run_last(s, i, last, word) < s.len(),
        on_char(s, run_last(s, i, last, word)),
    decreases s.len() - i,
{
    lemma_whole_char(s, i);
    lemma_prev_of_next(s, i);
    let next = i + char_len(s[i]);
    if next < s.len() && !space_byte(s[next]) && word_byte(s[next]) == word {
        lemma_run_last_before_end(s, next, i, word);
    }
}

/// The two motions to the end of a word agree. They move on unless they start
/// from the last character, land on a character, and go to the last one where
/// nothing but white space follows.
pub proof fn word_motions_agree(s: Seq<u8>, from: int)
    requires
        valid_utf8(s),
        on_char(s, from),
        from < s.len(),
    ensures
        word_end(s, from) == word_forward(s, from),
        ({
            let r = word_forward(s, from);
            let next = next_char_or_end_of(s, from);
            &&& on_char(s, r) && r < s.len()
            &&& next < s.len() ==> r > from
            &&& next == s.len() ==> r == from
            &&& (forall|j: int| next <= j < s.len() ==> space_byte(#[trigger] s[j])) ==> r
                == prev_char_of(s, s.len() as int)
        }),
{
    lemma_whole_char(s, from);
    lemma_prev_of_next(s, from);
    let next = next_char_or_end_of(s, from);
    lemma_skip_spaces_on_char(s, next);
    let i = next_run(s, from);
    if i < s.len() {
        lemma_run_last_before_end(s, i, i, word_byte(s[i]));
        assert(!space_byte(s[i]));
    } else {
        snap_is_idempotent(s, s.len() as int);
        lemma_first_char(s);
        if next < s.len() {
            lemma_back_not_past(s, next, s.len() - 1);
        }
    }
}

/// White space, word characters and all others: a word is a run of one of the
/// latter two.
pub enum Sort {
    Blank,
    Word,
    Other,
}

pub open spec fn sort_of(b: u8) -> Sort {
    if b == ' ' as u8 || b == '\t' as u8 || b == '\n' as u8 || b == '\r' as u8 {
        Sort::Blank
    } else if in_words(b) {
        Sort::Word
    } else {
        Sort::Other
    }
}

/// The bytes from `a` to before `b` are all of one sort.
pub open spec fn all_of(s: Seq<u8>, a: int, b: int, sort: Sort) -> bool {
    forall|j: int| a <= j < b ==> sort_of(#[trigger] s[j]) == sort
}

proof fn lemma_sort_of_char(s: Seq<u8>, i: int)
    requires
        valid_utf8(s),
        on_char(s, i),
        i < s.len(),
    ensures
        i + char_len(s[i]) <= s.len(),
        on_char(s, i + char_len(s[i])),
        all_of(s, i, i + char_len(s[i]), sort_of(s[i])),
        space_byte(s[i]) == (sort_of(s[i]) is Blank),
        !space_byte(s[i]) ==> word_byte(s[i]) == (sort_of(s[i]) is Word),
        i + 1 <= i + char_len(s[i]),
{
    lemma_whole_char(s, i);
}

proof fn lemma_run_end_sorts(s: Seq<u8>, i: int, word: bool)
    requires
        valid_utf8(s),
        on_char(s, i),
    ensures
        ({
            let e = run_end(s, i, word);
            let sort = if word { Sort::Word } else { Sort::Other };
            &&& i <= e <= s.len()
            &&& all_of(s, i, e, sort)
            &&& e < s.len() ==> sort_of(s[e]) != sort
        }),
    decreases s.len() - i,
{
    if i < s.len() {
        lemma_sort_of_char(s, i);
        if !space_byte(s[i]) && word_byte(s[i]) == word {
            lemma_run_end_sorts(s, i + char_len(s[i]), word);
        }
    }
}

proof fn lemma_skip_spaces_sorts(s: Seq<u8>, i: int)
    requires
        0 <= i <= s.len(),
    ensures
        i <= skip_spaces(s, i) <= s.len(),
        all_of(s, i, skip_spaces(s, i), Sort::Blank),
        skip_spaces(s, i) < s.len() ==> !(sort_of(s[skip_spaces(s, i)]) is Blank),
    decreases s.len() - i,
{
    if i < s.len() && space_byte(s[i]) {
        lemma_skip_spaces_sorts(s, i + 1);
    }
}

/// A word starts at `i`, past white space from `from` on, and its last character
/// is at `r`; or the text ends with white space and its last character is at `r`.
pub open spec fn next_word(s: Seq<u8>, from: int, i: int, r: int) -> bool {
    let e = r + char_len(s[r]);
    &&& from <= i <= s.len()
    &&& all_of(s, from, i, Sort::Blank)
    &&& 0 <= r < e <= s.len()
    &&& if i < s.len() {
        &&& i <= r
        &&& !(sort_of(s[i]) is Blank)
        &&& all_of(s, i, e, sort_of(s[i]))
        &&& e < s.len() ==> sort_of(s[e]) != sort_of(s[i])
    } else {
        e == s.len()
    }
}

/// The word motions go to the last character of the next word behind the
/// character they start from.
pub proof fn word_motions_go_to_the_next_end(s: Seq<u8>, from: int)
    requires
        valid_utf8(s),
        on_char(s, from),
        from < s.len(),
    ensures
        exists|i: int| #[trigger]
            next_word(s, from + char_len(s[from]), i, word_forward(s, from)),
        word_end(s, from) == word_forward(s, from),
{
    word_motions_agree(s, from);
    lemma_whole_char(s, from);
    let next = next_char_or_end_of(s, from);
    lemma_skip_spaces_on_char(s, next);
    lemma_skip_spaces_sorts(s, next);
    let i = next_run(s, from);
    let r = word_forward(s, from);
    if i < s.len() {
        lemma_sort_of_char(s, i);
        lemma_run_last_before_end(s, i, i, word_byte(s[i]));
        lemma_run_end_sorts(s, i, word_byte(s[i]));
        let e = run_end(s, i, word_byte(s[i]));
        lemma_run_end_on_char(s, i, word_byte(s[i]));
        crate::object::lemma_bytes_of_prev(s, e);
        assert(next_word(s, next, i, r));
    } else {
        crate::object::lemma_bytes_of_prev(s, s.len() as int);
        assert(r == prev_char_of(s, s.len() as int));
        assert(next_word(s, next, i, r));
    }
}

proof fn lemma_run_end_on_char(s: Seq<u8>, i: int, word: bool)
    requires
        valid_utf8(s),
        on_char(s, i),
    ensures
        on_char(s, run_end(s, i, word)),
    decreases s.len() - i,
{
    if i < s.len() {
        lemma_sort_of_char(s, i);
        if !space_byte(s[i]) && word_byte(s[i]) == word {
            lemma_run_end_on_char(s, i + char_len(s[i]), word);
        }
    }
}

proof fn lemma_skip_back_sorts(s: Seq<u8>, i: int)
    requires
        valid_utf8(s),
        on_char(s, i),
        i < s.len(),
    ensures
        ({
            let k = skip_spaces_back(s, i);
            &&& 0 <= k <= i
            &&& on_char(s, k)
            &&& all_of(s, k + char_len(s[k]), i + char_len(s[i]), Sort::Blank)
            &&& sort_of(s[k]) is Blank ==> k == 0
        }),
    decreases i,
{
    lemma_sort_of_char(s, i);
    if i > 0 && space_byte(s[i]) {
        crate::object::lemma_bytes_of_prev(s, i);
        lemma_skip_back_sorts(s, prev_char_of(s, i));
    }
}

proof fn lemma_run_start_sorts(s: Seq<u8>, i: int, word: bool)
    requires
        valid_utf8(s),
        on_char(s, i),
        i <= s.len(),
    ensures
        ({
            let a = run_start(s, i, word);
            let sort = if word { Sort::Word } else { Sort::Other };
            &&& 0 <= a <= i
            &&& all_of(s, a, i, sort)
            &&& a > 0 ==> sort_of(s[a - 1]) != sort
        }),
    decreases i,
{
    if i > 0 {
        crate::object::lemma_bytes_of_prev(s, i);
        let p = prev_char_of(s, i);
        lemma_sort_of_char(s, p);
        if !space_byte(s[p]) && word_byte(s[p]) == word {
            lemma_run_start_sorts(s, p, word);
        } else {
            assert(sort_of(s[i - 1]) == sort_of(s[p]));
        }
    }
}

/// From `r` to before `j` is a whole word, and white space from there to `from`.
pub open spec fn word_before(s: Seq<u8>, r: int, j: int, from: int) -> bool {
    &&& 0 <= r < j <= from
    &&& all_of(s, j, from, Sort::Blank)
    &&& !(sort_of(s[r]) is Blank)
    &&& all_of(s, r, j, sort_of(s[r]))
    &&& r > 0 ==> sort_of(s[r - 1]) != sort_of(s[r])
}

/// The motion back goes to the first character of the last word that begins
/// before the cursor, or to the start of the text where there is none.
pub proof fn the_motion_back_goes_to_the_start_of_a_word(s: Seq<u8>, from: int)
    requires
        valid_utf8(s),
        on_char(s, from),
        0 < from,
    ensures
        ({
            let r = word_backward(s, from);
            ||| exists|j: int| #[trigger] word_before(s, r, j, from)
            ||| r == 0 && all_of(s, 1, from, Sort::Blank) && sort_of(s[0]) is Blank
        }),
{
    crate::object::lemma_bytes_of_prev(s, from);
    let p = prev_char_of(s, from);
    lemma_skip_back_sorts(s, p);
    let k = skip_spaces_back(s, p);
    lemma_sort_of_char(s, k);
    let r = word_backward(s, from);
    lemma_run_start_sorts(s, k, word_byte(s[k]));
    let j = k + char_len(s[k]);
    if sort_of(s[k]) is Blank {
        assert(k == 0 && r == 0);
        assert(char_len(s[0]) == 1);
    } else {
        assert(j <= from) by {
            if k < p && j > p {
                lemma_whole_char(s, k);
                assert(crate::text::is_cont(s[p]));
            }
        }
        assert(word_before(s, r, j, from));
    }
}

/// Left and right step over exactly one character, and right does not step
/// behind the last one. What was selected is dropped.
pub proof fn left_and_right_step_over_one_character(s: Seq<u8>, sel: Selection)
    requires
        valid_utf8(s),
        s.len() <= usize::MAX,
        on_char(s, sel.head as int),
        sel.head < s.len(),
    ensures
        ({
            let (h, r) = (sel.head as int, moved(s, sel, Motion::Right, false).head as int);
            &&& on_char(s, r) && r < s.len()
            &&& forall|j: int| h < j < r ==> crate::text::is_cont(#[trigger] s[j])
            &&& r > h || r == h && forall|j: int| h < j < s.len() ==> crate::text::is_cont(
                #[trigger] s[j],
            )
            &&& moved(s, sel, Motion::Right, false).anchor == r
        }),
        ({
            let (h, l) = (sel.head as int, moved(s, sel, Motion::Left, false).head as int);
            &&& on_char(s, l)
            &&& forall|j: int| l < j < h ==> crate::text::is_cont(#[trigger] s[j])
            &&& l < h || l == h && h == 0
            &&& moved(s, sel, Motion::Left, false).anchor == l
        }),
{
    let h = sel.head as int;
    lemma_whole_char(s, h);
    if h > 0 {
        crate::object::lemma_bytes_of_prev(s, h);
        let p = prev_char_of(s, h);
        lemma_whole_char(s, p);
    }
}

proof fn lemma_seek_on_line(s: Seq<u8>, i: int, last: int, col: int, target: int, ls: int)
    requires
        valid_utf8(s),
        on_char(s, i),
        0 <= ls <= last <= i <= s.len(),
        forall|j: int| ls <= j < i ==> #[trigger] s[j] != NL,
        last < i || last == i == ls,
    ensures
        ({
            let r = seek_column(s, i, last, col, target);
            ls <= r <= s.len() && forall|j: int| ls <= j < r ==> #[trigger] s[j] != NL
        }),
    decreases s.len() - i,
{
    if i < s.len() && s[i] != NL && col < target {
        lemma_sort_of_char(s, i);
        let next = i + char_len(s[i]);
        lemma_whole_char(s, i);
        assert forall|j: int| ls <= j < next implies #[trigger] s[j] != NL by {
            if j > i {
                assert(crate::text::is_cont(s[j]));
            }
        }
        lemma_seek_on_line(s, next, i, col + crate::text::cell_width(col, s[i]), target, ls);
    }
}

proof fn lemma_same_line(s: Seq<u8>, ls: int, r: int)
    requires
        0 <= ls <= r <= s.len(),
        forall|j: int| ls <= j < r ==> #[trigger] s[j] != NL,
    ensures
        line_of(s, r) == line_of(s, ls),
    decreases r - ls,
{
    if ls < r {
        lemma_same_line(s, ls, r - 1);
    }
}

/// Up and down go to the line before and behind, where there is one, and else
/// nowhere; they keep the column that is aimed at.
pub proof fn up_and_down_go_one_line(s: Seq<u8>, sel: Selection)
    requires
        valid_utf8(s),
        s.len() <= usize::MAX,
        sel.head <= s.len(),
    ensures
        ({
            let (line, r) = (line_of(s, sel.head as int), moved(s, sel, Motion::Up, false));
            if line == 0 {
                r == sel
            } else {
                &&& line_of(s, r.head as int) == line - 1
                &&& r.anchor == r.head
                &&& r.desired_col == sel.desired_col
                &&& r.head == offset_at_column(s, nth_line(s, line - 1), sel.desired_col as int)
            }
        }),
        ({
            let (line, r) = (line_of(s, sel.head as int), moved(s, sel, Motion::Down, false));
            if line == line_of(s, s.len() as int) {
                r == sel
            } else {
                &&& line_of(s, r.head as int) == line + 1
                &&& r.anchor == r.head
                &&& r.desired_col == sel.desired_col
                &&& r.head == offset_at_column(s, nth_line(s, line + 1), sel.desired_col as int)
            }
        }),
{
    let h = sel.head as int;
    let col = sel.desired_col as int;
    crate::text::a_line_lies_between_breaks(s, h);
    let (ls, le) = (line_start_of(s, h), line_end_of(s, h));
    lemma_same_line(s, ls, h);
    lemma_same_line(s, h, le);
    if ls > 0 {
        assert(s[ls - 1] == NL);
        let x = line_start_of(s, ls - 1);
        crate::text::a_line_lies_between_breaks(s, ls - 1);
        crate::text::lemma_line_start_on_char(s, ls - 1);
        crate::text::lemma_line_of(s, ls - 1);
        lemma_same_line(s, x, ls - 1);
        lemma_seek_on_line(s, x, x, 1, col, x);
        crate::text::lemma_seek_bounds(s, x, x, 1, col);
        lemma_same_line(s, x, offset_at_column(s, x, col));
    }
    if le < s.len() {
        assert(s[le] == NL);
        lemma_whole_char(s, le);
        crate::text::lemma_line_of(s, le + 1);
        lemma_newlines_monotone(s, le + 1, s.len() as int);
        lemma_seek_on_line(s, le + 1, le + 1, 1, col, le + 1);
        crate::text::lemma_seek_bounds(s, le + 1, le + 1, 1, col);
        lemma_same_line(s, le + 1, offset_at_column(s, le + 1, col));
    }
}

/// Moving by several lines goes as far as there are lines.
pub proof fn moving_by_lines_counts_them(s: Seq<u8>, sel: Selection, delta: int)
    requires
        valid_utf8(s),
        0 < s.len() <= usize::MAX,
        sel.head <= s.len(),
    ensures
        ({
            let (line, last) = (line_of(s, sel.head as int), line_of(s, s.len() as int));
            let r = line_moved(s, sel, delta);
            let target = line_of(s, r.head as int);
            &&& r.anchor == r.head && r.desired_col == sel.desired_col
            &&& 0 <= line + delta <= last ==> target == line + delta
            &&& line + delta < 0 ==> target == 0
            &&& line + delta > last ==> target == last
        }),
{
    let line = iclamp(line_of(s, sel.head as int) + delta, 0, last_line_of(s));
    let at = nth_line(s, line);
    crate::text::lemma_line_of(s, s.len() as int);
    lemma_breaks(s);
    assert(0 <= line < line_starts_of(s).len());
    assert(0 <= at <= s.len()) by {
        if line > 0 {
            assert(at == breaks_of(s)[line - 1]);
        }
    }
    crate::text::lemma_line_of(s, at);
    assert(line_of(s, at) == line) by {
        let k = line_of(s, at);
        assert(line_starts_of(s)[line] <= at);
        assert(line_starts_of(s)[k] <= at);
        if line < k {
            assert(line_starts_of(s)[k] == breaks_of(s)[k - 1]);
            if line > 0 {
                assert(breaks_of(s)[line - 1] < breaks_of(s)[k - 1]);
            } else {
                assert(breaks_of(s)[k - 1] > 0);
            }
        }
    }
    crate::text::lemma_line_start_on_char(s, at);
    let col = sel.desired_col as int;
    lemma_seek_on_line(s, at, at, 1, col, at);
    crate::text::lemma_seek_bounds(s, at, at, 1, col);
    lemma_same_line(s, at, offset_at_column(s, at, col));
}

/// The motions along the line stop at its first and at its last character; on an
/// empty line both stop where it starts.
pub proof fn line_motions_stop_at_the_ends_of_the_line(s: Seq<u8>, sel: Selection)
    requires
        valid_utf8(s),
        s.len() <= usize::MAX,
        sel.head <= s.len(),
    ensures
        ({
            let (a, b) = (
                moved(s, sel, Motion::LineStart, false).head as int,
                moved(s, sel, Motion::LineEnd, false).head as int,
            );
            &&& 0 <= a <= sel.head
            &&& a > 0 ==> s[a - 1] == '\n' as u8
            &&& forall|j: int| a <= j < sel.head ==> #[trigger] s[j] != '\n' as u8
            &&& a <= b <= s.len()
            &&& b > a || b < s.len() && s[b] != '\n' as u8 ==> {
                let e = b + char_len(s[b]);
                &&& e <= s.len()
                &&& e < s.len() ==> s[e] == '\n' as u8
                &&& forall|j: int| a <= j < e ==> #[trigger] s[j] != '\n' as u8
                &&& sel.head <= e
            }
            &&& b == a && (b == s.len() || s[b] == '\n' as u8) ==> sel.head == a
        }),
{
    let h = sel.head as int;
    crate::text::a_line_lies_between_breaks(s, h);
    crate::text::lemma_line_start_on_char(s, h);
    let (ls, le) = (line_start_of(s, h), line_end_of(s, h));
    if ls < le {
        crate::object::lemma_bytes_of_prev(s, le);
        lemma_back_not_past(s, ls, le - 1);
    }
}

/// A search for a character on the line finds the nearest one in its direction,
/// or stops one character short of it. It finds none only where none is on the
/// rest of the line.
pub proof fn the_nearest_character_is_found(s: Seq<u8>, from: int, c: char, p: int)
    requires
        (c as int) < 128,
        0 <= from < s.len(),
    ensures
        ({
            let b = c as u8;
            &&& from < p < line_end_of(s, from) && s[p] == b && (forall|j: int|
                from < j < p ==> #[trigger] s[j] != b) ==> find_on_line(
                s,
                from,
                c,
                FindOp::ForwardTo,
            ) == Some(p) && find_on_line(s, from, c, FindOp::ForwardTill) == Some(
                prev_char_of(s, p),
            )
            &&& line_start_of(s, from) <= p < from && s[p] == b && (forall|j: int|
                p < j < from ==> #[trigger] s[j] != b) ==> find_on_line(
                s,
                from,
                c,
                FindOp::BackwardTo,
            ) == Some(p) && find_on_line(s, from, c, FindOp::BackwardTill) == Some(
                next_char_of(s, p),
            )
            &&& (forall|j: int| from < j < line_end_of(s, from) ==> #[trigger] s[j] != b)
                ==> find_on_line(s, from, c, FindOp::ForwardTo) is None && find_on_line(
                s,
                from,
                c,
                FindOp::ForwardTill,
            ) is None
            &&& (forall|j: int| line_start_of(s, from) <= j < from ==> #[trigger] s[j] != b)
                ==> find_on_line(s, from, c, FindOp::BackwardTo) is None && find_on_line(
                s,
                from,
                c,
                FindOp::BackwardTill,
            ) is None
        }),
{
    let b = c as u8;
    let (ls, le) = (line_start_of(s, from), line_end_of(s, from));
    crate::text::a_line_lies_between_breaks(s, from);
    lemma_first_at(s, imin(from + 1, le), le, b);
    lemma_last_at(s, ls, imin(from, le), b);
    if let Some(q) = first_at(s, imin(from + 1, le), le, b) {
        assert(s[q] == b);
    }
    if let Some(q) = last_at(s, ls, imin(from, le), b) {
        assert(s[q] == b);
    }
}

/// The line holds no character.
pub open spec fn no_ink(s: Seq<u8>, line: int) -> bool {
    nth_line(s, line) >= s.len() || s[nth_line(s, line)] == '\n' as u8
}

/// A paragraph ends with the line.
pub open spec fn ends_paragraph(s: Seq<u8>, line: int) -> bool {
    let last = line_of(s, s.len() as int);
    0 <= line <= last && !no_ink(s, line) && (line == last || no_ink(s, line + 1))
}

/// A paragraph starts with the line.
pub open spec fn starts_paragraph(s: Seq<u8>, line: int) -> bool {
    0 <= line <= line_of(s, s.len() as int) && !no_ink(s, line) && (line == 0 || no_ink(
        s,
        line - 1,
    ))
}

proof fn lemma_no_ink(s: Seq<u8>, line: int)
    ensures
        blank_line(s, line) == no_ink(s, line),
{
    let o = nth_line(s, line);
    lemma_breaks(s);
    if 0 < line < line_starts_of(s).len() {
        assert(o == breaks_of(s)[line - 1]);
    }
    if o < s.len() && s[o] != NL {
        lemma_line_end_bounds(s, o + 1);
    }
}

proof fn lemma_skips_blank_lines(s: Seq<u8>, line: int)
    ensures
        line <= skip_blank_lines(s, line),
        skip_blank_lines(s, line) > last_line_of(s) || !no_ink(s, skip_blank_lines(s, line)),
        forall|l: int| line <= l < skip_blank_lines(s, line) ==> #[trigger] no_ink(s, l),
    decreases last_line_of(s) + 1 - line,
{
    lemma_no_ink(s, line);
    if line <= last_line_of(s) && blank_line(s, line) {
        lemma_skips_blank_lines(s, line + 1);
    }
}

proof fn lemma_last_of_paragraph(s: Seq<u8>, line: int)
    requires
        !no_ink(s, line),
        0 <= line <= last_line_of(s),
    ensures
        line <= paragraph_last(s, line),
        ends_paragraph(s, paragraph_last(s, line)),
        forall|l: int| line <= l <= paragraph_last(s, line) ==> !#[trigger] no_ink(s, l),
    decreases last_line_of(s) - line,
{
    lemma_no_ink(s, line + 1);
    if line < last_line_of(s) && !blank_line(s, line + 1) {
        lemma_last_of_paragraph(s, line + 1);
    }
}

/// Forward by paragraphs goes to the nearest line further on that ends one, and
/// nowhere where there is none.
pub proof fn paragraphs_end_ahead(s: Seq<u8>, from: int, line: int)
    requires
        0 < s.len(),
        0 <= from <= s.len(),
    ensures
        ({
            let start = line_of(s, from);
            &&& start < line && ends_paragraph(s, line) && (forall|l: int|
                start < l < line ==> !#[trigger] ends_paragraph(s, l)) ==> paragraph_forward(s, from)
                == nth_line(s, line)
            &&& (forall|l: int| start < l ==> !#[trigger] ends_paragraph(s, l))
                ==> paragraph_forward(s, from) == from
        }),
{
    let start = line_of(s, from);
    let total = last_line_of(s);
    lemma_newlines_monotone(s, from, s.len() as int);
    let l0 = skip_blank_lines(s, start);
    lemma_skips_blank_lines(s, start);
    let none = forall|l: int| start < l ==> !#[trigger] ends_paragraph(s, l);
    let first = start < line && ends_paragraph(s, line) && (forall|l: int|
        start < l < line ==> !#[trigger] ends_paragraph(s, l));
    if l0 > total {
        if first {
            assert(no_ink(s, line));
        }
    } else {
        lemma_last_of_paragraph(s, l0);
        let end = paragraph_last(s, l0);
        assert(ends_paragraph(s, end));
        if end != start {
            if first {
                if line < end {
                    if line < l0 {
                        assert(no_ink(s, line));
                    } else {
                        assert(!no_ink(s, line + 1));
                    }
                }
            }
        } else if end < total {
            let next = skip_blank_lines(s, end + 1);
            lemma_skips_blank_lines(s, end + 1);
            if next > total {
                if first {
                    assert(no_ink(s, line));
                }
            } else {
                lemma_last_of_paragraph(s, next);
                let e = paragraph_last(s, next);
                assert(ends_paragraph(s, e));
                if first && line < e {
                    if line < next {
                        assert(no_ink(s, line));
                    } else {
                        assert(!no_ink(s, line + 1));
                    }
                }
            }
        }
    }
}

proof fn lemma_skips_blank_lines_back(s: Seq<u8>, line: int)
    requires
        0 <= line,
    ensures
        0 <= skip_blank_lines_back(s, line) <= line,
        skip_blank_lines_back(s, line) == 0 || !no_ink(s, skip_blank_lines_back(s, line)),
        forall|l: int| skip_blank_lines_back(s, line) < l <= line ==> #[trigger] no_ink(s, l),
    decreases line,
{
    lemma_no_ink(s, line);
    if line > 0 && blank_line(s, line) {
        lemma_skips_blank_lines_back(s, line - 1);
    }
}

proof fn lemma_first_of_paragraph(s: Seq<u8>, line: int)
    requires
        !no_ink(s, line),
        0 <= line <= last_line_of(s),
    ensures
        paragraph_first(s, line) <= line,
        starts_paragraph(s, paragraph_first(s, line)),
        forall|l: int| paragraph_first(s, line) <= l <= line ==> !#[trigger] no_ink(s, l),
    decreases line,
{
    lemma_no_ink(s, line - 1);
    if line > 0 && !blank_line(s, line - 1) {
        lemma_first_of_paragraph(s, line - 1);
    }
}

/// Backward by paragraphs goes to the nearest line further up that starts one,
/// and nowhere where there is none.
pub proof fn paragraphs_start_behind(s: Seq<u8>, from: int, line: int)
    requires
        0 < s.len(),
        0 <= from <= s.len(),
    ensures
        ({
            let start = line_of(s, from);
            &&& line < start && starts_paragraph(s, line) && (forall|l: int|
                line < l < start ==> !#[trigger] starts_paragraph(s, l)) ==> paragraph_backward(
                s,
                from,
            ) == nth_line(s, line)
            &&& (forall|l: int| l < start ==> !#[trigger] starts_paragraph(s, l))
                ==> paragraph_backward(s, from) == from
        }),
{
    let start = line_of(s, from);
    lemma_newlines_monotone(s, from, s.len() as int);
    let l0 = skip_blank_lines_back(s, start);
    lemma_skips_blank_lines_back(s, start);
    lemma_no_ink(s, l0);
    let first = line < start && starts_paragraph(s, line) && (forall|l: int|
        line < l < start ==> !#[trigger] starts_paragraph(s, l));
    if no_ink(s, l0) {
        if first {
            assert(no_ink(s, line));
        }
    } else {
        lemma_first_of_paragraph(s, l0);
        let top = paragraph_first(s, l0);
        assert(starts_paragraph(s, top));
        if top != start {
            if first && top < line {
                if l0 < line {
                    assert(no_ink(s, line));
                } else {
                    assert(!no_ink(s, line - 1));
                }
            }
        } else if top > 0 {
            let prev = skip_blank_lines_back(s, top - 1);
            lemma_skips_blank_lines_back(s, top - 1);
            lemma_no_ink(s, prev);
            if no_ink(s, prev) {
                if first {
                    assert(no_ink(s, line));
                }
            } else {
                lemma_first_of_paragraph(s, prev);
                let e = paragraph_first(s, prev);
                assert(starts_paragraph(s, e));
                if first && e < line {
                    if prev < line {
                        assert(no_ink(s, line));
                    } else {
                        assert(!no_ink(s, line - 1));
                    }
                }
            }
        }
    }
}

/// A motion that is not vertical aims at the column that it ends in; a vertical
/// one goes on aiming at the column it was given.
pub proof fn motions_aim_at_a_column(s: Seq<u8>, sel: Selection, m: Motion, extend: bool)
    requires
        motion_target(s, sel, m) is Some,
        0 <= (motion_target(s, sel, m)->0) <= usize::MAX,
    ensures
        ({
            let r = moved(s, sel, m, extend);
            if m is Up || m is Down {
                r.desired_col == sel.desired_col
            } else {
                r.desired_col == column_of(s, line_start_of(s, r.head as int), r.head as int) as usize
            }
        }),
{
}

}
