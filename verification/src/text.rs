//! Byte-level geometry of a text: characters, lines and display columns.
//!
//! A text is a sequence of bytes that is usually, but not necessarily, UTF-8.
//! Every function here is total in its offset argument: an offset past the end
//! is answered, never rejected.
use vstd::prelude::*;
use vstd::utf8::{length_of_first_scalar, pop_first_scalar, valid_utf8};

verus! {

pub const NL: u8 = 0x0a;

pub const TAB: u8 = 0x09;

pub const CR: u8 = 0x0d;

pub const SPACE: u8 = 0x20;

pub open spec fn imin(a: int, b: int) -> int {
    if a <= b { a } else { b }
}

pub open spec fn imax(a: int, b: int) -> int {
    if a >= b { a } else { b }
}

/// The value nearest to `x` in `lo..=hi`.
pub open spec fn iclamp(x: int, lo: int, hi: int) -> int {
    imin(imax(x, lo), hi)
}

/// Texts whose widest possible rendering, four cells a byte, can be counted
/// in a `usize`.
pub open spec fn text_fits(s: Seq<u8>) -> bool {
    4 * s.len() < usize::MAX
}

// ---------------------------------------------------------------------------
// Characters
// ---------------------------------------------------------------------------

/// A UTF-8 continuation byte.
pub open spec fn is_cont(b: u8) -> bool {
    0x80 <= b < 0xc0
}

/// Length of the character that a lead byte announces; 1 for a byte that
/// announces none.
pub open spec fn char_len(b: u8) -> int {
    if 0xc0 <= b < 0xe0 {
        2
    } else if 0xe0 <= b < 0xf0 {
        3
    } else if 0xf0 <= b < 0xf8 {
        4
    } else {
        1
    }
}

/// The nearest offset at or before `p` that is not a continuation byte; 0 if
/// there is none.
pub open spec fn char_start(s: Seq<u8>, p: int) -> int
    decreases p,
{
    if p > 0 && p < s.len() && is_cont(s[p]) {
        char_start(s, p - 1)
    } else {
        p
    }
}

pub open spec fn prev_char_of(s: Seq<u8>, o: int) -> int {
    if o <= 0 { 0 } else { char_start(s, o - 1) }
}

pub open spec fn next_char_of(s: Seq<u8>, o: int) -> int {
    if o < s.len() && o + char_len(s[o]) < s.len() {
        o + char_len(s[o])
    } else {
        o
    }
}

pub open spec fn next_char_or_end_of(s: Seq<u8>, o: int) -> int {
    if o < s.len() {
        imin(o + char_len(s[o]), s.len() as int)
    } else {
        s.len() as int
    }
}

pub open spec fn snap_of(s: Seq<u8>, o: int) -> int {
    if s.len() == 0 {
        0
    } else if o >= s.len() {
        prev_char_of(s, s.len() as int)
    } else {
        char_start(s, o)
    }
}

pub proof fn lemma_char_start_bounds(s: Seq<u8>, p: int)
    requires
        0 <= p,
    ensures
        0 <= char_start(s, p) <= p,
    decreases p,
{
    if p > 0 && p < s.len() && is_cont(s[p]) {
        lemma_char_start_bounds(s, p - 1);
    }
}

/// Snapping lands inside a non-empty text, on a byte that starts a character
/// unless it is the very first byte, and does nothing a second time.
pub proof fn snap_is_idempotent(s: Seq<u8>, o: int)
    requires
        0 <= o,
    ensures
        0 <= snap_of(s, o) <= s.len(),
        s.len() > 0 ==> snap_of(s, o) < s.len(),
        s.len() > 0 && snap_of(s, o) > 0 ==> !is_cont(s[snap_of(s, o)]),
        snap_of(s, snap_of(s, o)) == snap_of(s, o),
{
    if s.len() > 0 {
        let p = if o >= s.len() { s.len() - 1 } else { o };
        lemma_char_start_lands(s, p);
    }
}

proof fn lemma_char_start_lands(s: Seq<u8>, p: int)
    requires
        0 <= p < s.len(),
    ensures
        0 <= char_start(s, p) <= p,
        char_start(s, p) > 0 ==> !is_cont(s[char_start(s, p)]),
        char_start(s, char_start(s, p)) == char_start(s, p),
    decreases p,
{
    if p > 0 && is_cont(s[p]) {
        lemma_char_start_lands(s, p - 1);
    }
}

pub fn utf8_len(first: u8) -> (n: usize)
    ensures
        n == char_len(first),
        1 <= n <= 4,
{
    assert((first & 0x80 == 0) == (first < 0x80)) by (bit_vector);
    assert((first & 0xe0 == 0xc0) == (0xc0 <= first && first < 0xe0)) by (bit_vector);
    assert((first & 0xf0 == 0xe0) == (0xe0 <= first && first < 0xf0)) by (bit_vector);
    assert((first & 0xf8 == 0xf0) == (0xf0 <= first && first < 0xf8)) by (bit_vector);
    if first & 0x80 == 0 {
        1
    } else if first & 0xe0 == 0xc0 {
        2
    } else if first & 0xf0 == 0xe0 {
        3
    } else if first & 0xf8 == 0xf0 {
        4
    } else {
        1
    }
}

fn is_continuation(b: u8) -> (r: bool)
    ensures
        r == is_cont(b),
{
    assert((b & 0xc0 == 0x80) == (0x80 <= b && b < 0xc0)) by (bit_vector);
    b & 0xc0 == 0x80
}

fn back_to_char_start(bytes: &[u8], from: usize) -> (r: usize)
    ensures
        r == char_start(bytes@, from as int),
        r <= from,
{
    let mut p: usize = from;
    while p > 0 && p < bytes.len() && is_continuation(bytes[p])
        invariant
            p <= from,
            char_start(bytes@, p as int) == char_start(bytes@, from as int),
        decreases p,
    {
        p -= 1;
    }
    p
}

/// Offset of the character before `offset`; 0 at the start of the text.
pub fn prev_char(bytes: &[u8], offset: usize) -> (r: usize)
    ensures
        r == prev_char_of(bytes@, offset as int),
        r <= offset,
        offset > 0 ==> r < offset,
{
    if offset == 0 {
        return 0;
    }
    back_to_char_start(bytes, offset - 1)
}

/// Offset of the character after `offset`, or `offset` itself on the last one.
pub fn next_char(bytes: &[u8], offset: usize) -> (r: usize)
    ensures
        r == next_char_of(bytes@, offset as int),
{
    if offset >= bytes.len() {
        return offset;
    }
    let n: usize = utf8_len(bytes[offset]);
    if n >= bytes.len() - offset {
        offset
    } else {
        offset + n
    }
}

/// Offset just past the character at `offset`, clamped to the end of the text.
pub fn next_char_or_end(bytes: &[u8], offset: usize) -> (r: usize)
    ensures
        r == next_char_or_end_of(bytes@, offset as int),
        r <= bytes@.len(),
{
    if offset >= bytes.len() {
        return bytes.len();
    }
    let n: usize = utf8_len(bytes[offset]);
    if n >= bytes.len() - offset {
        bytes.len()
    } else {
        offset + n
    }
}

/// The character that `offset` falls in, or the last one when it is past the
/// end; 0 in an empty text.
pub fn snap_to_char_or_last(bytes: &[u8], offset: usize) -> (r: usize)
    ensures
        r == snap_of(bytes@, offset as int),
        r <= bytes@.len(),
        r <= offset,
        bytes@.len() > 0 ==> r < bytes@.len(),
{
    if bytes.len() == 0 {
        return 0;
    }
    if offset >= bytes.len() {
        return prev_char(bytes, bytes.len());
    }
    back_to_char_start(bytes, offset)
}

// ---------------------------------------------------------------------------
// Lines
// ---------------------------------------------------------------------------

/// Offset of the first byte of the line that `o` is on.
pub open spec fn line_start_of(s: Seq<u8>, o: int) -> int
    decreases o,
{
    if o <= 0 {
        0
    } else if o - 1 < s.len() && s[o - 1] == NL {
        o
    } else {
        line_start_of(s, o - 1)
    }
}

/// Offset of the newline that ends the line `o` is on, or of the end of the
/// text.
pub open spec fn line_end_of(s: Seq<u8>, o: int) -> int
    decreases s.len() - o,
{
    if o >= s.len() {
        s.len() as int
    } else if s[o] == NL {
        o
    } else {
        line_end_of(s, o + 1)
    }
}

pub open spec fn end_of_line_of(s: Seq<u8>, o: int) -> int {
    let ls = line_start_of(s, o);
    let le = line_end_of(s, o);
    if le == ls { ls } else { prev_char_of(s, le) }
}

/// How many newlines stand before offset `o`.
pub open spec fn newlines_before(s: Seq<u8>, o: int) -> nat
    decreases o,
{
    if o <= 0 {
        0
    } else {
        newlines_before(s, o - 1) + if s[o - 1] == NL { 1nat } else { 0nat }
    }
}

/// The zero-based number of the line that `o` is on, counting an offset past
/// the end as the end.
pub open spec fn line_of(s: Seq<u8>, o: int) -> int {
    newlines_before(s, imin(o, s.len() as int)) as int
}

/// The offsets just past each newline, in order.
pub open spec fn breaks_of(s: Seq<u8>) -> Seq<int>
    decreases s.len(),
{
    if s.len() == 0 {
        Seq::empty()
    } else if s.last() == NL {
        breaks_of(s.drop_last()).push(s.len() as int)
    } else {
        breaks_of(s.drop_last())
    }
}

/// The offset at which each line starts; the first entry is always 0.
pub open spec fn line_starts_of(s: Seq<u8>) -> Seq<int> {
    seq![0int] + breaks_of(s)
}

/// Start of line `line`, or the end of the text past the last line.
pub open spec fn nth_line(s: Seq<u8>, line: int) -> int {
    if 0 <= line < line_starts_of(s).len() {
        line_starts_of(s)[line]
    } else {
        s.len() as int
    }
}

pub open spec fn blank_line(s: Seq<u8>, line: int) -> bool {
    line_end_of(s, nth_line(s, line)) == nth_line(s, line)
}

/// `v` holds the numbers of `l`.
pub open spec fn same_numbers(v: Seq<usize>, l: Seq<int>) -> bool {
    &&& v.len() == l.len()
    &&& forall|i: int| 0 <= i < v.len() ==> #[trigger] v[i] == l[i]
}

pub open spec fn ascending(v: Seq<usize>) -> bool {
    forall|i: int, j: int| 0 <= i < j < v.len() ==> v[i] < v[j]
}

/// `v` is the line index of `s`.
pub open spec fn indexes(v: Seq<usize>, s: Seq<u8>) -> bool {
    same_numbers(v, line_starts_of(s))
}

pub open spec fn shifted(l: Seq<int>, k: int) -> Seq<int> {
    l.map_values(|x: int| x + k)
}

pub proof fn lemma_line_start_bounds(s: Seq<u8>, o: int)
    requires
        0 <= o,
    ensures
        0 <= line_start_of(s, o) <= o,
        line_start_of(s, o) <= s.len(),
        line_start_of(s, o) > 0 ==> s[line_start_of(s, o) - 1] == NL,
        forall|i: int| line_start_of(s, o) <= i < o && i < s.len() ==> s[i] != NL,
    decreases o,
{
    if o > 0 && !(o - 1 < s.len() && s[o - 1] == NL) {
        lemma_line_start_bounds(s, o - 1);
    }
}

pub proof fn lemma_line_end_bounds(s: Seq<u8>, o: int)
    requires
        0 <= o,
    ensures
        o <= s.len() ==> o <= line_end_of(s, o),
        line_end_of(s, o) <= s.len(),
        line_end_of(s, o) < s.len() ==> s[line_end_of(s, o)] == NL,
        forall|i: int| o <= i < line_end_of(s, o) ==> s[i] != NL,
    decreases s.len() - o,
{
    if o < s.len() && s[o] != NL {
        lemma_line_end_bounds(s, o + 1);
    }
}

pub proof fn lemma_newlines_bound(s: Seq<u8>, o: int)
    requires
        0 <= o <= s.len(),
    ensures
        newlines_before(s, o) <= o,
    decreases o,
{
    if o > 0 {
        lemma_newlines_bound(s, o - 1);
    }
}

pub proof fn lemma_newlines_monotone(s: Seq<u8>, a: int, b: int)
    requires
        0 <= a <= b,
    ensures
        newlines_before(s, a) <= newlines_before(s, b),
    decreases b,
{
    if a < b {
        lemma_newlines_monotone(s, a, b - 1);
    }
}

pub proof fn lemma_newlines_prefix(s: Seq<u8>, t: Seq<u8>, o: int)
    requires
        0 <= o <= s.len(),
        o <= t.len(),
        forall|i: int| 0 <= i < o ==> s[i] == t[i],
    ensures
        newlines_before(s, o) == newlines_before(t, o),
        line_start_of(s, o) == line_start_of(t, o),
    decreases o,
{
    if o > 0 {
        lemma_newlines_prefix(s, t, o - 1);
    }
}

/// The line index is ascending, lies within the text, and holds exactly the
/// offsets that follow a newline.
pub proof fn lemma_breaks(s: Seq<u8>)
    ensures
        breaks_of(s).len() == newlines_before(s, s.len() as int),
        forall|i: int| 0 <= i < breaks_of(s).len() ==> 0 < #[trigger] breaks_of(s)[i] <= s.len()
            && s[breaks_of(s)[i] - 1] == NL,
        forall|i: int, j: int|
            0 <= i < j < breaks_of(s).len() ==> breaks_of(s)[i] < breaks_of(s)[j],
        forall|p: int| 0 <= p < s.len() && s[p] == NL ==> #[trigger] breaks_of(s).contains(p + 1),
    decreases s.len(),
{
    if s.len() > 0 {
        let t = s.drop_last();
        lemma_breaks(t);
        lemma_newlines_prefix(s, t, t.len() as int);
        assert forall|p: int| 0 <= p < s.len() && s[p] == NL implies #[trigger] breaks_of(
            s,
        ).contains(p + 1) by {
            if p < t.len() {
                assert(t[p] == NL);
                let i = choose|i: int| 0 <= i < breaks_of(t).len() && breaks_of(t)[i] == p + 1;
                assert(breaks_of(t).contains(p + 1));
                assert(breaks_of(s)[i] == p + 1);
            } else {
                assert(breaks_of(s)[breaks_of(s).len() - 1] == p + 1);
            }
        }
    }
}

pub proof fn lemma_breaks_concat(a: Seq<u8>, b: Seq<u8>)
    ensures
        breaks_of(a + b) == breaks_of(a) + shifted(breaks_of(b), a.len() as int),
    decreases b.len(),
{
    if b.len() == 0 {
        assert(a + b =~= a);
        assert(breaks_of(a) + shifted(breaks_of(b), a.len() as int) =~= breaks_of(a));
    } else {
        lemma_breaks_concat(a, b.drop_last());
        assert((a + b).drop_last() =~= a + b.drop_last());
        assert((a + b).last() == b.last());
        assert(breaks_of(a + b) =~= breaks_of(a) + shifted(breaks_of(b), a.len() as int));
    }
}

/// The entries of the line index at or before `o` are those of the text up to
/// `o`.
pub proof fn lemma_breaks_split(s: Seq<u8>, o: int)
    requires
        0 <= o <= s.len(),
    ensures
        breaks_of(s) == breaks_of(s.take(o)) + shifted(breaks_of(s.skip(o)), o),
        breaks_of(s.take(o)).len() == newlines_before(s, o),
        forall|i: int| 0 <= i < breaks_of(s).len() ==> (#[trigger] breaks_of(s)[i] <= o <==> i
            < newlines_before(s, o)),
{
    assert(s =~= s.take(o) + s.skip(o));
    lemma_breaks_concat(s.take(o), s.skip(o));
    lemma_breaks(s.take(o));
    lemma_breaks(s.skip(o));
    lemma_newlines_prefix(s, s.take(o), o);
    assert forall|i: int| 0 <= i < breaks_of(s).len() implies (#[trigger] breaks_of(s)[i] <= o
        <==> i < newlines_before(s, o)) by {
        let n = newlines_before(s, o) as int;
        if i >= n {
            assert(breaks_of(s)[i] == breaks_of(s.skip(o))[i - n] + o);
        } else {
            assert(breaks_of(s)[i] == breaks_of(s.take(o))[i]);
        }
    }
}

/// Where a line starts and which line an offset is on agree: line `line_of(o)`
/// starts at `line_start_of(o)`.
pub proof fn lemma_line_of(s: Seq<u8>, o: int)
    requires
        0 <= o <= s.len(),
    ensures
        0 <= line_of(s, o) < line_starts_of(s).len(),
        line_starts_of(s)[line_of(s, o)] == line_start_of(s, o),
        forall|i: int| 0 <= i < line_starts_of(s).len() ==> (#[trigger] line_starts_of(s)[i] <= o
            <==> i <= line_of(s, o)),
{
    lemma_breaks_split(s, o);
    lemma_breaks(s.take(o));
    lemma_line_start_last_break(s.take(o));
    lemma_newlines_prefix(s, s.take(o), o);
    let n = newlines_before(s, o) as int;
    assert(line_of(s, o) == n);
    if n > 0 {
        assert(line_starts_of(s)[n] == breaks_of(s)[n - 1]);
        assert(breaks_of(s)[n - 1] == breaks_of(s.take(o))[n - 1]);
    }
    assert forall|i: int| 0 <= i < line_starts_of(s).len() implies (#[trigger] line_starts_of(s)[i]
        <= o <==> i <= n) by {
        if i > 0 {
            assert(line_starts_of(s)[i] == breaks_of(s)[i - 1]);
        }
    }
}

proof fn lemma_line_start_last_break(s: Seq<u8>)
    ensures
        line_start_of(s, s.len() as int) == (if breaks_of(s).len() == 0 {
            0
        } else {
            breaks_of(s).last()
        }),
    decreases s.len(),
{
    if s.len() > 0 && s.last() != NL {
        lemma_line_start_last_break(s.drop_last());
        lemma_newlines_prefix(s, s.drop_last(), s.len() - 1);
    }
}

/// First byte of the line that `offset` is on.
pub fn line_start(bytes: &[u8], offset: usize) -> (r: usize)
    ensures
        r == line_start_of(bytes@, offset as int),
        r <= offset,
        r <= bytes@.len(),
{
    proof {
        lemma_line_start_bounds(bytes@, offset as int);
    }
    let mut p: usize = offset;
    while p > 0
        invariant
            p <= offset,
            line_start_of(bytes@, p as int) == line_start_of(bytes@, offset as int),
        decreases p,
    {
        if p - 1 < bytes.len() && bytes[p - 1] == NL {
            return p;
        }
        p -= 1;
    }
    0
}

/// The newline that ends the line `offset` is on, or the end of the text.
pub fn line_end(bytes: &[u8], offset: usize) -> (r: usize)
    ensures
        r == line_end_of(bytes@, offset as int),
        r <= bytes@.len(),
        offset <= bytes@.len() ==> offset <= r,
{
    let mut p: usize = offset;
    while p < bytes.len()
        invariant
            offset <= p,
            offset <= bytes@.len() ==> p <= bytes@.len(),
            line_end_of(bytes@, p as int) == line_end_of(bytes@, offset as int),
        decreases bytes@.len() - p,
    {
        if bytes[p] == NL {
            return p;
        }
        p += 1;
    }
    bytes.len()
}

/// The last character of the line that `offset` is on, or the line's start
/// when it is empty.
pub fn end_of_line(bytes: &[u8], offset: usize) -> (r: usize)
    ensures
        r == end_of_line_of(bytes@, offset as int),
        r <= bytes@.len(),
{
    let ls: usize = line_start(bytes, offset);
    let le: usize = line_end(bytes, offset);
    if le == ls {
        return ls;
    }
    prev_char(bytes, le)
}

/// Zero-based number of the line that `offset` is on.
pub fn line_index(bytes: &[u8], offset: usize) -> (r: usize)
    ensures
        r == line_of(bytes@, offset as int),
        r <= bytes@.len(),
{
    let end: usize = if offset < bytes.len() { offset } else { bytes.len() };
    let mut seen: usize = 0;
    let mut i: usize = 0;
    while i < end
        invariant
            i <= end <= bytes@.len(),
            seen <= i,
            seen == newlines_before(bytes@, i as int),
        decreases end - i,
    {
        if bytes[i] == NL {
            seen += 1;
        }
        i += 1;
    }
    seen
}

/// Start of line `line`, or the end of the text past the last line.
pub fn byte_at_line(bytes: &[u8], line: usize) -> (r: usize)
    ensures
        r == nth_line(bytes@, line as int),
        r <= bytes@.len(),
{
    proof {
        lemma_breaks(bytes@);
    }
    if line == 0 {
        return 0;
    }
    let mut seen: usize = 0;
    let mut i: usize = 0;
    while i < bytes.len()
        invariant
            i <= bytes@.len(),
            seen <= i,
            seen < line,
            seen == newlines_before(bytes@, i as int),
            breaks_of(bytes@).len() == newlines_before(bytes@, bytes@.len() as int),
        decreases bytes@.len() - i,
    {
        if bytes[i] == NL {
            seen += 1;
            if seen == line {
                proof {
                    lemma_line_of(bytes@, i + 1);
                }
                return i + 1;
            }
        }
        i += 1;
    }
    bytes.len()
}

/// How many entries of an ascending list are at most `x`.
pub fn count_at_most(v: &[usize], x: usize) -> (r: usize)
    requires
        ascending(v@),
    ensures
        r <= v@.len(),
        forall|i: int| 0 <= i < r ==> #[trigger] v@[i] <= x,
        forall|i: int| r <= i < v@.len() ==> #[trigger] v@[i] > x,
{
    let mut lo: usize = 0;
    let mut hi: usize = v.len();
    while lo < hi
        invariant
            lo <= hi <= v@.len(),
            ascending(v@),
            forall|i: int| 0 <= i < lo ==> #[trigger] v@[i] <= x,
            forall|i: int| hi <= i < v@.len() ==> #[trigger] v@[i] > x,
        decreases hi - lo,
    {
        let mid: usize = lo + (hi - lo) / 2;
        if v[mid] <= x {
            lo = mid + 1;
        } else {
            hi = mid;
        }
    }
    lo
}

/// A line index is ascending and starts at 0.
pub proof fn lemma_index_ascending(v: Seq<usize>, s: Seq<u8>)
    requires
        indexes(v, s),
    ensures
        ascending(v),
        v.len() > 0,
        v[0] == 0,
        forall|i: int| 0 <= i < v.len() ==> #[trigger] v[i] <= s.len(),
        v.len() == newlines_before(s, s.len() as int) + 1,
{
    lemma_breaks(s);
    let l = line_starts_of(s);
    assert forall|i: int, j: int| 0 <= i < j < v.len() implies v[i] < v[j] by {
        assert(v[i] == l[i] && v[j] == l[j]);
        if i > 0 {
            assert(l[i] == breaks_of(s)[i - 1]);
        }
        assert(l[j] == breaks_of(s)[j - 1]);
    }
    assert forall|i: int| 0 <= i < v.len() implies #[trigger] v[i] <= s.len() by {
        assert(v[i] == l[i]);
        if i > 0 {
            assert(l[i] == breaks_of(s)[i - 1]);
        }
    }
    assert(v[0] == l[0]);
}

/// The entry of an ascending list at which `x` falls: the last one that is at
/// most `x`, or the first one when there is none.
pub open spec fn slot_of(v: Seq<usize>, x: int) -> int
    decreases v.len(),
{
    if v.len() <= 1 {
        0
    } else if v.last() <= x {
        v.len() - 1
    } else {
        slot_of(v.drop_last(), x)
    }
}

proof fn lemma_slot(v: Seq<usize>, x: int, r: int)
    requires
        0 <= r <= v.len(),
        forall|i: int| 0 <= i < r ==> #[trigger] v[i] <= x,
        forall|i: int| r <= i < v.len() ==> #[trigger] v[i] > x,
    ensures
        slot_of(v, x) == (if r == 0 { 0 } else { r - 1 }),
    decreases v.len(),
{
    if v.len() > 1 {
        if v.last() <= x {
            assert(v[v.len() - 1] <= x);
        } else {
            let w = v.drop_last();
            assert(v[v.len() - 1] > x);
            assert forall|i: int| 0 <= i < r implies #[trigger] w[i] <= x by {
                assert(v[i] <= x);
            }
            assert forall|i: int| r <= i < w.len() implies #[trigger] w[i] > x by {
                assert(v[i] > x);
            }
            lemma_slot(w, x, r);
        }
    } else if v.len() == 1 {
        if r == 0 {
            assert(v[0] > x);
        }
    }
}

/// Looking an offset up in the line index gives the line that it is on.
pub proof fn cached_line_is_line(v: Seq<usize>, s: Seq<u8>, o: int)
    requires
        indexes(v, s),
        0 <= o <= s.len(),
    ensures
        slot_of(v, o) == line_of(s, o),
        v[slot_of(v, o)] == line_start_of(s, o),
{
    lemma_index_ascending(v, s);
    lemma_line_of(s, o);
    let l = line_starts_of(s);
    let r = line_of(s, o) + 1;
    assert forall|i: int| 0 <= i < r implies #[trigger] v[i] <= o by {
        assert(v[i] == l[i]);
    }
    assert forall|i: int| r <= i < v.len() implies #[trigger] v[i] > o by {
        assert(v[i] == l[i]);
    }
    lemma_slot(v, o, r);
    assert(v[r - 1] == l[r - 1]);
}

/// Line lookup by binary search in a line index.
pub fn line_index_cached(line_starts: &[usize], offset: usize) -> (r: usize)
    requires
        ascending(line_starts@),
    ensures
        r == slot_of(line_starts@, offset as int),
        r <= line_starts@.len(),
        line_starts@.len() > 0 ==> r < line_starts@.len(),
{
    let n: usize = count_at_most(line_starts, offset);
    proof {
        lemma_slot(line_starts@, offset as int, n as int);
    }
    if n == 0 {
        0
    } else {
        n - 1
    }
}

/// Start of line `line` by lookup in a line index; `bytes_len` past the last
/// line.
pub fn byte_at_line_cached(line_starts: &[usize], line: usize, bytes_len: usize) -> (r: usize)
    ensures
        r == (if line < line_starts@.len() { line_starts@[line as int] } else { bytes_len }),
{
    if line < line_starts.len() {
        line_starts[line]
    } else {
        bytes_len
    }
}

/// The first visible line after scrolling just far enough that line `h` is on
/// screen.
pub open spec fn scrolled_top(h: int, top: int, rows: int) -> int {
    if rows == 0 {
        top
    } else if h < top {
        h
    } else if h >= imin(top + rows, usize::MAX as int) {
        h + 1 - rows
    } else {
        top
    }
}

/// Scrolling puts the line on screen.
pub proof fn scrolling_shows_the_line(h: int, top: int, rows: int)
    requires
        rows > 0,
        0 <= h <= usize::MAX,
        0 <= top <= usize::MAX,
    ensures
        scrolled_top(h, top, rows) <= h < scrolled_top(h, top, rows) + rows,
{
}

/// Scroll `top_line` just far enough that the line of `head` is visible.
pub fn ensure_visible(bytes: &[u8], head: usize, top_line: &mut usize, viewport_rows: usize)
    ensures
        *final(top_line) == scrolled_top(
            line_of(bytes@, head as int),
            *old(top_line) as int,
            viewport_rows as int,
        ),
{
    if viewport_rows == 0 {
        return;
    }
    let head_line: usize = line_index(bytes, head);
    if head_line < *top_line {
        *top_line = head_line;
    } else if head_line >= top_line.saturating_add(viewport_rows) {
        *top_line = head_line - (viewport_rows - 1);
    }
}

// ---------------------------------------------------------------------------
// Display columns
// ---------------------------------------------------------------------------

/// How many bytes of the text stand at or after `i`.
pub open spec fn bytes_left(s: Seq<u8>, i: int) -> nat {
    if i < s.len() { (s.len() - i) as nat } else { 0 }
}

/// Cells that a character takes when its first cell is column `col`: a tab
/// runs to the next multiple of four, a carriage return takes none, another
/// control character takes two and everything else one.
pub open spec fn cell_width(col: int, b: u8) -> int {
    if b == TAB {
        4 - (col - 1) % 4
    } else if b == CR {
        0
    } else if b < SPACE {
        2
    } else {
        1
    }
}

/// Column reached by walking the line from `i`, at column `col`, to `o`.
pub open spec fn column_from(s: Seq<u8>, i: int, col: int, o: int) -> int
    decreases bytes_left(s, i),
{
    if i >= o || i >= s.len() || s[i] == NL {
        col
    } else {
        column_from(s, i + char_len(s[i]), col + cell_width(col, s[i]), o)
    }
}

/// One-based display column of `o` on the line that starts at `from`.
pub open spec fn column_of(s: Seq<u8>, from: int, o: int) -> int {
    column_from(s, from, 1, o)
}

/// One-based display column of `o` on its own line.
pub open spec fn column_at(s: Seq<u8>, o: int) -> int {
    column_of(s, line_start_of(s, o), o)
}

/// Offset of the character that covers column `target`, walking the line from
/// `i` at column `col`; the line's last character, `last` so far, when the
/// line is shorter.
pub open spec fn seek_column(s: Seq<u8>, i: int, last: int, col: int, target: int) -> int
    decreases bytes_left(s, i),
{
    if i >= s.len() {
        if last < s.len() { last } else { i }
    } else if s[i] == NL {
        last
    } else if col >= target {
        i
    } else {
        seek_column(s, i + char_len(s[i]), i, col + cell_width(col, s[i]), target)
    }
}

pub open spec fn offset_at_column(s: Seq<u8>, from: int, target: int) -> int {
    seek_column(s, from, from, 1, target)
}

/// A column lookup from inside the text stays inside it.
pub proof fn lemma_seek_bounds(s: Seq<u8>, i: int, last: int, col: int, target: int)
    requires
        0 <= last <= i,
        last <= s.len(),
        last < s.len() || i == last,
    ensures
        last <= seek_column(s, i, last, col, target) <= s.len(),
    decreases bytes_left(s, i),
{
    if i < s.len() && s[i] != NL && col < target {
        lemma_seek_bounds(s, i + char_len(s[i]), i, col + cell_width(col, s[i]), target);
    }
}

/// One-based display column of `offset` on the line that starts at `from`.
pub fn display_col(bytes: &[u8], from: usize, offset: usize) -> (r: usize)
    requires
        text_fits(bytes@),
    ensures
        r == column_of(bytes@, from as int, offset as int),
        r >= 1,
{
    let mut col: usize = 1;
    let mut i: usize = from;
    while i < offset && i < bytes.len() && bytes[i] != NL
        invariant
            text_fits(bytes@),
            1 <= col,
            i < bytes@.len() ==> col <= 1 + 4 * i,
            column_from(bytes@, i as int, col as int, offset as int) == column_of(
                bytes@,
                from as int,
                offset as int,
            ),
        decreases bytes_left(bytes@, i as int),
    {
        let b: u8 = bytes[i];
        if b == TAB {
            col += 4 - ((col - 1) % 4);
        } else if b == CR {
        } else if b < SPACE {
            col += 2;
        } else {
            col += 1;
        }
        i += utf8_len(b);
    }
    col
}

/// The character that covers display column `target_col` on the line that
/// starts at `from`, or the line's last character when it is shorter.
pub fn offset_at_col(bytes: &[u8], from: usize, target_col: usize) -> (r: usize)
    requires
        text_fits(bytes@),
    ensures
        r == offset_at_column(bytes@, from as int, target_col as int),
        from <= bytes@.len() ==> from <= r <= bytes@.len(),
{
    proof {
        if from <= bytes@.len() {
            lemma_seek_bounds(bytes@, from as int, from as int, 1, target_col as int);
        }
    }
    let mut col: usize = 1;
    let mut i: usize = from;
    let mut last: usize = from;
    while i < bytes.len()
        invariant
            text_fits(bytes@),
            1 <= col,
            i < bytes@.len() ==> col <= 1 + 4 * i,
            from <= bytes@.len() ==> from <= offset_at_column(
                bytes@,
                from as int,
                target_col as int,
            ) <= bytes@.len(),
            seek_column(bytes@, i as int, last as int, col as int, target_col as int)
                == offset_at_column(bytes@, from as int, target_col as int),
        decreases bytes_left(bytes@, i as int),
    {
        let b: u8 = bytes[i];
        if b == NL {
            return last;
        }
        if col >= target_col {
            return i;
        }
        last = i;
        if b == TAB {
            col += 4 - ((col - 1) % 4);
        } else if b == CR {
        } else if b < SPACE {
            col += 2;
        } else {
            col += 1;
        }
        i += utf8_len(b);
    }
    if last < bytes.len() {
        last
    } else {
        i
    }
}

// ---------------------------------------------------------------------------
// Laws
// ---------------------------------------------------------------------------

/// A character starts at `p`, or the text ends there.
pub open spec fn on_char(s: Seq<u8>, p: int) -> bool {
    0 <= p <= s.len() && (p < s.len() ==> !is_cont(s[p]))
}

/// In UTF-8 a character is as long as its first byte says, and the next one
/// follows it.
pub proof fn lemma_whole_char(s: Seq<u8>, p: int)
    requires
        valid_utf8(s),
        on_char(s, p),
        p < s.len(),
    ensures
        p + char_len(s[p]) <= s.len(),
        on_char(s, p + char_len(s[p])),
        forall|j: int| p < j < p + char_len(s[p]) ==> is_cont(#[trigger] s[j]),
        next_char_or_end_of(s, p) == p + char_len(s[p]),
    decreases s.len(),
{
    let n = length_of_first_scalar(s);
    let rest = pop_first_scalar(s);
    assert(forall|i: int| 0 <= i < rest.len() ==> rest[i] == s[n + i]);
    lemma_first_char(rest);
    if p == 0 {
        assert(char_len(s[0]) == n);
    } else {
        assert(p >= n);
        lemma_whole_char(rest, p - n);
        let len = char_len(s[p]);
        assert forall|j: int| p < j < p + len implies is_cont(#[trigger] s[j]) by {
            assert(rest[j - n] == s[j]);
        }
        if p + len < s.len() {
            assert(rest[p - n + len] == s[p + len]);
        }
    }
}

/// UTF-8 begins with a character.
pub proof fn lemma_first_char(s: Seq<u8>)
    requires
        valid_utf8(s),
    ensures
        on_char(s, 0),
{
}

/// The way back from inside a character ends at its first byte.
pub proof fn lemma_back_to(s: Seq<u8>, p: int, q: int)
    requires
        0 <= p <= q < s.len(),
        !is_cont(s[p]),
        forall|j: int| p < j <= q ==> is_cont(#[trigger] s[j]),
    ensures
        char_start(s, q) == p,
    decreases q - p,
{
    if p < q {
        lemma_back_to(s, p, q - 1);
    }
}

/// The way back does not pass the first byte of a character.
pub proof fn lemma_back_not_past(s: Seq<u8>, p: int, q: int)
    requires
        0 <= p <= q < s.len(),
        !is_cont(s[p]),
    ensures
        p <= char_start(s, q) <= q,
    decreases q - p,
{
    if p < q && is_cont(s[q]) {
        lemma_back_not_past(s, p, q - 1);
    }
}

/// Before the next character stands this one.
pub proof fn lemma_prev_of_next(s: Seq<u8>, p: int)
    requires
        valid_utf8(s),
        on_char(s, p),
        p < s.len(),
    ensures
        prev_char_of(s, p + char_len(s[p])) == p,
{
    lemma_whole_char(s, p);
    lemma_back_to(s, p, p + char_len(s[p]) - 1);
}

proof fn lemma_cell_width(col: int, b: u8)
    requires
        1 <= col,
    ensures
        0 <= cell_width(col, b),
        b != CR ==> 1 <= cell_width(col, b),
{
}

proof fn lemma_seek_finds(s: Seq<u8>, i: int, last: int, col: int, o: int)
    requires
        valid_utf8(s),
        on_char(s, i),
        on_char(s, o),
        i <= o < s.len(),
        1 <= col,
        forall|j: int| i <= j <= o ==> #[trigger] s[j] != NL,
        forall|j: int| i <= j < o ==> #[trigger] s[j] != CR,
    ensures
        col <= column_from(s, i, col, o),
        i < o ==> col < column_from(s, i, col, o),
        seek_column(s, i, last, col, column_from(s, i, col, o)) == o,
    decreases o - i,
{
    if i < o {
        lemma_whole_char(s, i);
        lemma_cell_width(col, s[i]);
        assert(i + char_len(s[i]) <= o);
        lemma_seek_finds(s, i + char_len(s[i]), i, col + cell_width(col, s[i]), o);
    }
}

pub proof fn lemma_no_break_before(s: Seq<u8>, o: int)
    requires
        0 <= o <= s.len(),
    ensures
        forall|j: int| line_start_of(s, o) <= j < o ==> #[trigger] s[j] != NL,
        line_start_of(s, o) > 0 ==> s[line_start_of(s, o) - 1] == NL,
    decreases o,
{
    if o > 0 && s[o - 1] != NL {
        lemma_no_break_before(s, o - 1);
    }
}

pub proof fn lemma_no_break_upto(s: Seq<u8>, o: int)
    requires
        0 <= o <= s.len(),
    ensures
        forall|j: int| o <= j < line_end_of(s, o) ==> #[trigger] s[j] != NL,
        line_end_of(s, o) < s.len() ==> s[line_end_of(s, o)] == NL,
        o <= line_end_of(s, o) <= s.len(),
    decreases s.len() - o,
{
    if o < s.len() && s[o] != NL {
        lemma_no_break_upto(s, o + 1);
    }
}

/// A line of UTF-8 starts on a character.
pub proof fn lemma_line_start_on_char(s: Seq<u8>, o: int)
    requires
        valid_utf8(s),
        0 <= o <= s.len(),
    ensures
        on_char(s, line_start_of(s, o)),
{
    lemma_line_start_bounds(s, o);
    lemma_no_break_before(s, o);
    lemma_first_char(s);
    let ls = line_start_of(s, o);
    if ls > 0 {
        lemma_whole_char(s, ls - 1);
    }
}

/// Looking up the column of a character leads back to the character, where no
/// carriage return stands before it on its line: that takes no column.
pub proof fn a_column_leads_back(s: Seq<u8>, o: int)
    requires
        valid_utf8(s),
        on_char(s, o),
        o < line_end_of(s, o),
        forall|j: int| line_start_of(s, o) <= j < o ==> #[trigger] s[j] != CR,
    ensures
        offset_at_column(s, line_start_of(s, o), column_of(s, line_start_of(s, o), o)) == o,
{
    let ls = line_start_of(s, o);
    if o < s.len() {
        lemma_line_start_bounds(s, o);
        lemma_no_break_before(s, o);
        lemma_no_break_upto(s, o);
        lemma_line_start_on_char(s, o);
        lemma_seek_finds(s, ls, ls, 1, o);
    }
}

proof fn lemma_seek_past(s: Seq<u8>, i: int, last: int, col: int, end: int, target: int)
    requires
        valid_utf8(s),
        on_char(s, i),
        on_char(s, end),
        0 <= last <= i <= end,
        1 <= col,
        forall|j: int| i <= j < end ==> #[trigger] s[j] != NL,
        end < s.len() ==> s[end] == NL,
        i == end ==> last < s.len() || last == i,
        i < end ==> target > column_from(s, i, col, prev_char_of(s, end)),
    ensures
        seek_column(s, i, last, col, target) == (if i < end { prev_char_of(s, end) } else { last }),
    decreases end - i,
{
    if i < end {
        lemma_whole_char(s, i);
        lemma_cell_width(col, s[i]);
        let next = i + char_len(s[i]);
        assert(next <= end);
        lemma_prev_of_next(s, i);
        if next < end {
            lemma_whole_char(s, next);
            lemma_back_not_past(s, next, end - 1);
            lemma_columns_grow(s, next, col + cell_width(col, s[i]), prev_char_of(s, end));
        }
        lemma_seek_past(s, next, i, col + cell_width(col, s[i]), end, target);
    }
}

proof fn lemma_columns_grow(s: Seq<u8>, i: int, col: int, o: int)
    requires
        0 <= i,
        1 <= col,
    ensures
        col <= column_from(s, i, col, o),
    decreases bytes_left(s, i),
{
    if i < o && i < s.len() && s[i] != NL {
        lemma_cell_width(col, s[i]);
        lemma_columns_grow(s, i + char_len(s[i]), col + cell_width(col, s[i]), o);
    }
}

/// A column behind the end of a line leads to the line's last character, not to
/// its line break; on an empty line, to where it starts.
pub proof fn a_column_past_the_end_is_the_last_character(s: Seq<u8>, ls: int, target: int)
    requires
        valid_utf8(s),
        0 <= ls <= s.len(),
        line_start_of(s, ls) == ls,
        ({
            let end = line_end_of(s, ls);
            ls < end ==> target > column_of(s, ls, prev_char_of(s, end))
        }),
    ensures
        ({
            let end = line_end_of(s, ls);
            offset_at_column(s, ls, target) == (if ls < end { prev_char_of(s, end) } else { ls })
        }),
{
    let end = line_end_of(s, ls);
    lemma_no_break_upto(s, ls);
    lemma_line_start_on_char(s, ls);
    lemma_seek_past(s, ls, ls, 1, end, target);
}

/// The line of an offset: it starts at the start of the text or behind a line
/// break, ends before one or at the end of the text, and holds none in between.
pub proof fn a_line_lies_between_breaks(s: Seq<u8>, o: int)
    requires
        0 <= o <= s.len(),
    ensures
        ({
            let (ls, le) = (line_start_of(s, o), line_end_of(s, o));
            &&& 0 <= ls <= o <= le <= s.len()
            &&& ls > 0 ==> s[ls - 1] == '\n' as u8
            &&& le < s.len() ==> s[le] == '\n' as u8
            &&& forall|i: int| ls <= i < le ==> #[trigger] s[i] != '\n' as u8
        }),
{
    lemma_line_start_bounds(s, o);
    lemma_no_break_before(s, o);
    lemma_no_break_upto(s, o);
}

/// Lines are numbered from the first, and every line break begins a new one,
/// which starts right behind it.
pub proof fn line_breaks_number_the_lines(s: Seq<u8>, o: int)
    requires
        0 <= o < s.len(),
    ensures
        line_of(s, 0) == 0,
        line_of(s, o + 1) == line_of(s, o) + (if s[o] == '\n' as u8 { 1int } else { 0int }),
        nth_line(s, line_of(s, o)) == line_start_of(s, o),
        s[o] == '\n' as u8 ==> nth_line(s, line_of(s, o) + 1) == o + 1,
{
    lemma_line_of(s, o);
    lemma_line_of(s, o + 1);
}

/// A tab runs to the next column behind a multiple of four, a carriage return
/// takes no cell, another control character two and any other one.
pub proof fn cells_of_a_character(col: int, b: u8)
    requires
        1 <= col,
    ensures
        b == '\t' as u8 ==> 1 <= cell_width(col, b) <= 4 && (col + cell_width(col, b)) % 4 == 1,
        b == '\r' as u8 ==> cell_width(col, b) == 0,
        b < 0x20 && b != '\t' as u8 && b != '\r' as u8 ==> cell_width(col, b) == 2,
        b >= 0x20 ==> cell_width(col, b) == 1,
{
}

/// The display column of an offset grows from 1 at the start of its line by the
/// cells of each character before it.
pub proof fn columns_add_up(s: Seq<u8>, from: int, p: int)
    requires
        valid_utf8(s),
        on_char(s, from),
        on_char(s, p),
        from <= p < s.len(),
        forall|i: int| from <= i <= p ==> #[trigger] s[i] != NL,
    ensures
        column_of(s, from, from) == 1,
        column_of(s, from, p + char_len(s[p])) == column_of(s, from, p) + cell_width(
            column_of(s, from, p),
            s[p],
        ),
{
    lemma_column_step(s, from, 1, p);
}

proof fn lemma_column_step(s: Seq<u8>, i: int, col: int, p: int)
    requires
        valid_utf8(s),
        on_char(s, i),
        on_char(s, p),
        i <= p < s.len(),
        forall|j: int| i <= j <= p ==> #[trigger] s[j] != NL,
    ensures
        column_from(s, i, col, p + char_len(s[p])) == column_from(s, i, col, p) + cell_width(
            column_from(s, i, col, p),
            s[p],
        ),
    decreases p - i,
{
    lemma_whole_char(s, i);
    let next = i + char_len(s[i]);
    if i < p {
        if next > p {
            assert(is_cont(s[p]));
        }
        lemma_column_step(s, next, col + cell_width(col, s[i]), p);
    } else {
        assert(column_from(s, next, col + cell_width(col, s[i]), next) == col + cell_width(col, s[i]));
    }
}

/// Snapping goes to the character that an offset lies in, and from behind the text
/// to its last one.
pub proof fn snapping_finds_the_character(s: Seq<u8>, o: int)
    requires
        valid_utf8(s),
        0 < s.len(),
        0 <= o,
    ensures
        ({
            let p = snap_of(s, o);
            &&& 0 <= p < s.len()
            &&& on_char(s, p)
            &&& o < s.len() ==> p <= o < p + char_len(s[p])
            &&& o >= s.len() ==> p + char_len(s[p]) == s.len()
        }),
{
    let q = if o < s.len() { o } else { s.len() - 1 };
    lemma_first_char(s);
    lemma_back_over_rest(s, q);
    let p = char_start(s, q);
    lemma_whole_char(s, p);
    if p + char_len(s[p]) <= q {
        assert(is_cont(s[p + char_len(s[p])]));
    }
}

/// The way back passes only bytes that continue a character.
proof fn lemma_back_over_rest(s: Seq<u8>, q: int)
    requires
        0 <= q < s.len(),
        !is_cont(s[0]),
    ensures
        0 <= char_start(s, q) <= q,
        !is_cont(s[char_start(s, q)]),
        forall|j: int| char_start(s, q) < j <= q ==> is_cont(#[trigger] s[j]),
    decreases q,
{
    if q > 0 && is_cont(s[q]) {
        lemma_back_over_rest(s, q - 1);
    }
}

}
