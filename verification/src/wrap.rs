//! Word wrapping.
use vstd::prelude::*;
use crate::highlight::texts;
use crate::strings::{
    chars_of, first_solid, is_white, is_whitespace, last_solid, string_of, trim_end, trimmed_end,
};
use crate::text::{imax, imin};

verus! {

/// `s` without the white space at its start.
pub open spec fn trimmed_start(s: Seq<char>) -> Seq<char> {
    s.skip(first_solid(s, 0))
}

pub proof fn lemma_first_solid(s: Seq<char>, i: int)
    requires
        0 <= i <= s.len(),
    ensures
        i <= first_solid(s, i) <= s.len(),
    decreases s.len() - i,
{
    if i < s.len() {
        lemma_first_solid(s, i + 1);
    }
}

pub proof fn lemma_last_solid(s: Seq<char>, i: int)
    requires
        0 <= i <= s.len(),
    ensures
        0 <= last_solid(s, i) <= i,
    decreases i,
{
    if 0 < i {
        lemma_last_solid(s, i - 1);
    }
}

// ---------------------------------------------------------------------------
// Lines of a text
// ---------------------------------------------------------------------------

/// First index from `i` on that holds a line feed, or the end.
pub open spec fn line_feed(s: Seq<char>, i: int) -> int
    decreases s.len() - i,
{
    if i < s.len() && s[i] != '\n' {
        line_feed(s, i + 1)
    } else {
        i
    }
}

pub proof fn lemma_line_feed(s: Seq<char>, i: int)
    requires
        0 <= i <= s.len(),
    ensures
        i <= line_feed(s, i) <= s.len(),
    decreases s.len() - i,
{
    if i < s.len() && s[i] != '\n' {
        lemma_line_feed(s, i + 1);
    }
}

/// A line without the carriage return that may end it.
pub open spec fn without_return(s: Seq<char>) -> Seq<char> {
    if s.len() > 0 && s.last() == '\r' { s.drop_last() } else { s }
}

/// The lines of `s` from `i` on. A line feed ends a line; the last line needs
/// none. A carriage return before a line feed belongs to it.
pub open spec fn lines_from(s: Seq<char>, i: int) -> Seq<Seq<char>>
    decreases s.len() - i,
{
    if i < 0 || i >= s.len() {
        Seq::empty()
    } else {
        let e = line_feed(s, i);
        if e < s.len() {
            proof {
                lemma_line_feed(s, i);
            }
            seq![without_return(s.subrange(i, e))] + lines_from(s, e + 1)
        } else {
            seq![s.subrange(i, s.len() as int)]
        }
    }
}

/// The lines of a text.
pub fn lines_of(s: &str) -> (r: Vec<String>)
    ensures
        texts(r@) == lines_from(s@, 0),
{
    let chars = chars_of(s);
    let n: usize = chars.len();
    let mut r: Vec<String> = Vec::new();
    let mut i: usize = 0;
    let ghost all = lines_from(s@, 0);
    assert(all =~= texts(r@) + lines_from(s@, 0));
    while i < n
        invariant
            n == chars@.len(),
            i <= n,
            chars@ == s@,
            all == texts(r@) + lines_from(s@, i as int),
        decreases n - i,
    {
        proof {
            lemma_line_feed(s@, i as int);
        }
        let mut e: usize = i;
        while e < n && chars[e] != '\n'
            invariant
                i <= e <= n == chars@.len(),
                chars@ == s@,
                line_feed(s@, e as int) == line_feed(s@, i as int),
            decreases n - e,
        {
            e += 1;
        }
        let ghost before = texts(r@);
        if e < n {
            let end: usize = if e > i && chars[e - 1] == '\r' { e - 1 } else { e };
            let line = string_of(chars.as_slice(), i, end);
            assert(line@ =~= without_return(s@.subrange(i as int, e as int)));
            r.push(line);
            proof {
                assert(texts(r@) =~= before.push(line@));
                assert(all =~= texts(r@) + lines_from(s@, e + 1));
            }
            i = e + 1;
        } else {
            let line = string_of(chars.as_slice(), i, n);
            r.push(line);
            proof {
                assert(texts(r@) =~= before.push(line@));
                assert(lines_from(s@, n as int) =~= Seq::<Seq<char>>::empty());
                assert(all =~= texts(r@) + lines_from(s@, n as int));
            }
            i = n;
        }
    }
    assert(all =~= texts(r@));
    r
}

// ---------------------------------------------------------------------------
// Wrapping
// ---------------------------------------------------------------------------

/// Index of the last space before `i`, or -1.
pub open spec fn last_space(s: Seq<char>, i: int) -> int
    decreases i,
{
    if i <= 0 {
        -1
    } else if s[i - 1] == ' ' {
        i - 1
    } else {
        last_space(s, i - 1)
    }
}

/// Where a line that is too long is broken: behind the last space that fits,
/// or else where it stops fitting.
pub open spec fn break_at(s: Seq<char>, max: int) -> int {
    let window = if max == 0 { s.len() as int } else { max };
    let sp = last_space(s, window);
    if sp >= 0 { sp + 1 } else { window }
}

proof fn lemma_last_space(s: Seq<char>, i: int)
    requires
        0 <= i,
    ensures
        -1 <= last_space(s, i) < i || i == 0 && last_space(s, i) == -1,
    decreases i,
{
    if i > 0 {
        lemma_last_space(s, i - 1);
    }
}

/// The pieces of a line, each at most `max` characters wide.
pub open spec fn wrapped_line(s: Seq<char>, max: int) -> Seq<Seq<char>>
    decreases s.len(),
{
    if s.len() <= max || s.len() == 0 {
        if s.len() == 0 { Seq::empty() } else { seq![s] }
    } else {
        let b = break_at(s, max);
        let rest = trimmed_start(s.skip(b));
        if 0 < b <= s.len() {
            proof {
                lemma_first_solid(s.skip(b), 0);
            }
            seq![trimmed_end(s.take(b))] + wrapped_line(rest, max)
        } else {
            seq![s]
        }
    }
}

/// The pieces of a line once the white space at its end is gone; a blank line
/// is one empty piece.
pub open spec fn wrapped_raw(line: Seq<char>, max: int) -> Seq<Seq<char>> {
    let s = trimmed_end(line);
    if s.len() == 0 { seq![Seq::empty()] } else { wrapped_line(s, max) }
}

pub open spec fn wrapped_all(lines: Seq<Seq<char>>, max: int) -> Seq<Seq<char>>
    decreases lines.len(),
{
    if lines.len() == 0 {
        Seq::empty()
    } else {
        wrapped_all(lines.drop_last(), max) + wrapped_raw(lines.last(), max)
    }
}

/// A line cut to make room for the ellipsis that ends it.
pub open spec fn with_ellipsis(s: Seq<char>, max: int) -> Seq<char> {
    let room = imax(max - 1, 0);
    (if s.len() > room { s.take(room) } else { s }).push('…')
}

/// The first `max_rows` lines; an ellipsis shows that there were more.
pub open spec fn capped(lines: Seq<Seq<char>>, max: int, max_rows: int) -> Seq<Seq<char>> {
    if lines.len() <= max_rows {
        lines
    } else if max_rows == 0 {
        Seq::empty()
    } else {
        lines.take(max_rows - 1).push(with_ellipsis(lines[max_rows - 1], max))
    }
}

/// `s` wrapped to `max` columns and at most `max_rows` rows.
pub open spec fn wrapped(s: Seq<char>, max: int, max_rows: int) -> Seq<Seq<char>> {
    capped(wrapped_all(lines_from(s, 0), max), max, max_rows)
}

fn wrap_line(s: &str, max: usize, out: &mut Vec<String>)
    ensures
        texts(final(out)@) == texts(old(out)@) + wrapped_line(s@, max as int),
{
    let chars = chars_of(s);
    let n: usize = chars.len();
    let mut from: usize = 0;
    let ghost all = texts(out@) + wrapped_line(s@, max as int);
    assert(s@.skip(0) =~= s@);
    while n - from > max
        invariant
            n == chars@.len(),
            chars@ == s@,
            from <= n,
            all == texts(old(out)@) + wrapped_line(s@, max as int),
            all == texts(out@) + wrapped_line(s@.skip(from as int), max as int),
        decreases n - from,
    {
        let ghost cur = s@.skip(from as int);
        let window: usize = if max == 0 { n - from } else { max };
        let mut k: usize = window;
        while k > 0 && chars[from + k - 1] != ' '
            invariant
                n == chars@.len(),
                chars@ == s@,
                from + window <= n,
                k <= window,
                cur == s@.skip(from as int),
                last_space(cur, k as int) == last_space(cur, window as int),
            decreases k,
        {
            assert(cur[k - 1] == chars@[from + k - 1]);
            k -= 1;
        }
        let b: usize = if k > 0 { k } else { window };
        proof {
            if k > 0 {
                assert(cur[k - 1] == chars@[from + k - 1]);
            }
            lemma_last_space(cur, window as int);
            assert(b == break_at(cur, max as int));
        }
        let ghost before = texts(out@);
        let piece = string_of(chars.as_slice(), from, from + b);
        assert(piece@ =~= cur.take(b as int));
        let piece = trim_end(piece.as_str());
        out.push(piece);
        let mut next: usize = from + b;
        let ghost tail = cur.skip(b as int);
        assert(tail =~= s@.skip(from + b));
        while next < n && is_whitespace(chars[next])
            invariant
                n == chars@.len(),
                chars@ == s@,
                from + b <= next <= n,
                tail == s@.skip(from + b),
                first_solid(tail, next - from - b) == first_solid(tail, 0),
            decreases n - next,
        {
            assert(tail[next - from - b] == chars@[next as int]);
            next += 1;
        }
        proof {
            if next < n {
                assert(tail[next - from - b] == chars@[next as int]);
            }
            assert(first_solid(tail, 0) == next - from - b);
            assert(trimmed_start(tail) =~= s@.skip(next as int));
            assert(texts(out@) =~= before.push(trimmed_end(cur.take(b as int))));
            assert(all =~= texts(out@) + wrapped_line(s@.skip(next as int), max as int));
        }
        from = next;
    }
    if from < n {
        let ghost before = texts(out@);
        let piece = string_of(chars.as_slice(), from, n);
        assert(piece@ =~= s@.skip(from as int));
        out.push(piece);
        assert(texts(out@) =~= before.push(s@.skip(from as int)));
        assert(all =~= texts(out@));
    } else {
        assert(wrapped_line(s@.skip(from as int), max as int) =~= Seq::<Seq<char>>::empty());
        assert(all =~= texts(out@));
    }
}

/// Wrap a text to `max_text` columns. At most `max_rows` lines are given out,
/// the last one with an ellipsis if there were more.
pub fn wrap_text(text: &str, max_text: usize, max_rows: usize) -> (r: Vec<String>)
    ensures
        texts(r@) == wrapped(text@, max_text as int, max_rows as int),
{
    let raw = lines_of(text);
    let ghost rawv = texts(raw@);
    let mut out: Vec<String> = Vec::new();
    let mut i: usize = 0;
    assert(rawv.take(0) =~= Seq::<Seq<char>>::empty());
    assert(texts(out@) =~= wrapped_all(rawv.take(0), max_text as int));
    while i < raw.len()
        invariant
            i <= raw@.len(),
            rawv == texts(raw@),
            texts(out@) == wrapped_all(rawv.take(i as int), max_text as int),
        decreases raw@.len() - i,
    {
        let ghost before = texts(out@);
        let line = trim_end(raw[i].as_str());
        proof {
            assert(rawv.take(i + 1).drop_last() =~= rawv.take(i as int));
            assert(rawv.take(i + 1).last() == raw@[i as int]@);
        }
        if line.as_str().unicode_len() == 0 {
            out.push(String::new());
            assert(texts(out@) =~= before + seq![Seq::<char>::empty()]);
        } else {
            wrap_line(line.as_str(), max_text, &mut out);
        }
        i += 1;
    }
    assert(rawv.take(i as int) =~= rawv);
    let ghost all = texts(out@);
    if out.len() > max_rows {
        out.truncate(max_rows);
        assert(texts(out@) =~= all.take(max_rows as int));
        if max_rows > 0 {
            let room: usize = max_text.saturating_sub(1);
            let chars = chars_of(out[max_rows - 1].as_str());
            let keep: usize = if chars.len() > room { room } else { chars.len() };
            let mut last = string_of(chars.as_slice(), 0, keep);
            last.push('…');
            assert(all[max_rows - 1] == out@[max_rows - 1]@);
            assert(last@ =~= with_ellipsis(all[max_rows - 1], max_text as int));
            out.truncate(max_rows - 1);
            out.push(last);
            assert(texts(out@) =~= capped(all, max_text as int, max_rows as int));
        } else {
            assert(texts(out@) =~= Seq::<Seq<char>>::empty());
        }
    }
    out
}

/// No wrapped line is wider than asked for, and there are no more of them.
pub proof fn wrapping_keeps_within_bounds(s: Seq<char>, max: int, max_rows: int)
    requires
        max > 0,
        max_rows >= 0,
    ensures
        wrapped(s, max, max_rows).len() <= max_rows,
        forall|i: int|
            0 <= i < wrapped(s, max, max_rows).len() ==> (#[trigger] wrapped(s, max, max_rows)[i]).len()
                <= max,
{
    let all = wrapped_all(lines_from(s, 0), max);
    lemma_all_within(lines_from(s, 0), max);
    assert forall|i: int| 0 <= i < wrapped(s, max, max_rows).len() implies (#[trigger] wrapped(
        s,
        max,
        max_rows,
    )[i]).len() <= max by {
        if all.len() > max_rows {
            if i < max_rows - 1 {
                assert(wrapped(s, max, max_rows)[i] == all[i]);
            }
        }
    }
}

proof fn lemma_all_within(lines: Seq<Seq<char>>, max: int)
    requires
        max > 0,
    ensures
        forall|i: int|
            0 <= i < wrapped_all(lines, max).len() ==> (#[trigger] wrapped_all(lines, max)[i]).len()
                <= max,
    decreases lines.len(),
{
    if lines.len() > 0 {
        lemma_all_within(lines.drop_last(), max);
        lemma_line_within(trimmed_end(lines.last()), max);
        let a = wrapped_all(lines.drop_last(), max);
        let b = wrapped_raw(lines.last(), max);
        assert forall|i: int| 0 <= i < wrapped_all(lines, max).len() implies (
        #[trigger] wrapped_all(lines, max)[i]).len() <= max by {
            if i < a.len() {
                assert(wrapped_all(lines, max)[i] == a[i]);
            } else {
                assert(wrapped_all(lines, max)[i] == b[i - a.len()]);
            }
        }
    }
}

proof fn lemma_line_within(s: Seq<char>, max: int)
    requires
        max > 0,
    ensures
        forall|i: int|
            0 <= i < wrapped_line(s, max).len() ==> (#[trigger] wrapped_line(s, max)[i]).len()
                <= max,
    decreases s.len(),
{
    if s.len() > max {
        let b = break_at(s, max);
        lemma_last_space(s, max);
        lemma_first_solid(s.skip(b), 0);
        lemma_last_solid(s.take(b), b);
        let rest = trimmed_start(s.skip(b));
        lemma_line_within(rest, max);
        let t = wrapped_line(rest, max);
        assert forall|i: int| 0 <= i < wrapped_line(s, max).len() implies (
        #[trigger] wrapped_line(s, max)[i]).len() <= max by {
            if i > 0 {
                assert(wrapped_line(s, max)[i] == t[i - 1]);
            }
        }
    }
}

/// The characters that are no white space, in order.
pub open spec fn solids(s: Seq<char>) -> Seq<char>
    decreases s.len(),
{
    if s.len() == 0 {
        Seq::empty()
    } else if is_white(s.last()) {
        solids(s.drop_last())
    } else {
        solids(s.drop_last()).push(s.last())
    }
}

/// The characters of all rows that are no white space, in order.
pub open spec fn solids_of(rows: Seq<Seq<char>>) -> Seq<char>
    decreases rows.len(),
{
    if rows.len() == 0 {
        Seq::empty()
    } else {
        solids_of(rows.drop_last()) + solids(rows.last())
    }
}

proof fn lemma_solids_join(a: Seq<char>, b: Seq<char>)
    ensures
        solids(a + b) == solids(a) + solids(b),
    decreases b.len(),
{
    if b.len() == 0 {
        assert(a + b =~= a);
    } else {
        lemma_solids_join(a, b.drop_last());
        assert((a + b).drop_last() =~= a + b.drop_last());
        assert((a + b).last() == b.last());
    }
    assert(solids(a + b) =~= solids(a) + solids(b));
}

proof fn lemma_solids_of_white(s: Seq<char>)
    requires
        forall|i: int| 0 <= i < s.len() ==> is_white(#[trigger] s[i]),
    ensures
        solids(s) == Seq::<char>::empty(),
    decreases s.len(),
{
    if s.len() > 0 {
        lemma_solids_of_white(s.drop_last());
    }
}

proof fn lemma_trimmed_end_solids(s: Seq<char>, i: int)
    requires
        0 <= i <= s.len(),
        forall|j: int| i <= j < s.len() ==> is_white(#[trigger] s[j]),
    ensures
        solids(s.take(last_solid(s, i))) == solids(s),
    decreases i,
{
    if 0 < i && is_white(s[i - 1]) {
        lemma_trimmed_end_solids(s, i - 1);
    } else {
        let rest = s.skip(i);
        assert forall|j: int| 0 <= j < rest.len() implies is_white(#[trigger] rest[j]) by {
            assert(rest[j] == s[i + j]);
        }
        lemma_solids_of_white(rest);
        lemma_solids_join(s.take(i), rest);
        assert(s.take(i) + rest =~= s);
        assert(solids(s.take(i)) =~= solids(s));
    }
}

proof fn lemma_trimmed_start_solids(s: Seq<char>, i: int)
    requires
        0 <= i <= s.len(),
        forall|j: int| 0 <= j < i ==> is_white(#[trigger] s[j]),
    ensures
        solids(s.skip(first_solid(s, i))) == solids(s),
    decreases s.len() - i,
{
    if i < s.len() && is_white(s[i]) {
        lemma_trimmed_start_solids(s, i + 1);
    } else {
        let front = s.take(i);
        assert forall|j: int| 0 <= j < front.len() implies is_white(#[trigger] front[j]) by {
            assert(front[j] == s[j]);
        }
        lemma_solids_of_white(front);
        lemma_solids_join(front, s.skip(i));
        assert(front + s.skip(i) =~= s);
        assert(solids(s.skip(i)) =~= solids(s));
    }
}

proof fn lemma_solids_of_join(a: Seq<Seq<char>>, b: Seq<Seq<char>>)
    ensures
        solids_of(a + b) == solids_of(a) + solids_of(b),
    decreases b.len(),
{
    if b.len() == 0 {
        assert(a + b =~= a);
    } else {
        lemma_solids_of_join(a, b.drop_last());
        assert((a + b).drop_last() =~= a + b.drop_last());
        assert((a + b).last() == b.last());
    }
    assert(solids_of(a + b) =~= solids_of(a) + solids_of(b));
}

proof fn lemma_one_row(s: Seq<char>)
    ensures
        solids_of(seq![s]) == solids(s),
{
    assert(seq![s].drop_last() =~= Seq::<Seq<char>>::empty());
    assert(seq![s].last() == s);
    assert(solids_of(Seq::<Seq<char>>::empty()) == Seq::<char>::empty());
    assert(Seq::<char>::empty() + solids(s) =~= solids(s));
}

/// Wrapping a line loses nothing but white space.
pub proof fn wrapping_loses_only_white_space(s: Seq<char>, max: int)
    requires
        max > 0,
    ensures
        solids_of(wrapped_line(s, max)) == solids(s),
    decreases s.len(),
{
    if s.len() > max {
        let b = break_at(s, max);
        lemma_last_space(s, max);
        let tail = s.skip(b);
        lemma_first_solid(tail, 0);
        let rest = trimmed_start(tail);
        wrapping_loses_only_white_space(rest, max);
        lemma_trimmed_start_solids(tail, 0);
        lemma_trimmed_end_solids(s.take(b), b);
        let first = trimmed_end(s.take(b));
        lemma_one_row(first);
        lemma_solids_of_join(seq![first], wrapped_line(rest, max));
        lemma_solids_join(s.take(b), tail);
        assert(s.take(b) + tail =~= s);
    } else if s.len() > 0 {
        lemma_one_row(s);
    }
}

proof fn lemma_nearest_space(s: Seq<char>, i: int)
    requires
        0 <= i <= s.len(),
    ensures
        -1 <= last_space(s, i) < i || i == 0 && last_space(s, i) == -1,
        last_space(s, i) >= 0 ==> s[last_space(s, i)] == ' ',
        forall|j: int| last_space(s, i) < j < i ==> #[trigger] s[j] != ' ',
    decreases i,
{
    if i > 0 && s[i - 1] != ' ' {
        lemma_nearest_space(s, i - 1);
    }
}

/// A line that is too long is broken behind the last space that fits, or behind
/// as many characters as fit where no space does; the next row begins with the
/// first character behind it that is no white space. One that fits is one row.
pub proof fn lines_are_broken_at_spaces(s: Seq<char>, max: int, b: int)
    requires
        max > 0,
        s.len() > max,
        0 < b <= max,
        s[b - 1] == ' ' || b == max && forall|j: int| 0 <= j < max ==> #[trigger] s[j] != ' ',
        forall|j: int| b <= j < max ==> #[trigger] s[j] != ' ',
    ensures
        wrapped_line(s, max) == seq![trimmed_end(s.take(b))] + wrapped_line(
            trimmed_start(s.skip(b)),
            max,
        ),
        wrapped_line(s.take(max), max) == seq![s.take(max)],
{
    lemma_nearest_space(s, max);
    assert(break_at(s, max) == b);
}

/// A line feed ends a line, with a carriage return before it or without; what
/// follows the last one is a line if it is not empty.
pub proof fn line_feeds_end_lines(a: Seq<char>, b: Seq<char>)
    requires
        forall|i: int| 0 <= i < a.len() ==> #[trigger] a[i] != '\n',
    ensures
        lines_from(a + seq!['\n'] + b, 0) == seq![
            if a.len() > 0 && a.last() == '\r' { a.drop_last() } else { a },
        ] + lines_from(b, 0),
        a.len() > 0 ==> lines_from(a, 0) == seq![a],
        lines_from(Seq::empty(), 0) == Seq::<Seq<char>>::empty(),
{
    let s = a + seq!['\n'] + b;
    let n = a.len() as int;
    assert forall|i: int| 0 <= i < n implies #[trigger] s[i] != '\n' by {
        assert(s[i] == a[i]);
    }
    assert(s[n] == '\n');
    lemma_line_feed_at(s, 0, n);
    assert(s.subrange(0, n) =~= a);
    lemma_lines_moved(s, b, n + 1, 0);
    if n > 0 {
        lemma_line_feed_at(a, 0, n);
        assert(a.subrange(0, n) =~= a);
    }
}

proof fn lemma_line_feed_at(s: Seq<char>, i: int, e: int)
    requires
        0 <= i <= e <= s.len(),
        e < s.len() ==> s[e] == '\n',
        forall|j: int| i <= j < e ==> #[trigger] s[j] != '\n',
    ensures
        line_feed(s, i) == e,
    decreases e - i,
{
    if i < e {
        lemma_line_feed_at(s, i + 1, e);
    }
}

proof fn lemma_line_feed_moved(s: Seq<char>, b: Seq<char>, d: int, i: int)
    requires
        0 <= d,
        0 <= i <= b.len(),
        s.len() == d + b.len(),
        forall|j: int| 0 <= j < b.len() ==> #[trigger] b[j] == s[d + j],
    ensures
        line_feed(s, d + i) == d + line_feed(b, i),
    decreases b.len() - i,
{
    if i < b.len() {
        assert(b[i] == s[d + i]);
        if b[i] != '\n' {
            lemma_line_feed_moved(s, b, d, i + 1);
        }
    }
}

proof fn lemma_lines_moved(s: Seq<char>, b: Seq<char>, d: int, i: int)
    requires
        0 <= d,
        0 <= i,
        s.len() == d + b.len(),
        forall|j: int| 0 <= j < b.len() ==> #[trigger] b[j] == s[d + j],
    ensures
        lines_from(s, d + i) == lines_from(b, i),
    decreases b.len() - i,
{
    if i < b.len() {
        lemma_line_feed_moved(s, b, d, i);
        lemma_line_feed(b, i);
        let e = line_feed(b, i);
        assert(s.subrange(d + i, d + e) =~= b.subrange(i, e));
        if e < b.len() {
            lemma_lines_moved(s, b, d, e + 1);
        } else {
            assert(s.subrange(d + i, s.len() as int) =~= b.subrange(i, b.len() as int));
        }
    }
}

/// Where there are too many rows, the last one that is shown ends in an ellipsis
/// and the others are as they were; where there are not, all are.
pub proof fn an_ellipsis_tells_of_more(rows: Seq<Seq<char>>, max: int, max_rows: int, i: int)
    requires
        max > 0,
        max_rows > 0,
        0 <= i,
    ensures
        ({
            let shown = capped(rows, max, max_rows);
            &&& rows.len() <= max_rows ==> shown == rows
            &&& rows.len() > max_rows ==> {
                &&& shown.len() == max_rows
                &&& i < max_rows - 1 ==> shown[i] == rows[i]
                &&& shown.last().last() == '…'
                &&& i < shown.last().len() - 1 ==> shown.last()[i] == rows[max_rows - 1][i]
                &&& shown.last().len() == imin(rows[max_rows - 1].len() + 1int, max)
            }
        }),
{
}

}
