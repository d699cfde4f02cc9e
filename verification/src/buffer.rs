//! A piece-table text buffer with coarse-grained undo, a line index that is
//! kept up to date on every edit, and a log of edits for incremental parsers.
use vstd::prelude::*;
use crate::text::{
    breaks_of, count_at_most, imin, indexes, lemma_breaks, lemma_breaks_concat, lemma_breaks_split,
    lemma_index_ascending, lemma_line_start_bounds, lemma_newlines_bound, lemma_newlines_prefix,
    line_start_of, line_starts_of, newlines_before, same_numbers, shifted, cached_line_is_line,
    line_index_cached, NL,
};

verus! {

/// Cursor state that is stored with each undo entry, so that undo and redo
/// restore the cursor along with the text.
#[derive(Debug, Clone, Copy, PartialEq, Eq, Structural)]
pub struct CursorSnapshot {
    pub anchor: usize,
    pub head: usize,
    pub desired_col: usize,
}

/// A row and a byte column within that row.
#[derive(Debug, Clone, Copy, PartialEq, Eq, Structural)]
pub struct Point {
    pub row: usize,
    pub column: usize,
}

impl Default for Point {
    fn default() -> (p: Point)
        ensures
            p == (Point { row: 0, column: 0 }),
    {
        Point { row: 0, column: 0 }
    }
}

/// What one mutation did, in byte offsets and in positions. The old end is
/// measured in the text before the mutation, the new end in the text after it.
#[derive(Debug, Clone, Copy, PartialEq, Eq, Structural)]
pub struct Edit {
    pub start_byte: usize,
    pub old_end_byte: usize,
    pub new_end_byte: usize,
    pub start_position: Point,
    pub old_end_position: Point,
    pub new_end_position: Point,
}

#[derive(Debug, Clone, Copy, PartialEq, Eq, Structural)]
enum Source {
    Original,
    Append,
}

#[derive(Debug, Clone, Copy, PartialEq, Eq, Structural)]
struct Piece {
    source: Source,
    start: usize,
    len: usize,
}

struct UndoEntry {
    pieces: Vec<Piece>,
    cursor: CursorSnapshot,
}

/// The text is the concatenation of `pieces`, each a stretch of one of the two
/// byte stores. Neither store ever changes but by growing at its end.
pub struct Buffer {
    original: Vec<u8>,
    append: Vec<u8>,
    pieces: Vec<Piece>,
    undo_stack: Vec<UndoEntry>,
    redo_stack: Vec<UndoEntry>,
    pending_commit: Option<CursorSnapshot>,
    version: u64,
    line_starts: Vec<usize>,
    pending_edits: Vec<Edit>,
}

// ---------------------------------------------------------------------------
// Model
// ---------------------------------------------------------------------------

/// A text that undo or redo can go back to, and the cursor that goes with it.
#[verifier::ext_equal]
pub struct Snapshot {
    pub text: Seq<u8>,
    pub cursor: CursorSnapshot,
}

/// What a buffer holds: its text, the states that undo and redo will visit
/// (the next one last), the cursor that the next mutation will commit, the
/// mutation counter and the edits logged since they were last drained.
#[verifier::ext_equal]
pub struct BufferView {
    pub text: Seq<u8>,
    pub undo: Seq<Snapshot>,
    pub redo: Seq<Snapshot>,
    pub pending: Option<CursorSnapshot>,
    pub version: u64,
    pub edits: Seq<Edit>,
}

pub open spec fn position_of(s: Seq<u8>, o: int) -> Point {
    Point { row: newlines_before(s, o) as usize, column: (o - line_start_of(s, o)) as usize }
}

/// `s` with `t` inserted at `o`.
pub open spec fn spliced_in(s: Seq<u8>, o: int, t: Seq<u8>) -> Seq<u8> {
    s.take(o) + t + s.skip(o)
}

/// `s` without its bytes from `o` to `end`.
pub open spec fn cut_out(s: Seq<u8>, o: int, end: int) -> Seq<u8> {
    s.take(o) + s.skip(end)
}

pub open spec fn edit_between(s: Seq<u8>, t: Seq<u8>, start: int, old_end: int, new_end: int) -> Edit {
    Edit {
        start_byte: start as usize,
        old_end_byte: old_end as usize,
        new_end_byte: new_end as usize,
        start_position: position_of(s, start),
        old_end_position: position_of(s, old_end),
        new_end_position: position_of(t, new_end),
    }
}

pub open spec fn next_version(v: u64) -> u64 {
    if v == u64::MAX { 0 } else { (v + 1) as u64 }
}

impl BufferView {
    /// The state once a pending commit, if there is one, has been recorded.
    /// States that could still be redone are not dropped: they are replayed
    /// forward and then backward onto the undo history, so that undoing walks
    /// through every state the text has been in.
    pub open spec fn committed(self) -> BufferView {
        match self.pending {
            None => self,
            Some(cursor) => {
                let here = Snapshot { text: self.text, cursor };
                BufferView {
                    undo: if self.redo.len() == 0 {
                        self.undo.push(here)
                    } else {
                        (self.undo.push(here) + self.redo.reverse() + self.redo.skip(1)).push(here)
                    },
                    redo: Seq::empty(),
                    pending: None,
                    ..self
                }
            },
        }
    }

    pub open spec fn marked(self, cursor: CursorSnapshot) -> BufferView {
        BufferView { pending: Some(cursor), ..self }
    }

    pub open spec fn inserted(self, offset: int, t: Seq<u8>) -> BufferView {
        if t.len() == 0 {
            self
        } else {
            let o = imin(offset, self.text.len() as int);
            let text = spliced_in(self.text, o, t);
            BufferView {
                text,
                version: next_version(self.version),
                edits: self.edits.push(edit_between(self.text, text, o, o, o + t.len())),
                ..self.committed()
            }
        }
    }

    pub open spec fn deleted(self, offset: int, length: int) -> BufferView {
        let end = imin(offset + length, self.text.len() as int);
        if offset >= end {
            self
        } else {
            let text = cut_out(self.text, offset, end);
            BufferView {
                text,
                version: next_version(self.version),
                edits: self.edits.push(edit_between(self.text, text, offset, end, offset)),
                ..self.committed()
            }
        }
    }

    /// The state after the text was replaced as a whole by undo or redo.
    pub open spec fn swapped(self, to: Snapshot) -> BufferView {
        BufferView {
            text: to.text,
            pending: None,
            version: next_version(self.version),
            edits: self.edits.push(
                edit_between(self.text, to.text, 0, self.text.len() as int, to.text.len() as int),
            ),
            ..self
        }
    }

    pub open spec fn undone(self, cursor: CursorSnapshot) -> BufferView {
        if self.undo.len() == 0 {
            self
        } else {
            BufferView {
                undo: self.undo.drop_last(),
                redo: self.redo.push(Snapshot { text: self.text, cursor }),
                ..self.swapped(self.undo.last())
            }
        }
    }

    pub open spec fn redone(self, cursor: CursorSnapshot) -> BufferView {
        if self.redo.len() == 0 {
            self
        } else {
            BufferView {
                redo: self.redo.drop_last(),
                undo: self.undo.push(Snapshot { text: self.text, cursor }),
                ..self.swapped(self.redo.last())
            }
        }
    }

    pub open spec fn drained(self) -> BufferView {
        BufferView { edits: Seq::empty(), ..self }
    }
}

spec fn store(o: Seq<u8>, a: Seq<u8>, source: Source) -> Seq<u8> {
    match source {
        Source::Original => o,
        Source::Append => a,
    }
}

spec fn piece_ok(o: Seq<u8>, a: Seq<u8>, p: Piece) -> bool {
    p.len > 0 && p.start + p.len <= store(o, a, p.source).len()
}

spec fn piece_bytes(o: Seq<u8>, a: Seq<u8>, p: Piece) -> Seq<u8> {
    store(o, a, p.source).subrange(p.start as int, p.start + p.len)
}

spec fn pieces_ok(o: Seq<u8>, a: Seq<u8>, ps: Seq<Piece>) -> bool {
    forall|i: int| 0 <= i < ps.len() ==> piece_ok(o, a, #[trigger] ps[i])
}

spec fn pieces_text(o: Seq<u8>, a: Seq<u8>, ps: Seq<Piece>) -> Seq<u8>
    decreases ps.len(),
{
    if ps.len() == 0 {
        Seq::empty()
    } else {
        pieces_text(o, a, ps.drop_last()) + piece_bytes(o, a, ps.last())
    }
}

spec fn entry_ok(o: Seq<u8>, a: Seq<u8>, e: UndoEntry) -> bool {
    pieces_ok(o, a, e.pieces@) && pieces_text(o, a, e.pieces@).len() <= usize::MAX
}

spec fn entries_ok(o: Seq<u8>, a: Seq<u8>, es: Seq<UndoEntry>) -> bool {
    forall|i: int| 0 <= i < es.len() ==> entry_ok(o, a, #[trigger] es[i])
}

spec fn entry_view(o: Seq<u8>, a: Seq<u8>, e: UndoEntry) -> Snapshot {
    Snapshot { text: pieces_text(o, a, e.pieces@), cursor: e.cursor }
}

spec fn entries_view(o: Seq<u8>, a: Seq<u8>, es: Seq<UndoEntry>) -> Seq<Snapshot> {
    Seq::new(es.len(), |i: int| entry_view(o, a, es[i]))
}

impl View for Buffer {
    type V = BufferView;

    closed spec fn view(&self) -> BufferView {
        BufferView {
            text: pieces_text(self.original@, self.append@, self.pieces@),
            undo: entries_view(self.original@, self.append@, self.undo_stack@),
            redo: entries_view(self.original@, self.append@, self.redo_stack@),
            pending: self.pending_commit,
            version: self.version,
            edits: self.pending_edits@,
        }
    }
}

impl Buffer {
    /// Every piece, of the text and of every undo state, is a non-empty
    /// stretch of its store, and the line index is that of the text.
    pub closed spec fn wf(&self) -> bool {
        &&& pieces_ok(self.original@, self.append@, self.pieces@)
        &&& pieces_text(self.original@, self.append@, self.pieces@).len() <= usize::MAX
        &&& entries_ok(self.original@, self.append@, self.undo_stack@)
        &&& entries_ok(self.original@, self.append@, self.redo_stack@)
        &&& indexes(
            self.line_starts@,
            pieces_text(self.original@, self.append@, self.pieces@),
        )
    }
}

proof fn lemma_text_concat(o: Seq<u8>, a: Seq<u8>, p: Seq<Piece>, q: Seq<Piece>)
    ensures
        pieces_text(o, a, p + q) == pieces_text(o, a, p) + pieces_text(o, a, q),
    decreases q.len(),
{
    if q.len() == 0 {
        assert(p + q =~= p);
        assert(pieces_text(o, a, p) + pieces_text(o, a, q) =~= pieces_text(o, a, p));
    } else {
        lemma_text_concat(o, a, p, q.drop_last());
        assert((p + q).drop_last() =~= p + q.drop_last());
        assert((p + q).last() == q.last());
        assert(pieces_text(o, a, p + q) =~= pieces_text(o, a, p) + pieces_text(o, a, q));
    }
}

proof fn lemma_text_single(o: Seq<u8>, a: Seq<u8>, p: Piece)
    ensures
        pieces_text(o, a, seq![p]) == piece_bytes(o, a, p),
{
    let s = seq![p];
    assert(s.drop_last() =~= Seq::<Piece>::empty());
    assert(pieces_text(o, a, s.drop_last()) =~= Seq::<u8>::empty());
    assert(pieces_text(o, a, s) =~= piece_bytes(o, a, p));
}

proof fn lemma_text_split(o: Seq<u8>, a: Seq<u8>, ps: Seq<Piece>, i: int)
    requires
        0 <= i < ps.len(),
    ensures
        pieces_text(o, a, ps) == pieces_text(o, a, ps.take(i)) + piece_bytes(o, a, ps[i])
            + pieces_text(o, a, ps.skip(i + 1)),
        pieces_text(o, a, ps.take(i + 1)) == pieces_text(o, a, ps.take(i)) + piece_bytes(
            o,
            a,
            ps[i],
        ),
{
    lemma_text_concat(o, a, ps.take(i), seq![ps[i]]);
    lemma_text_single(o, a, ps[i]);
    assert(ps.take(i) + seq![ps[i]] =~= ps.take(i + 1));
    lemma_text_concat(o, a, ps.take(i + 1), ps.skip(i + 1));
    assert(ps.take(i + 1) + ps.skip(i + 1) =~= ps);
}

proof fn lemma_text_prefix_len(o: Seq<u8>, a: Seq<u8>, ps: Seq<Piece>, i: int)
    requires
        0 <= i <= ps.len(),
    ensures
        pieces_text(o, a, ps.take(i)).len() <= pieces_text(o, a, ps).len(),
        pieces_text(o, a, ps) == pieces_text(o, a, ps.take(i)) + pieces_text(o, a, ps.skip(i)),
{
    lemma_text_concat(o, a, ps.take(i), ps.skip(i));
    assert(ps.take(i) + ps.skip(i) =~= ps);
}

proof fn lemma_text_grow(o: Seq<u8>, a: Seq<u8>, t: Seq<u8>, ps: Seq<Piece>)
    requires
        pieces_ok(o, a, ps),
    ensures
        pieces_ok(o, a + t, ps),
        pieces_text(o, a + t, ps) == pieces_text(o, a, ps),
    decreases ps.len(),
{
    if ps.len() > 0 {
        assert(pieces_ok(o, a, ps.drop_last())) by {
            assert forall|i: int| 0 <= i < ps.drop_last().len() implies piece_ok(
                o,
                a,
                #[trigger] ps.drop_last()[i],
            ) by {
                assert(piece_ok(o, a, ps[i]));
            }
        }
        lemma_text_grow(o, a, t, ps.drop_last());
        assert(piece_ok(o, a, ps[ps.len() - 1]));
        assert(piece_bytes(o, a + t, ps.last()) =~= piece_bytes(o, a, ps.last()));
        assert forall|i: int| 0 <= i < ps.len() implies piece_ok(o, a + t, #[trigger] ps[i]) by {
            assert(piece_ok(o, a, ps[i]));
        }
    }
}

proof fn lemma_entries_grow(o: Seq<u8>, a: Seq<u8>, t: Seq<u8>, es: Seq<UndoEntry>)
    requires
        entries_ok(o, a, es),
    ensures
        entries_ok(o, a + t, es),
        entries_view(o, a + t, es) == entries_view(o, a, es),
{
    assert forall|i: int| 0 <= i < es.len() implies entry_ok(o, a + t, #[trigger] es[i])
        && entry_view(o, a + t, es[i]) == entry_view(o, a, es[i]) by {
        assert(entry_ok(o, a, es[i]));
        lemma_text_grow(o, a, t, es[i].pieces@);
    }
    assert(entries_view(o, a + t, es) =~= entries_view(o, a, es));
}

proof fn lemma_text_empty(o: Seq<u8>, a: Seq<u8>, ps: Seq<Piece>)
    requires
        pieces_ok(o, a, ps),
    ensures
        pieces_text(o, a, ps).len() == 0 <==> ps.len() == 0,
{
    if ps.len() > 0 {
        assert(piece_ok(o, a, ps[ps.len() - 1]));
    }
}

proof fn lemma_entries_push(o: Seq<u8>, a: Seq<u8>, es: Seq<UndoEntry>, e: UndoEntry)
    ensures
        entries_view(o, a, es.push(e)) == entries_view(o, a, es).push(entry_view(o, a, e)),
        entries_ok(o, a, es) && entry_ok(o, a, e) ==> entries_ok(o, a, es.push(e)),
{
    assert(entries_view(o, a, es.push(e)) =~= entries_view(o, a, es).push(entry_view(o, a, e)));
}

fn copy_entry(e: &UndoEntry) -> (r: UndoEntry)
    ensures
        r.pieces@ == e.pieces@,
        r.cursor == e.cursor,
{
    let pieces = e.pieces.clone();
    assert(pieces@ =~= e.pieces@);
    UndoEntry { pieces, cursor: e.cursor }
}

impl Buffer {
    /// A buffer with no text and no history.
    pub fn empty() -> (b: Buffer)
        ensures
            b.wf(),
            b@.text == Seq::<u8>::empty(),
            b@.undo == Seq::<Snapshot>::empty(),
            b@.redo == Seq::<Snapshot>::empty(),
            b@.pending is None,
            b@.version == 0,
            b@.edits == Seq::<Edit>::empty(),
    {
        let mut line_starts: Vec<usize> = Vec::new();
        line_starts.push(0);
        let b = Buffer {
            original: Vec::new(),
            append: Vec::new(),
            pieces: Vec::new(),
            undo_stack: Vec::new(),
            redo_stack: Vec::new(),
            pending_commit: None,
            version: 0,
            line_starts,
            pending_edits: Vec::new(),
        };
        assert(line_starts_of(Seq::empty()) =~= seq![0int]);
        b
    }

    /// A buffer that holds `content` and has no history.
    pub fn from_bytes(content: Vec<u8>) -> (b: Buffer)
        ensures
            b.wf(),
            b@.text == content@,
            b@.undo == Seq::<Snapshot>::empty(),
            b@.redo == Seq::<Snapshot>::empty(),
            b@.pending is None,
            b@.version == 0,
            b@.edits == Seq::<Edit>::empty(),
    {
        let mut pieces: Vec<Piece> = Vec::new();
        if content.len() > 0 {
            pieces.push(Piece { source: Source::Original, start: 0, len: content.len() });
        }
        proof {
            if content@.len() > 0 {
                assert(pieces@ =~= seq![pieces@[0]]);
                lemma_text_single(content@, Seq::empty(), pieces@[0]);
                assert(content@.subrange(0, content@.len() as int) =~= content@);
            }
            assert(pieces_text(content@, Seq::empty(), pieces@) =~= content@);
        }
        let line_starts = line_starts_scan(content.as_slice());
        Buffer {
            original: content,
            append: Vec::new(),
            pieces,
            undo_stack: Vec::new(),
            redo_stack: Vec::new(),
            pending_commit: None,
            version: 0,
            line_starts,
            pending_edits: Vec::new(),
        }
    }
}

proof fn lemma_breaks_step(t: Seq<u8>, i: int)
    requires
        0 <= i < t.len(),
    ensures
        breaks_of(t.take(i + 1)) == (if t[i] == NL {
            breaks_of(t.take(i)).push(i + 1)
        } else {
            breaks_of(t.take(i))
        }),
{
    assert(t.take(i + 1).drop_last() =~= t.take(i));
    assert(t.take(i + 1).last() == t[i]);
}

/// The line index of a text, by one scan of it.
pub fn line_starts_scan(content: &[u8]) -> (r: Vec<usize>)
    ensures
        indexes(r@, content@),
{
    let mut r: Vec<usize> = Vec::new();
    r.push(0);
    let mut i: usize = 0;
    assert(content@.take(0) =~= Seq::<u8>::empty());
    while i < content.len()
        invariant
            i <= content@.len(),
            indexes(r@, content@.take(i as int)),
        decreases content@.len() - i,
    {
        proof {
            lemma_breaks_step(content@, i as int);
        }
        if content[i] == NL {
            r.push(i + 1);
        }
        i += 1;
    }
    assert(content@.take(i as int) =~= content@);
    r
}

impl Buffer {
    /// Length of the text in bytes.
    pub fn len(&self) -> (n: usize)
        requires
            self.wf(),
        ensures
            n == self@.text.len(),
    {
        let mut acc: usize = 0;
        let mut i: usize = 0;
        let ghost o = self.original@;
        let ghost a = self.append@;
        let ghost ps = self.pieces@;
        while i < self.pieces.len()
            invariant
                i <= ps.len(),
                ps == self.pieces@,
                pieces_ok(o, a, ps),
                acc == pieces_text(o, a, ps.take(i as int)).len(),
                pieces_text(o, a, ps).len() <= usize::MAX,
            decreases ps.len() - i,
        {
            proof {
                lemma_text_split(o, a, ps, i as int);
                assert(piece_ok(o, a, ps[i as int]));
            }
            acc += self.pieces[i].len;
            i += 1;
        }
        assert(ps.take(i as int) =~= ps);
        acc
    }

    pub fn is_empty(&self) -> (r: bool)
        requires
            self.wf(),
        ensures
            r == (self@.text.len() == 0),
    {
        proof {
            lemma_text_empty(self.original@, self.append@, self.pieces@);
        }
        self.pieces.len() == 0
    }

    fn piece_slice(&self, p: &Piece) -> (r: &[u8])
        requires
            piece_ok(self.original@, self.append@, *p),
        ensures
            r@ == piece_bytes(self.original@, self.append@, *p),
    {
        let src: &Vec<u8> = match p.source {
            Source::Original => &self.original,
            Source::Append => &self.append,
        };
        assert(p.start + p.len <= src.len());
        vstd::slice::slice_subrange(src.as_slice(), p.start, p.start + p.len)
    }

    /// The byte stretches that make up the text, in order.
    pub fn slices(&self) -> (r: Vec<&[u8]>)
        requires
            self.wf(),
        ensures
            self@.text == joined(r@),
            forall|i: int| 0 <= i < r@.len() ==> (#[trigger] r@[i])@.len() > 0,
    {
        let mut r: Vec<&[u8]> = Vec::new();
        let mut i: usize = 0;
        let ghost o = self.original@;
        let ghost a = self.append@;
        let ghost ps = self.pieces@;
        while i < self.pieces.len()
            invariant
                i <= ps.len(),
                ps == self.pieces@,
                o == self.original@,
                a == self.append@,
                pieces_ok(o, a, ps),
                pieces_text(o, a, ps.take(i as int)) == joined(r@),
                forall|i: int| 0 <= i < r@.len() ==> (#[trigger] r@[i])@.len() > 0,
            decreases ps.len() - i,
        {
            assert(piece_ok(o, a, ps[i as int]));
            let ghost before = r@;
            let slice = self.piece_slice(&self.pieces[i]);
            r.push(slice);
            proof {
                lemma_text_split(o, a, ps, i as int);
                assert(r@.drop_last() =~= before);
            }
            i += 1;
        }
        assert(ps.take(i as int) =~= ps);
        r
    }

    /// The piece that holds `offset` and the offset within it; one past the
    /// last piece for an offset at or past the end.
    fn locate(&self, offset: usize) -> (r: (usize, usize))
        requires
            self.wf(),
        ensures
            r.0 <= self.pieces@.len(),
            offset >= self@.text.len() ==> r.0 == self.pieces@.len() && r.1 == 0,
            offset < self@.text.len() ==> {
                &&& r.0 < self.pieces@.len()
                &&& r.1 < self.pieces@[r.0 as int].len
                &&& pieces_text(self.original@, self.append@, self.pieces@.take(r.0 as int)).len()
                    + r.1 == offset
            },
    {
        let mut acc: usize = 0;
        let mut i: usize = 0;
        let ghost o = self.original@;
        let ghost a = self.append@;
        let ghost ps = self.pieces@;
        while i < self.pieces.len()
            invariant
                i <= ps.len(),
                ps == self.pieces@,
                o == self.original@,
                a == self.append@,
                self@.text == pieces_text(o, a, ps),
                pieces_ok(o, a, ps),
                acc == pieces_text(o, a, ps.take(i as int)).len(),
                acc <= offset,
                pieces_text(o, a, ps).len() <= usize::MAX,
            decreases ps.len() - i,
        {
            proof {
                lemma_text_split(o, a, ps, i as int);
                assert(piece_ok(o, a, ps[i as int]));
            }
            let next: usize = acc + self.pieces[i].len;
            if offset < next {
                return (i, offset - acc);
            }
            acc = next;
            i += 1;
        }
        assert(ps.take(i as int) =~= ps);
        (self.pieces.len(), 0)
    }

    /// Make the next mutation record an undo state that restores `cursor`.
    /// Mutations between two such marks are undone in one step.
    pub fn mark_commit_point(&mut self, cursor: CursorSnapshot)
        requires
            old(self).wf(),
        ensures
            final(self).wf(),
            final(self)@ == old(self)@.marked(cursor),
    {
        self.pending_commit = Some(cursor);
    }

    fn maybe_commit(&mut self)
        requires
            old(self).wf(),
        ensures
            final(self).wf(),
            final(self)@ == old(self)@.committed(),
            final(self).original@ == old(self).original@,
            final(self).append@ == old(self).append@,
            final(self).pieces@ == old(self).pieces@,
            final(self).line_starts@ == old(self).line_starts@,
    {
        let cursor = match self.pending_commit.take() {
            Some(c) => c,
            None => {
                return;
            },
        };
        let ghost o = self.original@;
        let ghost a = self.append@;
        let ghost here = Snapshot { text: pieces_text(o, a, self.pieces@), cursor };
        let here_pieces = self.pieces.clone();
        assert(here_pieces@ =~= self.pieces@);
        let ghost undo0 = old(self)@.undo;
        let ghost redo0 = old(self)@.redo;
        if self.redo_stack.len() == 0 {
            self.undo_stack.push(UndoEntry { pieces: here_pieces, cursor });
            assert(entries_view(o, a, self.undo_stack@) =~= undo0.push(here));
            return;
        }
        let again = here_pieces.clone();
        assert(again@ =~= here_pieces@);
        self.undo_stack.push(UndoEntry { pieces: here_pieces, cursor });
        assert(entries_view(o, a, self.undo_stack@) =~= undo0.push(here));
        let n: usize = self.redo_stack.len();
        let mut i: usize = 0;
        assert(redo0.reverse().take(0) =~= Seq::<Snapshot>::empty());
        while i < n
            invariant
                i <= n == self.redo_stack@.len() == redo0.len(),
                o == self.original@,
                a == self.append@,
                o == old(self).original@,
                a == old(self).append@,
                self.pieces@ == old(self).pieces@,
                self.line_starts@ == old(self).line_starts@,
                self.version == old(self).version,
                self.pending_edits@ == old(self).pending_edits@,
                self.pending_commit is None,
                entries_ok(o, a, self.undo_stack@),
                entries_ok(o, a, self.redo_stack@),
                redo0 == entries_view(o, a, self.redo_stack@),
                entries_view(o, a, self.undo_stack@) == undo0.push(here) + redo0.reverse().take(
                    i as int,
                ),
            decreases n - i,
        {
            let e = copy_entry(&self.redo_stack[n - 1 - i]);
            assert(entry_ok(o, a, self.redo_stack@[n - 1 - i]));
            assert(entry_view(o, a, e) == redo0.reverse()[i as int]);
            proof {
                lemma_entries_push(o, a, self.undo_stack@, e);
            }
            self.undo_stack.push(e);
            assert((undo0.push(here) + redo0.reverse().take(i as int)).push(
                redo0.reverse()[i as int],
            ) =~= undo0.push(here) + redo0.reverse().take(i + 1));
            i += 1;
        }
        let mut j: usize = 1;
        assert(redo0.reverse().take(n as int) =~= redo0.reverse());
        assert(redo0.skip(1).take(0) =~= Seq::<Snapshot>::empty());
        let ghost base = undo0.push(here) + redo0.reverse();
        assert(entries_view(o, a, self.undo_stack@) =~= base + redo0.skip(1).take(0));
        while j < n
            invariant
                1 <= j <= n == self.redo_stack@.len() == redo0.len(),
                o == self.original@,
                a == self.append@,
                o == old(self).original@,
                a == old(self).append@,
                self.pieces@ == old(self).pieces@,
                self.line_starts@ == old(self).line_starts@,
                self.version == old(self).version,
                self.pending_edits@ == old(self).pending_edits@,
                self.pending_commit is None,
                entries_ok(o, a, self.undo_stack@),
                entries_ok(o, a, self.redo_stack@),
                redo0 == entries_view(o, a, self.redo_stack@),
                entries_view(o, a, self.undo_stack@) == base + redo0.skip(1).take(j - 1),
            decreases n - j,
        {
            let e = copy_entry(&self.redo_stack[j]);
            assert(entry_ok(o, a, self.redo_stack@[j as int]));
            assert(entry_view(o, a, e) == redo0.skip(1)[j - 1]);
            proof {
                lemma_entries_push(o, a, self.undo_stack@, e);
            }
            self.undo_stack.push(e);
            assert((base + redo0.skip(1).take(j - 1)).push(redo0.skip(1)[j - 1]) =~= base
                + redo0.skip(1).take(j as int));
            j += 1;
        }
        assert(redo0.skip(1).take(j - 1) =~= redo0.skip(1));
        self.undo_stack.push(UndoEntry { pieces: again, cursor });
        assert(entries_view(o, a, self.undo_stack@) =~= (base + redo0.skip(1)).push(here));
        self.redo_stack.clear();
        assert(entries_view(o, a, self.redo_stack@) =~= Seq::<Snapshot>::empty());
    }

    /// How many mutations there have been, modulo the range of the counter.
    pub fn version(&self) -> (v: u64)
        ensures
            v == self@.version,
    {
        self.version
    }

    /// The line index of the text.
    pub fn line_starts(&self) -> (r: &[usize])
        requires
            self.wf(),
        ensures
            indexes(r@, self@.text),
    {
        self.line_starts.as_slice()
    }

    /// Row and byte column of `offset`, clamped to the end of the text.
    pub fn position_at(&self, offset: usize) -> (p: Point)
        requires
            self.wf(),
        ensures
            p == position_of(self@.text, imin(offset as int, self@.text.len() as int)),
    {
        let len: usize = self.len();
        let offset: usize = if offset < len { offset } else { len };
        proof {
            lemma_index_ascending(self.line_starts@, self@.text);
            cached_line_is_line(self.line_starts@, self@.text, offset as int);
            lemma_line_start_bounds(self@.text, offset as int);
            lemma_newlines_bound(self@.text, offset as int);
        }
        let row: usize = line_index_cached(self.line_starts.as_slice(), offset);
        let start: usize = self.line_starts[row];
        Point { row, column: offset - start }
    }

    /// Hand out the logged edits and empty the log.
    pub fn drain_pending_edits(&mut self) -> (r: Vec<Edit>)
        requires
            old(self).wf(),
        ensures
            final(self).wf(),
            r@ == old(self)@.edits,
            final(self)@ == old(self)@.drained(),
    {
        let mut r: Vec<Edit> = Vec::new();
        std::mem::swap(&mut r, &mut self.pending_edits);
        r
    }
}

/// The concatenation of byte stretches.
pub open spec fn joined(parts: Seq<&[u8]>) -> Seq<u8>
    decreases parts.len(),
{
    if parts.len() == 0 {
        Seq::empty()
    } else {
        joined(parts.drop_last()) + parts.last()@
    }
}

/// The whole text of a buffer as one vector.
pub fn collect_bytes(buffer: &Buffer) -> (r: Vec<u8>)
    requires
        buffer.wf(),
    ensures
        r@ == buffer@.text,
{
    let parts = buffer.slices();
    let mut r: Vec<u8> = Vec::new();
    let mut i: usize = 0;
    assert(parts@.take(0) =~= Seq::<&[u8]>::empty());
    while i < parts.len()
        invariant
            i <= parts@.len(),
            r@ == joined(parts@.take(i as int)),
        decreases parts@.len() - i,
    {
        r.extend_from_slice(parts[i]);
        assert(parts@.take(i + 1).drop_last() =~= parts@.take(i as int));
        i += 1;
    }
    assert(parts@.take(i as int) =~= parts@);
    r
}

/// Position reached from `start_pos` by the characters of `text`.
fn position_after_text(start_pos: Point, text: &[u8]) -> (p: Point)
    requires
        start_pos.row + text@.len() <= usize::MAX,
        start_pos.column + text@.len() <= usize::MAX,
    ensures
        p.row == start_pos.row + newlines_before(text@, text@.len() as int),
        p.column == (if newlines_before(text@, text@.len() as int) == 0 {
            start_pos.column + text@.len()
        } else {
            text@.len() - line_start_of(text@, text@.len() as int)
        }),
{
    let mut rows: usize = 0;
    let mut last: usize = 0;
    let mut i: usize = 0;
    while i < text.len()
        invariant
            i <= text@.len(),
            rows <= i,
            last <= i,
            rows == newlines_before(text@, i as int),
            last == line_start_of(text@, i as int),
        decreases text@.len() - i,
    {
        if text[i] == NL {
            rows += 1;
            last = i + 1;
        }
        i += 1;
    }
    if rows == 0 {
        Point { row: start_pos.row, column: start_pos.column + text.len() }
    } else {
        Point { row: start_pos.row + rows, column: text.len() - last }
    }
}

proof fn lemma_position_after(s: Seq<u8>, o: int, t: Seq<u8>, k: int)
    requires
        0 <= o <= s.len(),
        0 <= k <= t.len(),
    ensures
        newlines_before(spliced_in(s, o, t), o + k) == newlines_before(s, o) + newlines_before(t, k),
        line_start_of(spliced_in(s, o, t), o + k) == (if newlines_before(t, k) == 0 {
            line_start_of(s, o)
        } else {
            o + line_start_of(t, k)
        }),
    decreases k,
{
    let u = spliced_in(s, o, t);
    if k == 0 {
        lemma_newlines_prefix(s, u, o);
    } else {
        lemma_position_after(s, o, t, k - 1);
        assert(u[o + k - 1] == t[k - 1]);
    }
}

/// The line index after `text` was inserted at `offset`.
fn line_starts_with(line_starts: &Vec<usize>, Ghost(s): Ghost<Seq<u8>>, offset: usize, text: &[u8]) -> (r:
    Vec<usize>)
    requires
        indexes(line_starts@, s),
        offset <= s.len(),
        s.len() + text@.len() <= usize::MAX,
    ensures
        indexes(r@, spliced_in(s, offset as int, text@)),
{
    let ghost o = offset as int;
    let ghost before = breaks_of(s.take(o));
    let ghost after = breaks_of(s.skip(o));
    let ghost n = text@.len() as int;
    proof {
        lemma_index_ascending(line_starts@, s);
        lemma_breaks_split(s, o);
        lemma_breaks(s.skip(o));
    }
    let split: usize = count_at_most(line_starts.as_slice(), offset);
    proof {
        let k = before.len() as int;
        if split > k + 1 {
            assert(line_starts@[k + 1] == breaks_of(s)[k]);
        }
        if split < k + 1 {
            if split > 0 {
                assert(line_starts@[split as int] == breaks_of(s)[split - 1]);
            }
        }
        assert(split == k + 1);
    }
    let mut r: Vec<usize> = Vec::new();
    let mut i: usize = 0;
    while i < split
        invariant
            i <= split <= line_starts@.len(),
            r@ == line_starts@.take(i as int),
        decreases split - i,
    {
        r.push(line_starts[i]);
        assert(line_starts@.take(i as int).push(line_starts@[i as int]) =~= line_starts@.take(
            i + 1,
        ));
        i += 1;
    }
    let ghost head = seq![0int] + before;
    proof {
        assert forall|i: int| 0 <= i < r@.len() implies #[trigger] r@[i] == head[i] by {
            assert(r@[i] == line_starts@[i]);
            if i > 0 {
                assert(line_starts@[i] == breaks_of(s)[i - 1]);
            }
        }
        assert(text@.take(0) =~= Seq::<u8>::empty());
        assert(shifted(breaks_of(text@.take(0)), o) =~= Seq::<int>::empty());
        assert(head + shifted(breaks_of(text@.take(0)), o) =~= head);
    }
    let mut j: usize = 0;
    while j < text.len()
        invariant
            j <= text@.len(),
            offset == o,
            offset + text@.len() <= usize::MAX,
            same_numbers(r@, head + shifted(breaks_of(text@.take(j as int)), o)),
        decreases text@.len() - j,
    {
        proof {
            lemma_breaks_step(text@, j as int);
        }
        if text[j] == NL {
            r.push(offset + (j + 1));
            assert(shifted(breaks_of(text@.take(j + 1)), o) =~= shifted(
                breaks_of(text@.take(j as int)),
                o,
            ).push(o + j + 1));
            assert(head + shifted(breaks_of(text@.take(j + 1)), o) =~= (head + shifted(
                breaks_of(text@.take(j as int)),
                o,
            )).push(o + j + 1));
        }
        j += 1;
    }
    assert(text@.take(j as int) =~= text@);
    let ghost mid = head + shifted(breaks_of(text@), o);
    let ghost tail = shifted(after, o + n);
    let mut k: usize = split;
    assert(mid + tail.take(0) =~= mid);
    while k < line_starts.len()
        invariant
            split <= k <= line_starts@.len(),
            indexes(line_starts@, s),
            split == before.len() + 1,
            breaks_of(s) == before + shifted(after, o),
            forall|i: int| 0 <= i < after.len() ==> #[trigger] after[i] <= s.len() - o,
            s.len() + text@.len() <= usize::MAX,
            n == text@.len(),
            tail == shifted(after, o + n),
            same_numbers(r@, mid + tail.take(k - split)),
        decreases line_starts@.len() - k,
    {
        proof {
            let m = k - split;
            assert(line_starts@[k as int] == breaks_of(s)[k - 1]);
            assert(breaks_of(s)[k - 1] == after[m] + o);
            assert(tail[m] == after[m] + o + n);
            assert((mid + tail.take(m)).push(tail[m]) =~= mid + tail.take(m + 1));
        }
        r.push(line_starts[k] + text.len());
        k += 1;
    }
    proof {
        assert(line_starts@.len() == 1 + before.len() + after.len());
        assert(tail.take(k - split) =~= tail);
        lemma_breaks_concat(s.take(o), text@);
        lemma_breaks_concat(s.take(o) + text@, s.skip(o));
        assert(line_starts_of(spliced_in(s, o, text@)) =~= mid + tail);
    }
    r
}

/// The line index after the bytes from `offset` to `end` were removed.
fn line_starts_without(
    line_starts: &Vec<usize>,
    Ghost(s): Ghost<Seq<u8>>,
    offset: usize,
    end: usize,
) -> (r: Vec<usize>)
    requires
        indexes(line_starts@, s),
        offset <= end <= s.len(),
    ensures
        indexes(r@, cut_out(s, offset as int, end as int)),
{
    let ghost o = offset as int;
    let ghost e = end as int;
    let ghost before = breaks_of(s.take(o));
    let ghost after = breaks_of(s.skip(e));
    proof {
        lemma_index_ascending(line_starts@, s);
        lemma_breaks_split(s, o);
        lemma_breaks_split(s, e);
        lemma_breaks(s.skip(e));
    }
    let keep: usize = count_at_most(line_starts.as_slice(), offset);
    let from: usize = count_at_most(line_starts.as_slice(), end);
    proof {
        let a = newlines_before(s, o) as int;
        let b = newlines_before(s, e) as int;
        if keep > a + 1 {
            assert(line_starts@[a + 1] == breaks_of(s)[a]);
        }
        if 0 < keep < a + 1 {
            assert(line_starts@[keep as int] == breaks_of(s)[keep - 1]);
        }
        assert(keep == a + 1);
        if from > b + 1 {
            assert(line_starts@[b + 1] == breaks_of(s)[b]);
        }
        if 0 < from < b + 1 {
            assert(line_starts@[from as int] == breaks_of(s)[from - 1]);
        }
        assert(from == b + 1);
    }
    let mut r: Vec<usize> = Vec::new();
    let mut i: usize = 0;
    while i < keep
        invariant
            i <= keep <= line_starts@.len(),
            r@ == line_starts@.take(i as int),
        decreases keep - i,
    {
        r.push(line_starts[i]);
        assert(line_starts@.take(i as int).push(line_starts@[i as int]) =~= line_starts@.take(
            i + 1,
        ));
        i += 1;
    }
    let ghost head = seq![0int] + before;
    let ghost tail = shifted(after, o);
    proof {
        assert forall|i: int| 0 <= i < r@.len() implies #[trigger] r@[i] == head[i] by {
            assert(r@[i] == line_starts@[i]);
            if i > 0 {
                assert(line_starts@[i] == breaks_of(s)[i - 1]);
            }
        }
        assert(head + tail.take(0) =~= head);
    }
    let mut k: usize = from;
    while k < line_starts.len()
        invariant
            from <= k <= line_starts@.len(),
            indexes(line_starts@, s),
            offset == o,
            end == e,
            offset <= end,
            from == breaks_of(s.take(e)).len() + 1,
            breaks_of(s) == breaks_of(s.take(e)) + shifted(after, e),
            forall|i: int| 0 <= i < after.len() ==> #[trigger] after[i] > 0,
            tail == shifted(after, o),
            same_numbers(r@, head + tail.take(k - from)),
        decreases line_starts@.len() - k,
    {
        proof {
            let m = k - from;
            assert(line_starts@[k as int] == breaks_of(s)[k - 1]);
            assert(breaks_of(s)[k - 1] == after[m] + e);
            assert(tail[m] == after[m] + o);
            assert((head + tail.take(m)).push(tail[m]) =~= head + tail.take(m + 1));
        }
        r.push(line_starts[k] - (end - offset));
        k += 1;
    }
    proof {
        assert(tail.take(k - from) =~= tail);
        lemma_breaks_concat(s.take(o), s.skip(e));
        assert(line_starts_of(cut_out(s, o, e)) =~= head + tail);
    }
    r
}

spec fn front_of(p: Piece, k: int) -> Piece {
    Piece { source: p.source, start: p.start, len: k as usize }
}

spec fn back_of(p: Piece, k: int) -> Piece {
    Piece { source: p.source, start: (p.start + k) as usize, len: (p.len - k) as usize }
}

/// Cutting the table in two at offset `k` of piece `i`.
proof fn lemma_cut_at(o: Seq<u8>, a: Seq<u8>, ps: Seq<Piece>, i: int, k: int)
    requires
        pieces_ok(o, a, ps),
        o.len() <= usize::MAX,
        a.len() <= usize::MAX,
        0 <= i < ps.len(),
        0 < k < ps[i].len,
    ensures
        ({
            let at = pieces_text(o, a, ps.take(i)).len() + k;
            let left = ps.take(i).push(front_of(ps[i], k));
            let right = seq![back_of(ps[i], k)] + ps.skip(i + 1);
            &&& at <= pieces_text(o, a, ps).len()
            &&& pieces_ok(o, a, left)
            &&& pieces_ok(o, a, right)
            &&& pieces_text(o, a, left) == pieces_text(o, a, ps).take(at)
            &&& pieces_text(o, a, right) == pieces_text(o, a, ps).skip(at)
        }),
{
    let p = ps[i];
    assert(piece_ok(o, a, p));
    let at = pieces_text(o, a, ps.take(i)).len() + k;
    let f = front_of(p, k);
    let b = back_of(p, k);
    lemma_text_split(o, a, ps, i);
    lemma_text_single(o, a, b);
    lemma_text_concat(o, a, seq![b], ps.skip(i + 1));
    assert(ps.take(i).push(f).drop_last() =~= ps.take(i));
    assert(piece_bytes(o, a, f) =~= piece_bytes(o, a, p).take(k));
    assert(piece_bytes(o, a, b) =~= piece_bytes(o, a, p).skip(k));
    let text = pieces_text(o, a, ps);
    assert(text.take(at) =~= pieces_text(o, a, ps.take(i)) + piece_bytes(o, a, f));
    assert(text.skip(at) =~= piece_bytes(o, a, b) + pieces_text(o, a, ps.skip(i + 1)));
    lemma_pieces_ok_parts(o, a, ps, i);
    lemma_pieces_ok_parts(o, a, ps, i + 1);
}

proof fn lemma_pieces_ok_parts(o: Seq<u8>, a: Seq<u8>, ps: Seq<Piece>, i: int)
    requires
        pieces_ok(o, a, ps),
        0 <= i <= ps.len(),
    ensures
        pieces_ok(o, a, ps.take(i)),
        pieces_ok(o, a, ps.skip(i)),
{
    assert forall|j: int| 0 <= j < i implies piece_ok(o, a, #[trigger] ps.take(i)[j]) by {
        assert(piece_ok(o, a, ps[j]));
    }
    assert forall|j: int| 0 <= j < ps.len() - i implies piece_ok(
        o,
        a,
        #[trigger] ps.skip(i)[j],
    ) by {
        assert(piece_ok(o, a, ps[i + j]));
    }
}

proof fn lemma_pieces_ok_concat(o: Seq<u8>, a: Seq<u8>, p: Seq<Piece>, q: Seq<Piece>)
    requires
        pieces_ok(o, a, p),
        pieces_ok(o, a, q),
    ensures
        pieces_ok(o, a, p + q),
{
    assert forall|j: int| 0 <= j < (p + q).len() implies piece_ok(o, a, #[trigger] (p + q)[j]) by {
        if j < p.len() {
            assert(piece_ok(o, a, p[j]));
        } else {
            assert(piece_ok(o, a, q[j - p.len()]));
        }
    }
}

/// Put `piece` into the table so that it starts at offset `po` of piece `pi`.
fn splice_piece(
    pieces: &mut Vec<Piece>,
    Ghost(o): Ghost<Seq<u8>>,
    Ghost(a): Ghost<Seq<u8>>,
    pi: usize,
    po: usize,
    piece: Piece,
)
    requires
        pieces_ok(o, a, old(pieces)@),
        piece_ok(o, a, piece),
        o.len() <= usize::MAX,
        a.len() <= usize::MAX,
        pi <= old(pieces)@.len(),
        pi == old(pieces)@.len() ==> po == 0,
        pi < old(pieces)@.len() ==> po < old(pieces)@[pi as int].len,
    ensures
        pieces_ok(o, a, final(pieces)@),
        pieces_text(o, a, final(pieces)@) == spliced_in(
            pieces_text(o, a, old(pieces)@),
            pieces_text(o, a, old(pieces)@.take(pi as int)).len() + po,
            piece_bytes(o, a, piece),
        ),
{
    let ghost ps = pieces@;
    let ghost text = pieces_text(o, a, ps);
    let ghost at = pieces_text(o, a, ps.take(pi as int)).len() + po as int;
    let ghost mut left = ps.take(pi as int);
    let ghost mut right = ps.skip(pi as int);
    if po == 0 {
        pieces.insert(pi, piece);
        proof {
            lemma_text_prefix_len(o, a, ps, pi as int);
            lemma_pieces_ok_parts(o, a, ps, pi as int);
            assert(text.take(at) =~= pieces_text(o, a, left));
            assert(text.skip(at) =~= pieces_text(o, a, right));
        }
    } else {
        let whole = pieces[pi];
        assert(piece_ok(o, a, ps[pi as int]));
        pieces[pi] = Piece { source: whole.source, start: whole.start, len: po };
        assert(pi < pieces.len());
        pieces.insert(pi + 1, piece);
        assert(pi + 1 < pieces.len());
        pieces.insert(
            pi + 2,
            Piece { source: whole.source, start: whole.start + po, len: whole.len - po },
        );
        proof {
            lemma_cut_at(o, a, ps, pi as int, po as int);
            left = ps.take(pi as int).push(front_of(whole, po as int));
            right = seq![back_of(whole, po as int)] + ps.skip(pi + 1);
        }
    }
    proof {
        assert(pieces@ =~= left + seq![piece] + right);
        lemma_text_single(o, a, piece);
        lemma_text_concat(o, a, left, seq![piece]);
        lemma_text_concat(o, a, left + seq![piece], right);
        lemma_pieces_ok_concat(o, a, left, seq![piece]);
        lemma_pieces_ok_concat(o, a, left + seq![piece], right);
    }
}

/// Drop `remaining` bytes from the pieces at index `k` and after.
fn drop_front(
    pieces: &mut Vec<Piece>,
    Ghost(o): Ghost<Seq<u8>>,
    Ghost(a): Ghost<Seq<u8>>,
    k: usize,
    remaining: usize,
)
    requires
        pieces_ok(o, a, old(pieces)@),
        o.len() <= usize::MAX,
        a.len() <= usize::MAX,
        k <= old(pieces)@.len(),
        remaining <= pieces_text(o, a, old(pieces)@.skip(k as int)).len(),
    ensures
        pieces_ok(o, a, final(pieces)@),
        pieces_text(o, a, final(pieces)@) == pieces_text(o, a, old(pieces)@.take(k as int))
            + pieces_text(o, a, old(pieces)@.skip(k as int)).skip(remaining as int),
{
    let ghost keep = pieces@.take(k as int);
    let ghost rest = pieces_text(o, a, pieces@.skip(k as int)).skip(remaining as int);
    let mut remaining: usize = remaining;
    while remaining > 0
        invariant
            k <= pieces@.len(),
            pieces_ok(o, a, pieces@),
            o.len() <= usize::MAX,
            a.len() <= usize::MAX,
            pieces@.take(k as int) == keep,
            pieces_text(o, a, pieces@.skip(k as int)).len() >= remaining,
            pieces_text(o, a, pieces@.skip(k as int)).skip(remaining as int) == rest,
        decreases remaining,
    {
        let ghost cur = pieces@;
        let ghost tail = cur.skip(k as int);
        let ghost tail_text = pieces_text(o, a, tail);
        proof {
            if tail.len() == 0 {
                assert(tail_text.len() == 0);
            }
            assert(tail[0] == cur[k as int]);
            assert(piece_ok(o, a, cur[k as int]));
            lemma_text_split(o, a, tail, 0);
            assert(tail.take(0) =~= Seq::<Piece>::empty());
            assert(pieces_text(o, a, tail.take(0)).len() == 0);
            assert(tail.skip(1) =~= cur.skip(k + 1));
            lemma_pieces_ok_parts(o, a, cur, k as int);
            lemma_pieces_ok_parts(o, a, cur, k + 1);
        }
        let p = pieces[k];
        if p.len <= remaining {
            pieces.remove(k);
            proof {
                assert(pieces@ =~= keep + cur.skip(k + 1));
                assert(pieces@.take(k as int) =~= keep);
                assert(pieces@.skip(k as int) =~= cur.skip(k + 1));
                assert(pieces_text(o, a, cur.skip(k + 1)).skip(remaining - p.len)
                    =~= tail_text.skip(remaining as int));
                lemma_pieces_ok_concat(o, a, keep, cur.skip(k + 1));
            }
            remaining -= p.len;
        } else {
            proof {
                lemma_cut_at(o, a, tail, 0, remaining as int);
            }
            pieces[k] = Piece {
                source: p.source,
                start: p.start + remaining,
                len: p.len - remaining,
            };
            proof {
                let right = seq![back_of(p, remaining as int)] + tail.skip(1);
                assert(pieces@ =~= keep + right);
                assert(pieces@.take(k as int) =~= keep);
                assert(pieces@.skip(k as int) =~= right);
                assert(pieces_text(o, a, right).skip(0) =~= pieces_text(o, a, right));
                lemma_pieces_ok_concat(o, a, keep, right);
            }
            remaining = 0;
        }
    }
    proof {
        lemma_text_prefix_len(o, a, pieces@, k as int);
        assert(pieces_text(o, a, pieces@.skip(k as int)).skip(0) =~= pieces_text(
            o,
            a,
            pieces@.skip(k as int),
        ));
    }
}

/// Take `length` bytes out of the table from offset `po` of piece `pi` on.
fn cut_pieces(
    pieces: &mut Vec<Piece>,
    Ghost(o): Ghost<Seq<u8>>,
    Ghost(a): Ghost<Seq<u8>>,
    pi: usize,
    po: usize,
    length: usize,
)
    requires
        pieces_ok(o, a, old(pieces)@),
        pi < old(pieces)@.len(),
        po < old(pieces)@[pi as int].len,
        o.len() <= usize::MAX,
        a.len() <= usize::MAX,
        pieces_text(o, a, old(pieces)@.take(pi as int)).len() + po + length <= pieces_text(
            o,
            a,
            old(pieces)@,
        ).len(),
    ensures
        pieces_ok(o, a, final(pieces)@),
        ({
            let at = pieces_text(o, a, old(pieces)@.take(pi as int)).len() + po;
            pieces_text(o, a, final(pieces)@) == cut_out(
                pieces_text(o, a, old(pieces)@),
                at,
                at + length,
            )
        }),
{
    let ghost ps = pieces@;
    let ghost text = pieces_text(o, a, ps);
    let ghost at = pieces_text(o, a, ps.take(pi as int)).len() + po as int;
    let ghost end = at + length;
    assert(pi < pieces.len());
    proof {
        lemma_text_prefix_len(o, a, ps, pi as int);
    }
    if po == 0 {
        proof {
            assert(text.take(at) =~= pieces_text(o, a, ps.take(pi as int)));
            assert(text.skip(at) =~= pieces_text(o, a, ps.skip(pi as int)));
            assert(text.skip(at).skip(length as int) =~= text.skip(end));
        }
        drop_front(pieces, Ghost(o), Ghost(a), pi, length);
        return;
    }
    let p = pieces[pi];
    assert(piece_ok(o, a, ps[pi as int]));
    proof {
        lemma_cut_at(o, a, ps, pi as int, po as int);
        assert(text.skip(at).skip(length as int) =~= text.skip(end));
    }
    let ghost left = ps.take(pi as int).push(front_of(p, po as int));
    let ghost right = seq![back_of(p, po as int)] + ps.skip(pi + 1);
    pieces[pi] = Piece { source: p.source, start: p.start, len: po };
    pieces.insert(
        pi + 1,
        Piece { source: p.source, start: p.start + po, len: p.len - po },
    );
    proof {
        assert(pieces@ =~= left + right);
        assert(pieces@.take(pi + 1) =~= left);
        assert(pieces@.skip(pi + 1) =~= right);
        lemma_pieces_ok_concat(o, a, left, right);
    }
    drop_front(pieces, Ghost(o), Ghost(a), pi + 1, length);
}

impl Buffer {
    fn rebuild_line_starts(&mut self)
        requires
            pieces_ok(old(self).original@, old(self).append@, old(self).pieces@),
        ensures
            indexes(final(self).line_starts@, final(self)@.text),
            final(self)@ == old(self)@,
            final(self).original@ == old(self).original@,
            final(self).append@ == old(self).append@,
            final(self).pieces@ == old(self).pieces@,
            final(self).undo_stack@ == old(self).undo_stack@,
            final(self).redo_stack@ == old(self).redo_stack@,
    {
        let ghost o = self.original@;
        let ghost a = self.append@;
        let ghost ps = self.pieces@;
        let mut text: Vec<u8> = Vec::new();
        let mut i: usize = 0;
        while i < self.pieces.len()
            invariant
                i <= ps.len(),
                ps == self.pieces@,
                o == self.original@,
                a == self.append@,
                pieces_ok(o, a, ps),
                text@ == pieces_text(o, a, ps.take(i as int)),
            decreases ps.len() - i,
        {
            assert(piece_ok(o, a, ps[i as int]));
            text.extend_from_slice(self.piece_slice(&self.pieces[i]));
            proof {
                lemma_text_split(o, a, ps, i as int);
            }
            i += 1;
        }
        assert(ps.take(i as int) =~= ps);
        self.line_starts = line_starts_scan(text.as_slice());
    }

    /// Replace the whole text by an earlier or later state of it.
    fn swap_in(&mut self, pieces: Vec<Piece>) -> (r: Vec<Piece>)
        requires
            old(self).wf(),
            pieces_ok(old(self).original@, old(self).append@, pieces@),
            pieces_text(old(self).original@, old(self).append@, pieces@).len() <= usize::MAX,
        ensures
            final(self).wf(),
            final(self).original@ == old(self).original@,
            final(self).append@ == old(self).append@,
            final(self).undo_stack@ == old(self).undo_stack@,
            final(self).redo_stack@ == old(self).redo_stack@,
            r@ == old(self).pieces@,
            forall|cursor: CursorSnapshot|
                final(self)@ == #[trigger] old(self)@.swapped(
                    Snapshot {
                        text: pieces_text(old(self).original@, old(self).append@, pieces@),
                        cursor,
                    },
                ),
    {
        let ghost o = self.original@;
        let ghost a = self.append@;
        let old_len: usize = self.len();
        let old_end = self.position_at(old_len);
        let mut pieces = pieces;
        std::mem::swap(&mut pieces, &mut self.pieces);
        self.pending_commit = None;
        self.version = self.version.wrapping_add(1);
        self.rebuild_line_starts();
        let new_len: usize = self.len();
        let new_end = self.position_at(new_len);
        self.pending_edits.push(
            Edit {
                start_byte: 0,
                old_end_byte: old_len,
                new_end_byte: new_len,
                start_position: Point { row: 0, column: 0 },
                old_end_position: old_end,
                new_end_position: new_end,
            },
        );
        pieces
    }

    /// Go back to the last committed state and hand out the cursor that was
    /// saved with it; `current_cursor` is what redoing will restore.
    pub fn undo(&mut self, current_cursor: CursorSnapshot) -> (r: Option<CursorSnapshot>)
        requires
            old(self).wf(),
        ensures
            final(self).wf(),
            final(self)@ == old(self)@.undone(current_cursor),
            r == (if old(self)@.undo.len() == 0 {
                None
            } else {
                Some(old(self)@.undo.last().cursor)
            }),
    {
        let ghost o = self.original@;
        let ghost a = self.append@;
        let entry = match self.undo_stack.pop() {
            Some(e) => e,
            None => {
                return None;
            },
        };
        proof {
            let es = old(self).undo_stack@;
            assert(entry_ok(o, a, es[es.len() - 1]));
            assert(entries_view(o, a, self.undo_stack@) =~= old(self)@.undo.drop_last());
            assert(old(self)@.undo.last() == entry_view(o, a, entry));
        }
        let ghost mid = self@;
        let current = self.swap_in(entry.pieces);
        proof {
            assert(self@ == mid.swapped(entry_view(o, a, entry)));
            lemma_entries_push(
                o,
                a,
                self.redo_stack@,
                UndoEntry { pieces: current, cursor: current_cursor },
            );
        }
        self.redo_stack.push(UndoEntry { pieces: current, cursor: current_cursor });
        Some(entry.cursor)
    }

    /// Take back the last undo and hand out the cursor that was saved with it.
    pub fn redo(&mut self, current_cursor: CursorSnapshot) -> (r: Option<CursorSnapshot>)
        requires
            old(self).wf(),
        ensures
            final(self).wf(),
            final(self)@ == old(self)@.redone(current_cursor),
            r == (if old(self)@.redo.len() == 0 {
                None
            } else {
                Some(old(self)@.redo.last().cursor)
            }),
    {
        let ghost o = self.original@;
        let ghost a = self.append@;
        let entry = match self.redo_stack.pop() {
            Some(e) => e,
            None => {
                return None;
            },
        };
        proof {
            let es = old(self).redo_stack@;
            assert(entry_ok(o, a, es[es.len() - 1]));
            assert(entries_view(o, a, self.redo_stack@) =~= old(self)@.redo.drop_last());
            assert(old(self)@.redo.last() == entry_view(o, a, entry));
        }
        let ghost mid = self@;
        let current = self.swap_in(entry.pieces);
        proof {
            assert(self@ == mid.swapped(entry_view(o, a, entry)));
            lemma_entries_push(
                o,
                a,
                self.undo_stack@,
                UndoEntry { pieces: current, cursor: current_cursor },
            );
        }
        self.undo_stack.push(UndoEntry { pieces: current, cursor: current_cursor });
        Some(entry.cursor)
    }

    /// Insert `text` at `offset`, or at the end when `offset` is past it.
    pub fn insert(&mut self, offset: usize, text: &[u8])
        requires
            old(self).wf(),
            old(self)@.text.len() + text@.len() <= usize::MAX,
        ensures
            final(self).wf(),
            final(self)@ == old(self)@.inserted(offset as int, text@),
    {
        if text.len() == 0 {
            return;
        }
        let total: usize = self.len();
        let offset: usize = if offset < total { offset } else { total };
        let ghost o = self.original@;
        let ghost a = self.append@;
        let ghost s = self@.text;
        let ghost at = offset as int;
        let start_pos = self.position_at(offset);
        proof {
            lemma_newlines_bound(s, at);
            lemma_newlines_bound(text@, text@.len() as int);
            lemma_line_start_bounds(s, at);
            lemma_line_start_bounds(text@, text@.len() as int);
            lemma_position_after(s, at, text@, text@.len() as int);
        }
        let new_end_pos = position_after_text(start_pos, text);
        let edit = Edit {
            start_byte: offset,
            old_end_byte: offset,
            new_end_byte: offset + text.len(),
            start_position: start_pos,
            old_end_position: start_pos,
            new_end_position: new_end_pos,
        };
        assert(edit == edit_between(s, spliced_in(s, at, text@), at, at, at + text@.len()));
        self.pending_edits.push(edit);
        self.version = self.version.wrapping_add(1);
        self.maybe_commit();
        let (pi, po) = self.locate(offset);
        self.line_starts = line_starts_with(&self.line_starts, Ghost(s), offset, text);
        let start: usize = self.append.len();
        self.append.extend_from_slice(text);
        let piece = Piece { source: Source::Append, start, len: text.len() };
        let ghost a2 = self.append@;
        proof {
            assert(a2 == a + text@);
            lemma_text_grow(o, a, text@, self.pieces@);
            assert forall|i: int| 0 <= i < pi implies piece_ok(
                o,
                a,
                #[trigger] self.pieces@.take(pi as int)[i],
            ) by {
                assert(piece_ok(o, a, self.pieces@[i]));
            }
            lemma_text_grow(o, a, text@, self.pieces@.take(pi as int));
            lemma_entries_grow(o, a, text@, self.undo_stack@);
            lemma_entries_grow(o, a, text@, self.redo_stack@);
            assert(piece_bytes(o, a2, piece) =~= text@);
            if pi == self.pieces@.len() {
                assert(self.pieces@.take(pi as int) =~= self.pieces@);
            }
        }
        assert(self.original.len() <= usize::MAX && self.append.len() <= usize::MAX);
        splice_piece(&mut self.pieces, Ghost(o), Ghost(a2), pi, po, piece);
    }

    /// Remove up to `length` bytes from `offset` on, as far as the text goes.
    pub fn delete(&mut self, offset: usize, length: usize)
        requires
            old(self).wf(),
        ensures
            final(self).wf(),
            final(self)@ == old(self)@.deleted(offset as int, length as int),
    {
        let total: usize = self.len();
        let reach: usize = offset.saturating_add(length);
        let end: usize = if reach < total { reach } else { total };
        if offset >= end {
            return;
        }
        let ghost o = self.original@;
        let ghost a = self.append@;
        let ghost s = self@.text;
        let start_pos = self.position_at(offset);
        let old_end_pos = self.position_at(end);
        let edit = Edit {
            start_byte: offset,
            old_end_byte: end,
            new_end_byte: offset,
            start_position: start_pos,
            old_end_position: old_end_pos,
            new_end_position: start_pos,
        };
        proof {
            lemma_newlines_prefix(s, cut_out(s, offset as int, end as int), offset as int);
            assert(edit == edit_between(
                s,
                cut_out(s, offset as int, end as int),
                offset as int,
                end as int,
                offset as int,
            ));
        }
        self.pending_edits.push(edit);
        self.version = self.version.wrapping_add(1);
        self.maybe_commit();
        let (pi, po) = self.locate(offset);
        self.line_starts = line_starts_without(&self.line_starts, Ghost(s), offset, end);
        assert(self.original.len() <= usize::MAX && self.append.len() <= usize::MAX);
        cut_pieces(&mut self.pieces, Ghost(o), Ghost(a), pi, po, end - offset);
    }
}

// ---------------------------------------------------------------------------
// Laws
// ---------------------------------------------------------------------------

/// Undoing the first mutation after a mark restores the text and the cursor
/// of the mark.
pub proof fn undo_restores_the_mark(
    v: BufferView,
    cursor: CursorSnapshot,
    later: CursorSnapshot,
    w: BufferView,
    o: int,
    t: Seq<u8>,
    n: int,
)
    requires
        w == v.marked(cursor).inserted(o, t) && t.len() > 0 && 0 <= o || w == v.marked(
            cursor,
        ).deleted(o, n) && 0 <= o < imin(o + n, v.text.len() as int),
    ensures
        w.undo.len() > 0,
        w.undo.last() == (Snapshot { text: v.text, cursor }),
        w.undone(later).text == v.text,
        w.redo.len() == 0,
{
}

/// Mutations between two marks belong to one undo step: only the first one
/// after a mark adds to the history.
pub proof fn mutations_between_marks_are_one_step(v: BufferView, o: int, t: Seq<u8>, n: int)
    requires
        v.pending is None,
    ensures
        v.inserted(o, t).undo == v.undo,
        v.inserted(o, t).redo == v.redo,
        v.inserted(o, t).pending is None,
        v.deleted(o, n).undo == v.undo,
        v.deleted(o, n).redo == v.redo,
        v.deleted(o, n).pending is None,
{
}

/// A mutation, an undo or a redo uses up the mark that was pending.
pub proof fn every_mutation_consumes_the_mark(v: BufferView, o: int, t: Seq<u8>, c: CursorSnapshot)
    ensures
        t.len() > 0 ==> v.inserted(o, t).pending is None,
        v.undo.len() > 0 ==> v.undone(c).pending is None,
        v.redo.len() > 0 ==> v.redone(c).pending is None,
{
}

/// Redo takes back an undo, and undo a redo: the text returns, and so does
/// the state that the second step will be answered with.
pub proof fn redo_takes_back_undo(v: BufferView, c: CursorSnapshot, k: CursorSnapshot)
    ensures
        v.undo.len() > 0 ==> {
            let w = v.undone(c).redone(k);
            &&& w.text == v.text
            &&& w.redo == v.redo
            &&& v.undone(c).redo.last().cursor == c
            &&& w.undo == v.undo.drop_last().push(
                Snapshot { text: v.undo.last().text, cursor: k },
            )
        },
        v.redo.len() > 0 ==> {
            let w = v.redone(c).undone(k);
            &&& w.text == v.text
            &&& w.undo == v.undo
            &&& v.redone(c).undo.last().cursor == c
            &&& w.redo == v.redo.drop_last().push(
                Snapshot { text: v.redo.last().text, cursor: k },
            )
        },
{
    if v.undo.len() > 0 {
        assert(v.undone(c).redo.drop_last() =~= v.redo);
    }
    if v.redo.len() > 0 {
        assert(v.redone(c).undo.drop_last() =~= v.undo);
    }
}

/// A commit forgets nothing: every state that undo or redo could reach
/// before it can be reached by undoing after it.
pub proof fn commit_keeps_all_history(v: BufferView)
    ensures
        forall|i: int| 0 <= i < v.undo.len() ==> #[trigger] v.committed().undo[i] == v.undo[i],
        forall|e: Snapshot| #[trigger]
            v.redo.contains(e) && v.pending is Some ==> v.committed().undo.contains(e),
        v.pending is Some ==> v.committed().redo.len() == 0,
        v.pending is Some ==> v.committed().undo.last() == (Snapshot {
            text: v.text,
            cursor: v.pending.unwrap(),
        }),
{
    if v.pending is Some && v.redo.len() > 0 {
        let here = Snapshot { text: v.text, cursor: v.pending.unwrap() };
        let n = v.undo.len() as int;
        let m = v.redo.len() as int;
        assert forall|e: Snapshot| #[trigger] v.redo.contains(e) implies v.committed().undo.contains(
            e,
        ) by {
            let i = choose|i: int| 0 <= i < m && v.redo[i] == e;
            assert(v.committed().undo[n + 1 + (m - 1 - i)] == v.redo.reverse()[m - 1 - i]);
        }
    }
}

/// Deleting what was just inserted gives the text back.
pub proof fn delete_takes_back_insert(v: BufferView, o: int, t: Seq<u8>)
    requires
        0 <= o,
    ensures
        v.inserted(o, t).deleted(imin(o, v.text.len() as int), t.len() as int).text == v.text,
{
    let p = imin(o, v.text.len() as int);
    if t.len() > 0 {
        let w = v.inserted(o, t).text;
        assert(cut_out(w, p, p + t.len()) =~= v.text);
    }
}

/// Inserting what was just deleted gives the text back.
pub proof fn insert_takes_back_delete(v: BufferView, o: int, n: int)
    requires
        0 <= o <= o + n <= v.text.len(),
    ensures
        v.deleted(o, n).inserted(o, v.text.subrange(o, o + n)).text == v.text,
{
    if n > 0 {
        assert(spliced_in(cut_out(v.text, o, o + n), o, v.text.subrange(o, o + n)) =~= v.text);
    } else {
        assert(v.text.subrange(o, o + n).len() == 0);
    }
}

/// Each logged edit says by how much the text grew or shrank, and what stands
/// before and after the edited stretch is the same on both sides of it.
pub proof fn edits_describe_the_text(v: BufferView, w: BufferView, o: int, t: Seq<u8>, n: int)
    requires
        w == v.inserted(o, t) && t.len() > 0 || w == v.deleted(o, n) && o < imin(
            o + n,
            v.text.len() as int,
        ),
        0 <= o,
        v.text.len() + t.len() <= usize::MAX,
    ensures
        w.edits.drop_last() == v.edits,
        ({
            let e = w.edits.last();
            &&& w.text.len() - v.text.len() == e.new_end_byte - e.old_end_byte
            &&& w.text.take(e.start_byte as int) == v.text.take(e.start_byte as int)
            &&& w.text.skip(e.new_end_byte as int) == v.text.skip(e.old_end_byte as int)
        }),
{
    let e = w.edits.last();
    assert(w.edits.drop_last() =~= v.edits);
    assert(w.text.take(e.start_byte as int) =~= v.text.take(e.start_byte as int));
    assert(w.text.skip(e.new_end_byte as int) =~= v.text.skip(e.old_end_byte as int));
}

/// The version grows by one with every call that puts in or takes out text,
/// undoes or redoes, and any other call leaves version and text as they are.
pub proof fn the_version_counts_changes(
    v: BufferView,
    o: int,
    t: Seq<u8>,
    n: int,
    c: CursorSnapshot,
)
    requires
        0 <= o,
        v.version < u64::MAX,
    ensures
        v.inserted(o, t).version == v.version + (if t.len() > 0 { 1int } else { 0 }),
        t.len() == 0 ==> v.inserted(o, t).text == v.text,
        v.deleted(o, n).version == v.version + (if o < imin(o + n, v.text.len() as int) {
            1int
        } else {
            0
        }),
        o >= imin(o + n, v.text.len() as int) ==> v.deleted(o, n).text == v.text,
        v.undone(c).version == v.version + (if v.undo.len() > 0 { 1int } else { 0 }),
        v.undo.len() == 0 ==> v.undone(c).text == v.text,
        v.redone(c).version == v.version + (if v.redo.len() > 0 { 1int } else { 0 }),
        v.redo.len() == 0 ==> v.redone(c).text == v.text,
        v.marked(c).version == v.version && v.marked(c).text == v.text,
        v.drained().version == v.version && v.drained().text == v.text,
{
}

/// A call that puts in or takes out text.
pub ghost enum Mutation {
    Insert { offset: int, text: Seq<u8> },
    Delete { offset: int, length: int },
}

impl BufferView {
    /// Whether a mutation changes anything.
    pub open spec fn changed_by(self, m: Mutation) -> bool {
        match m {
            Mutation::Insert { text, .. } => text.len() > 0,
            Mutation::Delete { offset, length } => offset < imin(
                offset + length,
                self.text.len() as int,
            ),
        }
    }

    pub open spec fn mutated(self, m: Mutation) -> BufferView {
        match m {
            Mutation::Insert { offset, text } => self.inserted(offset, text),
            Mutation::Delete { offset, length } => self.deleted(offset, length),
        }
    }

    /// The state after several mutations, in order.
    pub open spec fn mutated_by_all(self, ms: Seq<Mutation>) -> BufferView
        decreases ms.len(),
    {
        if ms.len() == 0 {
            self
        } else {
            self.mutated(ms[0]).mutated_by_all(ms.skip(1))
        }
    }

    /// Whether one of several mutations changes anything.
    pub open spec fn changed_by_any(self, ms: Seq<Mutation>) -> bool
        decreases ms.len(),
    {
        ms.len() > 0 && (self.changed_by(ms[0]) || self.mutated(ms[0]).changed_by_any(ms.skip(1)))
    }
}

proof fn lemma_no_mark_no_step(v: BufferView, ms: Seq<Mutation>)
    requires
        v.pending is None,
    ensures
        v.mutated_by_all(ms).undo == v.undo,
        v.mutated_by_all(ms).redo == v.redo,
        v.mutated_by_all(ms).pending is None,
    decreases ms.len(),
{
    if ms.len() > 0 {
        lemma_no_mark_no_step(v.mutated(ms[0]), ms.skip(1));
    }
}

proof fn lemma_marked_step(v: BufferView, ms: Seq<Mutation>)
    requires
        v.pending is Some,
        v.changed_by_any(ms),
    ensures
        ({
            let w = v.mutated_by_all(ms);
            &&& w.undo.len() > 0
            &&& w.undo.last() == (Snapshot { text: v.text, cursor: v.pending->0 })
            &&& w.redo.len() == 0
            &&& w.pending is None
        }),
    decreases ms.len(),
{
    if v.changed_by(ms[0]) {
        lemma_no_mark_no_step(v.mutated(ms[0]), ms.skip(1));
    } else {
        assert(v.mutated(ms[0]) == v);
        lemma_marked_step(v, ms.skip(1));
    }
}

/// A mark changes nothing but the mark itself, and however many mutations follow
/// it, one undo takes them all back and answers with the marked cursor.
pub proof fn one_undo_takes_back_all_since_the_mark(
    v: BufferView,
    cursor: CursorSnapshot,
    ms: Seq<Mutation>,
    later: CursorSnapshot,
)
    requires
        v.marked(cursor).changed_by_any(ms),
    ensures
        v.marked(cursor) == (BufferView { pending: Some(cursor), ..v }),
        ({
            let w = v.marked(cursor).mutated_by_all(ms);
            &&& w.undo.len() > 0
            &&& w.undo.last().cursor == cursor
            &&& w.undone(later).text == v.text
        }),
{
    lemma_marked_step(v.marked(cursor), ms);
}

/// What is inserted stands at its place, and what was there before stands before
/// and behind it.
pub proof fn inserting_moves_what_follows(v: BufferView, o: int, t: Seq<u8>, i: int)
    requires
        0 <= o <= v.text.len(),
        0 <= i < v.text.len() + t.len(),
    ensures
        ({
            let w = v.inserted(o, t).text;
            &&& w.len() == v.text.len() + t.len()
            &&& i < o ==> w[i] == v.text[i]
            &&& o <= i < o + t.len() ==> w[i] == t[i - o]
            &&& i >= o + t.len() ==> w[i] == v.text[i - t.len()]
        }),
{
}

/// What is deleted is gone, and what stood before and behind it stands together.
pub proof fn deleting_closes_the_gap(v: BufferView, o: int, n: int, i: int)
    requires
        0 <= o,
        0 <= n,
        o + n <= v.text.len(),
        0 <= i < v.text.len() - n,
    ensures
        ({
            let w = v.deleted(o, n).text;
            &&& w.len() == v.text.len() - n
            &&& w[i] == (if i < o { v.text[i] } else { v.text[i + n] })
        }),
{
}

/// The text of a buffer can be indexed.
pub proof fn lemma_text_len(b: &Buffer)
    requires
        b.wf(),
    ensures
        b@.text.len() <= usize::MAX,
{
}

/// The position of a byte is its line and how many bytes stand before it on that
/// line.
pub proof fn positions_count_lines_and_bytes(s: Seq<u8>, o: int)
    requires
        0 <= o <= s.len() <= usize::MAX,
    ensures
        ({
            let p = position_of(s, o);
            let ls = o - p.column;
            &&& p.row == crate::text::line_of(s, o)
            &&& 0 <= ls
            &&& ls > 0 ==> s[ls - 1] == '\n' as u8
            &&& forall|j: int| ls <= j < o ==> #[trigger] s[j] != '\n' as u8
        }),
{
    crate::text::a_line_lies_between_breaks(s, o);
    crate::text::lemma_newlines_bound(s, o);
}

}
