//! Cursors and selections.
use vstd::prelude::*;
use crate::buffer::CursorSnapshot;
use crate::sort::{ranked, sort_ranked, Rank, Ranked};
use crate::text::imin;

verus! {

#[derive(Debug, Clone, Copy, PartialEq, Eq, Structural)]
pub enum Mode {
    Normal,
    Insert,
    Ex,
    Search,
}

/// What was last yanked or deleted.
pub struct Registers {
    pub default: Vec<u8>,
}

impl Default for Registers {
    fn default() -> (r: Registers)
        ensures
            r.default@ == Seq::<u8>::empty(),
    {
        Registers { default: Vec::new() }
    }
}

/// A stretch of text from `anchor` to `head`, both included; `desired_col` is
/// the display column that vertical motions try to keep.
#[derive(Debug, Clone, Copy, PartialEq, Eq, Structural)]
pub struct Selection {
    pub anchor: usize,
    pub head: usize,
    pub desired_col: usize,
}

pub open spec fn sel_min(s: Selection) -> int {
    if s.anchor <= s.head { s.anchor as int } else { s.head as int }
}

pub open spec fn sel_max(s: Selection) -> int {
    if s.anchor >= s.head { s.anchor as int } else { s.head as int }
}

impl Selection {
    /// The selection of a fresh buffer: its first byte.
    pub fn new() -> (s: Selection)
        ensures
            s == (Selection { anchor: 0, head: 0, desired_col: 1 }),
    {
        Selection { anchor: 0, head: 0, desired_col: 1 }
    }

    pub fn min(&self) -> (r: usize)
        ensures
            r == sel_min(*self),
    {
        if self.anchor <= self.head {
            self.anchor
        } else {
            self.head
        }
    }

    pub fn max(&self) -> (r: usize)
        ensures
            r == sel_max(*self),
    {
        if self.anchor >= self.head {
            self.anchor
        } else {
            self.head
        }
    }
}

impl Default for Selection {
    fn default() -> (s: Selection)
        ensures
            s == (Selection { anchor: 0, head: 0, desired_col: 1 }),
    {
        Selection::new()
    }
}

pub open spec fn snapshot(s: Selection) -> CursorSnapshot {
    CursorSnapshot { anchor: s.anchor, head: s.head, desired_col: s.desired_col }
}

pub open spec fn from_snapshot(c: CursorSnapshot) -> Selection {
    Selection { anchor: c.anchor, head: c.head, desired_col: c.desired_col }
}

pub fn snapshot_of(sel: &Selection) -> (c: CursorSnapshot)
    ensures
        c == snapshot(*sel),
{
    CursorSnapshot { anchor: sel.anchor, head: sel.head, desired_col: sel.desired_col }
}

pub fn apply_snapshot(sel: &mut Selection, snap: CursorSnapshot)
    ensures
        *final(sel) == from_snapshot(snap),
{
    sel.anchor = snap.anchor;
    sel.head = snap.head;
    sel.desired_col = snap.desired_col;
}

/// A non-empty list of selections, one of which is primary: it drives the
/// viewport and is the one that searching moves.
pub struct Selections {
    list: Vec<Selection>,
    primary: usize,
}

#[verifier::ext_equal]
pub struct SelectionsView {
    pub list: Seq<Selection>,
    pub primary: int,
}

impl SelectionsView {
    pub open spec fn ok(self) -> bool {
        0 <= self.primary < self.list.len()
    }

    pub open spec fn prime(self) -> Selection {
        self.list[self.primary]
    }

    pub open spec fn with_prime(self, s: Selection) -> SelectionsView {
        SelectionsView { list: self.list.update(self.primary, s), primary: self.primary }
    }

    pub open spec fn only_prime(self) -> SelectionsView {
        SelectionsView { list: seq![self.prime()], primary: 0 }
    }

    pub open spec fn appended(self, s: Selection) -> SelectionsView {
        SelectionsView { list: self.list.push(s), primary: self.list.len() as int }
    }

    pub open spec fn rotated(self, step: int) -> SelectionsView {
        SelectionsView { list: self.list, primary: (self.primary + step) % self.list.len() as int }
    }
}

impl View for Selections {
    type V = SelectionsView;

    closed spec fn view(&self) -> SelectionsView {
        SelectionsView { list: self.list@, primary: self.primary as int }
    }
}

/// A selection's place in the text and its index in the list.
#[derive(Debug, Clone, Copy, PartialEq, Eq, Structural)]
pub struct Placed {
    pub at: usize,
    pub index: usize,
}

impl Rank for Placed {
    open spec fn below(&self, other: &Self) -> bool {
        self.at < other.at
    }

    proof fn below_is_strict_weak(a: &Self, b: &Self, c: &Self) {
    }
}

impl Ranked for Placed {
    fn is_below(&self, other: &Self) -> (r: bool) {
        self.at < other.at
    }
}

pub open spec fn placed(list: Seq<Selection>) -> Seq<Placed> {
    Seq::new(list.len(), |i: int| Placed { at: sel_min(list[i]) as usize, index: i as usize })
}

/// The selections' indices in the order in which they start in the text;
/// selections that start together keep their list order.
pub open spec fn text_order(list: Seq<Selection>) -> Seq<int> {
    ranked(placed(list)).map_values(|p: Placed| p.index as int)
}

impl Selections {
    pub open spec fn wf(&self) -> bool {
        self@.ok()
    }

    /// One selection, at the start of the text.
    pub fn new() -> (s: Selections)
        ensures
            s.wf(),
            s@.list == seq![Selection { anchor: 0, head: 0, desired_col: 1 }],
            s@.primary == 0,
    {
        let mut list: Vec<Selection> = Vec::new();
        list.push(Selection::new());
        Selections { list, primary: 0 }
    }

    pub fn primary(&self) -> (s: &Selection)
        requires
            self.wf(),
        ensures
            *s == self@.prime(),
    {
        &self.list[self.primary]
    }

    pub fn primary_mut(&mut self) -> (s: &mut Selection)
        requires
            old(self).wf(),
        ensures
            *s == old(self)@.prime(),
            final(self)@ == old(self)@.with_prime(*final(s)),
    {
        let p: usize = self.primary;
        &mut self.list[p]
    }

    pub fn primary_index(&self) -> (i: usize)
        ensures
            i == self@.primary,
    {
        self.primary
    }

    /// All selections, in list order.
    pub fn iter(&self) -> (r: &[Selection])
        ensures
            r@ == self@.list,
    {
        self.list.as_slice()
    }

    /// All selections, in list order, to be changed in place.
    pub fn iter_mut(&mut self) -> (r: &mut [Selection])
        ensures
            r@ == old(self)@.list,
            final(self)@.list == final(r)@,
            final(self)@.primary == old(self)@.primary,
    {
        self.list.as_mut_slice()
    }

    pub fn len(&self) -> (n: usize)
        ensures
            n == self@.list.len(),
    {
        self.list.len()
    }

    pub fn get(&self, i: usize) -> (s: Selection)
        requires
            i < self@.list.len(),
        ensures
            s == self@.list[i as int],
    {
        self.list[i]
    }

    /// Replace the selection at index `i`.
    pub fn set(&mut self, i: usize, s: Selection)
        requires
            i < old(self)@.list.len(),
        ensures
            final(self)@.list == old(self)@.list.update(i as int, s),
            final(self)@.primary == old(self)@.primary,
    {
        self.list[i] = s;
    }

    /// Drop all selections but the primary one.
    pub fn reduce_to_primary(&mut self)
        requires
            old(self).wf(),
        ensures
            final(self).wf(),
            final(self)@ == old(self)@.only_prime(),
    {
        let p = self.list[self.primary];
        let mut list: Vec<Selection> = Vec::new();
        list.push(p);
        self.list = list;
        self.primary = 0;
        assert(self@.list =~= seq![p]);
    }

    /// Replace the whole list, unless the new one is empty. A `primary` behind
    /// the list counts as its last index.
    pub fn replace(&mut self, selections: Vec<Selection>, primary: usize)
        requires
            old(self).wf(),
        ensures
            final(self).wf(),
            final(self)@ == (if selections@.len() == 0 {
                old(self)@
            } else {
                SelectionsView {
                    list: selections@,
                    primary: imin(primary as int, selections@.len() - 1),
                }
            }),
    {
        if selections.is_empty() {
            return;
        }
        let last: usize = selections.len() - 1;
        self.primary = if primary < last {
            primary
        } else {
            last
        };
        self.list = selections;
    }

    /// Indices into the list in the order in which the selections start in
    /// the text.
    pub fn indices_by_position(&self) -> (r: Vec<usize>)
        ensures
            r@.len() == self@.list.len(),
            forall|k: int| 0 <= k < r@.len() ==> #[trigger] r@[k] == text_order(self@.list)[k],
    {
        let mut v: Vec<Placed> = Vec::new();
        let mut i: usize = 0;
        while i < self.list.len()
            invariant
                i <= self.list@.len(),
                self.list@ == self@.list,
                v@ =~= placed(self@.list).take(i as int),
            decreases self.list@.len() - i,
        {
            v.push(Placed { at: self.list[i].min(), index: i });
            i += 1;
        }
        assert(v@ =~= placed(self@.list));
        let sorted = sort_ranked(v);
        proof {
            crate::sort::ranked_is_a_ranked_permutation(placed(self@.list));
        }
        let mut r: Vec<usize> = Vec::new();
        let mut k: usize = 0;
        while k < sorted.len()
            invariant
                k <= sorted@.len(),
                r@.len() == k,
                sorted@ == ranked(placed(self@.list)),
                forall|k: int| 0 <= k < r@.len() ==> #[trigger] r@[k] == text_order(self@.list)[k],
            decreases sorted@.len() - k,
        {
            r.push(sorted[k].index);
            k += 1;
        }
        r
    }

    /// Add a selection and make it primary.
    pub fn append_as_primary(&mut self, sel: Selection)
        ensures
            final(self).wf(),
            final(self)@ == old(self)@.appended(sel),
    {
        self.list.push(sel);
        self.primary = self.list.len() - 1;
    }

    /// Make the selection at `idx`, or the last one, primary.
    pub fn set_primary(&mut self, idx: usize)
        requires
            old(self).wf(),
        ensures
            final(self).wf(),
            final(self)@.list == old(self)@.list,
            final(self)@.primary == (if idx < old(self)@.list.len() {
                idx as int
            } else {
                old(self)@.list.len() - 1
            }),
    {
        self.primary = if idx < self.list.len() { idx } else { self.list.len() - 1 };
    }

    /// Make the selection `step` places further on primary, wrapping around
    /// in either direction.
    pub fn rotate_primary(&mut self, step: i32)
        requires
            old(self).wf(),
        ensures
            final(self).wf(),
            final(self)@ == old(self)@.rotated(step as int),
    {
        let n: usize = self.list.len();
        let p: usize = self.primary;
        let m: usize = if step >= 0 {
            step as usize
        } else {
            (-(step as i64)) as usize
        };
        let k: usize = m % n;
        if step >= 0 {
            self.primary = if k < n - p { p + k } else { p - (n - k) };
        } else {
            self.primary = if k <= p { p - k } else { p + (n - k) };
        }
        proof {
            lemma_wrap(p as int, step as int, n as int, self.primary as int, m as int, k as int);
        }
    }
}

proof fn lemma_wrap(p: int, step: int, n: int, r: int, m: int, k: int)
    requires
        0 <= p < n,
        k == m % n,
        m == (if step >= 0 { step } else { -step }),
        0 <= r < n,
        step >= 0 ==> r == p + k || r == p + k - n,
        step < 0 ==> r == p - k || r == p - k + n,
    ensures
        r == (p + step) % n,
{
    let q = m / n;
    assert(m == q * n + k) by (nonlinear_arith)
        requires
            q == m / n,
            k == m % n,
            n > 0,
    ;
    let c = if step >= 0 {
        if r == p + k { q } else { q + 1 }
    } else {
        if r == p - k { -q } else { -q - 1 }
    };
    assert(p + step == c * n + r) by (nonlinear_arith)
        requires
            m == q * n + k,
            m == (if step >= 0 { step } else { -step }),
            step >= 0 ==> r == p + k || r == p + k - n,
            step < 0 ==> r == p - k || r == p - k + n,
            c == (if step >= 0 {
                if r == p + k { q } else { q + 1 }
            } else {
                if r == p - k { -q } else { -q - 1 }
            }),
    ;
    vstd::arithmetic::div_mod::lemma_fundamental_div_mod_converse(p + step, n, c, r);
}

impl Default for Selections {
    fn default() -> (s: Selections)
        ensures
            s.wf(),
            s@.list == seq![Selection { anchor: 0, head: 0, desired_col: 1 }],
            s@.primary == 0,
    {
        Selections::new()
    }
}

// ---------------------------------------------------------------------------
// Laws
// ---------------------------------------------------------------------------

/// The text order visits every selection exactly once, by start, and breaks
/// ties by list order.
pub proof fn text_order_is_sorted(list: Seq<Selection>)
    requires
        list.len() <= usize::MAX,
    ensures
        text_order(list).len() == list.len(),
        forall|k: int| 0 <= k < list.len() ==> 0 <= #[trigger] text_order(list)[k] < list.len(),
        forall|j: int, k: int|
            0 <= j < k < list.len() ==> {
                let a = #[trigger] text_order(list)[j];
                let b = #[trigger] text_order(list)[k];
                sel_min(list[a]) < sel_min(list[b]) || sel_min(list[a]) == sel_min(list[b]) && a
                    < b
            },
{
    lemma_order_upto(placed(list), list);
}

proof fn lemma_order_upto(ps: Seq<Placed>, list: Seq<Selection>)
    requires
        ps.len() <= list.len() <= usize::MAX,
        forall|i: int| 0 <= i < ps.len() ==> #[trigger] ps[i] == placed(list)[i],
    ensures
        ranked(ps).len() == ps.len(),
        forall|k: int|
            0 <= k < ps.len() ==> (#[trigger] ranked(ps)[k]).index < ps.len() && ranked(ps)[k]
                == placed(list)[ranked(ps)[k].index as int],
        forall|j: int, k: int|
            #![trigger ranked(ps)[j], ranked(ps)[k]]
            0 <= j < k < ps.len() ==> ranked(ps)[j].at < ranked(ps)[k].at || ranked(ps)[j].at
                == ranked(ps)[k].at && ranked(ps)[j].index < ranked(ps)[k].index,
    decreases ps.len(),
{
    if ps.len() > 0 {
        let t = ps.drop_last();
        let x = ps.last();
        lemma_order_upto(t, list);
        let r = ranked(t);
        let p = crate::sort::place_of(r, x);
        crate::sort::lemma_place(r, x);
        let q = r.insert(p, x);
        assert(ranked(ps) == q);
        assert forall|j: int, k: int|
            #![trigger q[j], q[k]]
            0 <= j < k < q.len() implies q[j].at < q[k].at || q[j].at == q[k].at && q[j].index
            < q[k].index by {
            if k < p {
                assert(q[j] == r[j] && q[k] == r[k]);
            } else if k == p {
                assert(q[j] == r[j]);
                if j < p - 1 {
                    assert(r[j].at <= r[p - 1].at);
                }
            } else if j < p {
                assert(q[j] == r[j] && q[k] == r[k - 1]);
            } else if j == p {
                assert(q[k] == r[k - 1]);
            } else {
                assert(q[j] == r[j - 1] && q[k] == r[k - 1]);
            }
        }
        assert forall|k: int| 0 <= k < q.len() implies (#[trigger] q[k]).index < ps.len() && q[k]
            == placed(list)[q[k].index as int] by {
            if k < p {
                assert(q[k] == r[k]);
            } else if k > p {
                assert(q[k] == r[k - 1]);
            } else {
                assert(q[k] == ps[ps.len() - 1]);
            }
        }
    }
}

/// Turning the primary one way and then the other leads back.
pub proof fn rotation_can_be_taken_back(v: SelectionsView, step: int)
    requires
        v.ok(),
    ensures
        v.rotated(step).ok(),
        v.rotated(step).rotated(-step) == v,
{
    let n = v.list.len() as int;
    vstd::arithmetic::div_mod::lemma_mod_bound(v.primary + step, n);
    vstd::arithmetic::div_mod::lemma_add_mod_noop(v.primary + step, -step, n);
    vstd::arithmetic::div_mod::lemma_add_mod_noop((v.primary + step) % n, -step, n);
    vstd::arithmetic::div_mod::lemma_mod_twice(v.primary + step, n);
    vstd::arithmetic::div_mod::lemma_small_mod(v.primary as nat, n as nat);
}

/// The selections can be counted.
pub proof fn lemma_list_len(s: &Selections)
    ensures
        s@.list.len() <= usize::MAX,
{
    vstd::std_specs::vec::axiom_spec_len(&s.list);
}

}
