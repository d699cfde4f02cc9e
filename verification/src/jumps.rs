//! The jump list: two stacks of places, shaped like undo and redo.
use vstd::prelude::*;

verus! {

/// A place in a file.
#[derive(Debug)]
pub struct JumpEntry {
    pub path: String,
    pub offset: usize,
}

#[verifier::ext_equal]
pub struct Place {
    pub path: Seq<char>,
    pub offset: usize,
}

impl View for JumpEntry {
    type V = Place;

    open spec fn view(&self) -> Place {
        Place { path: self.path@, offset: self.offset }
    }
}

impl Clone for JumpEntry {
    fn clone(&self) -> (r: JumpEntry)
        ensures
            r@ == self@,
    {
        JumpEntry { path: self.path.clone(), offset: self.offset }
    }
}

pub struct JumpList {
    back: Vec<JumpEntry>,
    forward: Vec<JumpEntry>,
}

/// The places behind and ahead; the next one to visit is last.
#[verifier::ext_equal]
pub struct JumpView {
    pub back: Seq<Place>,
    pub forward: Seq<Place>,
}

pub open spec fn places(v: Seq<JumpEntry>) -> Seq<Place> {
    v.map_values(|e: JumpEntry| e@)
}

pub open spec fn opt_place(o: Option<JumpEntry>) -> Option<Place> {
    match o {
        Some(e) => Some(e@),
        None => None,
    }
}

pub open spec fn pushed(s: Seq<Place>, o: Option<Place>) -> Seq<Place> {
    match o {
        Some(p) => s.push(p),
        None => s,
    }
}

impl JumpView {
    pub open spec fn recorded(self, p: Place) -> JumpView {
        JumpView { back: self.back.push(p), forward: Seq::empty() }
    }

    pub open spec fn went_back(self, current: Option<Place>) -> JumpView {
        if self.back.len() == 0 {
            self
        } else {
            JumpView { back: self.back.drop_last(), forward: pushed(self.forward, current) }
        }
    }

    pub open spec fn went_forward(self, current: Option<Place>) -> JumpView {
        if self.forward.len() == 0 {
            self
        } else {
            JumpView { back: pushed(self.back, current), forward: self.forward.drop_last() }
        }
    }
}

impl View for JumpList {
    type V = JumpView;

    closed spec fn view(&self) -> JumpView {
        JumpView { back: places(self.back@), forward: places(self.forward@) }
    }
}

pub open spec fn last_place(s: Seq<Place>) -> Option<Place> {
    if s.len() == 0 { None } else { Some(s.last()) }
}

impl JumpList {
    pub fn new() -> (j: JumpList)
        ensures
            j@ == (JumpView { back: Seq::empty(), forward: Seq::empty() }),
    {
        let j = JumpList { back: Vec::new(), forward: Vec::new() };
        assert(j@.back =~= Seq::empty());
        assert(j@.forward =~= Seq::empty());
        j
    }

    /// Remember where a jump started. The places ahead are forgotten.
    pub fn record(&mut self, entry: JumpEntry)
        ensures
            final(self)@ == old(self)@.recorded(entry@),
    {
        self.back.push(entry);
        self.forward.clear();
        assert(self@.back =~= old(self)@.back.push(entry@));
        assert(self@.forward =~= Seq::empty());
    }

    /// Go back to the last place. `current` can be returned to, if it is a
    /// place at all.
    pub fn back(&mut self, current: Option<JumpEntry>) -> (r: Option<JumpEntry>)
        ensures
            final(self)@ == old(self)@.went_back(opt_place(current)),
            opt_place(r) == last_place(old(self)@.back),
    {
        let prev = match self.back.pop() {
            None => {
                assert(self@ =~= old(self)@);
                return None;
            },
            Some(e) => e,
        };
        assert(self@.back =~= old(self)@.back.drop_last());
        match current {
            None => {},
            Some(c) => {
                self.forward.push(c);
                assert(self@.forward =~= old(self)@.forward.push(c@));
            },
        }
        Some(prev)
    }

    /// Go forward again.
    pub fn forward(&mut self, current: Option<JumpEntry>) -> (r: Option<JumpEntry>)
        ensures
            final(self)@ == old(self)@.went_forward(opt_place(current)),
            opt_place(r) == last_place(old(self)@.forward),
    {
        let next = match self.forward.pop() {
            None => {
                assert(self@ =~= old(self)@);
                return None;
            },
            Some(e) => e,
        };
        assert(self@.forward =~= old(self)@.forward.drop_last());
        match current {
            None => {},
            Some(c) => {
                self.back.push(c);
                assert(self@.back =~= old(self)@.back.push(c@));
            },
        }
        Some(next)
    }

    pub fn back_len(&self) -> (n: usize)
        ensures
            n == self@.back.len(),
    {
        self.back.len()
    }

    pub fn forward_len(&self) -> (n: usize)
        ensures
            n == self@.forward.len(),
    {
        self.forward.len()
    }
}

impl Default for JumpList {
    fn default() -> (j: JumpList)
        ensures
            j@ == (JumpView { back: Seq::empty(), forward: Seq::empty() }),
    {
        JumpList::new()
    }
}

/// Going back from a place and then forward leads to that place, and the list
/// is what it was.
pub proof fn forward_takes_back_back(v: JumpView, here: Place)
    requires
        v.back.len() > 0,
    ensures
        last_place(v.went_back(Some(here)).forward) == Some(here),
        v.went_back(Some(here)).went_forward(Some(v.back.last())) == v,
{
    assert(v.went_back(Some(here)).forward.drop_last() =~= v.forward);
    assert(v.back.drop_last().push(v.back.last()) =~= v.back);
}

/// What was recorded last is visited first.
pub proof fn back_returns_to_the_last_record(v: JumpView, p: Place, here: Option<Place>)
    ensures
        last_place(v.recorded(p).back) == Some(p),
        v.recorded(p).went_back(here).back == v.back,
        v.recorded(p).forward.len() == 0,
{
    assert(v.recorded(p).back.drop_last() =~= v.back);
}

}
