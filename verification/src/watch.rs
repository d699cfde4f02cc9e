//! Which directories are watched for changes to open files. A file is watched
//! through its directory, so that one that is replaced as a whole is noticed too.
use vstd::prelude::*;
use crate::completion::opt_text;
use crate::highlight::texts;
use crate::strings::str_eq;
use crate::text::same_numbers;

verus! {

/// The directories that are watched, without repetitions.
pub struct WatchedDirs {
    pub dirs: Vec<String>,
}

impl View for WatchedDirs {
    type V = Seq<Seq<char>>;

    open spec fn view(&self) -> Seq<Seq<char>> {
        texts(self.dirs@)
    }
}

/// The directory of a file, where `parent` is what its path says: the working
/// directory if it says nothing.
pub open spec fn dir_for(parent: Option<Seq<char>>) -> Seq<char> {
    match parent {
        Some(p) => if p.len() == 0 {
            "."@
        } else {
            p
        },
        None => "."@,
    }
}

pub open spec fn opt_parent(o: Option<&str>) -> Option<Seq<char>> {
    match o {
        Some(p) => Some(p@),
        None => None,
    }
}

/// The directory of a file, where `parent` is what its path says.
pub fn watched_dir(parent: Option<&str>) -> (r: String)
    ensures
        r@ == dir_for(opt_parent(parent)),
{
    match parent {
        Some(p) => {
            if p.is_empty() {
                ".".to_owned()
            } else {
                p.to_owned()
            }
        },
        None => ".".to_owned(),
    }
}

fn holds(list: &Vec<String>, s: &str) -> (r: bool)
    ensures
        r == texts(list@).contains(s@),
{
    let ghost all = texts(list@);
    let mut i: usize = 0;
    while i < list.len()
        invariant
            i <= list@.len(),
            all == texts(list@),
            forall|k: int| 0 <= k < i ==> all[k] != s@,
        decreases list@.len() - i,
    {
        assert(all[i as int] == list@[i as int]@);
        if str_eq(list[i].as_str(), s) {
            return true;
        }
        i += 1;
    }
    false
}

impl WatchedDirs {
    /// Nothing is watched.
    pub fn new() -> (r: WatchedDirs)
        ensures
            r@ == Seq::<Seq<char>>::empty(),
    {
        let r = WatchedDirs { dirs: Vec::new() };
        assert(r@ =~= Seq::<Seq<char>>::empty());
        r
    }

    /// Whether a directory is still to be watched.
    pub fn is_new(&self, dir: &str) -> (r: bool)
        ensures
            r == !self@.contains(dir@),
    {
        !holds(&self.dirs, dir)
    }

    /// Note that a directory is watched.
    pub fn watch(&mut self, dir: String)
        ensures
            final(self)@ == (if old(self)@.contains(dir@) {
                old(self)@
            } else {
                old(self)@.push(dir@)
            }),
            old(self)@.no_duplicates() ==> final(self)@.no_duplicates(),
    {
        let ghost before = self@;
        if !holds(&self.dirs, dir.as_str()) {
            self.dirs.push(dir);
            assert(self@ =~= before.push(dir@));
        }
    }
}

/// The indices of the first `n` paths that are `path`.
pub open spec fn touched_upto(paths: Seq<Option<Seq<char>>>, path: Seq<char>, n: int) -> Seq<int>
    decreases n,
{
    if n <= 0 {
        Seq::empty()
    } else if paths[n - 1] == Some(path) {
        touched_upto(paths, path, n - 1).push(n - 1)
    } else {
        touched_upto(paths, path, n - 1)
    }
}

pub open spec fn opt_paths(v: Seq<Option<String>>) -> Seq<Option<Seq<char>>> {
    v.map_values(|o: Option<String>| opt_text(o))
}

/// The buffers whose file is the one at `path`, where `paths` are theirs.
pub fn touched(paths: &[Option<String>], path: &str) -> (r: Vec<usize>)
    ensures
        same_numbers(r@, touched_upto(opt_paths(paths@), path@, paths@.len() as int)),
{
    let ghost all = opt_paths(paths@);
    let mut r: Vec<usize> = Vec::new();
    let mut i: usize = 0;
    while i < paths.len()
        invariant
            i <= paths@.len(),
            all == opt_paths(paths@),
            same_numbers(r@, touched_upto(all, path@, i as int)),
        decreases paths@.len() - i,
    {
        assert(all[i as int] == opt_text(paths@[i as int]));
        if let Some(p) = &paths[i] {
            if str_eq(p.as_str(), path) {
                r.push(i);
            }
        }
        i += 1;
    }
    r
}

/// `s` without repetitions: the first of equal members stays.
pub open spec fn first_ones(s: Seq<Seq<char>>) -> Seq<Seq<char>>
    decreases s.len(),
{
    if s.len() == 0 {
        s
    } else {
        let d = first_ones(s.drop_last());
        if d.contains(s.last()) {
            d
        } else {
            d.push(s.last())
        }
    }
}

/// The paths that changed, each once, in the order in which they first came.
pub fn poll(changed: &[String]) -> (r: Vec<String>)
    ensures
        texts(r@) == first_ones(texts(changed@)),
{
    let ghost all = texts(changed@);
    let mut out: Vec<String> = Vec::new();
    let mut i: usize = 0;
    assert(all.take(0) =~= Seq::<Seq<char>>::empty());
    assert(texts(out@) =~= first_ones(all.take(0)));
    while i < changed.len()
        invariant
            i <= changed@.len(),
            all == texts(changed@),
            texts(out@) == first_ones(all.take(i as int)),
        decreases changed@.len() - i,
    {
        let ghost before = texts(out@);
        assert(all.take(i + 1).drop_last() =~= all.take(i as int));
        assert(all.take(i + 1).last() == changed@[i as int]@);
        if !holds(&out, changed[i].as_str()) {
            let s = changed[i].clone();
            out.push(s);
            assert(texts(out@) =~= before.push(s@));
        }
        i += 1;
    }
    assert(all.take(i as int) =~= all);
    out
}

/// No path is reported twice, and none is lost.
pub proof fn every_change_is_reported_once(s: Seq<Seq<char>>)
    ensures
        first_ones(s).no_duplicates(),
        forall|p: Seq<char>| #[trigger] first_ones(s).contains(p) <==> s.contains(p),
    decreases s.len(),
{
    if s.len() > 0 {
        let t = s.drop_last();
        every_change_is_reported_once(t);
        let d = first_ones(t);
        let all = first_ones(s);
        assert forall|p: Seq<char>| #[trigger] all.contains(p) <==> s.contains(p) by {
            if s.contains(p) {
                let k = choose|k: int| 0 <= k < s.len() && s[k] == p;
                if k < t.len() {
                    assert(t[k] == p);
                    assert(d.contains(p));
                    let j = choose|j: int| 0 <= j < d.len() && d[j] == p;
                    assert(all[j] == p);
                } else if !d.contains(p) {
                    assert(all[all.len() - 1] == p);
                }
            }
            if all.contains(p) {
                let j = choose|j: int| 0 <= j < all.len() && all[j] == p;
                if j < d.len() {
                    assert(d[j] == p);
                    assert(d.contains(p));
                    assert(t.contains(p));
                    let k = choose|k: int| 0 <= k < t.len() && t[k] == p;
                    assert(s[k] == p);
                } else {
                    assert(s[s.len() - 1] == p);
                }
            }
        }
    }
}

/// The buffers that a change touches are exactly those of its path, in order.
pub proof fn changes_touch_their_buffers(
    paths: Seq<Option<Seq<char>>>,
    path: Seq<char>,
    n: int,
    i: int,
)
    requires
        0 <= i < n <= paths.len(),
    ensures
        touched_upto(paths, path, n).contains(i) <==> paths[i] == Some(path),
        forall|x: int|
            0 <= x < touched_upto(paths, path, n).len() ==> 0 <= #[trigger] touched_upto(
                paths,
                path,
                n,
            )[x] < n,
    decreases n,
{
    let all = touched_upto(paths, path, n);
    let rest = touched_upto(paths, path, n - 1);
    if n > 1 {
        changes_touch_their_buffers(paths, path, n - 1, if i < n - 1 { i } else { 0 });
    } else {
        assert(rest =~= Seq::<int>::empty());
    }
    if paths[n - 1] == Some(path) {
        assert(all[rest.len() as int] == n - 1);
        if i < n - 1 && rest.contains(i) {
            let k = choose|k: int| 0 <= k < rest.len() && rest[k] == i;
            assert(all[k] == i);
        }
        if i < n - 1 && all.contains(i) {
            let k = choose|k: int| 0 <= k < all.len() && all[k] == i;
            assert(rest[k] == i);
        }
        assert forall|x: int| 0 <= x < all.len() implies 0 <= #[trigger] all[x] < n by {
            if x < rest.len() {
                assert(all[x] == rest[x]);
            }
        }
    } else if i == n - 1 && all.contains(i) {
        let k = choose|k: int| 0 <= k < all.len() && all[k] == i;
        assert(rest[k] < n - 1);
    }
}

/// A file without a directory in its path is watched in the working directory, any
/// other in its own.
pub proof fn files_are_watched_in_their_directory(parent: Seq<char>)
    ensures
        dir_for(None) == seq!['.'],
        dir_for(Some(Seq::empty())) == seq!['.'],
        parent.len() > 0 ==> dir_for(Some(parent)) == parent,
{
    reveal_strlit(".");
    assert("."@ =~= seq!['.']);
}

}
