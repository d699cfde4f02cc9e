//! A stable insertion sort for anything that has a rank.
use vstd::prelude::*;

verus! {

/// Values that can be told apart by rank. `below` is a strict weak order.
pub trait Rank: Sized {
    spec fn below(&self, other: &Self) -> bool;

    proof fn below_is_strict_weak(a: &Self, b: &Self, c: &Self)
        ensures
            !a.below(a),
            a.below(b) && b.below(c) ==> a.below(c),
            !a.below(b) && !b.below(c) ==> !a.below(c),
    ;
}

/// Values whose ranks can be compared when the program runs.
pub trait Ranked: Rank {
    fn is_below(&self, other: &Self) -> (r: bool)
        ensures
            r == self.below(other),
    ;
}

/// Where `x` belongs in the ranked sequence `s`: behind everything that it is
/// not below.
pub open spec fn place_of<T: Rank>(s: Seq<T>, x: T) -> int
    decreases s.len(),
{
    if s.len() == 0 {
        0
    } else if x.below(&s.last()) {
        place_of(s.drop_last(), x)
    } else {
        s.len() as int
    }
}

/// `s` by rank; values of equal rank keep their order.
pub open spec fn ranked<T: Rank>(s: Seq<T>) -> Seq<T>
    decreases s.len(),
{
    if s.len() == 0 {
        s
    } else {
        let r = ranked(s.drop_last());
        r.insert(place_of(r, s.last()), s.last())
    }
}

pub open spec fn is_ranked<T: Rank>(s: Seq<T>) -> bool {
    forall|i: int, j: int| #![trigger s[i], s[j]] 0 <= i < j < s.len() ==> !s[j].below(&s[i])
}

pub proof fn lemma_place<T: Rank>(s: Seq<T>, x: T)
    ensures
        0 <= place_of(s, x) <= s.len(),
        forall|i: int| place_of(s, x) <= i < s.len() ==> x.below(&#[trigger] s[i]),
        place_of(s, x) > 0 ==> !x.below(&s[place_of(s, x) - 1]),
    decreases s.len(),
{
    if s.len() > 0 && x.below(&s.last()) {
        let t = s.drop_last();
        lemma_place(t, x);
        assert forall|i: int| place_of(s, x) <= i < s.len() implies x.below(&#[trigger] s[i]) by {
            if i < t.len() {
                assert(s[i] == t[i]);
            }
        }
        if place_of(s, x) > 0 {
            assert(t[place_of(s, x) - 1] == s[place_of(s, x) - 1]);
        }
    }
}

/// Ranking reorders: nothing is lost or gained, and nothing stands behind
/// something that it is below.
pub proof fn ranked_is_a_ranked_permutation<T: Rank>(s: Seq<T>)
    ensures
        ranked(s).len() == s.len(),
        ranked(s).to_multiset() == s.to_multiset(),
        is_ranked(ranked(s)),
    decreases s.len(),
{
    broadcast use vstd::seq_lib::group_to_multiset_ensures;

    if s.len() > 0 {
        let t = s.drop_last();
        let x = s.last();
        ranked_is_a_ranked_permutation(t);
        let r = ranked(t);
        let p = place_of(r, x);
        lemma_place(r, x);
        let q = r.insert(p, x);
        vstd::seq_lib::to_multiset_insert(r, p, x);
        assert(s =~= t.push(x));
        assert(s.to_multiset() =~= t.to_multiset().insert(x));
        assert forall|i: int, j: int| #![trigger q[i], q[j]] 0 <= i < j < q.len() implies !q[j].below(
            &q[i],
        ) by {
            if j < p {
                assert(q[i] == r[i] && q[j] == r[j]);
            } else if j == p {
                if i < p - 1 {
                    assert(!r[p - 1].below(&r[i]));
                    T::below_is_strict_weak(&x, &r[p - 1], &r[i]);
                }
                assert(q[i] == r[i]);
            } else if i < p {
                assert(q[i] == r[i] && q[j] == r[j - 1]);
            } else if i == p {
                assert(q[j] == r[j - 1]);
                T::below_is_strict_weak(&x, &r[j - 1], &x);
            } else {
                assert(q[i] == r[i - 1] && q[j] == r[j - 1]);
            }
        }
    } else {
        assert(ranked(s).to_multiset() == s.to_multiset());
    }
}

/// Ranking looks at ranks only: it commutes with any map that keeps them.
pub proof fn ranking_commutes_with_maps<T: Rank, U: Rank>(s: Seq<T>, f: spec_fn(T) -> U)
    requires
        forall|a: T, b: T| #[trigger] a.below(&b) == f(a).below(&f(b)),
    ensures
        ranked(s.map_values(f)) == ranked(s).map_values(f),
    decreases s.len(),
{
    if s.len() > 0 {
        let t = s.drop_last();
        ranking_commutes_with_maps(t, f);
        assert(s.map_values(f).drop_last() =~= t.map_values(f));
        let r = ranked(t);
        lemma_place_map(r, s.last(), f);
        lemma_place(r, s.last());
        let p = place_of(r, s.last());
        assert(r.insert(p, s.last()).map_values(f) =~= r.map_values(f).insert(p, f(s.last())));
    } else {
        assert(s.map_values(f) =~= Seq::<U>::empty());
        assert(ranked(s).map_values(f) =~= Seq::<U>::empty());
    }
}

proof fn lemma_place_map<T: Rank, U: Rank>(s: Seq<T>, x: T, f: spec_fn(T) -> U)
    requires
        forall|a: T, b: T| #[trigger] a.below(&b) == f(a).below(&f(b)),
    ensures
        place_of(s.map_values(f), f(x)) == place_of(s, x),
    decreases s.len(),
{
    if s.len() > 0 {
        assert(s.map_values(f).drop_last() =~= s.drop_last().map_values(f));
        assert(x.below(&s.last()) == f(x).below(&f(s.last())));
        if x.below(&s.last()) {
            lemma_place_map(s.drop_last(), x, f);
        }
    }
}

/// Sort by rank, keeping the order of values of equal rank.
pub fn sort_ranked<T: Ranked>(v: Vec<T>) -> (r: Vec<T>)
    ensures
        r@ == ranked(v@),
{
    let mut v = v;
    let mut r: Vec<T> = Vec::new();
    let ghost all = v@;
    reverse(&mut v);
    assert(all.take(0) =~= Seq::<T>::empty());
    while v.len() > 0
        invariant
            v@.len() <= all.len(),
            v@ == all.skip(all.len() - v@.len()).reverse(),
            r@ == ranked(all.take(all.len() - v@.len())),
        decreases v@.len(),
    {
        let ghost k = all.len() - v@.len();
        let ghost before = v@;
        let x = v.pop().unwrap();
        proof {
            assert(x == all[k]);
            assert(v@ =~= all.skip(k + 1).reverse());
            assert(all.take(k + 1).drop_last() =~= all.take(k));
        }
        let mut p: usize = r.len();
        assert(r@.take(p as int) =~= r@);
        while p > 0 && x.is_below(&r[p - 1])
            invariant
                p <= r@.len(),
                place_of(r@.take(p as int), x) == place_of(r@, x),
            decreases p,
        {
            assert(r@.take(p as int).drop_last() =~= r@.take(p - 1));
            p -= 1;
        }
        r.insert(p, x);
    }
    assert(all.take(all.len() as int) =~= all);
    r
}

fn reverse<T>(v: &mut Vec<T>)
    ensures
        final(v)@ == old(v)@.reverse(),
{
    let mut w: Vec<T> = Vec::new();
    let ghost all = v@;
    while v.len() > 0
        invariant
            v@.len() <= all.len(),
            v@ == all.take(v@.len() as int),
            w@ == all.skip(v@.len() as int).reverse(),
        decreases v@.len(),
    {
        let ghost n = v@.len() as int;
        let x = v.pop().unwrap();
        w.push(x);
        assert(v@ =~= all.take(n - 1));
        assert(w@ =~= all.skip(n - 1).reverse());
    }
    std::mem::swap(v, &mut w);
    assert(all.skip(0) =~= all);
}

/// One value more goes behind all that it is not below and before all that it is
/// below: values of equal rank keep the order they had.
pub proof fn equal_ranks_keep_their_order<T: Rank>(s: Seq<T>, x: T)
    ensures
        exists|p: int|
            {
                &&& 0 <= p <= ranked(s).len()
                &&& ranked(s.push(x)) == #[trigger] ranked(s).insert(p, x)
                &&& forall|i: int| 0 <= i < p ==> !x.below(&#[trigger] ranked(s)[i])
                &&& forall|i: int| p <= i < ranked(s).len() ==> x.below(&#[trigger] ranked(s)[i])
            },
{
    let r = ranked(s);
    let p = place_of(r, x);
    lemma_place(r, x);
    ranked_is_a_ranked_permutation(s);
    assert(s.push(x).drop_last() =~= s);
    assert(ranked(s.push(x)) == r.insert(p, x));
    assert forall|i: int| 0 <= i < p implies !x.below(&#[trigger] r[i]) by {
        if i < p - 1 {
            assert(!r[p - 1].below(&r[i]));
            T::below_is_strict_weak(&x, &r[p - 1], &r[i]);
        }
    }
}

}
