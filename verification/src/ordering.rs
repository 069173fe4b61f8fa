use crate::text;
use vstd::prelude::*;

verus! {

/// A type whose values can be put in order. Two values neither of which comes before the other
/// have the same rank.
pub trait Ordered: Sized {
    /// Whether `self` comes before `other`.
    spec fn before(self, other: Self) -> bool;

    proof fn before_is_strict(a: Self)
        ensures
            !a.before(a),
    ;

    proof fn before_is_transitive(a: Self, b: Self, c: Self)
        requires
            a.before(b),
            b.before(c),
        ensures
            a.before(c),
    ;

    proof fn rank_is_transitive(a: Self, b: Self, c: Self)
        requires
            !a.before(b),
            !b.before(c),
        ensures
            !a.before(c),
    ;

    /// Whether `self` comes before `other`.
    fn is_before(&self, other: &Self) -> (r: bool)
        ensures
            r == self.before(*other),
    ;
}

/// `s` with `x` put in behind all that `x` does not come before.
pub open spec fn placed<T: Ordered>(s: Seq<T>, x: T) -> Seq<T>
    decreases s.len(),
{
    if s.len() == 0 || !x.before(s.last()) {
        s.push(x)
    } else {
        placed(s.drop_last(), x).push(s.last())
    }
}

/// `s` in order; values of the same rank stay in the order in which they came.
pub open spec fn sorted<T: Ordered>(s: Seq<T>) -> Seq<T>
    decreases s.len(),
{
    if s.len() == 0 {
        Seq::empty()
    } else {
        placed(sorted(s.drop_last()), s.last())
    }
}

/// Puts `x` into `v` behind all that it does not come before.
fn place<T: Ordered>(v: &mut Vec<T>, x: T)
    ensures
        final(v)@ == placed(old(v)@, x),
{
    let ghost before = v@;
    let mut at: usize = v.len();
    proof {
        assert(before.take(before.len() as int) =~= before);
        assert(before.skip(before.len() as int) =~= Seq::<T>::empty());
        assert(placed(before, x) + Seq::<T>::empty() =~= placed(before, x));
    }
    while at > 0 && x.is_before(&v[at - 1])
        invariant
            at <= v@.len(),
            v@ == before,
            placed(before, x) == placed(before.take(at as int), x) + before.skip(at as int),
        decreases at,
    {
        proof {
            let here = before.take(at as int);
            assert(here.last() == before[at - 1]);
            assert(here.drop_last() =~= before.take(at - 1));
            assert(placed(here, x) + before.skip(at as int) =~= placed(before.take(at - 1), x)
                + before.skip(at - 1));
        }
        at -= 1;
    }
    proof {
        let here = before.take(at as int);
        if at > 0 {
            assert(here.last() == before[at - 1]);
        }
        assert(before.insert(at as int, x) =~= here.push(x) + before.skip(at as int));
    }
    v.insert(at, x);
}

/// Puts `v` in order; values of the same rank stay in the order in which they came.
pub fn sort<T: Ordered>(v: Vec<T>) -> (r: Vec<T>)
    ensures
        r@ == sorted(v@),
{
    let mut out: Vec<T> = Vec::new();
    let ghost all = v@;
    proof {
        assert(all.take(0) =~= Seq::<T>::empty());
    }
    for x in it: v
        invariant
            it.seq() == all,
            out@ == sorted(all.take(it.index())),
    {
        proof {
            assert(all.take(it.index() + 1).drop_last() =~= all.take(it.index()));
            assert(all.take(it.index() + 1).last() == x);
        }
        place(&mut out, x);
    }
    proof {
        assert(all.take(all.len() as int) =~= all);
    }
    out
}

proof fn lemma_placed<T: Ordered>(s: Seq<T>, x: T)
    requires
        forall|i: int, j: int| 0 <= i < j < s.len() ==> !(#[trigger] s[j]).before(#[trigger] s[i]),
    ensures
        placed(s, x).to_multiset() == s.to_multiset().insert(x),
        forall|i: int, j: int|
            0 <= i < j < placed(s, x).len() ==> !(#[trigger] placed(s, x)[j]).before(
                #[trigger] placed(s, x)[i],
            ),
        forall|y: T| #[trigger] placed(s, x).contains(y) ==> s.contains(y) || y == x,
    decreases s.len(),
{
    broadcast use vstd::seq_lib::group_to_multiset_ensures;

    let out = placed(s, x);
    if s.len() == 0 || !x.before(s.last()) {
        assert forall|i: int, j: int| 0 <= i < j < out.len() implies !(#[trigger] out[j]).before(
            #[trigger] out[i],
        ) by {
            if j == s.len() {
                if i < s.len() - 1 {
                    assert(!s[s.len() - 1].before(s[i]));
                    T::rank_is_transitive(x, s.last(), s[i]);
                }
            }
        }
        assert forall|y: T| #[trigger] out.contains(y) implies s.contains(y) || y == x by {
            let k = choose|k: int| 0 <= k < out.len() && out[k] == y;
            if k < s.len() {
                assert(s[k] == y);
            }
        }
    } else {
        let front = s.drop_last();
        let inner = placed(front, x);
        lemma_placed(front, x);
        assert forall|i: int, j: int| 0 <= i < j < out.len() implies !(#[trigger] out[j]).before(
            #[trigger] out[i],
        ) by {
            if j == inner.len() {
                assert(inner.contains(inner[i]));
                if inner[i] == x {
                    if s.last().before(x) {
                        T::before_is_transitive(x, s.last(), x);
                        T::before_is_strict(x);
                    }
                } else {
                    let k = choose|k: int| 0 <= k < front.len() && front[k] == inner[i];
                    assert(!s[s.len() - 1].before(s[k]));
                }
            }
        }
        assert forall|y: T| #[trigger] out.contains(y) implies s.contains(y) || y == x by {
            let k = choose|k: int| 0 <= k < out.len() && out[k] == y;
            if k < inner.len() {
                assert(inner.contains(y));
                if y != x {
                    let m = choose|m: int| 0 <= m < front.len() && front[m] == y;
                    assert(s[m] == y);
                }
            } else {
                assert(s[s.len() - 1] == y);
            }
        }
        assert(s =~= front.push(s.last()));
        assert(out.to_multiset() =~= s.to_multiset().insert(x));
    }
}

/// Sorting keeps every value, and of two values the one that stands later does not come before the
/// other.
pub proof fn law_sorted_is_in_order<T: Ordered>(s: Seq<T>)
    ensures
        sorted(s).to_multiset() == s.to_multiset(),
        forall|i: int, j: int|
            0 <= i < j < sorted(s).len() ==> !(#[trigger] sorted(s)[j]).before(
                #[trigger] sorted(s)[i],
            ),
    decreases s.len(),
{
    broadcast use vstd::seq_lib::group_to_multiset_ensures;

    if s.len() > 0 {
        law_sorted_is_in_order(s.drop_last());
        lemma_placed(sorted(s.drop_last()), s.last());
        assert(s =~= s.drop_last().push(s.last()));
    }
}

impl Ordered for String {
    open spec fn before(self, other: Self) -> bool {
        text::text_less(self@, other@)
    }

    proof fn before_is_strict(a: Self) {
        text::lemma_text_less_strict(a@);
    }

    proof fn before_is_transitive(a: Self, b: Self, c: Self) {
        text::lemma_text_less_chain(a@, b@, c@);
    }

    proof fn rank_is_transitive(a: Self, b: Self, c: Self) {
        text::lemma_text_rank_chain(a@, b@, c@);
    }

    fn is_before(&self, other: &Self) -> (r: bool) {
        match text::relate(self.as_str(), other.as_str()) {
            text::Relation::Less => true,
            _ => false,
        }
    }
}

} // verus!
