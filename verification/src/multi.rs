//! Sums and selections that do not depend on an order.

use vstd::prelude::*;

verus! {

/// The sum of `f` over `s`.
pub open spec fn sum<A>(s: Seq<A>, f: spec_fn(A) -> int) -> int
    decreases s.len(),
{
    if s.len() == 0 {
        0
    } else {
        sum(s.drop_last(), f) + f(s.last())
    }
}

/// One item's part in a sum can be taken out.
pub proof fn lemma_sum_remove<A>(s: Seq<A>, f: spec_fn(A) -> int, i: int)
    requires
        0 <= i < s.len(),
    ensures
        sum(s, f) == sum(s.remove(i), f) + f(s[i]),
    decreases s.len(),
{
    if i == s.len() - 1 {
        assert(s.remove(i) =~= s.drop_last());
    } else {
        lemma_sum_remove(s.drop_last(), f, i);
        assert(s.remove(i).drop_last() =~= s.drop_last().remove(i));
        assert(s.remove(i).last() == s.last());
    }
}

/// A sum is the same over every order of the same items.
pub proof fn lemma_sum_order<A>(a: Seq<A>, b: Seq<A>, f: spec_fn(A) -> int)
    requires
        a.to_multiset() == b.to_multiset(),
    ensures
        sum(a, f) == sum(b, f),
    decreases a.len(),
{
    a.to_multiset_ensures();
    b.to_multiset_ensures();
    if a.len() > 0 {
        let x = a.last();
        assert(a[a.len() - 1] == x);
        assert(a.contains(x));
        assert(b.to_multiset().count(x) > 0);
        assert(b.contains(x));
        let j = b.index_of(x);
        lemma_sum_remove(b, f, j);
        assert(a.remove(a.len() - 1) =~= a.drop_last());
        assert(a.drop_last().to_multiset() =~= a.to_multiset().remove(x));
        assert(b.remove(j).to_multiset() =~= b.to_multiset().remove(x));
        lemma_sum_order(a.drop_last(), b.remove(j), f);
    }
}

/// Replacing one item changes the sum by that item's part.
pub proof fn lemma_sum_update<A>(s: Seq<A>, f: spec_fn(A) -> int, i: int, v: A)
    requires
        0 <= i < s.len(),
    ensures
        sum(s.update(i, v), f) == sum(s, f) - f(s[i]) + f(v),
    decreases s.len(),
{
    let u = s.update(i, v);
    if i == s.len() - 1 {
        assert(u.drop_last() =~= s.drop_last());
    } else {
        lemma_sum_update(s.drop_last(), f, i, v);
        assert(u.drop_last() =~= s.drop_last().update(i, v));
    }
}

/// `s` with the item at `i` gone and the last one in its place.
pub open spec fn vacated<A>(s: Seq<A>, i: int) -> Seq<A> {
    if i == s.len() - 1 {
        s.drop_last()
    } else {
        s.update(i, s.last()).drop_last()
    }
}

/// Vacating a place takes its item's part out of the sum.
pub proof fn lemma_sum_vacated<A>(s: Seq<A>, f: spec_fn(A) -> int, i: int)
    requires
        0 <= i < s.len(),
    ensures
        sum(vacated(s, i), f) == sum(s, f) - f(s[i]),
{
    if i < s.len() - 1 {
        let d = s.drop_last();
        lemma_sum_update(d, f, i, s.last());
        assert(s.update(i, s.last()).drop_last() =~= d.update(i, s.last()));
    }
}

/// A sum of parts that are never negative is at least each part.
pub proof fn lemma_sum_part<A>(s: Seq<A>, f: spec_fn(A) -> int, i: int)
    requires
        0 <= i <= s.len(),
        forall|x: A| 0 <= #[trigger] f(x),
    ensures
        0 <= sum(s.take(i), f) <= sum(s, f),
        i < s.len() ==> sum(s.take(i + 1), f) == sum(s.take(i), f) + f(s[i]),
        i < s.len() ==> sum(s.take(i), f) + f(s[i]) <= sum(s, f),
    decreases s.len() - i,
{
    lemma_sum_positive(s.take(i), f);
    if i == s.len() {
        assert(s.take(i) =~= s);
    } else {
        lemma_sum_part(s, f, i + 1);
        assert(s.take(i + 1).drop_last() =~= s.take(i));
        assert(s.take(i + 1).last() == s[i]);
        assert(0 <= f(s[i]));
    }
}

proof fn lemma_sum_positive<A>(s: Seq<A>, f: spec_fn(A) -> int)
    requires
        forall|x: A| 0 <= #[trigger] f(x),
    ensures
        0 <= sum(s, f),
    decreases s.len(),
{
    if s.len() > 0 {
        lemma_sum_positive(s.drop_last(), f);
        assert(0 <= f(s.last()));
    }
}

/// The items that `f` picks, in order.
pub open spec fn picked<A, B>(s: Seq<A>, f: spec_fn(A) -> Option<B>) -> Seq<B>
    decreases s.len(),
{
    if s.len() == 0 {
        Seq::empty()
    } else {
        match f(s.last()) {
            Some(b) => picked(s.drop_last(), f).push(b),
            None => picked(s.drop_last(), f),
        }
    }
}

proof fn lemma_picked_count<A, B>(s: Seq<A>, f: spec_fn(A) -> Option<B>, x: B)
    ensures
        picked(s, f).to_multiset().count(x) == sum(s, |a: A| if f(a) == Some(x) { 1int } else { 0int }),
    decreases s.len(),
{
    let p = picked(s, f);
    p.to_multiset_ensures();
    if s.len() > 0 {
        lemma_picked_count(s.drop_last(), f, x);
        let q = picked(s.drop_last(), f);
        q.to_multiset_ensures();
    }
}

/// What is picked out of the same items is the same, whatever their order.
pub proof fn lemma_picked_order<A, B>(a: Seq<A>, b: Seq<A>, f: spec_fn(A) -> Option<B>)
    requires
        a.to_multiset() == b.to_multiset(),
    ensures
        picked(a, f).to_multiset() == picked(b, f).to_multiset(),
{
    assert forall|x: B| picked(a, f).to_multiset().count(x) == picked(b, f).to_multiset().count(x) by {
        lemma_picked_count(a, f, x);
        lemma_picked_count(b, f, x);
        lemma_sum_order(a, b, |i: A| if f(i) == Some(x) { 1int } else { 0int });
    }
    assert(picked(a, f).to_multiset() =~= picked(b, f).to_multiset());
}

/// The sequences that `which` names, one after the other.
pub open spec fn gathered(of: Seq<Seq<u32>>, which: Seq<int>) -> Seq<u32>
    decreases which.len(),
{
    if which.len() == 0 {
        Seq::empty()
    } else {
        gathered(of, which.drop_last()) + of[which.last()]
    }
}

/// A number, as far as a word holds.
pub open spec fn capped(n: int) -> int {
    if n > usize::MAX {
        usize::MAX as int
    } else {
        n
    }
}

/// A number, as far as a word holds.
pub fn word(n: u128) -> (r: usize)
    ensures
        r == capped(n as int),
{
    if n > usize::MAX as u128 {
        usize::MAX
    } else {
        n as usize
    }
}

} // verus!
