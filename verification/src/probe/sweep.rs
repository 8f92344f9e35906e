//! Keeping the table of sources small.

use vstd::prelude::*;

use crate::probe::terms::{held_against, rank_of, Mark, Terms};
use crate::table::ints::IntTable;

verus! {

/// The most sources the table holds, whatever is scanning.
pub const MAX_TRACKED: usize = 65536;

/// What the table is cut back to once it reaches [`MAX_TRACKED`].
pub const EVICT_TO: usize = 49152;

/// How many sources may accumulate before a sweep is forced.
pub const SWEEP_AT: usize = 16384;

/// How often the table is swept even when it is not growing, in seconds.
pub const SWEEP_EVERY: u32 = 600;

/// The sources that anything is still held against.
pub open spec fn kept_marks(m: Map<(u8, u128), Mark>, now: u32, t: Terms) -> Map<(u8, u128), Mark> {
    Map::new(|k: (u8, u128)| m.contains_key(k) && held_against(m[k], now, t), |k: (u8, u128)| m[k])
}

/// Whether one place in the order of giving up comes no later than another:
/// by rank, then by when the source was last seen, then by the source.
pub open spec fn no_later(a: (u8, u32, u8, u128), b: (u8, u32, u8, u128)) -> bool {
    if a.0 != b.0 {
        a.0 < b.0
    } else if a.1 != b.1 {
        a.1 < b.1
    } else if a.2 != b.2 {
        a.2 < b.2
    } else {
        a.3 <= b.3
    }
}

/// A source's place in the order of giving up.
pub open spec fn place(k: (u8, u128), m: Mark, now: u32) -> (u8, u32, u8, u128) {
    (rank_of(m, now), m.seen, k.0, k.1)
}

/// Whether `after` is `before` with sources given up until `keep` are left,
/// none before one that comes earlier in the order.
pub open spec fn given_up(
    before: Map<(u8, u128), Mark>,
    after: Map<(u8, u128), Mark>,
    keep: int,
    now: u32,
) -> bool {
    &&& after.submap_of(before)
    &&& after.len() == keep
    &&& forall|gone: (u8, u128), kept: (u8, u128)|
        before.contains_key(gone) && !#[trigger] after.contains_key(gone) && #[trigger] after.contains_key(kept)
            ==> no_later(place(gone, before[gone], now), place(kept, before[kept], now))
}

/// Whether `after` is what a sweep makes of `before`: what is held against
/// nobody is forgotten, and sources are given up if the table is still too
/// large.
pub open spec fn swept(before: Map<(u8, u128), Mark>, after: Map<(u8, u128), Mark>, now: u32, t: Terms) -> bool {
    let kept = kept_marks(before, now, t);
    if kept.len() >= MAX_TRACKED {
        given_up(kept, after, EVICT_TO as int, now)
    } else {
        after == kept
    }
}

/// The table size at which it is next swept.
pub open spec fn next_sweep(len: int) -> int {
    if 2 * len < SWEEP_AT {
        SWEEP_AT as int
    } else if 2 * len > MAX_TRACKED {
        MAX_TRACKED as int
    } else {
        2 * len
    }
}

/// `slice::select_nth_unstable`: reorders the items so that none before `n`
/// is greater than the one at `n`, and none after it smaller, in the order of
/// tuples.
#[verifier::external_body]
pub(crate) fn select_nth(order: &mut Vec<(u8, u32, u8, u128)>, n: usize)
    requires
        n < old(order)@.len(),
    ensures
        final(order)@.to_multiset() == old(order)@.to_multiset(),
        forall|i: int, j: int|
            0 <= i <= n <= j < final(order)@.len() ==> #[trigger] no_later(final(order)@[i], final(order)@[j]),
{
    order.select_nth_unstable(n);
}

/// Forgets what is no longer held against anyone.
fn retain(marks: &mut IntTable<Mark>, now: u32, t: &Terms)
    requires
        old(marks).wf(),
    ensures
        final(marks).wf(),
        final(marks)@ == kept_marks(old(marks)@, now, *t),
{
    let ghost start = marks@;
    let mut i: usize = marks.len();
    while i > 0
        invariant
            marks.wf(),
            i <= marks.keys().len(),
            marks@.submap_of(start),
            forall|k: (u8, u128)| #[trigger]
                start.contains_key(k) && !marks@.contains_key(k) ==> !held_against(start[k], now, *t),
            forall|j: int|
                i <= j < marks.keys().len() ==> held_against(marks@[#[trigger] marks.keys()[j]], now, *t),
        decreases i,
    {
        i = i - 1;
        let ghost before = *marks;
        proof {
            before.lemma_positions();
        }
        let keep = marks.value_at(i).worth_keeping(now, t);
        if !keep {
            let k = marks.key_at(i);
            marks.remove(k);
            proof {
                marks.lemma_positions();
                let ks = before.keys();
                assert(ks[i as int] == k);
                assert(marks.keys() == crate::multi::vacated(ks, i as int));
                assert forall|j: int| i <= j < marks.keys().len() implies held_against(
                    marks@[#[trigger] marks.keys()[j]],
                    now,
                    *t,
                ) by {
                    let b = if j == i { ks.len() - 1 } else { j };
                    assert(marks.keys()[j] == ks[b]);
                    assert(held_against(before@[ks[b]], now, *t));
                    assert(ks[b] != k);
                }
            }
        }
    }
    proof {
        marks.lemma_positions();
        assert(marks@ =~= kept_marks(start, now, *t)) by {
            assert forall|k: (u8, u128)| marks@.contains_key(k) == kept_marks(start, now, *t).contains_key(k) by {
                if marks@.contains_key(k) {
                    let j = marks.keys().index_of(k);
                    assert(marks.keys()[j] == k);
                }
            }
        }
    }
}

/// Gives up sources until `keep` are left, in rank order and the least
/// recently seen first within a rank.
fn evict(marks: &mut IntTable<Mark>, keep: usize, now: u32)
    requires
        old(marks).wf(),
    ensures
        final(marks).wf(),
        if old(marks)@.len() > keep {
            given_up(old(marks)@, final(marks)@, keep as int, now)
        } else {
            final(marks)@ == old(marks)@
        },
{
    let ghost start = *marks;
    proof {
        start.lemma_positions();
    }
    let n: usize = marks.len();
    if n <= keep {
        return;
    }
    let excess: usize = n - keep;
    let mut order: Vec<(u8, u32, u8, u128)> = Vec::new();
    let mut i: usize = 0;
    while i < n
        invariant
            *marks == start,
            marks.wf(),
            n == marks.keys().len(),
            i <= n,
            order@.len() == i,
            forall|j: int|
                0 <= j < i ==> #[trigger] order@[j] == place(start.keys()[j], start@[start.keys()[j]], now),
        decreases n - i,
    {
        let k = marks.key_at(i);
        let m = marks.value_at(i);
        order.push((m.rank(now), m.seen, k.0, k.1));
        i = i + 1;
    }
    let ghost listed = order@;
    select_nth(&mut order, excess - 1);
    proof {
        lemma_selected(start, listed, order@, now);
    }
    let mut i: usize = 0;
    while i < excess
        invariant
            marks.wf(),
            start.wf(),
            n == start@.len(),
            excess <= n,
            i <= excess,
            order@.len() == n,
            marks@.submap_of(start@),
            marks@.len() == n - i,
            forall|j: int| 0 <= j < n ==> start@.contains_key(((#[trigger] order@[j]).2, order@[j].3)),
            forall|j: int, l: int|
                0 <= j < l < n ==> ((#[trigger] order@[j]).2, order@[j].3) != ((#[trigger] order@[l]).2, order@[l].3),
            forall|j: int| 0 <= j < i ==> !marks@.contains_key(((#[trigger] order@[j]).2, order@[j].3)),
            forall|j: int| i <= j < n ==> marks@.contains_key(((#[trigger] order@[j]).2, order@[j].3)),
        decreases excess - i,
    {
        let o = order[i];
        proof {
            marks.lemma_positions();
            assert(marks@.contains_key((order@[i as int].2, order@[i as int].3)));
        }
        let ghost before = marks@;
        marks.remove((o.2, o.3));
        proof {
            marks.lemma_positions();
            assert forall|j: int| i + 1 <= j < n implies marks@.contains_key(
                ((#[trigger] order@[j]).2, order@[j].3),
            ) by {
                assert(before.contains_key((order@[j].2, order@[j].3)));
                assert((order@[i as int].2, order@[i as int].3) != (order@[j].2, order@[j].3));
            }
        }
        i = i + 1;
    }
    proof {
        marks.lemma_positions();
        assert forall|gone: (u8, u128), kept: (u8, u128)|
            start@.contains_key(gone) && !#[trigger] marks@.contains_key(gone) && #[trigger] marks@.contains_key(
                kept,
            ) implies no_later(place(gone, start@[gone], now), place(kept, start@[kept], now)) by {
            let a = lemma_place_listed(start, order@, gone, now);
            let b = lemma_place_listed(start, order@, kept, now);
            assert(a < excess) by {
                if a >= excess {
                    assert(marks@.contains_key((order@[a].2, order@[a].3)));
                }
            }
            assert(b >= excess) by {
                if b < excess {
                    assert(!marks@.contains_key((order@[b].2, order@[b].3)));
                }
            }
            assert(no_later(order@[a], order@[excess - 1]));
            assert(no_later(order@[excess - 1], order@[b]));
        }
    }
}

/// Whether `order` lists every source's place once.
spec fn lists_places(table: IntTable<Mark>, order: Seq<(u8, u32, u8, u128)>, now: u32) -> bool {
    &&& order.len() == table@.len()
    &&& forall|j: int|
        0 <= j < order.len() ==> table@.contains_key(((#[trigger] order[j]).2, order[j].3)) && order[j] == place(
            (order[j].2, order[j].3),
            table@[(order[j].2, order[j].3)],
            now,
        )
    &&& forall|j: int, l: int|
        0 <= j < l < order.len() ==> ((#[trigger] order[j]).2, order[j].3) != ((#[trigger] order[l]).2, order[l].3)
    &&& forall|k: (u8, u128)| #[trigger]
        table@.contains_key(k) ==> order.contains(place(k, table@[k], now))
}

proof fn lemma_selected(
    table: IntTable<Mark>,
    listed: Seq<(u8, u32, u8, u128)>,
    order: Seq<(u8, u32, u8, u128)>,
    now: u32,
)
    requires
        table.wf(),
        listed.len() == table.keys().len(),
        forall|j: int|
            0 <= j < listed.len() ==> #[trigger] listed[j] == place(table.keys()[j], table@[table.keys()[j]], now),
        order.to_multiset() == listed.to_multiset(),
    ensures
        lists_places(table, order, now),
{
    table.lemma_positions();
    listed.to_multiset_ensures();
    order.to_multiset_ensures();
    assert(listed.no_duplicates()) by {
        assert forall|i: int, j: int| 0 <= i < listed.len() && 0 <= j < listed.len() && i != j implies listed[i]
            != listed[j] by {
            assert(table.keys()[i] != table.keys()[j]);
        }
    }
    listed.lemma_multiset_has_no_duplicates();
    order.lemma_multiset_has_no_duplicates_conv();
    assert forall|j: int| 0 <= j < order.len() implies table@.contains_key(((#[trigger] order[j]).2, order[j].3))
        && order[j] == place((order[j].2, order[j].3), table@[(order[j].2, order[j].3)], now) by {
        assert(order.contains(order[j]));
        assert(listed.to_multiset().count(order[j]) > 0);
        assert(listed.contains(order[j]));
        let i = listed.index_of(order[j]);
        assert(listed[i] == place(table.keys()[i], table@[table.keys()[i]], now));
        assert(table@.contains_key(table.keys()[i]));
    }
    assert forall|k: (u8, u128)| #[trigger] table@.contains_key(k) implies order.contains(place(k, table@[k], now)) by {
        let i = table.keys().index_of(k);
        assert(table.keys()[i] == k);
        assert(listed[i] == place(k, table@[k], now));
        assert(listed.contains(listed[i]));
        assert(order.to_multiset().count(listed[i]) > 0);
    }
    assert forall|j: int, l: int| 0 <= j < l < order.len() implies ((#[trigger] order[j]).2, order[j].3) != (
        (#[trigger] order[l]).2,
        order[l].3,
    ) by {
        if (order[j].2, order[j].3) == (order[l].2, order[l].3) {
            assert(order[j] == order[l]);
        }
    }
}

proof fn lemma_place_listed(
    table: IntTable<Mark>,
    order: Seq<(u8, u32, u8, u128)>,
    k: (u8, u128),
    now: u32,
) -> (j: int)
    requires
        lists_places(table, order, now),
        table@.contains_key(k),
    ensures
        0 <= j < order.len(),
        order[j] == place(k, table@[k], now),
{
    order.index_of(place(k, table@[k], now))
}

/// Forgets what is no longer held against anyone, and gives up sources if the
/// table is still too large.
pub fn sweep(marks: &mut IntTable<Mark>, now: u32, t: &Terms)
    requires
        old(marks).wf(),
    ensures
        final(marks).wf(),
        swept(old(marks)@, final(marks)@, now, *t),
        final(marks)@.len() < MAX_TRACKED,
{
    retain(marks, now, t);
    if marks.len() >= MAX_TRACKED {
        evict(marks, EVICT_TO, now);
    }
}

/// A sweep never brings a source back nor changes what is held against it,
/// and while the table is not too large it forgets nobody that anything is
/// held against.
pub proof fn law_sweep_is_fair(before: Map<(u8, u128), Mark>, after: Map<(u8, u128), Mark>, now: u32, t: Terms)
    requires
        swept(before, after, now, t),
    ensures
        after.submap_of(before),
        kept_marks(before, now, t).len() < MAX_TRACKED ==> forall|k: (u8, u128)|
            before.contains_key(k) && held_against(before[k], now, t) ==> #[trigger] after.contains_key(k),
{
    let kept = kept_marks(before, now, t);
    assert forall|k: (u8, u128)| #[trigger] after.dom().contains(k) implies before.dom().contains(k) && after[k]
        == before[k] by {
        assert(kept.dom().contains(k));
    }
}

/// A source serving a penalty is given up only once every source that is not
/// has been.
pub proof fn law_banned_last(
    before: Map<(u8, u128), Mark>,
    after: Map<(u8, u128), Mark>,
    keep: int,
    now: u32,
    gone: (u8, u128),
    kept: (u8, u128),
)
    requires
        given_up(before, after, keep, now),
        before.contains_key(gone),
        !after.contains_key(gone),
        after.contains_key(kept),
    ensures
        rank_of(before[gone], now) <= rank_of(before[kept], now),
{
    assert(no_later(place(gone, before[gone], now), place(kept, before[kept], now)));
}

} // verus!
