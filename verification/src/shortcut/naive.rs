//! The index against a search that goes through every pair.

use vstd::prelude::*;
use vstd::string::*;
use vstd::utf8::*;

use crate::multi::gathered;
use crate::shortcut::{
    MAX_TEXT, MIN_SHORTCUT_LEN, ShortcutIndex, distinct_texts, hits_in, holds, http, kept, law_each_hit_once,
    lemma_kept_worth, lemma_same_distinct, lemma_same_worth, occurs_in, rules_of, worth,
};

verus! {

/// The pairs, with their texts as bytes.
pub open spec fn pairs_of(patterns: Seq<(String, Vec<u32>)>) -> Seq<(Seq<u8>, Seq<u32>)> {
    patterns.map_values(|p: (String, Vec<u32>)| (encode_utf8(p.0@), p.1@))
}

/// Whether every text is one that is filed whole, under rules.
pub open spec fn filed_whole(pairs: Seq<(Seq<u8>, Seq<u32>)>) -> bool {
    forall|i: int|
        0 <= i < pairs.len() ==> MIN_SHORTCUT_LEN <= (#[trigger] pairs[i]).0.len() <= MAX_TEXT && pairs[i].1.len() > 0
}

/// Whether `hits` names, each once, exactly the pairs whose text occurs in the
/// host or in `http`.
pub open spec fn searched(pairs: Seq<(Seq<u8>, Seq<u32>)>, host: Seq<u8>, hits: Seq<int>) -> bool {
    &&& hits.no_duplicates()
    &&& forall|i: int| #[trigger]
        hits.contains(i) <==> 0 <= i < pairs.len() && (occurs_in(pairs[i].0, host) || occurs_in(pairs[i].0, http()))
}

proof fn lemma_all_kept(patterns: Seq<(String, Vec<u32>)>)
    requires
        filed_whole(pairs_of(patterns)),
    ensures
        kept(patterns) == pairs_of(patterns),
    decreases patterns.len(),
{
    let f = |p: (String, Vec<u32>)| worth(p);
    if patterns.len() > 0 {
        let d = patterns.drop_last();
        assert(pairs_of(d) =~= pairs_of(patterns).drop_last());
        assert forall|i: int| 0 <= i < pairs_of(d).len() implies MIN_SHORTCUT_LEN <= (#[trigger] pairs_of(d)[i]).0.len()
            <= MAX_TEXT && pairs_of(d)[i].1.len() > 0 by {
            assert(pairs_of(d)[i] == pairs_of(patterns)[i]);
        }
        lemma_all_kept(d);
        assert(pairs_of(patterns)[patterns.len() - 1].1.len() > 0);
        assert(kept(patterns) =~= pairs_of(patterns));
    } else {
        assert(kept(patterns) =~= pairs_of(patterns));
    }
}

/// Where a pair of `ps` stands in `qs`.
spec fn place_in(qs: Seq<(Seq<u8>, Seq<u32>)>, p: (Seq<u8>, Seq<u32>)) -> int {
    qs.index_of(p)
}

proof fn lemma_gathered_from(
    ps: Seq<(Seq<u8>, Seq<u32>)>,
    qs: Seq<(Seq<u8>, Seq<u32>)>,
    hits: Seq<int>,
    there: Seq<int>,
)
    requires
        hits.len() == there.len(),
        forall|j: int|
            0 <= j < hits.len() ==> 0 <= #[trigger] hits[j] < ps.len() && 0 <= there[j] < qs.len() && ps[hits[j]]
                == qs[there[j]],
    ensures
        gathered(rules_of(ps), hits) == gathered(rules_of(qs), there),
    decreases hits.len(),
{
    if hits.len() > 0 {
        let n = hits.len() - 1;
        assert(0 <= hits[n] < ps.len() && ps[hits[n]] == qs[there[n]]);
        assert forall|j: int| 0 <= j < n implies 0 <= #[trigger] hits.drop_last()[j] < ps.len() && 0
            <= there.drop_last()[j] < qs.len() && ps[hits.drop_last()[j]] == qs[there.drop_last()[j]] by {
            assert(hits.drop_last()[j] == hits[j]);
        }
        lemma_gathered_from(ps, qs, hits.drop_last(), there.drop_last());
    }
}

/// A query reports what a search through every pair finds, and nothing else:
/// the rules of each pair whose text occurs in the host or in `http`, each such
/// pair once however often its text occurs, its rules one after the other in
/// their order.
pub proof fn law_agrees_with_naive_search(
    index: &ShortcutIndex,
    patterns: Seq<(String, Vec<u32>)>,
    host: Seq<u8>,
) -> (hits: Seq<int>)
    requires
        holds(index.patterns(), patterns),
        filed_whole(pairs_of(patterns)),
        distinct_texts(pairs_of(patterns)),
    ensures
        searched(pairs_of(patterns), host, hits),
        gathered(rules_of(index.patterns()), hits_in(index.patterns(), host)) == gathered(
            rules_of(pairs_of(patterns)),
            hits,
        ),
{
    let ps = index.patterns();
    let qs = pairs_of(patterns);
    let given = hits_in(ps, host);
    lemma_all_kept(patterns);
    lemma_kept_worth(patterns);
    lemma_same_worth(qs, ps);
    lemma_same_distinct(qs, ps);
    law_each_hit_once(ps, host);
    ps.to_multiset_ensures();
    qs.to_multiset_ensures();
    let hits = given.map_values(|p: int| place_in(qs, ps[p]));
    assert forall|p: int| 0 <= p < ps.len() implies 0 <= place_in(qs, #[trigger] ps[p]) < qs.len() && qs[place_in(
        qs,
        ps[p],
    )] == ps[p] by {
        assert(ps.contains(ps[p]));
        assert(qs.to_multiset().count(ps[p]) > 0);
        assert(qs.contains(ps[p]));
    }
    assert forall|j: int| 0 <= j < given.len() implies 0 <= #[trigger] given[j] < ps.len() && 0 <= hits[j] < qs.len()
        && ps[given[j]] == qs[hits[j]] by {
        assert(given.contains(given[j]));
    }
    lemma_gathered_from(ps, qs, given, hits);
    assert forall|a: int, b: int| 0 <= a < hits.len() && 0 <= b < hits.len() && a != b implies hits[a] != hits[b] by {
        assert(ps[given[a]] == qs[hits[a]] && ps[given[b]] == qs[hits[b]]);
        assert(given[a] != given[b]);
        if hits[a] == hits[b] {
            if given[a] < given[b] {
                assert(ps[given[a]].0 != ps[given[b]].0);
            } else {
                assert(ps[given[b]].0 != ps[given[a]].0);
            }
        }
    }
    assert forall|i: int| #[trigger] hits.contains(i) <==> 0 <= i < qs.len() && (occurs_in(qs[i].0, host) || occurs_in(
        qs[i].0,
        http(),
    )) by {
        if hits.contains(i) {
            let j = hits.index_of(i);
            assert(given.contains(given[j]));
            assert(ps[given[j]] == qs[i]);
            assert(qs[i].0.len() <= MAX_TEXT);
        }
        if 0 <= i < qs.len() && (occurs_in(qs[i].0, host) || occurs_in(qs[i].0, http())) {
            assert(qs[i].0.len() <= MAX_TEXT);
            assert(qs.contains(qs[i]));
            assert(ps.to_multiset().count(qs[i]) > 0);
            assert(ps.contains(qs[i]));
            let p = ps.index_of(qs[i]);
            assert(ps[p] == qs[i]);
            assert(given.contains(p));
            let j = given.index_of(p);
            assert(qs[hits[j]] == ps[given[j]]);
            if hits[j] < i {
                assert(qs[hits[j]].0 != qs[i].0);
            } else if hits[j] > i {
                assert(qs[i].0 != qs[hits[j]].0);
            }
            assert(hits[j] == i);
        }
    }
    hits
}

} // verus!
