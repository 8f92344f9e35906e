//! What allowlists owe to no blocklist.

use vstd::prelude::*;

use crate::engine::reach::{law_considered, law_loaded_as_parsed, no_collision, within_reach};
use crate::engine::set::{
    competes, considered, host_refs, law_one_order_considered, law_winner, lemma_considered_in_range,
    lemma_refs_in_range, no_content, weighed, with_line, with_lines, with_lists, Content, RequestV,
};
use crate::engine::{allow_verdict, allows, answers, Engine, MatchV, Reason};
use crate::rule::parse::{Known, PatternFacts};
use crate::text::split;

verus! {

/// Whether some rule of a set that is no rewrite applies to a request and is
/// not cancelled, or some hosts rule names its host.
pub open spec fn speaks(c: Content, q: RequestV) -> bool {
    ||| host_refs(c.hosts, q.host).len() > 0
    ||| no_collision(c.net, q.host) && exists|i: int|
        0 <= i < c.net.len() && #[trigger] within_reach(c.net, q.host, i) && competes(c.net, i, q)
}

/// Whether `id` is that of one of `lists`.
pub open spec fn among(lists: Seq<(i64, Seq<char>)>, id: i64) -> bool {
    exists|j: int| 0 <= j < lists.len() && (#[trigger] lists[j]).0 == id
}

/// Whether every rule came from one of `lists`.
spec fn from_lists(c: Content, lists: Seq<(i64, Seq<char>)>) -> bool {
    &&& forall|i: int| 0 <= i < c.net.len() ==> among(lists, (#[trigger] c.net[i]).list)
    &&& forall|i: int| 0 <= i < c.hosts.len() ==> among(lists, (#[trigger] c.hosts[i]).list)
}

proof fn lemma_lines_from(
    c: Content,
    lines: Seq<Seq<char>>,
    list: i64,
    k: Known,
    facts: spec_fn(Seq<char>) -> PatternFacts,
    lists: Seq<(i64, Seq<char>)>,
)
    requires
        from_lists(c, lists),
        among(lists, list),
    ensures
        from_lists(with_lines(c, lines, list, k, facts), lists),
    decreases lines.len(),
{
    if lines.len() > 0 {
        let d = with_line(c, lines[0], list, k, facts);
        assert(from_lists(d, lists)) by {
            assert forall|i: int| 0 <= i < d.net.len() implies among(lists, (#[trigger] d.net[i]).list) by {
                if i < c.net.len() {
                    assert(d.net[i] == c.net[i]);
                }
            }
            assert forall|i: int| 0 <= i < d.hosts.len() implies among(lists, (#[trigger] d.hosts[i]).list) by {
                if i < c.hosts.len() {
                    assert(d.hosts[i] == c.hosts[i]);
                }
            }
        }
        lemma_lines_from(d, lines.drop_first(), list, k, facts, lists);
    }
}

proof fn lemma_lists_from(
    c: Content,
    rest: Seq<(i64, Seq<char>)>,
    k: Known,
    facts: spec_fn(Seq<char>) -> PatternFacts,
    lists: Seq<(i64, Seq<char>)>,
)
    requires
        from_lists(c, lists),
        forall|j: int| 0 <= j < rest.len() ==> among(lists, (#[trigger] rest[j]).0),
    ensures
        from_lists(with_lists(c, rest, k, facts), lists),
    decreases rest.len(),
{
    if rest.len() > 0 {
        let lines = split(rest[0].1, '\n');
        let d = with_lines(c, lines, rest[0].0, k, facts);
        lemma_lines_from(c, lines, rest[0].0, k, facts, lists);
        let less = rest.drop_first();
        assert forall|j: int| 0 <= j < less.len() implies among(lists, (#[trigger] less[j]).0) by {
            assert(less[j] == rest[j + 1]);
        }
        lemma_lists_from(d, less, k, facts, lists);
    }
}

/// No blocklist changes what the allowlists allow: engines of the same
/// allowlists give a request on which those speak the same outcome, whatever
/// their blocklists. It is allowed, rewritten to nothing, and every rule cited
/// comes from one of the allowlists.
pub proof fn law_allowed_whatever_is_blocked(
    lists: Seq<(i64, Seq<char>)>,
    k: Known,
    facts: spec_fn(Seq<char>) -> PatternFacts,
    one: &Engine,
    other: &Engine,
    q: RequestV,
    m: MatchV,
    n: MatchV,
)
    requires
        one.wf(),
        other.wf(),
        one.allow.content() == with_lists(no_content(), lists, k, facts),
        other.allow.content() == one.allow.content(),
        q.host.len() > 0,
        speaks(one.allow.content(), q),
        answers(one.allow.content(), one.block.content(), q, m),
        answers(other.allow.content(), other.block.content(), q, n),
    ensures
        m == n,
        m.reason == Reason::NotFilteredAllowList,
        m.rewrites.len() == 0,
        m.rules.len() > 0,
        forall|i: int| 0 <= i < m.rules.len() ==> among(lists, (#[trigger] m.rules[i]).list),
{
    let c = one.allow.content();
    one.allow.lemma_indexes(one.pool.all());
    law_loaded_as_parsed(no_content(), lists, k, facts);
    assert forall|j: int| 0 <= j < lists.len() implies among(lists, (#[trigger] lists[j]).0) by {}
    lemma_lists_from(no_content(), lists, k, facts, lists);
    let x = choose|a: Option<MatchV>| #[trigger]
        allows(c, q, a) && match a {
            Some(v) => m == v,
            None => crate::engine::judges(one.block.content(), q, m),
        };
    let y = choose|a: Option<MatchV>| #[trigger]
        allows(c, q, a) && match a {
            Some(v) => n == v,
            None => crate::engine::judges(other.block.content(), q, n),
        };
    let refs = host_refs(c.hosts, q.host);
    lemma_refs_in_range(c.hosts, q.host);
    if refs.len() > 0 {
        assert(refs[0] < c.hosts.len());
    }
    assert(c.net.len() + c.hosts.len() > 0);
    let a = choose|order: Seq<u32>| #[trigger] considered(c.net, q.host, order) && x == allow_verdict(c, order, q);
    let b = choose|order: Seq<u32>| #[trigger] considered(c.net, q.host, order) && y == allow_verdict(c, order, q);
    law_one_order_considered(c.net, q.host, a, b);
    law_winner(c.net, a, q);
    lemma_considered_in_range(c.net, q.host, a);
    if refs.len() == 0 {
        let i = choose|i: int|
            0 <= i < c.net.len() && #[trigger] within_reach(c.net, q.host, i) && competes(c.net, i, q);
        law_considered(c.net, q.host, a, i as u32, k, facts);
        assert(a.contains(i as u32));
        assert(weighed(c.net, a, q).0 is Some);
    }
    match weighed(c.net, a, q).0 {
        Some(i) => {
            assert(a.contains(i));
            let at = a.index_of(i);
            assert(a[at] < c.net.len());
            assert(among(lists, c.net[i as int].list));
        },
        None => {
            assert forall|i: int| 0 <= i < m.rules.len() implies among(lists, (#[trigger] m.rules[i]).list) by {
                assert(refs[i] < c.hosts.len());
                assert(among(lists, c.hosts[refs[i] as int].list));
            }
        },
    }
}

} // verus!
