//! The same rules in other lists.

use vstd::prelude::*;
use vstd::utf8::*;

use crate::domidx::{filed, key_hash};
use crate::engine::reach::{law_literal_reach, lemma_filed_members, lemma_looked_up_members, lemma_scan_members};
use crate::engine::set::{
    cancels, carriers, considered, eligible, found_literals, grouped, host_refs, looked_up, looked_up_all, named_in, outranks,
    pairs_of, scan_of, weighed, with_line, with_lines, with_lists, Content, Loaded, LoadedHost, RequestV, MAX_SOURCE,
};
use crate::engine::words::suffixes;
use crate::engine::{
    allow_verdict, block_verdict, host_report, net_report, of_family, removed, removes, selected, standing, stands,
    MatchV, MatchedV, Reason,
};
use crate::ip::Ip;
use crate::multi::{gathered, picked};
use crate::rule::parse::{Known, PatternFacts};
use crate::rule::RewriteV;
use crate::shortcut::{hits_in, rules_of};
use crate::text::{lower, split};

verus! {

/// Whether two runs of network rules differ in nothing but their lists.
pub open spec fn same_net(a: Seq<Loaded>, b: Seq<Loaded>) -> bool {
    &&& a.len() == b.len()
    &&& forall|i: int| 0 <= i < a.len() ==> (#[trigger] a[i]).parsed == b[i].parsed && a[i].text == b[i].text
}

/// Whether two runs of hosts rules differ in nothing but their lists.
pub open spec fn same_hosts(a: Seq<LoadedHost>, b: Seq<LoadedHost>) -> bool {
    &&& a.len() == b.len()
    &&& forall|i: int|
        0 <= i < a.len() ==> (#[trigger] a[i]).text == b[i].text && a[i].ip == b[i].ip && a[i].names == b[i].names
}

/// Whether two sets hold the same rules in the same order.
pub open spec fn same_rules(a: Content, b: Content) -> bool {
    same_net(a.net, b.net) && same_hosts(a.hosts, b.hosts)
}

/// The lines of some lists, one list's after the other's.
pub open spec fn all_lines(lists: Seq<(i64, Seq<char>)>) -> Seq<Seq<char>>
    decreases lists.len(),
{
    if lists.len() == 0 {
        Seq::empty()
    } else {
        split(lists[0].1, '\n') + all_lines(lists.drop_first())
    }
}

proof fn lemma_line(a: Content, b: Content, line: Seq<char>, x: i64, y: i64, k: Known, facts: spec_fn(Seq<char>) -> PatternFacts)
    requires
        same_rules(a, b),
    ensures
        same_rules(with_line(a, line, x, k, facts), with_line(b, line, y, k, facts)),
{
}

proof fn lemma_lines(
    a: Content,
    b: Content,
    lines: Seq<Seq<char>>,
    x: i64,
    y: i64,
    k: Known,
    facts: spec_fn(Seq<char>) -> PatternFacts,
)
    requires
        same_rules(a, b),
    ensures
        same_rules(with_lines(a, lines, x, k, facts), with_lines(b, lines, y, k, facts)),
    decreases lines.len(),
{
    if lines.len() > 0 {
        lemma_line(a, b, lines[0], x, y, k, facts);
        lemma_lines(
            with_line(a, lines[0], x, k, facts),
            with_line(b, lines[0], y, k, facts),
            lines.drop_first(),
            x,
            y,
            k,
            facts,
        );
    }
}

proof fn lemma_lines_add(
    c: Content,
    a: Seq<Seq<char>>,
    b: Seq<Seq<char>>,
    list: i64,
    k: Known,
    facts: spec_fn(Seq<char>) -> PatternFacts,
)
    ensures
        with_lines(c, a + b, list, k, facts) == with_lines(with_lines(c, a, list, k, facts), b, list, k, facts),
    decreases a.len(),
{
    if a.len() == 0 {
        assert(a + b =~= b);
    } else {
        assert((a + b).drop_first() =~= a.drop_first() + b);
        lemma_lines_add(with_line(c, a[0], list, k, facts), a.drop_first(), b, list, k, facts);
    }
}

proof fn lemma_as_one_list(
    a: Content,
    b: Content,
    lists: Seq<(i64, Seq<char>)>,
    k: Known,
    facts: spec_fn(Seq<char>) -> PatternFacts,
)
    requires
        same_rules(a, b),
    ensures
        same_rules(with_lists(a, lists, k, facts), with_lines(b, all_lines(lists), 0, k, facts)),
    decreases lists.len(),
{
    if lists.len() > 0 {
        let here = split(lists[0].1, '\n');
        lemma_lines(a, b, here, lists[0].0, 0, k, facts);
        lemma_lines_add(b, here, all_lines(lists.drop_first()), 0, k, facts);
        lemma_as_one_list(
            with_lines(a, here, lists[0].0, k, facts),
            with_lines(b, here, 0, k, facts),
            lists.drop_first(),
            k,
            facts,
        );
    }
}

/// Lists of the same lines load the same rules in the same order, however
/// the lines are divided among the lists.
pub proof fn law_same_lines_same_rules(
    c: Content,
    a: Seq<(i64, Seq<char>)>,
    b: Seq<(i64, Seq<char>)>,
    k: Known,
    facts: spec_fn(Seq<char>) -> PatternFacts,
)
    requires
        all_lines(a) == all_lines(b),
    ensures
        same_rules(with_lists(c, a, k, facts), with_lists(c, b, k, facts)),
{
    lemma_as_one_list(c, c, a, k, facts);
    lemma_as_one_list(c, c, b, k, facts);
}

proof fn lemma_indexes(a: Seq<Loaded>, b: Seq<Loaded>)
    requires
        same_net(a, b),
    ensures
        pairs_of(a) == pairs_of(b),
        scan_of(a) == scan_of(b),
        forall|t: Seq<u8>| #[trigger] carriers(a, t) == carriers(b, t),
    decreases a.len(),
{
    if a.len() > 0 {
        let (c, d) = (a.drop_last(), b.drop_last());
        assert(a.last() == a[a.len() - 1]);
        assert forall|i: int| 0 <= i < c.len() implies (#[trigger] c[i]).parsed == d[i].parsed && c[i].text
            == d[i].text by {
            assert(c[i] == a[i]);
        }
        lemma_indexes(c, d);
        assert forall|t: Seq<u8>| #[trigger] carriers(a, t) == carriers(b, t) by {
            assert(carriers(c, t) == carriers(d, t));
        }
    }
}

proof fn lemma_looked_up(a: Seq<Loaded>, b: Seq<Loaded>, names: Seq<Seq<char>>)
    requires
        same_net(a, b),
        a.len() <= MAX_SOURCE,
    ensures
        looked_up_all(a, names) == looked_up_all(b, names),
    decreases names.len(),
{
    if names.len() > 0 {
        lemma_indexes(a, b);
        let h = key_hash(encode_utf8(names[0]));
        let run = filed(pairs_of(a), h);
        if run.len() > 0 {
            assert(run.contains(run[0]));
            lemma_filed_members(a, h, run[0]);
            assert(a[run[0] as int].text == b[run[0] as int].text);
        }
        assert(looked_up(a, names[0]) == looked_up(b, names[0]));
        lemma_looked_up(a, b, names.drop_first());
    }
}

proof fn lemma_considered(a: Seq<Loaded>, b: Seq<Loaded>, host: Seq<char>, order: Seq<u32>)
    requires
        same_net(a, b),
        a.len() <= MAX_SOURCE,
        considered(a, host, order),
    ensures
        considered(b, host, order),
{
    let bytes = encode_utf8(lower(host));
    let found = choose|found: Seq<u32>| #[trigger]
        found_literals(a, bytes, found) && order == looked_up_all(a, suffixes(host)) + found + scan_of(a);
    lemma_indexes(a, b);
    lemma_looked_up(a, b, suffixes(host));
    let patterns = choose|patterns: Seq<(Seq<u8>, Seq<u32>)>| #[trigger]
        grouped(patterns, a) && found == gathered(rules_of(patterns), hits_in(patterns, bytes));
    assert(grouped(patterns, b)) by {
        assert forall|p: int| 0 <= p < patterns.len() implies (#[trigger] patterns[p]).1 == carriers(b, patterns[p].0)
            && patterns[p].1.len() > 0 by {
            assert(carriers(a, patterns[p].0) == carriers(b, patterns[p].0));
        }
        assert forall|t: Seq<u8>| #[trigger] carriers(b, t).len() > 0 implies exists|p: int|
            0 <= p < patterns.len() && (#[trigger] patterns[p]).0 == t by {
            assert(carriers(a, t) == carriers(b, t));
        }
    }
    assert(found_literals(b, bytes, found));
}

proof fn lemma_in_range(net: Seq<Loaded>, host: Seq<char>, order: Seq<u32>, n: int)
    requires
        net.len() <= MAX_SOURCE,
        considered(net, host, order),
        0 <= n < order.len(),
    ensures
        order[n] < net.len(),
{
    let bytes = encode_utf8(lower(host));
    let found = choose|found: Seq<u32>| #[trigger]
        found_literals(net, bytes, found) && order == looked_up_all(net, suffixes(host)) + found + scan_of(net);
    let a = looked_up_all(net, suffixes(host));
    let i = order[n];
    if n < a.len() {
        assert(a[n] == i);
        assert(a.contains(i));
        lemma_looked_up_members(net, suffixes(host), i);
        let m = choose|m: int| 0 <= m < suffixes(host).len() && looked_up(net, #[trigger] suffixes(host)[m]).contains(i);
        lemma_filed_members(net, key_hash(encode_utf8(suffixes(host)[m])), i);
    } else if n < a.len() + found.len() {
        assert(found[n - a.len()] == i);
        assert(found.contains(i));
        law_literal_reach(net, bytes, found, i);
    } else {
        assert(scan_of(net)[n - a.len() - found.len()] == i);
        assert(scan_of(net).contains(i));
        lemma_scan_members(net, i);
    }
}

proof fn lemma_eligible(a: Seq<Loaded>, b: Seq<Loaded>, i: int, q: RequestV)
    requires
        same_net(a, b),
        0 <= i < a.len(),
    ensures
        eligible(a, i, q) == eligible(b, i, q),
{
    assert forall|t: Seq<char>| cancels(a, t) == cancels(b, t) by {
        if cancels(a, t) {
            let j = choose|j: int|
                0 <= j < a.len() && (#[trigger] a[j]).parsed.opts.badfilter && crate::engine::words::canonical(a[j].text) == t;
            assert(b[j].parsed == a[j].parsed);
        }
        if cancels(b, t) {
            let j = choose|j: int|
                0 <= j < b.len() && (#[trigger] b[j]).parsed.opts.badfilter && crate::engine::words::canonical(b[j].text) == t;
            assert(b[j].parsed == a[j].parsed);
        }
    }
    assert(a[i].text == b[i].text);
}

proof fn lemma_weighed(a: Seq<Loaded>, b: Seq<Loaded>, order: Seq<u32>, q: RequestV)
    requires
        same_net(a, b),
        forall|n: int| 0 <= n < order.len() ==> #[trigger] order[n] < a.len(),
    ensures
        weighed(a, order, q) == weighed(b, order, q),
        weighed(a, order, q).0 matches Some(i) ==> i < a.len(),
        forall|n: int| 0 <= n < weighed(a, order, q).1.len() ==> #[trigger] weighed(a, order, q).1[n] < a.len(),
    decreases order.len(),
{
    if order.len() > 0 {
        let d = order.drop_last();
        let i = order.last();
        assert(i == order[order.len() - 1]);
        assert forall|n: int| 0 <= n < d.len() implies #[trigger] d[n] < a.len() by {
            assert(d[n] == order[n]);
        }
        lemma_weighed(a, b, d, q);
        lemma_eligible(a, b, i as int, q);
        assert(a[i as int].parsed == b[i as int].parsed);
        let (best, rewrites) = weighed(a, d, q);
        if let Some(x) = best {
            assert(a[x as int].parsed == b[x as int].parsed);
            assert(outranks(a, i as int, x as int) == outranks(b, i as int, x as int));
        }
        let all = weighed(a, order, q).1;
        assert forall|n: int| 0 <= n < all.len() implies #[trigger] all[n] < a.len() by {
            if n < rewrites.len() {
                assert(rewrites[n] < a.len());
            }
        }
    }
}


/// What an outcome says, whatever lists its rules came from: the reason, each
/// rule's text and address, and the rewrites.
pub ghost struct Said {
    pub reason: Reason,
    pub rules: Seq<(Seq<char>, Option<Ip>)>,
    pub rewrites: Seq<RewriteV>,
}

/// What an outcome says, whatever lists its rules came from.
pub open spec fn said(m: MatchV) -> Said {
    Said { reason: m.reason, rules: m.rules.map_values(|r: MatchedV| (r.text, r.ip)), rewrites: m.rewrites }
}

proof fn lemma_hosts(a: Seq<LoadedHost>, b: Seq<LoadedHost>, name: Seq<char>)
    requires
        same_hosts(a, b),
        a.len() <= MAX_SOURCE,
    ensures
        host_refs(a, name) == host_refs(b, name),
        forall|n: int| 0 <= n < host_refs(a, name).len() ==> #[trigger] host_refs(a, name)[n] < a.len(),
    decreases a.len(),
{
    if a.len() > 0 {
        let (c, d) = (a.drop_last(), b.drop_last());
        assert(a.last() == a[a.len() - 1]);
        assert forall|i: int| 0 <= i < c.len() implies (#[trigger] c[i]).text == d[i].text && c[i].ip == d[i].ip && c[i].names
            == d[i].names by {
            assert(c[i] == a[i]);
        }
        lemma_hosts(c, d, name);
        let idx = (a.len() - 1) as u32;
        lemma_named(a.last().names, name, idx);
        let all = host_refs(a, name);
        let less = host_refs(c, name);
        let more = named_in(a.last().names, name, idx);
        assert forall|n: int| 0 <= n < all.len() implies #[trigger] all[n] < a.len() by {
            if n < less.len() {
                assert(less[n] < c.len());
            } else {
                assert(more[n - less.len()] == idx);
            }
        }
    }
}

proof fn lemma_named(names: Seq<Seq<char>>, name: Seq<char>, idx: u32)
    ensures
        forall|n: int| 0 <= n < named_in(names, name, idx).len() ==> #[trigger] named_in(names, name, idx)[n] == idx,
    decreases names.len(),
{
    if names.len() > 0 {
        lemma_named(names.drop_last(), name, idx);
        let less = named_in(names.drop_last(), name, idx);
        let all = named_in(names, name, idx);
        assert forall|n: int| 0 <= n < all.len() implies #[trigger] all[n] == idx by {
            if n < less.len() {
                assert(all[n] == less[n]);
            }
        }
    }
}

proof fn lemma_picked_same(s: Seq<u32>, f: spec_fn(u32) -> Option<u32>, g: spec_fn(u32) -> Option<u32>)
    requires
        forall|n: int| 0 <= n < s.len() ==> f(#[trigger] s[n]) == g(s[n]),
    ensures
        picked(s, f) == picked(s, g),
    decreases s.len(),
{
    if s.len() > 0 {
        assert(s.last() == s[s.len() - 1]);
        let d = s.drop_last();
        assert forall|n: int| 0 <= n < d.len() implies f(#[trigger] d[n]) == g(d[n]) by {
            assert(d[n] == s[n]);
        }
        lemma_picked_same(d, f, g);
    }
}

proof fn lemma_picked_from(s: Seq<u32>, f: spec_fn(u32) -> Option<u32>, bound: int)
    requires
        forall|n: int| 0 <= n < s.len() ==> #[trigger] s[n] < bound,
        forall|i: u32| #[trigger] f(i) matches Some(j) ==> j == i,
    ensures
        forall|n: int| 0 <= n < picked(s, f).len() ==> #[trigger] picked(s, f)[n] < bound,
    decreases s.len(),
{
    if s.len() > 0 {
        let d = s.drop_last();
        let x = s.last();
        assert(x == s[s.len() - 1]);
        assert forall|n: int| 0 <= n < d.len() implies #[trigger] d[n] < bound by {
            assert(d[n] == s[n]);
        }
        lemma_picked_from(d, f, bound);
        let less = picked(d, f);
        let all = picked(s, f);
        assert forall|n: int| 0 <= n < all.len() implies #[trigger] all[n] < bound by {
            if n < less.len() {
                assert(less[n] < bound);
            } else {
                assert(f(x) == Some(all[n]));
            }
        }
    }
}

proof fn lemma_standing(a: Seq<Loaded>, b: Seq<Loaded>, rewrites: Seq<u32>, host: Seq<char>)
    requires
        same_net(a, b),
        forall|n: int| 0 <= n < rewrites.len() ==> #[trigger] rewrites[n] < a.len(),
    ensures
        standing(a, rewrites, host) == standing(b, rewrites, host),
        forall|n: int| 0 <= n < standing(a, rewrites, host).len() ==> #[trigger] standing(a, rewrites, host)[n] < a.len(),
{
    let f = |i: u32| if stands(a, rewrites, i, host) { Some(i) } else { None };
    let g = |i: u32| if stands(b, rewrites, i, host) { Some(i) } else { None };
    assert forall|n: int| 0 <= n < rewrites.len() implies f(#[trigger] rewrites[n]) == g(rewrites[n]) by {
        let i = rewrites[n];
        assert(a[i as int].parsed == b[i as int].parsed);
        assert(removed(a, rewrites, i) == removed(b, rewrites, i)) by {
            assert forall|j: int| 0 <= j < rewrites.len() implies a[#[trigger] rewrites[j] as int].parsed
                == b[rewrites[j] as int].parsed by {}
            if removed(a, rewrites, i) {
                let j = choose|j: int|
                    0 <= j < rewrites.len() && a[#[trigger] rewrites[j] as int].parsed.allowlist && removes(
                        a[rewrites[j] as int].parsed,
                        a[i as int].parsed,
                    );
                assert(b[rewrites[j] as int].parsed.allowlist);
            }
            if removed(b, rewrites, i) {
                let j = choose|j: int|
                    0 <= j < rewrites.len() && b[#[trigger] rewrites[j] as int].parsed.allowlist && removes(
                        b[rewrites[j] as int].parsed,
                        b[i as int].parsed,
                    );
                assert(a[rewrites[j] as int].parsed.allowlist);
            }
        }
    }
    lemma_picked_same(rewrites, f, g);
    lemma_picked_from(rewrites, f, a.len() as int);
}

proof fn lemma_selected(a: Seq<LoadedHost>, b: Seq<LoadedHost>, refs: Seq<u32>, qtype: u16)
    requires
        same_hosts(a, b),
        forall|n: int| 0 <= n < refs.len() ==> #[trigger] refs[n] < a.len(),
    ensures
        selected(a, refs, qtype) == selected(b, refs, qtype),
        forall|n: int| 0 <= n < selected(a, refs, qtype).len() ==> #[trigger] selected(a, refs, qtype)[n] < a.len(),
{
    let v4 = qtype == 1;
    let f = |i: u32| if (a[i as int].ip is V4) == v4 { Some(i) } else { None };
    let g = |i: u32| if (b[i as int].ip is V4) == v4 { Some(i) } else { None };
    assert forall|n: int| 0 <= n < refs.len() implies f(#[trigger] refs[n]) == g(refs[n]) by {
        assert(a[refs[n] as int].ip == b[refs[n] as int].ip);
    }
    lemma_picked_same(refs, f, g);
    lemma_picked_from(refs, f, a.len() as int);
    assert(of_family(a, refs, v4) == picked(refs, f));
    assert(of_family(b, refs, v4) == picked(refs, g));
}

proof fn lemma_net_said(a: Seq<Loaded>, b: Seq<Loaded>, s: Seq<u32>)
    requires
        same_net(a, b),
        forall|n: int| 0 <= n < s.len() ==> #[trigger] s[n] < a.len(),
    ensures
        s.map_values(|i: u32| net_report(a, i)).map_values(|r: MatchedV| (r.text, r.ip)) == s.map_values(
            |i: u32| net_report(b, i),
        ).map_values(|r: MatchedV| (r.text, r.ip)),
        s.map_values(|i: u32| a[i as int].parsed.opts.dnsrewrite->0) == s.map_values(
            |i: u32| b[i as int].parsed.opts.dnsrewrite->0,
        ),
{
    let x = s.map_values(|i: u32| net_report(a, i)).map_values(|r: MatchedV| (r.text, r.ip));
    let y = s.map_values(|i: u32| net_report(b, i)).map_values(|r: MatchedV| (r.text, r.ip));
    assert forall|n: int| 0 <= n < s.len() implies x[n] == y[n] by {
        assert(a[s[n] as int].text == b[s[n] as int].text);
    }
    assert(x =~= y);
    let v = s.map_values(|i: u32| a[i as int].parsed.opts.dnsrewrite->0);
    let w = s.map_values(|i: u32| b[i as int].parsed.opts.dnsrewrite->0);
    assert forall|n: int| 0 <= n < s.len() implies v[n] == w[n] by {
        assert(a[s[n] as int].parsed == b[s[n] as int].parsed);
    }
    assert(v =~= w);
}

proof fn lemma_hosts_said(a: Seq<LoadedHost>, b: Seq<LoadedHost>, s: Seq<u32>)
    requires
        same_hosts(a, b),
        forall|n: int| 0 <= n < s.len() ==> #[trigger] s[n] < a.len(),
    ensures
        s.map_values(|i: u32| host_report(a, i)).map_values(|r: MatchedV| (r.text, r.ip)) == s.map_values(
            |i: u32| host_report(b, i),
        ).map_values(|r: MatchedV| (r.text, r.ip)),
{
    let x = s.map_values(|i: u32| host_report(a, i)).map_values(|r: MatchedV| (r.text, r.ip));
    let y = s.map_values(|i: u32| host_report(b, i)).map_values(|r: MatchedV| (r.text, r.ip));
    assert forall|n: int| 0 <= n < s.len() implies x[n] == y[n] by {
        assert(a[s[n] as int].text == b[s[n] as int].text);
    }
    assert(x =~= y);
}

/// Sets of the same rules consider the same rules and come to the same
/// outcome, with the same rules cited, whatever lists those came from.
pub proof fn law_lists_may_be_split(a: Content, b: Content, order: Seq<u32>, q: RequestV)
    requires
        same_rules(a, b),
        a.net.len() <= MAX_SOURCE,
        a.hosts.len() <= MAX_SOURCE,
        considered(a.net, q.host, order),
    ensures
        considered(b.net, q.host, order),
        said(block_verdict(a, order, q)) == said(block_verdict(b, order, q)),
        match (allow_verdict(a, order, q), allow_verdict(b, order, q)) {
            (Some(x), Some(y)) => said(x) == said(y),
            (None, None) => true,
            _ => false,
        },
{
    lemma_considered(a.net, b.net, q.host, order);
    assert forall|n: int| 0 <= n < order.len() implies #[trigger] order[n] < a.net.len() by {
        lemma_in_range(a.net, q.host, order, n);
    }
    lemma_weighed(a.net, b.net, order, q);
    lemma_hosts(a.hosts, b.hosts, q.host);
    let (best, rewrites) = weighed(a.net, order, q);
    lemma_standing(a.net, b.net, rewrites, q.host);
    let kept = standing(a.net, rewrites, q.host);
    lemma_net_said(a.net, b.net, kept);
    let refs = host_refs(a.hosts, q.host);
    lemma_selected(a.hosts, b.hosts, refs, q.qtype);
    lemma_hosts_said(a.hosts, b.hosts, refs);
    lemma_hosts_said(a.hosts, b.hosts, selected(a.hosts, refs, q.qtype));
    if let Some(i) = best {
        assert(a.net[i as int].parsed == b.net[i as int].parsed && a.net[i as int].text == b.net[i as int].text);
        let x = seq![net_report(a.net, i)].map_values(|r: MatchedV| (r.text, r.ip));
        let y = seq![net_report(b.net, i)].map_values(|r: MatchedV| (r.text, r.ip));
        assert(x =~= y);
    }
}

} // verus!
