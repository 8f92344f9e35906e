//! Which rules a request considers.

use vstd::prelude::*;
use vstd::utf8::*;

use crate::domidx::{filed, key_hash};
use crate::engine::set::{
    anchored, carriers, class, competes, considered, found_literals, grouped, literal, looked_up, looked_up_all,
    pairs_of, scan_of, weighed, with_line, with_lines, with_lists, Content, Loaded, RequestV, MAX_SOURCE,
};
use crate::engine::words::{anchored_to, law_suffixes, suffixes, under};
use crate::multi::gathered;
use crate::rule::parse::{anchor_of, domain_char, network_of, options_at, split_body, Known, ParsedV, PatternFacts};
use crate::shortcut::{hits_in, law_each_hit_once, reports, rules_of};
use crate::text::{begins, first_at, lower, lower_char, split};

verus! {

/// What is listed as a rewrite was considered and has a value.
pub proof fn lemma_rewrites_have_values(net: Seq<Loaded>, order: Seq<u32>, q: RequestV)
    ensures
        forall|i: int|
            0 <= i < weighed(net, order, q).1.len() ==> net[#[trigger] weighed(net, order, q).1[i] as int].parsed.opts.dnsrewrite is Some,
    decreases order.len(),
{
    if order.len() > 0 {
        lemma_rewrites_have_values(net, order.drop_last(), q);
        let d = weighed(net, order.drop_last(), q).1;
        let all = weighed(net, order, q).1;
        assert forall|i: int| 0 <= i < all.len() implies net[#[trigger] all[i] as int].parsed.opts.dnsrewrite is Some by {
            if i < d.len() {
                assert(net[d[i] as int].parsed.opts.dnsrewrite is Some);
            }
        }
    }
}

/// The winner's class is the highest of any considered rule that competes: an
/// important exception beats an important rule, which beats an exception,
/// which beats any other.
pub proof fn law_class_wins(net: Seq<Loaded>, order: Seq<u32>, q: RequestV, i: u32)
    requires
        order.contains(i),
        competes(net, i as int, q),
    ensures
        weighed(net, order, q).0 matches Some(b) && class(net[b as int].parsed) >= class(net[i as int].parsed),
{
    crate::engine::set::law_winner(net, order, q);
}

/// Whether each rule is what its text parses to.
pub open spec fn sourced(net: Seq<Loaded>, k: Known, facts: spec_fn(Seq<char>) -> PatternFacts) -> bool {
    forall|i: int|
        0 <= i < net.len() ==> network_of((#[trigger] net[i]).text, k, facts) == Ok::<
            ParsedV,
            crate::rule::parse::ErrorV,
        >(net[i].parsed)
}

proof fn lemma_lines_sourced(
    c: Content,
    lines: Seq<Seq<char>>,
    list: i64,
    k: Known,
    facts: spec_fn(Seq<char>) -> PatternFacts,
)
    requires
        sourced(c.net, k, facts),
    ensures
        sourced(with_lines(c, lines, list, k, facts).net, k, facts),
    decreases lines.len(),
{
    if lines.len() > 0 {
        let d = with_line(c, lines[0], list, k, facts);
        assert forall|i: int| 0 <= i < d.net.len() implies network_of((#[trigger] d.net[i]).text, k, facts) == Ok::<
            ParsedV,
            crate::rule::parse::ErrorV,
        >(d.net[i].parsed) by {
            if i < c.net.len() {
                assert(c.net[i] == d.net[i]);
            }
        }
        lemma_lines_sourced(d, lines.drop_first(), list, k, facts);
    }
}

/// Every rule that lists load is what its text parses to.
pub proof fn law_loaded_as_parsed(
    c: Content,
    lists: Seq<(i64, Seq<char>)>,
    k: Known,
    facts: spec_fn(Seq<char>) -> PatternFacts,
)
    requires
        sourced(c.net, k, facts),
    ensures
        sourced(with_lists(c, lists, k, facts).net, k, facts),
    decreases lists.len(),
{
    if lists.len() > 0 {
        let lines = split(lists[0].1, '\n');
        lemma_lines_sourced(c, lines, lists[0].0, k, facts);
        law_loaded_as_parsed(with_lines(c, lines, lists[0].0, k, facts), lists.drop_first(), k, facts);
    }
}

proof fn lemma_lower_twice(s: Seq<char>)
    ensures
        lower(lower(s)) == lower(s),
{
    assert forall|i: int| 0 <= i < s.len() implies lower_char(lower_char(#[trigger] s[i])) == lower_char(s[i]) by {
        let c = s[i];
        if 'A' <= c && c <= 'Z' {
            let d = lower_char(c);
            assert(d as u32 == c as u32 + 32);
        }
    }
    assert(lower(lower(s)) =~= lower(s));
}

proof fn lemma_first_at_is(s: Seq<char>, c: char, n: int)
    requires
        0 <= n < s.len(),
        s[n] == c,
        forall|i: int| 0 <= i < n ==> s[i] != c,
    ensures
        first_at(s, c) == n,
    decreases n,
{
    if n > 0 {
        let d = s.drop_first();
        assert forall|i: int| 0 <= i < n - 1 implies d[i] != c by {
            assert(s[i + 1] != c);
        }
        assert(s[0] != c);
        lemma_first_at_is(d, c, n - 1);
    }
}

proof fn lemma_options_at(s: Seq<char>, upto: int)
    ensures
        options_at(s, upto) < upto || upto <= 0,
        -1 <= options_at(s, upto),
    decreases upto,
{
    if upto > 0 {
        lemma_options_at(s, upto - 1);
    }
}

/// An anchored rule's text is confirmed for the domain it is filed under.
proof fn lemma_anchor_text(t: Seq<char>, k: Known, facts: spec_fn(Seq<char>) -> PatternFacts, p: ParsedV)
    requires
        network_of(t, k, facts) == Ok::<ParsedV, crate::rule::parse::ErrorV>(p),
        p.pattern is DomainAnchor,
    ensures
        p.shortcut is Some,
        p.shortcut->0.len() > 0,
        anchored_to(t, p.shortcut->0),
{
    reveal_strlit("@@");
    reveal_strlit("||");
    let s = if begins(t, "@@"@) { t.skip(2) } else { t };
    let i = options_at(s, s.len() as int);
    lemma_options_at(s, s.len() as int);
    let body = if i < 0 { s } else { s.take(i) };
    assert(split_body(s, k)->Ok_0.0 == body);
    let dom = body.subrange(2, body.len() - 1);
    assert(anchor_of(body, k) == Some(lower(dom)));
    let rest = s.skip(2);
    assert(s.take(2) =~= "||"@) by {
        assert(s[0] == body[0] && s[1] == body[1]);
    }
    assert forall|j: int| 0 <= j < dom.len() implies rest[j] != '^' by {
        assert(rest[j] == dom[j]);
        assert(domain_char(dom[j]));
    }
    assert(rest[dom.len() as int] == body[body.len() - 1]);
    lemma_first_at_is(rest, '^', dom.len() as int);
    assert(rest.take(dom.len() as int) =~= dom);
    lemma_lower_twice(dom);
}

/// Whether no domain that a rule is filed under shares its hash with another
/// name that a query for `host` looks up.
pub open spec fn no_collision(net: Seq<Loaded>, host: Seq<char>) -> bool {
    forall|j: int, s: Seq<char>|
        0 <= j < net.len() && anchored(#[trigger] net[j]) && #[trigger] suffixes(host).contains(s) && key_hash(
            encode_utf8(net[j].parsed.shortcut->0),
        ) == key_hash(encode_utf8(s)) ==> net[j].parsed.shortcut->0 == s
}

pub(crate) proof fn lemma_filed_members(net: Seq<Loaded>, h: u64, i: u32)
    requires
        net.len() <= MAX_SOURCE,
    ensures
        filed(pairs_of(net), h).contains(i) <==> i < net.len() && anchored(net[i as int]) && key_hash(
            encode_utf8(net[i as int].parsed.shortcut->0),
        ) == h,
    decreases net.len(),
{
    let all = filed(pairs_of(net), h);
    if net.len() > 0 {
        let d = net.drop_last();
        lemma_filed_members(d, h, i);
        let less = filed(pairs_of(d), h);
        if anchored(net.last()) {
            assert(pairs_of(net).drop_last() =~= pairs_of(d));
        }
        if i < d.len() {
            assert(d[i as int] == net[i as int]);
        }
        let last = (net.len() - 1) as u32;
        if less.contains(i) {
            let k = less.index_of(i);
            assert(all[k] == i);
        }
        if all.contains(i) {
            let k = all.index_of(i);
            if k < less.len() {
                assert(less[k] == i);
                assert(less.contains(i));
            }
        }
        if i == last && anchored(net.last()) && key_hash(encode_utf8(net.last().parsed.shortcut->0)) == h {
            assert(all[all.len() - 1] == i);
        }
    }
}

pub(crate) proof fn lemma_looked_up_members(net: Seq<Loaded>, names: Seq<Seq<char>>, i: u32)
    ensures
        looked_up_all(net, names).contains(i) <==> exists|n: int|
            0 <= n < names.len() && looked_up(net, #[trigger] names[n]).contains(i),
    decreases names.len(),
{
    if names.len() > 0 {
        let d = names.drop_first();
        lemma_looked_up_members(net, d, i);
        let a = looked_up(net, names[0]);
        let b = looked_up_all(net, d);
        assert((a + b).contains(i) <==> a.contains(i) || b.contains(i)) by {
            if a.contains(i) {
                let k = a.index_of(i);
                assert((a + b)[k] == i);
            }
            if b.contains(i) {
                let k = b.index_of(i);
                assert((a + b)[a.len() + k] == i);
            }
            if (a + b).contains(i) {
                let k = (a + b).index_of(i);
                if k < a.len() {
                    assert(a[k] == i);
                } else {
                    assert(b[k - a.len()] == i);
                }
            }
        }
        if b.contains(i) {
            let n = choose|n: int| 0 <= n < d.len() && looked_up(net, #[trigger] d[n]).contains(i);
            assert(names[n + 1] == d[n]);
        }
        if exists|n: int| 0 <= n < names.len() && looked_up(net, #[trigger] names[n]).contains(i) {
            let n = choose|n: int| 0 <= n < names.len() && looked_up(net, #[trigger] names[n]).contains(i);
            if n > 0 {
                assert(d[n - 1] == names[n]);
            }
        }
    }
}

/// The domain index leads to a `||domain^` rule for exactly the domain and
/// the names below it, where no two names share a hash.
pub proof fn law_domain_reach(
    net: Seq<Loaded>,
    host: Seq<char>,
    i: u32,
    k: Known,
    facts: spec_fn(Seq<char>) -> PatternFacts,
)
    requires
        sourced(net, k, facts),
        net.len() <= MAX_SOURCE,
        i < net.len(),
        anchored(net[i as int]),
        no_collision(net, host),
    ensures
        looked_up_all(net, suffixes(host)).contains(i) <==> under(host, net[i as int].parsed.shortcut->0),
{
    let d = net[i as int].parsed.shortcut->0;
    let names = suffixes(host);
    lemma_anchor_text(net[i as int].text, k, facts, net[i as int].parsed);
    law_suffixes(host, d);
    lemma_looked_up_members(net, names, i);
    if looked_up_all(net, names).contains(i) {
        let n = choose|n: int| 0 <= n < names.len() && looked_up(net, #[trigger] names[n]).contains(i);
        let s = names[n];
        lemma_filed_members(net, key_hash(encode_utf8(s)), i);
        assert(names.contains(s));
        assert(anchored(net[i as int]));
        assert(d == s);
    }
    if under(host, d) {
        let n = names.index_of(d);
        let h = key_hash(encode_utf8(d));
        lemma_filed_members(net, h, i);
        let run = filed(pairs_of(net), h);
        assert(run.contains(i));
        assert(run.len() > 0);
        let j = run[0];
        assert(run.contains(j));
        lemma_filed_members(net, h, j);
        assert(anchored(net[j as int]));
        assert(names.contains(d));
        assert(net[j as int].parsed.shortcut->0 == d);
        lemma_anchor_text(net[j as int].text, k, facts, net[j as int].parsed);
        assert(looked_up(net, names[n]).contains(i));
    }
}

proof fn lemma_carrier_members(net: Seq<Loaded>, t: Seq<u8>, i: u32)
    requires
        net.len() <= MAX_SOURCE,
    ensures
        carriers(net, t).contains(i) <==> i < net.len() && literal(net[i as int]) == Some(t),
    decreases net.len(),
{
    let all = carriers(net, t);
    if net.len() > 0 {
        let d = net.drop_last();
        lemma_carrier_members(d, t, i);
        let less = carriers(d, t);
        if i < d.len() {
            assert(d[i as int] == net[i as int]);
        }
        if less.contains(i) {
            let k = less.index_of(i);
            assert(all[k] == i);
        }
        if all.contains(i) {
            let k = all.index_of(i);
            if k < less.len() {
                assert(less[k] == i);
                assert(less.contains(i));
            }
        }
        if i == net.len() - 1 && literal(net.last()) == Some(t) {
            assert(all[all.len() - 1] == i);
        }
    }
}

proof fn lemma_gathered_members(of: Seq<Seq<u32>>, which: Seq<int>, i: u32)
    ensures
        gathered(of, which).contains(i) <==> exists|n: int|
            0 <= n < which.len() && of[#[trigger] which[n]].contains(i),
    decreases which.len(),
{
    if which.len() > 0 {
        let d = which.drop_last();
        lemma_gathered_members(of, d, i);
        let a = gathered(of, d);
        let b = of[which.last()];
        assert((a + b).contains(i) <==> a.contains(i) || b.contains(i)) by {
            if a.contains(i) {
                let k = a.index_of(i);
                assert((a + b)[k] == i);
            }
            if b.contains(i) {
                let k = b.index_of(i);
                assert((a + b)[a.len() + k] == i);
            }
            if (a + b).contains(i) {
                let k = (a + b).index_of(i);
                if k < a.len() {
                    assert(a[k] == i);
                } else {
                    assert(b[k - a.len()] == i);
                }
            }
        }
        if a.contains(i) {
            let n = choose|n: int| 0 <= n < d.len() && of[#[trigger] d[n]].contains(i);
            assert(which[n] == d[n]);
        }
        if b.contains(i) {
            assert(of[which[which.len() - 1]].contains(i));
        }
        if exists|n: int| 0 <= n < which.len() && of[#[trigger] which[n]].contains(i) {
            let n = choose|n: int| 0 <= n < which.len() && of[#[trigger] which[n]].contains(i);
            if n < d.len() {
                assert(d[n] == which[n]);
            }
        }
    }
}

/// The shortcut index leads to a rule for exactly the hosts in which its
/// literal occurs, as far as it is kept, and for every host where it occurs
/// in `http`.
pub proof fn law_literal_reach(net: Seq<Loaded>, host: Seq<u8>, found: Seq<u32>, i: u32)
    requires
        net.len() <= MAX_SOURCE,
        found_literals(net, host, found),
    ensures
        found.contains(i) <==> i < net.len() && literal(net[i as int]) is Some && reports(
            literal(net[i as int])->0,
            host,
        ),
{
    let patterns = choose|patterns: Seq<(Seq<u8>, Seq<u32>)>| #[trigger]
        grouped(patterns, net) && found == gathered(rules_of(patterns), hits_in(patterns, host));
    let hits = hits_in(patterns, host);
    law_each_hit_once(patterns, host);
    let of = rules_of(patterns);
    lemma_gathered_members(of, hits, i);
    if found.contains(i) {
        let n = choose|n: int| 0 <= n < hits.len() && of[#[trigger] hits[n]].contains(i);
        let p = hits[n];
        assert(hits.contains(p));
        assert(patterns[p].1 == carriers(net, patterns[p].0));
        lemma_carrier_members(net, patterns[p].0, i);
    }
    if i < net.len() && literal(net[i as int]) is Some && reports(literal(net[i as int])->0, host) {
        let t = literal(net[i as int])->0;
        lemma_carrier_members(net, t, i);
        assert(carriers(net, t).len() > 0);
        let p = choose|p: int| 0 <= p < patterns.len() && (#[trigger] patterns[p]).0 == t;
        assert(hits.contains(p));
        let n = hits.index_of(p);
        assert(of[hits[n]].contains(i));
    }
}

pub(crate) proof fn lemma_scan_members(net: Seq<Loaded>, i: u32)
    requires
        net.len() <= MAX_SOURCE,
    ensures
        scan_of(net).contains(i) <==> i < net.len() && !anchored(net[i as int]) && literal(net[i as int]) is None,
    decreases net.len(),
{
    let all = scan_of(net);
    if net.len() > 0 {
        let d = net.drop_last();
        lemma_scan_members(d, i);
        let less = scan_of(d);
        if i < d.len() {
            assert(d[i as int] == net[i as int]);
        }
        if less.contains(i) {
            let k = less.index_of(i);
            assert(all[k] == i);
        }
        if all.contains(i) {
            let k = all.index_of(i);
            if k < less.len() {
                assert(less[k] == i);
                assert(less.contains(i));
            }
        }
        if i == net.len() - 1 && !anchored(net.last()) && literal(net.last()) is None {
            assert(all[all.len() - 1] == i);
        }
    }
}

/// Whether rule `i` can match `host` as far as the indexes know: an anchored
/// rule for its domain and the names below it, a rule with a literal where
/// that occurs, any other for every host.
pub open spec fn within_reach(net: Seq<Loaded>, host: Seq<char>, i: int) -> bool {
    if anchored(net[i]) {
        under(host, net[i].parsed.shortcut->0)
    } else {
        match literal(net[i]) {
            Some(t) => reports(t, encode_utf8(lower(host))),
            None => true,
        }
    }
}

/// A request considers exactly the rules within its reach, whatever the lists
/// and in whatever order, where no two names share a hash.
pub proof fn law_considered(
    net: Seq<Loaded>,
    host: Seq<char>,
    order: Seq<u32>,
    i: u32,
    k: Known,
    facts: spec_fn(Seq<char>) -> PatternFacts,
)
    requires
        sourced(net, k, facts),
        net.len() <= MAX_SOURCE,
        no_collision(net, host),
        considered(net, host, order),
    ensures
        order.contains(i) <==> i < net.len() && within_reach(net, host, i as int),
{
    let bytes = encode_utf8(lower(host));
    let found = choose|found: Seq<u32>| #[trigger]
        found_literals(net, bytes, found) && order == looked_up_all(net, suffixes(host)) + found + scan_of(net);
    let a = looked_up_all(net, suffixes(host));
    let c = scan_of(net);
    assert(order.contains(i) <==> a.contains(i) || found.contains(i) || c.contains(i)) by {
        if a.contains(i) {
            let n = a.index_of(i);
            assert(order[n] == i);
        }
        if found.contains(i) {
            let n = found.index_of(i);
            assert(order[a.len() + n] == i);
        }
        if c.contains(i) {
            let n = c.index_of(i);
            assert(order[a.len() + found.len() + n] == i);
        }
        if order.contains(i) {
            let n = order.index_of(i);
            if n < a.len() {
                assert(a[n] == i);
            } else if n < a.len() + found.len() {
                assert(found[n - a.len()] == i);
            } else {
                assert(c[n - a.len() - found.len()] == i);
            }
        }
    }
    law_literal_reach(net, bytes, found, i);
    lemma_scan_members(net, i);
    if i < net.len() && anchored(net[i as int]) {
        law_domain_reach(net, host, i, k, facts);
        assert(literal(net[i as int]) is None);
    } else if a.contains(i) {
        lemma_looked_up_members(net, suffixes(host), i);
        let n = choose|n: int| 0 <= n < suffixes(host).len() && looked_up(net, #[trigger] suffixes(host)[n]).contains(i);
        lemma_filed_members(net, key_hash(encode_utf8(suffixes(host)[n])), i);
    }
}

} // verus!
