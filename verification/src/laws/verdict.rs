//! What a request is told, by the rules that are loaded.

use vstd::prelude::*;
use vstd::string::*;
use vstd::utf8::*;

use crate::engine::reach::{law_considered, no_collision, sourced, within_reach};
use crate::engine::set::{
    anchored, applicable, cancelled, competes, considered, eligible, host_refs, law_winner, lemma_considered_in_range,
    lemma_refs_in_range, no_content, outranks, weighed, with_line, with_lines, with_lists, Content, Loaded, LoadedHost, RequestV, MAX_SOURCE,
};
use crate::engine::words::{canonical, law_badfilter_anywhere, under, undotted, without_badfilter};
use crate::engine::{
    allow_verdict, allows, answers, block_verdict, host_report, judges, net_report, no_match, removes, selected, standing,
    stands, to_itself, MatchV, Reason,
};
use crate::laws::rule::{
    barred, law_anchored, law_comments, law_cosmetic, law_hosts_line, law_pattern, law_plain_rule,
};
use crate::laws::text::{alike, law_alike, law_spaces, law_splitting, law_trimming};
use crate::multi::picked;
use crate::rule::parse::{
    domain_chars, host_names, network_of, outcome, Known, ParseError, ParsedV, PatternFacts, PatternV, Rule,
};
use crate::rule::pool::{found_in, refusal};
use crate::rule::{no_options, satisfied_by, specifiers, OptionsV, RewriteV, StrListV, Target, TypeListV};
use crate::text::{begins, is_ascii_space, join, lemma_split_none, lower, split, trimmed};

verus! {

/// Whether one of `values` is `v`, whatever the case of its letters.
pub open spec fn names_it(values: Seq<Seq<char>>, v: Seq<char>) -> bool {
    exists|i: int| 0 <= i < values.len() && alike(#[trigger] values[i], v)
}

/// Whether a text is given and one of `values` is it.
pub open spec fn names_given(values: Seq<Seq<char>>, v: Option<Seq<char>>) -> bool {
    v matches Some(x) && names_it(values, x)
}

proof fn lemma_names_it(values: Seq<Seq<char>>, v: Seq<char>)
    ensures
        crate::rule::lists(values, v) == names_it(values, v),
{
    if crate::rule::lists(values, v) {
        let i = choose|i: int| 0 <= i < values.len() && crate::text::same_folded(#[trigger] values[i], v);
        law_alike(values[i], v);
    }
    if names_it(values, v) {
        let i = choose|i: int| 0 <= i < values.len() && alike(#[trigger] values[i], v);
        law_alike(values[i], v);
    }
}

/// A rule with some modifiers, and the same without one of them.
pub open spec fn with_opts(p: ParsedV, o: OptionsV) -> ParsedV {
    ParsedV { opts: o, ..p }
}

/// A rule for some clients applies where the rule without that modifier does
/// and the list takes the client. One that includes values takes a client
/// whose address is included and not excluded, whatever its name and whether
/// it has one; it takes one whose name is, whatever its address; and it takes
/// no other. One that only excludes takes every client that it names neither
/// by name nor by address.
pub proof fn law_client_modifier(p: ParsedV, l: StrListV, q: RequestV)
    requires
        p.opts.client == Some(l),
    ensures
        ({
            let rest = applicable(with_opts(p, OptionsV { client: None, ..p.opts }), q);
            &&& l.included.len() > 0 && names_given(l.included, q.ip) && !names_given(l.excluded, q.ip) && rest
                ==> applicable(p, q)
            &&& l.included.len() > 0 && names_given(l.included, q.name) && !names_given(l.excluded, q.name) && rest
                ==> applicable(p, q)
            &&& l.included.len() == 0 && !names_given(l.excluded, q.ip) && !names_given(l.excluded, q.name) && rest
                ==> applicable(p, q)
            &&& applicable(p, q) ==> rest
            &&& applicable(p, q) && l.included.len() > 0 ==> {
                ||| names_given(l.included, q.ip) && !names_given(l.excluded, q.ip)
                ||| names_given(l.included, q.name) && !names_given(l.excluded, q.name)
            }
            &&& applicable(p, q) && l.included.len() == 0 ==> !names_given(l.excluded, q.ip) && !names_given(
                l.excluded,
                q.name,
            )
        }),
{
    match q.ip {
        Some(v) => {
            lemma_names_it(l.included, v);
            lemma_names_it(l.excluded, v);
        },
        None => {},
    }
    match q.name {
        Some(v) => {
            lemma_names_it(l.included, v);
            lemma_names_it(l.excluded, v);
        },
        None => {},
    }
}

/// A rule for some tags applies where the rule without that modifier does and
/// the client has a tag that is not excluded, and is included where any is.
pub proof fn law_tag_modifier(p: ParsedV, l: StrListV, q: RequestV)
    requires
        p.opts.ctag == Some(l),
    ensures
        applicable(p, q) <==> applicable(with_opts(p, OptionsV { ctag: None, ..p.opts }), q) && exists|i: int|
            0 <= i < q.tags.len() && !names_it(l.excluded, #[trigger] q.tags[i]) && (l.included.len() == 0 || names_it(
                l.included,
                q.tags[i],
            )),
{
    assert forall|i: int| 0 <= i < q.tags.len() implies crate::rule::satisfies(l, #[trigger] q.tags[i]) == (!names_it(
        l.excluded,
        q.tags[i],
    ) && (l.included.len() == 0 || names_it(l.included, q.tags[i]))) by {
        lemma_names_it(l.included, q.tags[i]);
        lemma_names_it(l.excluded, q.tags[i]);
    }
    if satisfied_by(l, q.tags) {
        let i = choose|i: int| 0 <= i < q.tags.len() && crate::rule::satisfies(l, #[trigger] q.tags[i]);
        assert(!names_it(l.excluded, q.tags[i]));
    }
}

/// A rule for some query types applies where the rule without that modifier
/// does and the type is not excluded, and is included where any is.
pub proof fn law_type_modifier(p: ParsedV, l: TypeListV, q: RequestV)
    requires
        p.opts.dnstype == Some(l),
    ensures
        applicable(p, q) <==> {
            &&& applicable(with_opts(p, OptionsV { dnstype: None, ..p.opts }), q)
            &&& forall|i: int| 0 <= i < l.excluded.len() ==> #[trigger] l.excluded[i] != q.qtype
            &&& l.included.len() > 0 ==> exists|i: int| 0 <= i < l.included.len() && #[trigger] l.included[i] == q.qtype
        },
{
    if l.excluded.contains(q.qtype) {
        let i = l.excluded.index_of(q.qtype);
        assert(l.excluded[i] == q.qtype);
    }
}

/// A name is under a domain where it is the domain, or ends in a dot and the
/// domain.
pub proof fn law_under(host: Seq<char>, d: Seq<char>, x: Seq<char>)
    ensures
        under(d, d),
        under(x + seq!['.'] + d, d),
        under(host, d) && host != d ==> host == host.take(host.len() - d.len() - 1) + seq!['.'] + d,
{
    let t = x + seq!['.'] + d;
    assert(t.skip(t.len() - d.len()) =~= d);
    if under(host, d) && host != d {
        let n = host.len() - d.len() - 1;
        assert(host =~= host.take(n) + seq!['.'] + host.skip(n + 1));
    }
}

/// A rule that spares some domains applies where the rule without that
/// modifier does, but to none of those and to no name below one.
pub proof fn law_denyallow_modifier(p: ParsedV, q: RequestV)
    ensures
        applicable(p, q) <==> {
            &&& applicable(with_opts(p, OptionsV { denyallow: Seq::empty(), ..p.opts }), q)
            &&& forall|i: int| 0 <= i < p.opts.denyallow.len() ==> !under(q.host, #[trigger] p.opts.denyallow[i])
        },
{
}

/// A rule without modifiers applies where its pattern matches: an expression
/// that compiles and is found in the name, or in the name behind `http://`, by
/// what it is for. A `$badfilter` rule applies to nothing, and being important
/// or a rewrite changes nothing of what a rule applies to.
pub proof fn law_pattern_decides(p: ParsedV, q: RequestV)
    ensures
        p.opts.badfilter ==> !applicable(p, q),
        applicable(with_opts(p, OptionsV { important: !p.opts.important, ..p.opts }), q) == applicable(p, q),
        applicable(with_opts(p, OptionsV { dnsrewrite: None, ..p.opts }), q) == applicable(p, q),
        applicable(ParsedV { allowlist: !p.allowlist, ..p }, q) == applicable(p, q),
        p.opts == no_options() ==> (applicable(p, q) <==> match p.pattern {
            PatternV::Rx(src, target, _) => refusal(src) is None && match target {
                Target::Url => found_in(src, "http://"@ + lower(q.host)),
                Target::Hostname => found_in(src, q.host),
            },
            _ => true,
        }),
{
}

/// How many modifiers a rule carries: none has none, and one more counts one
/// more.
pub proof fn law_modifiers_count(o: OptionsV, l: StrListV, t: TypeListV, d: Seq<Seq<char>>, w: RewriteV)
    requires
        d.len() > 0,
    ensures
        specifiers(no_options()) == 0,
        !o.important ==> specifiers(OptionsV { important: true, ..o }) == specifiers(o) + 1,
        !o.badfilter ==> specifiers(OptionsV { badfilter: true, ..o }) == specifiers(o) + 1,
        o.dnstype is None ==> specifiers(OptionsV { dnstype: Some(t), ..o }) == specifiers(o) + 1,
        o.client is None ==> specifiers(OptionsV { client: Some(l), ..o }) == specifiers(o) + 1,
        o.ctag is None ==> specifiers(OptionsV { ctag: Some(l), ..o }) == specifiers(o) + 1,
        o.denyallow.len() == 0 ==> specifiers(OptionsV { denyallow: d, ..o }) == specifiers(o) + 1,
        o.dnsrewrite is None ==> specifiers(OptionsV { dnsrewrite: Some(w), ..o }) == specifiers(o) + 1,
{
}

/// Which of two rules is the stronger: an important one before one that is
/// not; of two alike in that an exception before a rule; of two alike in both
/// the one with more modifiers; and of two alike in all that the earlier.
pub proof fn law_stronger(net: Seq<Loaded>, a: int, b: int)
    ensures
        ({
            let p = net[a].parsed;
            let q = net[b].parsed;
            &&& p.opts.important && !q.opts.important ==> outranks(net, a, b)
            &&& p.opts.important == q.opts.important && p.allowlist && !q.allowlist ==> outranks(net, a, b)
            &&& p.opts.important == q.opts.important && p.allowlist == q.allowlist && specifiers(p.opts) > specifiers(
                q.opts,
            ) ==> outranks(net, a, b)
            &&& p.opts.important == q.opts.important && p.allowlist == q.allowlist && specifiers(p.opts) == specifiers(
                q.opts,
            ) ==> (outranks(net, a, b) <==> a < b)
        }),
{
}

/// A rule is cancelled where a `$badfilter` rule of the same text is loaded:
/// wherever that modifier stands among the others, and by nothing else.
pub proof fn law_cancelled(net: Seq<Loaded>, i: int, j: int, p: Seq<char>, a: Seq<char>, b: Seq<char>)
    requires
        0 <= i < net.len(),
        0 <= j < net.len(),
        net[j].parsed.opts.badfilter,
        !a.contains('$') && !b.contains('$'),
        without_badfilter(a) && without_badfilter(b),
    ensures
        net[i].text == p && !p.contains('$') && net[j].text == p + seq!['$'] + "badfilter"@ ==> cancelled(net, i),
        net[i].text == p + seq!['$'] + a && net[j].text == p + seq!['$'] + ("badfilter"@ + seq![','] + a) ==> cancelled(
            net,
            i,
        ),
        net[i].text == p + seq!['$'] + a && net[j].text == p + seq!['$'] + (a + seq![','] + "badfilter"@) ==> cancelled(
            net,
            i,
        ),
        net[i].text == p + seq!['$'] + (a + seq![','] + b) && net[j].text == p + seq!['$'] + (a + seq![','] + "badfilter"@
            + seq![','] + b) ==> cancelled(net, i),
        cancelled(net, i) ==> exists|x: int|
            0 <= x < net.len() && (#[trigger] net[x]).parsed.opts.badfilter && canonical(net[x].text) == canonical(
                net[i].text,
            ),
{
    law_badfilter_anywhere(p, a, b);
}

/// Whether rule `i` is one a request is judged by: it can be reached, no rule
/// cancels it, and it applies.
pub open spec fn in_play(c: Content, q: RequestV, i: int) -> bool {
    &&& 0 <= i < c.net.len()
    &&& within_reach(c.net, q.host, i)
    &&& !cancelled(c.net, i)
    &&& applicable(c.net[i].parsed, q)
}

/// Whether rule `i` is one that blocks or allows, and not a rewrite.
pub open spec fn plays(c: Content, q: RequestV, i: int) -> bool {
    in_play(c, q, i) && c.net[i].parsed.opts.dnsrewrite is None
}

/// Whether rule `i` is a rewrite that takes effect: it is no exception, no
/// exception in play takes it back, and it rewrites to something else.
pub open spec fn rewrites(c: Content, q: RequestV, i: int) -> bool {
    &&& in_play(c, q, i)
    &&& c.net[i].parsed.opts.dnsrewrite is Some
    &&& !c.net[i].parsed.allowlist
    &&& !exists|j: int|
        #![trigger c.net[j]]
        in_play(c, q, j) && c.net[j].parsed.opts.dnsrewrite is Some && c.net[j].parsed.allowlist && removes(
            c.net[j].parsed,
            c.net[i].parsed,
        )
    &&& !to_itself(c.net[i].parsed, q.host)
}

/// What takes a rewrite back: an exception with its value, or with none, which
/// takes back every rewrite; an important rewrite only where the exception is
/// important too.
pub proof fn law_taken_back(e: ParsedV, r: ParsedV, w: RewriteV, v: RewriteV)
    requires
        e.opts.dnsrewrite == Some(w),
        r.opts.dnsrewrite == Some(v),
    ensures
        removes(e, r) <==> (w == v || w == RewriteV::RCode(0)) && (r.opts.important ==> e.opts.important),
{
}

/// A rewrite to the name itself is none: to a canonical name that is the name
/// asked for, but for case and the dots around it. No other rewrite is.
pub proof fn law_rewrite_to_itself(r: ParsedV, host: Seq<char>, n: Seq<char>)
    ensures
        r.opts.dnsrewrite == Some(RewriteV::CName(n)) ==> (to_itself(r, host) <==> alike(undotted(n), undotted(host))),
        r.opts.dnsrewrite == Some(RewriteV::CName(host)) ==> to_itself(r, host),
        r.opts.dnsrewrite matches Some(w) && !(w is CName) ==> !to_itself(r, host),
        r.opts.dnsrewrite is None ==> !to_itself(r, host),
{
    law_alike(undotted(n), undotted(host));
}

/// The rewrites that a walk comes across are those in play, each as often as
/// it was considered, in that order.
pub proof fn law_rewrites_met(net: Seq<Loaded>, order: Seq<u32>, q: RequestV, i: u32)
    ensures
        weighed(net, order, q).1 == order.filter(
            |x: u32| eligible(net, x as int, q) && net[x as int].parsed.opts.dnsrewrite is Some,
        ),
        weighed(net, order, q).1.contains(i) <==> order.contains(i) && eligible(net, i as int, q)
            && net[i as int].parsed.opts.dnsrewrite is Some,
    decreases order.len(),
{
    let f = |x: u32| eligible(net, x as int, q) && net[x as int].parsed.opts.dnsrewrite is Some;
    reveal(Seq::filter);
    if order.len() > 0 {
        let d = order.drop_last();
        law_rewrites_met(net, d, q, i);
        let less = weighed(net, d, q).1;
        let all = weighed(net, order, q).1;
        let x = order.last();
        assert(order[order.len() - 1] == x);
        if less.contains(i) {
            let k = less.index_of(i);
            assert(all[k] == i);
        }
        if f(x) {
            assert(all[less.len() as int] == x);
        }
        if all.contains(i) {
            let k = all.index_of(i);
            if k < less.len() {
                assert(less[k] == i);
                assert(less.contains(i));
            }
        }
        if d.contains(i) {
            let k = d.index_of(i);
            assert(order[k] == i);
        }
        if order.contains(i) {
            let k = order.index_of(i);
            if k < d.len() {
                assert(d[k] == i);
            }
        }
    }
}

proof fn lemma_standing(net: Seq<Loaded>, rs: Seq<u32>, among: Seq<u32>, host: Seq<char>, i: u32)
    ensures
        picked(rs, |x: u32| if stands(net, among, x, host) { Some(x) } else { None }).contains(i) <==> rs.contains(i)
            && stands(net, among, i, host),
    decreases rs.len(),
{
    let f = |x: u32| if stands(net, among, x, host) { Some(x) } else { None };
    if rs.len() > 0 {
        let d = rs.drop_last();
        lemma_standing(net, d, among, host, i);
        let less = picked(d, f);
        let all = picked(rs, f);
        assert(rs[rs.len() - 1] == rs.last());
        if less.contains(i) {
            let k = less.index_of(i);
            assert(all[k] == i);
        }
        if stands(net, among, rs.last(), host) {
            assert(all[less.len() as int] == rs.last());
        }
        if all.contains(i) {
            let k = all.index_of(i);
            if k < less.len() {
                assert(less[k] == i);
                assert(less.contains(i));
            }
        }
        if d.contains(i) {
            let k = d.index_of(i);
            assert(rs[k] == i);
        }
        if rs.contains(i) {
            let k = rs.index_of(i);
            if k < d.len() {
                assert(d[k] == i);
            }
        }
    }
}

/// Whether a set's rules are what their texts say, and the name asked for
/// shares its hash with no other.
pub open spec fn well_loaded(c: Content, host: Seq<char>, k: Known, facts: spec_fn(Seq<char>) -> PatternFacts) -> bool {
    sourced(c.net, k, facts) && c.net.len() <= MAX_SOURCE && c.hosts.len() <= MAX_SOURCE && no_collision(c.net, host)
}

/// What blocklists say where no rewrite takes effect, by the strongest rule in
/// play: an important exception allows; else an important rule blocks; else an
/// exception allows; else a rule blocks. One rule is cited, of that strength.
/// Where no rule is in play, a hosts rule for the name blocks, and without one
/// nothing matches.
pub proof fn law_blocklists(
    c: Content,
    q: RequestV,
    m: MatchV,
    k: Known,
    facts: spec_fn(Seq<char>) -> PatternFacts,
    i: int,
)
    requires
        well_loaded(c, q.host, k, facts),
        judges(c, q, m),
        forall|x: int| !(#[trigger] rewrites(c, q, x)),
    ensures
        plays(c, q, i) ==> {
            &&& m.reason == Reason::FilteredBlockList || m.reason == Reason::NotFilteredAllowList
            &&& m.rules.len() == 1 && m.rewrites.len() == 0
            &&& exists|b: int|
                #![trigger c.net[b]]
                plays(c, q, b) && !outranks(c.net, i, b) && m.rules[0] == net_report(c.net, b as u32) && (m.reason
                    == Reason::NotFilteredAllowList <==> c.net[b].parsed.allowlist)
        },
        (forall|x: int| !(#[trigger] plays(c, q, x))) && host_refs(c.hosts, q.host).len() == 0 ==> m == no_match(),
        (forall|x: int| !(#[trigger] plays(c, q, x))) && host_refs(c.hosts, q.host).len() > 0 ==> m.reason
            == Reason::FilteredBlockList && m.rules.len() > 0 && m.rewrites.len() == 0,
        m.reason != Reason::RewrittenRule,
{
    let order = choose|order: Seq<u32>| #[trigger] considered(c.net, q.host, order) && m == block_verdict(c, order, q);
    let (best, rs) = weighed(c.net, order, q);
    let kept = standing(c.net, rs, q.host);
    law_winner(c.net, order, q);
    lemma_considered_in_range(c.net, q.host, order);
    if kept.len() > 0 {
        let x = kept[0];
        assert(kept.contains(x));
        lemma_standing(c.net, rs, rs, q.host, x);
        lemma_takes_effect(c, q, order, x, k, facts);
        assert(rewrites(c, q, x as int));
    }
    if plays(c, q, i) {
        law_considered(c.net, q.host, order, i as u32, k, facts);
        assert(order.contains(i as u32));
        assert(competes(c.net, i, q));
        assert(best is Some);
        let b = best->0;
        law_considered(c.net, q.host, order, b, k, facts);
        assert(order.contains(b));
        let at = order.index_of(b);
        assert(order[at] < c.net.len());
        assert(plays(c, q, b as int));
        assert((b as int) as u32 == b);
        assert(c.net[b as int] == c.net[b as int]);
    }
    if forall|x: int| !(#[trigger] plays(c, q, x)) {
        if best is Some {
            let b = best->0;
            law_considered(c.net, q.host, order, b, k, facts);
            assert(order.contains(b));
            let at = order.index_of(b);
            assert(order[at] < c.net.len());
            assert(plays(c, q, b as int));
        }
        let refs = host_refs(c.hosts, q.host);
        if refs.len() > 0 {
            lemma_selected_some(c.hosts, refs, q.qtype);
        }
    }
}

proof fn lemma_selected_some(hosts: Seq<LoadedHost>, refs: Seq<u32>, qtype: u16)
    requires
        refs.len() > 0,
    ensures
        selected(hosts, refs, qtype).len() > 0,
{
}

proof fn lemma_takes_effect(
    c: Content,
    q: RequestV,
    order: Seq<u32>,
    x: u32,
    k: Known,
    facts: spec_fn(Seq<char>) -> PatternFacts,
)
    requires
        well_loaded(c, q.host, k, facts),
        considered(c.net, q.host, order),
    ensures
        ({
            let rs = weighed(c.net, order, q).1;
            rs.contains(x) && stands(c.net, rs, x, q.host) <==> rewrites(c, q, x as int)
        }),
{
    let rs = weighed(c.net, order, q).1;
    law_rewrites_met(c.net, order, q, x);
    law_considered(c.net, q.host, order, x, k, facts);
    if rs.contains(x) && stands(c.net, rs, x, q.host) {
        if exists|j: int|
            #![trigger c.net[j]]
            in_play(c, q, j) && c.net[j].parsed.opts.dnsrewrite is Some && c.net[j].parsed.allowlist && removes(
                c.net[j].parsed,
                c.net[x as int].parsed,
            ) {
            let j = choose|j: int|
                #![trigger c.net[j]]
                in_play(c, q, j) && c.net[j].parsed.opts.dnsrewrite is Some && c.net[j].parsed.allowlist && removes(
                    c.net[j].parsed,
                    c.net[x as int].parsed,
                );
            law_considered(c.net, q.host, order, j as u32, k, facts);
            law_rewrites_met(c.net, order, q, j as u32);
            let at = rs.index_of(j as u32);
            assert(rs.contains(j as u32));
            assert(c.net[rs[at] as int] == c.net[j]);
        }
    }
    if rewrites(c, q, x as int) {
        if crate::engine::removed(c.net, rs, x) {
            let at = choose|at: int|
                0 <= at < rs.len() && c.net[#[trigger] rs[at] as int].parsed.allowlist && removes(
                    c.net[rs[at] as int].parsed,
                    c.net[x as int].parsed,
                );
            let j = rs[at];
            assert(rs.contains(j));
            law_rewrites_met(c.net, order, q, j);
            law_considered(c.net, q.host, order, j, k, facts);
            assert(in_play(c, q, j as int));
            assert(c.net[j as int].parsed.allowlist);
        }
    }
}

/// What blocklists say where a rewrite takes effect: the name is rewritten,
/// whatever else would block or allow it, to the values of the rewrites that
/// take effect and of no other, and those rules are the ones cited.
pub proof fn law_rewritten(
    c: Content,
    q: RequestV,
    m: MatchV,
    k: Known,
    facts: spec_fn(Seq<char>) -> PatternFacts,
    i: int,
)
    requires
        well_loaded(c, q.host, k, facts),
        judges(c, q, m),
        rewrites(c, q, i),
    ensures
        m.reason == Reason::RewrittenRule,
        m.rewrites.len() == m.rules.len(),
        m.rewrites.contains(c.net[i].parsed.opts.dnsrewrite->0),
        m.rules.contains(net_report(c.net, i as u32)),
        forall|n: int|
            0 <= n < m.rewrites.len() ==> exists|j: int|
                #![trigger c.net[j]]
                rewrites(c, q, j) && #[trigger] m.rewrites[n] == c.net[j].parsed.opts.dnsrewrite->0 && m.rules[n]
                    == net_report(c.net, j as u32),
{
    let order = choose|order: Seq<u32>| #[trigger] considered(c.net, q.host, order) && m == block_verdict(c, order, q);
    let rs = weighed(c.net, order, q).1;
    let kept = standing(c.net, rs, q.host);
    lemma_takes_effect(c, q, order, i as u32, k, facts);
    lemma_standing(c.net, rs, rs, q.host, i as u32);
    assert(kept.contains(i as u32));
    let at = kept.index_of(i as u32);
    assert(m.rewrites[at] == c.net[i].parsed.opts.dnsrewrite->0);
    assert(m.rules[at] == net_report(c.net, i as u32));
    assert forall|n: int| 0 <= n < m.rewrites.len() implies exists|j: int|
        #![trigger c.net[j]]
        rewrites(c, q, j) && #[trigger] m.rewrites[n] == c.net[j].parsed.opts.dnsrewrite->0 && m.rules[n] == net_report(
            c.net,
            j as u32,
        ) by {
        let j = kept[n];
        assert(kept.contains(j));
        lemma_standing(c.net, rs, rs, q.host, j);
        lemma_takes_effect(c, q, order, j, k, facts);
        assert(m.rewrites[n] == c.net[j as int].parsed.opts.dnsrewrite->0);
        assert((j as int) as u32 == j);
        assert(rewrites(c, q, j as int));
    }
}

/// What an engine says: of a request without a name nothing; what the
/// allowlists say where a rule of theirs that is no rewrite is in play or a
/// hosts rule of theirs names the host; and else what the blocklists say. The
/// allowlists only ever allow.
pub proof fn law_lists_in_turn(
    allow: Content,
    block: Content,
    q: RequestV,
    m: MatchV,
    k: Known,
    facts: spec_fn(Seq<char>) -> PatternFacts,
)
    requires
        well_loaded(allow, q.host, k, facts),
        answers(allow, block, q, m),
    ensures
        q.host.len() == 0 ==> m == no_match(),
        q.host.len() > 0 && host_refs(allow.hosts, q.host).len() == 0 && (forall|x: int| !(#[trigger] plays(allow, q, x)))
            ==> judges(block, q, m),
        q.host.len() > 0 && host_refs(allow.hosts, q.host).len() > 0 ==> m.reason == Reason::NotFilteredAllowList
            && m.rewrites.len() == 0 && m.rules.len() > 0,
        q.host.len() > 0 && (exists|x: int| #[trigger] plays(allow, q, x)) ==> m.reason == Reason::NotFilteredAllowList
            && m.rewrites.len() == 0 && m.rules.len() == 1,
{
    if q.host.len() > 0 {
        let a = choose|a: Option<MatchV>| #[trigger]
            allows(allow, q, a) && match a {
                Some(x) => m == x,
                None => judges(block, q, m),
            };
        lemma_refs_in_range(allow.hosts, q.host);
        let refs = host_refs(allow.hosts, q.host);
        if refs.len() > 0 {
            assert(refs[0] < allow.hosts.len());
        }
        if allow.net.len() + allow.hosts.len() > 0 {
            let order = choose|order: Seq<u32>| #[trigger]
                considered(allow.net, q.host, order) && a == allow_verdict(allow, order, q);
            law_winner(allow.net, order, q);
            lemma_considered_in_range(allow.net, q.host, order);
            let best = weighed(allow.net, order, q).0;
            if best is Some {
                let b = best->0;
                assert(order.contains(b));
                let at = order.index_of(b);
                assert(order[at] < allow.net.len());
                law_considered(allow.net, q.host, order, b, k, facts);
                assert(plays(allow, q, b as int));
            }
            if exists|x: int| #[trigger] plays(allow, q, x) {
                let x = choose|x: int| #[trigger] plays(allow, q, x);
                law_considered(allow.net, q.host, order, x as u32, k, facts);
                assert(order.contains(x as u32));
                assert(competes(allow.net, x, q));
            }
        }
    }
}

/// The hosts rules for a name are those that list it.
pub proof fn law_hosts_for(hosts: Seq<LoadedHost>, name: Seq<char>, i: u32)
    requires
        hosts.len() <= u32::MAX,
    ensures
        host_refs(hosts, name).contains(i) <==> i < hosts.len() && hosts[i as int].names.contains(name),
    decreases hosts.len(),
{
    let all = host_refs(hosts, name);
    if hosts.len() > 0 {
        let d = hosts.drop_last();
        law_hosts_for(d, name, i);
        let less = host_refs(d, name);
        let last = (hosts.len() - 1) as u32;
        let here = crate::engine::set::named_in(hosts.last().names, name, last);
        lemma_named_in(hosts.last().names, name, last);
        if less.contains(i) {
            let k = less.index_of(i);
            assert(all[k] == i);
        }
        if here.len() > 0 {
            assert(here[0] == last);
            assert(all[less.len() as int] == last);
        }
        if all.contains(i) {
            let k = all.index_of(i);
            if k < less.len() {
                assert(less[k] == i);
                assert(less.contains(i));
            } else {
                assert(here[k - less.len()] == i);
            }
        }
        if i < d.len() {
            assert(d[i as int] == hosts[i as int]);
        }
    }
}

proof fn lemma_named_in(names: Seq<Seq<char>>, name: Seq<char>, idx: u32)
    ensures
        ({
            let here = crate::engine::set::named_in(names, name, idx);
            &&& forall|k: int| 0 <= k < here.len() ==> #[trigger] here[k] == idx
            &&& here.len() > 0 <==> names.contains(name)
        }),
    decreases names.len(),
{
    if names.len() > 0 {
        lemma_named_in(names.drop_last(), name, idx);
        let d = names.drop_last();
        if d.contains(name) {
            let k = d.index_of(name);
            assert(names[k] == name);
        }
        assert(names[names.len() - 1] == names.last());
        if names.contains(name) {
            let k = names.index_of(name);
            if k < d.len() {
                assert(d[k] == name);
            }
        }
    }
}

/// Which hosts rules are cited: of a question for addresses of one family
/// those of that family, where there are any; else all of them.
pub proof fn law_hosts_cited(hosts: Seq<LoadedHost>, refs: Seq<u32>, qtype: u16, i: u32)
    ensures
        ({
            let v4 = exists|j: int| 0 <= j < refs.len() && hosts[#[trigger] refs[j] as int].ip is V4;
            let v6 = exists|j: int| 0 <= j < refs.len() && !(hosts[#[trigger] refs[j] as int].ip is V4);
            &&& qtype == 1 && v4 ==> (selected(hosts, refs, qtype).contains(i) <==> refs.contains(i)
                && hosts[i as int].ip is V4)
            &&& qtype == 28 && v6 ==> (selected(hosts, refs, qtype).contains(i) <==> refs.contains(i) && !(
            hosts[i as int].ip is V4))
            &&& qtype == 1 && !v4 ==> selected(hosts, refs, qtype) == refs
            &&& qtype == 28 && !v6 ==> selected(hosts, refs, qtype) == refs
            &&& qtype != 1 && qtype != 28 ==> selected(hosts, refs, qtype) == refs
        }),
{
    lemma_family(hosts, refs, true, i);
    lemma_family(hosts, refs, false, i);
}

proof fn lemma_family(hosts: Seq<LoadedHost>, refs: Seq<u32>, v4: bool, i: u32)
    ensures
        ({
            let f = crate::engine::of_family(hosts, refs, v4);
            &&& f.contains(i) <==> refs.contains(i) && (hosts[i as int].ip is V4) == v4
            &&& f.len() > 0 <==> exists|j: int| 0 <= j < refs.len() && (hosts[#[trigger] refs[j] as int].ip is V4) == v4
        }),
    decreases refs.len(),
{
    let f = crate::engine::of_family(hosts, refs, v4);
    if refs.len() > 0 {
        let d = refs.drop_last();
        lemma_family(hosts, d, v4, i);
        let less = crate::engine::of_family(hosts, d, v4);
        let last = refs.len() - 1;
        let x = refs[last];
        assert(refs.last() == x);
        if less.contains(i) {
            let k = less.index_of(i);
            assert(f[k] == i);
        }
        if (hosts[x as int].ip is V4) == v4 {
            assert(f[less.len() as int] == x);
        }
        if f.contains(i) {
            let k = f.index_of(i);
            if k < less.len() {
                assert(less[k] == i);
                assert(less.contains(i));
            }
        }
        if d.contains(i) {
            let k = d.index_of(i);
            assert(refs[k] == i);
        }
        if refs.contains(i) {
            let k = refs.index_of(i);
            if k < last {
                assert(d[k] == i);
            }
        }
        if exists|j: int| 0 <= j < d.len() && (hosts[#[trigger] d[j] as int].ip is V4) == v4 {
            let j = choose|j: int| 0 <= j < d.len() && (hosts[#[trigger] d[j] as int].ip is V4) == v4;
            assert((hosts[refs[j] as int].ip is V4) == v4);
        }
        if exists|j: int| 0 <= j < refs.len() && (hosts[#[trigger] refs[j] as int].ip is V4) == v4 {
            let j = choose|j: int| 0 <= j < refs.len() && (hosts[#[trigger] refs[j] as int].ip is V4) == v4;
            if j < last {
                assert((hosts[d[j] as int].ip is V4) == v4);
            }
        }
    }
}

/// What is cited of a rule: its text as it was loaded, unless it is too long
/// to report, its list, and the address of a hosts rule.
pub proof fn law_cited(net: Seq<Loaded>, hosts: Seq<LoadedHost>, i: u32)
    ensures
        encode_utf8(net[i as int].text).len() <= 65535 ==> net_report(net, i).text == net[i as int].text,
        encode_utf8(net[i as int].text).len() > 65535 ==> net_report(net, i).text.len() == 0,
        net_report(net, i).list == net[i as int].list,
        net_report(net, i).ip is None,
        host_report(hosts, i).text == hosts[i as int].text,
        host_report(hosts, i).list == hosts[i as int].list,
        host_report(hosts, i).ip == Some(hosts[i as int].ip),
{
}

/// What a line adds: nothing where it is no rule or cannot be parsed, and else
/// the one rule that parsing it gives, with its text and its list.
pub proof fn law_line_loads(
    c: Content,
    line: Seq<char>,
    list: i64,
    k: Known,
    facts: spec_fn(Seq<char>) -> PatternFacts,
    r: Result<Rule, ParseError>,
)
    requires
        outcome(r, line, list, k, facts),
    ensures
        match r {
            Err(_) => with_line(c, line, list, k, facts) == c,
            Ok(Rule::Host(h)) => {
                let d = with_line(c, line, list, k, facts);
                d.net == c.net && d.hosts.len() == c.hosts.len() + 1 && d.hosts.take(c.hosts.len() as int) == c.hosts
                    && d.hosts.last().text == h.text@ && d.hosts.last().ip == h.addr() && d.hosts.last().list == list
                    && h.list_id == list && d.hosts.last().names == host_names(h.text@, k.valid)
            },
            Ok(Rule::Network(n)) => {
                let d = with_line(c, line, list, k, facts);
                d.hosts == c.hosts && d.net.len() == c.net.len() + 1 && d.net.take(c.net.len() as int) == c.net
                    && d.net.last().parsed == (*n)@ && d.net.last().text == trimmed(line) && d.net.last().list == list
            },
        },
{
    let d = with_line(c, line, list, k, facts);
    if d.hosts.len() > c.hosts.len() {
        assert(d.hosts.take(c.hosts.len() as int) =~= c.hosts);
    }
    if d.net.len() > c.net.len() {
        assert(d.net.take(c.net.len() as int) =~= c.net);
    }
}

/// Lists are loaded one after the other, and each line by line.
pub proof fn law_lists_load(
    c: Content,
    lines: Seq<Seq<char>>,
    line: Seq<char>,
    lists: Seq<(i64, Seq<char>)>,
    id: i64,
    parts: Seq<Seq<char>>,
    k: Known,
    facts: spec_fn(Seq<char>) -> PatternFacts,
)
    requires
        parts.len() > 0,
        forall|i: int| 0 <= i < parts.len() ==> !(#[trigger] parts[i]).contains('\n'),
    ensures
        with_lines(c, Seq::empty(), id, k, facts) == c,
        with_lines(c, lines.push(line), id, k, facts) == with_line(with_lines(c, lines, id, k, facts), line, id, k, facts),
        with_lists(c, Seq::empty(), k, facts) == c,
        with_lists(c, lists.push((id, join(parts, seq!['\n']))), k, facts) == with_lines(
            with_lists(c, lists, k, facts),
            parts,
            id,
            k,
            facts,
        ),
{
    law_splitting(line, '\n', parts);
    lemma_lines_push(c, lines, line, id, k, facts);
    lemma_lists_push(c, lists, (id, join(parts, seq!['\n'])), k, facts);
}

proof fn lemma_lines_push(
    c: Content,
    lines: Seq<Seq<char>>,
    line: Seq<char>,
    id: i64,
    k: Known,
    facts: spec_fn(Seq<char>) -> PatternFacts,
)
    ensures
        with_lines(c, lines.push(line), id, k, facts) == with_line(with_lines(c, lines, id, k, facts), line, id, k, facts),
    decreases lines.len(),
{
    let all = lines.push(line);
    if lines.len() == 0 {
        assert(all.drop_first() =~= Seq::<Seq<char>>::empty());
        assert(with_lines(with_line(c, line, id, k, facts), Seq::empty(), id, k, facts) == with_line(c, line, id, k, facts));
    } else {
        assert(all[0] == lines[0]);
        assert(all.drop_first() =~= lines.drop_first().push(line));
        lemma_lines_push(with_line(c, lines[0], id, k, facts), lines.drop_first(), line, id, k, facts);
    }
}

proof fn lemma_lists_push(
    c: Content,
    lists: Seq<(i64, Seq<char>)>,
    l: (i64, Seq<char>),
    k: Known,
    facts: spec_fn(Seq<char>) -> PatternFacts,
)
    ensures
        with_lists(c, lists.push(l), k, facts) == with_lines(
            with_lists(c, lists, k, facts),
            split(l.1, '\n'),
            l.0,
            k,
            facts,
        ),
    decreases lists.len(),
{
    let all = lists.push(l);
    if lists.len() == 0 {
        assert(all.drop_first() =~= Seq::<(i64, Seq<char>)>::empty());
        let d = with_lines(c, split(l.1, '\n'), l.0, k, facts);
        assert(with_lists(d, Seq::empty(), k, facts) == d);
    } else {
        assert(all[0] == lists[0]);
        assert(all.drop_first() =~= lists.drop_first().push(l));
        lemma_lists_push(with_lines(c, split(lists[0].1, '\n'), lists[0].0, k, facts), lists.drop_first(), l, k, facts);
    }
}

/// One list of one line `||domain^`: the domain and every name below it are
/// blocked by that rule, and no other name is.
pub proof fn law_one_domain_blocked(
    id: i64,
    d: Seq<char>,
    q: RequestV,
    m: MatchV,
    k: Known,
    facts: spec_fn(Seq<char>) -> PatternFacts,
)
    requires
        d.len() > 0,
        domain_chars(d),
        (k.valid)(d),
        !facts(barred(d)).matches_all,
        q.host.len() > 0,
        no_collision(with_lists(no_content(), seq![(id, barred(d))], k, facts).net, q.host),
        answers(no_content(), with_lists(no_content(), seq![(id, barred(d))], k, facts), q, m),
    ensures
        q.host == lower(d) || (exists|x: Seq<char>| q.host == #[trigger] below(x, lower(d))) ==> m.reason
            == Reason::FilteredBlockList && m.rules.len() == 1 && m.rules[0].list == id,
        q.host != lower(d) && (forall|x: Seq<char>| q.host != #[trigger] below(x, lower(d))) ==> m == no_match(),
{
    let t = barred(d);
    let none = no_content();
    let c = with_lists(none, seq![(id, t)], k, facts);
    law_anchored(d, t, k);
    assert forall|i: int| 0 <= i < t.len() implies '!' <= #[trigger] t[i] <= '~' && t[i] != '$' && t[i] != '#' && t[i] != '@' by {
        if 2 <= i < t.len() - 1 {
            assert(t[i] == d[i - 2]);
        }
    }
    assert(!t.contains('\n') && !t.contains('$') && !t.contains('#'));
    law_spaces(t[0]);
    law_spaces(t.last());
    let e = Seq::<char>::empty();
    assert(e + t + e =~= t);
    law_trimming(e, t, e);
    law_comments(t);
    law_cosmetic(e, e, t);
    assert(t =~= t + e);
    assert forall|i: int| 0 <= i < t.len() implies !is_ascii_space(#[trigger] t[i]) by {
        law_spaces(t[i]);
    }
    law_hosts_line(t, seq![seq!['a']], e, k);
    reveal_strlit("@@");
    assert(!begins(t, "@@"@)) by {
        assert(t[0] == '|');
        if begins(t, "@@"@) {
            assert(t.take(2)[0] == t[0]);
        }
    }
    law_plain_rule(t, k, facts);
    law_pattern(t, k, facts(t));
    lemma_split_none(t, '\n');
    let parsed = network_of(t, k, facts)->Ok_0;
    let only = Loaded { parsed, text: t, list: id };
    assert(with_line(none, t, id, k, facts).net =~= seq![only]);
    assert(with_line(none, t, id, k, facts).hosts =~= Seq::<LoadedHost>::empty());
    assert(seq![t].drop_first() =~= Seq::<Seq<char>>::empty());
    let one = with_line(none, t, id, k, facts);
    assert(with_lines(one, Seq::empty(), id, k, facts) == one);
    assert(with_lines(none, seq![t], id, k, facts) == one);
    assert(seq![(id, t)].drop_first() =~= Seq::<(i64, Seq<char>)>::empty());
    assert(with_lists(one, Seq::empty(), k, facts) == one);
    assert(c == one);
    assert(sourced(c.net, k, facts));
    assert(well_loaded(c, q.host, k, facts));
    let a = choose|a: Option<MatchV>| #[trigger]
        allows(none, q, a) && match a {
            Some(x) => m == x,
            None => judges(c, q, m),
        };
    assert(a is None);
    assert forall|x: int| !(#[trigger] rewrites(c, q, x)) by {}
    law_blocklists(c, q, m, k, facts, 0);
    assert(!cancelled(c.net, 0)) by {
        if cancelled(c.net, 0) {
            let x = choose|x: int| 0 <= x < c.net.len() && (#[trigger] c.net[x]).parsed.opts.badfilter && canonical(c.net[x].text)
                == canonical(c.net[0].text);
            assert(c.net[x] == only);
        }
    }
    law_pattern_decides(parsed, q);
    assert(anchored(c.net[0]));
    assert(host_refs(c.hosts, q.host).len() == 0);
    let low = lower(d);
    if q.host == low || (exists|x: Seq<char>| q.host == #[trigger] below(x, low)) {
        if q.host != low {
            let x = choose|x: Seq<char>| q.host == #[trigger] below(x, low);
            law_under(q.host, low, x);
        }
        assert(plays(c, q, 0));
        let b = choose|b: int|
            #![trigger c.net[b]]
            plays(c, q, b) && !outranks(c.net, 0, b) && m.rules[0] == net_report(c.net, b as u32) && (m.reason
                == Reason::NotFilteredAllowList <==> c.net[b].parsed.allowlist);
        assert(b == 0);
    } else {
        assert forall|x: int| !(#[trigger] plays(c, q, x)) by {
            if plays(c, q, x) {
                assert(x == 0);
                law_under(q.host, low, e);
                assert(q.host == below(q.host.take(q.host.len() - low.len() - 1), low));
            }
        }
    }
}

/// A name below another.
pub open spec fn below(x: Seq<char>, d: Seq<char>) -> Seq<char> {
    x + seq!['.'] + d
}

} // verus!
