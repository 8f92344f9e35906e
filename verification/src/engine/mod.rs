//! The indexed rule store and the matching engine.
//!
//! Candidates are gathered in three steps. `||domain^` rules, by far the bulk
//! of DNS blocklists, are found through the domain index: a query walks its
//! own parent domains. Other literal patterns are prefiltered by their longest
//! literal run. What cannot be indexed is checked one by one.

pub mod allow;
pub mod reach;
pub mod report;
pub mod set;
pub mod split;
pub mod words;

use vstd::prelude::*;

use crate::asked::settled;
use crate::engine::set::{
    considered, host_refs, list_bytes, no_content, reported, sources_of, weighed, with_lists, Content, Loaded,
    LoadedHost, Request, RequestV, RuleSet, MAX_LISTS, MAX_REPORTED, MAX_SOURCE,
};
use crate::engine::words::{same_name, undotted};
use crate::ip::Ip;
use crate::multi::picked;
use crate::rule::parse::{known, told, ParsedV, PatternFacts};
use crate::rule::pool::Pool;
use crate::rule::{DnsRewrite, NetworkRule, RewriteV};
use crate::text::same_folded;

verus! {

/// Why a request was filtered, allowed or rewritten.
#[derive(Clone, Copy, Debug, PartialEq, Eq, Structural)]
pub enum Reason {
    /// Nothing matched.
    NotFilteredNotFound,
    /// An exception or an allowlist allowed it.
    NotFilteredAllowList,
    /// A blocklist rule blocked it.
    FilteredBlockList,
    /// A `$dnsrewrite` rule rewrote it.
    RewrittenRule,
}

/// A rule that contributed to a match.
#[derive(Clone, Debug, PartialEq, Eq)]
pub struct MatchedRule {
    /// The rule's original text.
    pub text: String,
    /// The list the rule came from.
    pub list_id: i64,
    /// The address a host rule resolves to, if this was a host rule.
    pub ip: Option<Ip>,
}

/// A rule that contributed, with its text as a sequence.
pub ghost struct MatchedV {
    pub text: Seq<char>,
    pub list: i64,
    pub ip: Option<Ip>,
}

impl MatchedRule {
    /// The rule, with its text as a sequence.
    pub open spec fn view(&self) -> MatchedV {
        MatchedV { text: self.text@, list: self.list_id, ip: self.ip }
    }
}

/// The outcome of matching a request.
#[derive(Clone, Debug)]
pub struct MatchResult {
    /// Why the request was filtered, allowed or rewritten.
    pub reason: Reason,
    /// The rules that matched.
    pub rules: Vec<MatchedRule>,
    /// The response to synthesise, for `$dnsrewrite` matches.
    pub rewrites: Vec<DnsRewrite>,
}

/// An outcome, with texts as sequences.
#[verifier::ext_equal]
pub ghost struct MatchV {
    pub reason: Reason,
    pub rules: Seq<MatchedV>,
    pub rewrites: Seq<RewriteV>,
}

impl MatchResult {
    /// The outcome, with texts as sequences.
    pub open spec fn view(&self) -> MatchV {
        MatchV {
            reason: self.reason,
            rules: self.rules@.map_values(|m: MatchedRule| m@),
            rewrites: self.rewrites@.map_values(|w: DnsRewrite| w@),
        }
    }

    /// Reports whether anything matched.
    pub fn matched(&self) -> (r: bool)
        ensures
            r == (self@.reason != Reason::NotFilteredNotFound),
    {
        self.reason != Reason::NotFilteredNotFound
    }

    /// Nothing matched.
    fn nothing() -> (r: MatchResult)
        ensures
            r@ == no_match(),
    {
        let r = MatchResult { reason: Reason::NotFilteredNotFound, rules: Vec::new(), rewrites: Vec::new() };
        assert(r@ =~= no_match());
        r
    }
}

/// The outcome where nothing matched.
pub open spec fn no_match() -> MatchV {
    MatchV { reason: Reason::NotFilteredNotFound, rules: Seq::empty(), rewrites: Seq::empty() }
}

/// What network rule `i` is reported as.
pub open spec fn net_report(net: Seq<Loaded>, i: u32) -> MatchedV {
    MatchedV { text: reported(net[i as int].text), list: net[i as int].list, ip: None }
}

/// What hosts rule `i` is reported as.
pub open spec fn host_report(hosts: Seq<LoadedHost>, i: u32) -> MatchedV {
    MatchedV { text: hosts[i as int].text, list: hosts[i as int].list, ip: Some(hosts[i as int].ip) }
}

/// Whether an `@@…$dnsrewrite` rule removes a rewrite.
///
/// An ordinary exception leaves an `$important` rewrite alone. One with no
/// value, which is the same as `NOERROR`, removes every rewrite; any other
/// removes the rewrites of the same parsed value.
pub open spec fn removes(exception: ParsedV, rule: ParsedV) -> bool {
    &&& rule.opts.important ==> exception.opts.important
    &&& match exception.opts.dnsrewrite {
        Some(v) => v == RewriteV::RCode(0) || rule.opts.dnsrewrite == Some(v),
        None => false,
    }
}

/// Whether a rule rewrites the host to itself, which is no rewrite.
pub open spec fn to_itself(rule: ParsedV, host: Seq<char>) -> bool {
    match rule.opts.dnsrewrite {
        Some(RewriteV::CName(c)) => same_folded(undotted(c), undotted(host)),
        _ => false,
    }
}

/// Whether some exception among `rewrites` removes rule `i`.
pub open spec fn removed(net: Seq<Loaded>, rewrites: Seq<u32>, i: u32) -> bool {
    exists|j: int|
        0 <= j < rewrites.len() && net[#[trigger] rewrites[j] as int].parsed.allowlist && removes(
            net[rewrites[j] as int].parsed,
            net[i as int].parsed,
        )
}

/// Whether rewrite `i` stands: it is no exception, no exception removes it
/// and it is a rewrite to something else.
pub open spec fn stands(net: Seq<Loaded>, rewrites: Seq<u32>, i: u32, host: Seq<char>) -> bool {
    !net[i as int].parsed.allowlist && !removed(net, rewrites, i) && !to_itself(net[i as int].parsed, host)
}

/// The rewrites that stand, in order.
pub open spec fn standing(net: Seq<Loaded>, rewrites: Seq<u32>, host: Seq<char>) -> Seq<u32> {
    picked(rewrites, |i: u32| if stands(net, rewrites, i, host) { Some(i) } else { None })
}

/// The hosts rules of a family, in order.
pub open spec fn of_family(hosts: Seq<LoadedHost>, refs: Seq<u32>, v4: bool) -> Seq<u32> {
    picked(refs, |i: u32| if (hosts[i as int].ip is V4) == v4 { Some(i) } else { None })
}

/// The hosts rules to report: those of the family asked for, or all of them
/// where there are none or no family is asked for.
pub open spec fn selected(hosts: Seq<LoadedHost>, refs: Seq<u32>, qtype: u16) -> Seq<u32> {
    if qtype == 1 || qtype == 28 {
        let f = of_family(hosts, refs, qtype == 1);
        if f.len() == 0 {
            refs
        } else {
            f
        }
    } else {
        refs
    }
}

/// What an allowlist set says: its winner, or its hosts rules, allow the
/// request.
pub open spec fn allow_verdict(c: Content, order: Seq<u32>, q: RequestV) -> Option<MatchV> {
    let refs = host_refs(c.hosts, q.host);
    match weighed(c.net, order, q).0 {
        Some(i) => Some(
            MatchV {
                reason: Reason::NotFilteredAllowList,
                rules: seq![net_report(c.net, i)],
                rewrites: Seq::empty(),
            },
        ),
        None => if refs.len() > 0 {
            Some(
                MatchV {
                    reason: Reason::NotFilteredAllowList,
                    rules: refs.map_values(|i: u32| host_report(c.hosts, i)),
                    rewrites: Seq::empty(),
                },
            )
        } else {
            None
        },
    }
}

/// What a blocklist set says: the rewrites that stand, or else the winner, or
/// else the hosts rules.
pub open spec fn block_verdict(c: Content, order: Seq<u32>, q: RequestV) -> MatchV {
    let (best, rewrites) = weighed(c.net, order, q);
    let kept = standing(c.net, rewrites, q.host);
    let refs = host_refs(c.hosts, q.host);
    if kept.len() > 0 {
        MatchV {
            reason: Reason::RewrittenRule,
            rules: kept.map_values(|i: u32| net_report(c.net, i)),
            rewrites: kept.map_values(|i: u32| c.net[i as int].parsed.opts.dnsrewrite->0),
        }
    } else {
        match best {
            Some(i) => MatchV {
                reason: if c.net[i as int].parsed.allowlist {
                    Reason::NotFilteredAllowList
                } else {
                    Reason::FilteredBlockList
                },
                rules: seq![net_report(c.net, i)],
                rewrites: Seq::empty(),
            },
            None => if refs.len() > 0 {
                MatchV {
                    reason: Reason::FilteredBlockList,
                    rules: selected(c.hosts, refs, q.qtype).map_values(|i: u32| host_report(c.hosts, i)),
                    rewrites: Seq::empty(),
                }
            } else {
                no_match()
            },
        }
    }
}

/// Whether `m` is what an allowlist set says, considering rules in some order.
/// A set without rules says nothing.
pub open spec fn allows(c: Content, q: RequestV, m: Option<MatchV>) -> bool {
    if c.net.len() + c.hosts.len() == 0 {
        m is None
    } else {
        exists|order: Seq<u32>| #[trigger] considered(c.net, q.host, order) && m == allow_verdict(c, order, q)
    }
}

/// Whether `m` is what a blocklist set says, considering rules in some order.
pub open spec fn judges(c: Content, q: RequestV, m: MatchV) -> bool {
    exists|order: Seq<u32>| #[trigger] considered(c.net, q.host, order) && m == block_verdict(c, order, q)
}

/// Whether `m` is what an engine of these sets says of a request: what its
/// allowlists say, where they say anything, or else what its blocklists say. A
/// request without a host matches nothing.
pub open spec fn answers(allow: Content, block: Content, q: RequestV, m: MatchV) -> bool {
    if q.host.len() == 0 {
        m == no_match()
    } else {
        exists|a: Option<MatchV>| #[trigger]
            allows(allow, q, a) && match a {
                Some(x) => m == x,
                None => judges(block, q, m),
            }
    }
}

/// The filtering engine: an allowlist set that short-circuits, and a blocklist
/// set consulted when nothing allowed the request.
pub struct Engine {
    /// Rules from allowlists. Any match here allows the request outright.
    pub allow: RuleSet,
    /// Rules from blocklists and the user's custom rules.
    pub block: RuleSet,
    /// The expressions of both.
    pub pool: Pool,
}

impl Engine {
    /// Whether both sets and their expressions belong together.
    pub open spec fn wf(&self) -> bool {
        self.pool.wf() && self.allow.wf(self.pool.all()) && self.block.wf(self.pool.all())
    }

    /// Builds an engine from blocklist and allowlist sources.
    pub fn build<V: Fn(&str) -> bool, A: Fn(&str) -> Option<Ip>, P: Fn(&str) -> PatternFacts>(
        block: Vec<(i64, String)>,
        allow: Vec<(i64, String)>,
        valid: &V,
        address: &A,
        facts: &P,
    ) -> (r: Self)
        requires
            settled(*valid),
            settled(*address),
            settled(*facts),
            block@.len() <= MAX_LISTS,
            allow@.len() <= MAX_LISTS,
            list_bytes(sources_of(block@)) <= MAX_SOURCE,
            list_bytes(sources_of(allow@)) <= MAX_SOURCE,
        ensures
            r.wf(),
            r.block.lists() == block@.len(),
            r.allow.lists() == allow@.len(),
            r.block.content() == with_lists(no_content(), sources_of(block@), known(*valid, *address), told(*facts)),
            r.allow.content() == with_lists(no_content(), sources_of(allow@), known(*valid, *address), told(*facts)),
    {
        let mut pool = Pool::new();
        let allow = RuleSet::build(allow, &mut pool, valid, address, facts);
        let ghost exprs = pool.all();
        let block = RuleSet::build(block, &mut pool, valid, address, facts);
        proof {
            allow.lemma_more_exprs(exprs, pool.all());
        }
        Engine { allow, block, pool }
    }

    /// The total number of loaded rules.
    pub fn len(&self) -> (r: usize)
        requires
            self.wf(),
        ensures
            r == self.allow.size() + self.block.size(),
    {
        self.allow.len(Ghost(self.pool.all())) + self.block.len(Ghost(self.pool.all()))
    }

    /// Reports whether the engine holds no rules.
    pub fn is_empty(&self) -> (r: bool)
        requires
            self.wf(),
        ensures
            r == (self.allow.size() + self.block.size() == 0),
    {
        self.allow.len(Ghost(self.pool.all())) == 0 && self.block.len(Ghost(self.pool.all())) == 0
    }

    /// Matches a request.
    ///
    /// Allowlists win outright, then `$dnsrewrite` rules, less the ones that
    /// an exception removes and the ones that rewrite the host to itself, then
    /// ordinary blocking and host rules.
    pub fn match_request(&mut self, req: &Request<'_>) -> (r: MatchResult)
        requires
            old(self).wf(),
        ensures
            final(self).wf(),
            final(self).allow == old(self).allow,
            final(self).block == old(self).block,
            final(self).pool.same_sources(&old(self).pool),
            answers(old(self).allow.content(), old(self).block.content(), req@, r@),
    {
        if req.hostname.is_empty() {
            return MatchResult::nothing();
        }
        let allowed = self.ask_allow(req);
        if let Some(m) = allowed {
            return m;
        }
        assert(allows(old(self).allow.content(), req@, None));
        self.ask_block(req)
    }

    /// What the allowlist set says.
    fn ask_allow(&mut self, req: &Request<'_>) -> (r: Option<MatchResult>)
        requires
            old(self).wf(),
        ensures
            final(self).wf(),
            final(self).allow == old(self).allow,
            final(self).block == old(self).block,
            final(self).pool.same_sources(&old(self).pool),
            allows(
                old(self).allow.content(),
                req@,
                match r {
                    Some(m) => Some(m@),
                    None => None,
                },
            ),
    {
        let ghost c = self.allow.content();
        if self.allow.len(Ghost(self.pool.all())) == 0 {
            return None;
        }
        let ghost before = self.pool;
        let (best, rewrites) = self.allow.match_network(req, &mut self.pool);
        let ghost order = choose|order: Seq<u32>| #[trigger]
            considered(c.net, req@.host, order) && (best, rewrites@) == weighed(c.net, order, req@);
        proof {
            self.allow.lemma_same_exprs(before, self.pool);
            self.block.lemma_same_exprs(before, self.pool);
        }
        if let Some(idx) = best {
            let rules = one(to_matched(&self.allow, idx, Ghost(self.pool.all())));
            let m = MatchResult { reason: Reason::NotFilteredAllowList, rules, rewrites: Vec::new() };
            assert(Some(m@) =~= allow_verdict(c, order, req@));
            return Some(m);
        }
        let refs = self.allow.match_hosts(req.hostname, Ghost(self.pool.all()));
        if refs.len() > 0 {
            let rules = hosts_matched(&self.allow, &refs, Ghost(self.pool.all()));
            let m = MatchResult { reason: Reason::NotFilteredAllowList, rules, rewrites: Vec::new() };
            assert(Some(m@) =~= allow_verdict(c, order, req@));
            return Some(m);
        }
        assert(allow_verdict(c, order, req@) is None);
        None
    }

    /// What the blocklist set says.
    fn ask_block(&mut self, req: &Request<'_>) -> (r: MatchResult)
        requires
            old(self).wf(),
        ensures
            final(self).wf(),
            final(self).allow == old(self).allow,
            final(self).block == old(self).block,
            final(self).pool.same_sources(&old(self).pool),
            judges(old(self).block.content(), req@, r@),
    {
        let ghost c = self.block.content();
        let ghost before = self.pool;
        let (best, rewrites) = self.block.match_network(req, &mut self.pool);
        let ghost order = choose|order: Seq<u32>| #[trigger]
            considered(c.net, req@.host, order) && (best, rewrites@) == weighed(c.net, order, req@);
        proof {
            self.allow.lemma_same_exprs(before, self.pool);
            self.block.lemma_same_exprs(before, self.pool);
            reach::lemma_rewrites_have_values(c.net, order, req@);
        }
        let kept = kept_rewrites(&self.block, &rewrites, req.hostname, Ghost(self.pool.all()));
        if kept.len() > 0 {
            let (rules, values) = rewrites_matched(&self.block, &kept, Ghost(self.pool.all()));
            let m = MatchResult { reason: Reason::RewrittenRule, rules, rewrites: values };
            assert(m@ =~= block_verdict(c, order, req@));
            return m;
        }
        if let Some(idx) = best {
            let exception = self.block.is_exception(idx, Ghost(self.pool.all()));
            let reason = if exception {
                Reason::NotFilteredAllowList
            } else {
                Reason::FilteredBlockList
            };
            let rules = one(to_matched(&self.block, idx, Ghost(self.pool.all())));
            let m = MatchResult { reason, rules, rewrites: Vec::new() };
            assert(m@ =~= block_verdict(c, order, req@));
            return m;
        }
        let refs = self.block.match_hosts(req.hostname, Ghost(self.pool.all()));
        if refs.len() > 0 {
            let chosen = choose_family(&self.block, refs, req.qtype, Ghost(self.pool.all()));
            let rules = hosts_matched(&self.block, &chosen, Ghost(self.pool.all()));
            let m = MatchResult { reason: Reason::FilteredBlockList, rules, rewrites: Vec::new() };
            assert(m@ =~= block_verdict(c, order, req@));
            return m;
        }
        let m = MatchResult::nothing();
        assert(m@ =~= block_verdict(c, order, req@));
        m
    }
}

/// A list of one rule.
fn one(m: MatchedRule) -> (r: Vec<MatchedRule>)
    ensures
        r@.map_values(|x: MatchedRule| x@) == seq![m@],
{
    let mut v: Vec<MatchedRule> = Vec::new();
    v.push(m);
    assert(v@.map_values(|x: MatchedRule| x@) =~= seq![m@]);
    v
}

/// Converts a network rule into its reportable form.
fn to_matched(set: &RuleSet, idx: u32, exprs: Ghost<Seq<crate::rule::pool::LazyRegex>>) -> (r: MatchedRule)
    requires
        set.wf(exprs@),
        idx < set.content().net.len(),
    ensures
        r@ == net_report(set.content().net, idx),
{
    let text = set.text_of(idx, exprs);
    let shown = if text.as_bytes().len() <= MAX_REPORTED {
        text.to_owned()
    } else {
        String::new()
    };
    proof {
        assert(shown@ =~= reported(text@));
    }
    MatchedRule { text: shown, list_id: set.list_of(idx, exprs), ip: None }
}

/// Converts host rules into their reportable form.
fn hosts_matched(set: &RuleSet, refs: &Vec<u32>, exprs: Ghost<Seq<crate::rule::pool::LazyRegex>>) -> (r: Vec<MatchedRule>)
    requires
        set.wf(exprs@),
        forall|i: int| 0 <= i < refs@.len() ==> #[trigger] refs@[i] < set.content().hosts.len(),
    ensures
        r@.map_values(|x: MatchedRule| x@) == refs@.map_values(|i: u32| host_report(set.content().hosts, i)),
{
    let mut out: Vec<MatchedRule> = Vec::new();
    let mut i: usize = 0;
    while i < refs.len()
        invariant
            set.wf(exprs@),
            i <= refs@.len(),
            out@.len() == i,
            forall|k: int| 0 <= k < refs@.len() ==> #[trigger] refs@[k] < set.content().hosts.len(),
            forall|k: int| 0 <= k < i ==> (#[trigger] out@[k])@ == host_report(set.content().hosts, refs@[k]),
        decreases refs@.len() - i,
    {
        let h = set.host_at(refs[i], exprs);
        out.push(MatchedRule { text: (*h.text).to_owned(), list_id: h.list_id, ip: Some(h.ip()) });
        i = i + 1;
    }
    assert(out@.map_values(|x: MatchedRule| x@) =~= refs@.map_values(|j: u32| host_report(set.content().hosts, j)));
    out
}

/// Reports whether an `@@…$dnsrewrite` rule removes `rule` from the rewrites.
fn excepts(exception: &NetworkRule, rule: &NetworkRule) -> (r: bool)
    ensures
        forall|e: ParsedV, p: ParsedV|
            #![trigger removes(e, p)]
            e.opts == exception@.opts && p.opts == rule@.opts ==> r == removes(e, p),
{
    if rule.important() && !exception.important() {
        return false;
    }
    match exception.dnsrewrite() {
        Some(v) => {
            let none = match v {
                DnsRewrite::RCode(c) => *c == 0,
                _ => false,
            };
            if none {
                return true;
            }
            match rule.dnsrewrite() {
                Some(w) => w.same(v),
                None => false,
            }
        },
        None => false,
    }
}

/// Reports whether a rule rewrites the host to itself, which is no rewrite.
fn rewrites_to_itself(rule: &NetworkRule, hostname: &str) -> (r: bool)
    ensures
        forall|p: ParsedV|
            #![trigger to_itself(p, hostname@)]
            p.opts == rule@.opts ==> r == to_itself(p, hostname@),
{
    match rule.dnsrewrite() {
        Some(w) => match w {
            DnsRewrite::CName(c) => same_name(c.as_str(), hostname),
            _ => false,
        },
        None => false,
    }
}

/// Whether some exception among `rewrites` removes rule `idx`.
fn is_removed(set: &RuleSet, rewrites: &Vec<u32>, idx: u32, exprs: Ghost<Seq<crate::rule::pool::LazyRegex>>) -> (r: bool)
    requires
        set.wf(exprs@),
        idx < set.content().net.len(),
        forall|i: int| 0 <= i < rewrites@.len() ==> #[trigger] rewrites@[i] < set.content().net.len(),
    ensures
        r == removed(set.content().net, rewrites@, idx),
{
    let ghost net = set.content().net;
    let rule = set.rule_at(idx, exprs);
    let mut i: usize = 0;
    while i < rewrites.len()
        invariant
            set.wf(exprs@),
            net == set.content().net,
            idx < net.len(),
            rule@.opts == net[idx as int].parsed.opts,
            forall|k: int| 0 <= k < rewrites@.len() ==> #[trigger] rewrites@[k] < net.len(),
            i <= rewrites@.len(),
            forall|k: int|
                0 <= k < i ==> !(net[#[trigger] rewrites@[k] as int].parsed.allowlist && removes(
                    net[rewrites@[k] as int].parsed,
                    net[idx as int].parsed,
                )),
        decreases rewrites@.len() - i,
    {
        let e = set.rule_at(rewrites[i], exprs);
        let removes_it = excepts(e, rule);
        assert(removes_it == removes(net[rewrites@[i as int] as int].parsed, net[idx as int].parsed));
        if e.allowlist() && removes_it {
            return true;
        }
        i = i + 1;
    }
    false
}

/// The rewrites that stand.
fn kept_rewrites(set: &RuleSet, rewrites: &Vec<u32>, hostname: &str, exprs: Ghost<Seq<crate::rule::pool::LazyRegex>>) -> (r:
    Vec<u32>)
    requires
        set.wf(exprs@),
        forall|i: int| 0 <= i < rewrites@.len() ==> #[trigger] rewrites@[i] < set.content().net.len(),
    ensures
        r@ == standing(set.content().net, rewrites@, hostname@),
        forall|i: int| 0 <= i < r@.len() ==> rewrites@.contains(#[trigger] r@[i]),
{
    let ghost net = set.content().net;
    let ghost f = |i: u32| if stands(net, rewrites@, i, hostname@) { Some(i) } else { None };
    let mut out: Vec<u32> = Vec::new();
    let mut i: usize = 0;
    assert(picked(rewrites@.take(0), f) =~= Seq::<u32>::empty());
    while i < rewrites.len()
        invariant
            set.wf(exprs@),
            net == set.content().net,
            f == (|i: u32| if stands(net, rewrites@, i, hostname@) { Some(i) } else { None }),
            forall|k: int| 0 <= k < rewrites@.len() ==> #[trigger] rewrites@[k] < net.len(),
            i <= rewrites@.len(),
            out@ == picked(rewrites@.take(i as int), f),
            forall|k: int| 0 <= k < out@.len() ==> rewrites@.contains(#[trigger] out@[k]),
        decreases rewrites@.len() - i,
    {
        let idx = rewrites[i];
        proof {
            assert(rewrites@.take(i + 1).drop_last() =~= rewrites@.take(i as int));
            assert(rewrites@.take(i + 1).last() == idx);
            assert(rewrites@.contains(rewrites@[i as int]));
        }
        let rule = set.rule_at(idx, exprs);
        let itself = rewrites_to_itself(rule, hostname);
        assert(itself == to_itself(net[idx as int].parsed, hostname@));
        if !rule.allowlist() && !is_removed(set, rewrites, idx, exprs) && !itself {
            out.push(idx);
        }
        i = i + 1;
    }
    assert(rewrites@.take(i as int) =~= rewrites@);
    out
}

/// The rules and the responses of the rewrites that stand.
fn rewrites_matched(set: &RuleSet, kept: &Vec<u32>, exprs: Ghost<Seq<crate::rule::pool::LazyRegex>>) -> (r: (
    Vec<MatchedRule>,
    Vec<DnsRewrite>,
))
    requires
        set.wf(exprs@),
        forall|i: int|
            0 <= i < kept@.len() ==> #[trigger] kept@[i] < set.content().net.len()
                && set.content().net[kept@[i] as int].parsed.opts.dnsrewrite is Some,
    ensures
        r.0@.map_values(|x: MatchedRule| x@) == kept@.map_values(|i: u32| net_report(set.content().net, i)),
        r.1@.map_values(|w: DnsRewrite| w@) == kept@.map_values(
            |i: u32| set.content().net[i as int].parsed.opts.dnsrewrite->0,
        ),
{
    let ghost net = set.content().net;
    let mut rules: Vec<MatchedRule> = Vec::new();
    let mut values: Vec<DnsRewrite> = Vec::new();
    let mut i: usize = 0;
    while i < kept.len()
        invariant
            set.wf(exprs@),
            net == set.content().net,
            forall|k: int|
                0 <= k < kept@.len() ==> #[trigger] kept@[k] < net.len()
                    && net[kept@[k] as int].parsed.opts.dnsrewrite is Some,
            i <= kept@.len(),
            rules@.len() == i,
            values@.len() == i,
            forall|k: int| 0 <= k < i ==> (#[trigger] rules@[k])@ == net_report(net, kept@[k]),
            forall|k: int|
                0 <= k < i ==> (#[trigger] values@[k])@ == net[kept@[k] as int].parsed.opts.dnsrewrite->0,
        decreases kept@.len() - i,
    {
        let idx = kept[i];
        rules.push(to_matched(set, idx, exprs));
        if let Some(w) = set.rule_at(idx, exprs).dnsrewrite() {
            values.push(w.copy());
        }
        i = i + 1;
    }
    proof {
        assert(rules@.map_values(|x: MatchedRule| x@) =~= kept@.map_values(|i: u32| net_report(net, i)));
        assert(values@.map_values(|w: DnsRewrite| w@) =~= kept@.map_values(
            |i: u32| net[i as int].parsed.opts.dnsrewrite->0,
        ));
    }
    (rules, values)
}

/// Narrows hosts rules to the family asked for, where that leaves any.
fn choose_family(set: &RuleSet, refs: Vec<u32>, qtype: u16, exprs: Ghost<Seq<crate::rule::pool::LazyRegex>>) -> (r: Vec<u32>)
    requires
        set.wf(exprs@),
        forall|i: int| 0 <= i < refs@.len() ==> #[trigger] refs@[i] < set.content().hosts.len(),
    ensures
        r@ == selected(set.content().hosts, refs@, qtype),
        forall|i: int| 0 <= i < r@.len() ==> #[trigger] r@[i] < set.content().hosts.len(),
{
    if qtype != 1 && qtype != 28 {
        return refs;
    }
    let v4 = qtype == 1;
    let ghost hosts = set.content().hosts;
    let ghost f = |i: u32| if (hosts[i as int].ip is V4) == v4 { Some(i) } else { None };
    let mut out: Vec<u32> = Vec::new();
    let mut i: usize = 0;
    assert(picked(refs@.take(0), f) =~= Seq::<u32>::empty());
    while i < refs.len()
        invariant
            set.wf(exprs@),
            hosts == set.content().hosts,
            f == (|i: u32| if (hosts[i as int].ip is V4) == v4 { Some(i) } else { None }),
            forall|k: int| 0 <= k < refs@.len() ==> #[trigger] refs@[k] < hosts.len(),
            i <= refs@.len(),
            out@ == picked(refs@.take(i as int), f),
            forall|k: int| 0 <= k < out@.len() ==> #[trigger] out@[k] < hosts.len(),
        decreases refs@.len() - i,
    {
        let idx = refs[i];
        proof {
            assert(refs@.take(i + 1).drop_last() =~= refs@.take(i as int));
            assert(refs@.take(i + 1).last() == idx);
        }
        if set.host_at(idx, exprs).ip().is_ipv4() == v4 {
            out.push(idx);
        }
        i = i + 1;
    }
    assert(refs@.take(i as int) =~= refs@);
    if out.len() == 0 {
        refs
    } else {
        out
    }
}

} // verus!
