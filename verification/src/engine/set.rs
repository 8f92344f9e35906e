//! An indexed set of rules, and how it is built from lists.

use vstd::prelude::*;
use vstd::string::*;
use vstd::utf8::*;

use crate::asked::{answer, settled};
use crate::domidx::{filed, hashes_of, key_hash, slots_for, spill_of, DomainIndex};
use crate::engine::words::{
    anchored_domain_is, anchored_to, canonical, canonical_text, is_subdomain_of, parent, suffixes, under, url, url_for,
};
use crate::ip::Ip;
use crate::multi::{gathered, lemma_sum_part, lemma_sum_update, sum};
use crate::rule::parse::{
    bare, cosmetic, host_address, host_names, known, network_of, no_rule, parse, told, HostRule, Known, ParsedNetwork,
    ParsedV, PatternFacts, PatternV, Rule,
};
use crate::rule::pool::{expr_fits, LazyRegex, Pool};
use crate::rule::{
    allows_type, listed, lists, satisfied_by, satisfies, specifiers, Kind, NetworkRule, NetworkV, PatternRef, StrList,
    StrListV, Target,
};
use crate::shortcut::{
    arena_need, by_text, hits_in, holds, kept, law_each_hit_once, law_one_order, rules_of, spill_need, worth, worth_filing,
    ShortcutIndex, MIN_SHORTCUT_LEN, SPILL,
};
use crate::table::bytes::ByteTable;
use crate::text::{
    chars_of, leading, lemma_split_front, lemma_split_none, lemma_trim_back, lower, lowered, split, string_of, strings,
    trim, trim_front, trimmed,
};
use crate::utf::{
    cut_once, lemma_encode_ascii, lemma_encode_concat, lemma_encode_injective, lemma_encode_len, lemma_text_at,
    slice_text, text_at,
};

verus! {

/// The most text a set is built from, in bytes, so that offsets into its
/// literals fit in 32 bits: one of three bytes is kept in nine.
pub const MAX_SOURCE: usize = 0x5555_5550;

/// The most lists a set is built from.
pub const MAX_LISTS: usize = 65535;

/// The longest rule text that is reported.
pub const MAX_REPORTED: usize = 65535;

/// A rule's text, as a slice of the list it was read from.
#[derive(Clone, Copy, Debug, PartialEq, Eq, Structural)]
pub struct TextRef {
    /// Byte offset into the source.
    off: u32,
    /// Length in bytes.
    len: u32,
    /// Which source.
    src: u16,
}

/// The rule indices stored under one name.
///
/// Almost every name stands in exactly one rule, so the common case is kept
/// inline.
#[derive(Clone, Debug)]
pub enum Refs {
    /// A single rule.
    One(u32),
    /// Several rules, in load order.
    Many(Vec<u32>),
}

impl Refs {
    /// The stored indices, in order.
    pub open spec fn view(&self) -> Seq<u32> {
        match *self {
            Refs::One(i) => seq![i],
            Refs::Many(v) => v@,
        }
    }

    /// Whether a single index is kept inline.
    pub open spec fn compact(&self) -> bool {
        match *self {
            Refs::One(_) => true,
            Refs::Many(v) => v@.len() > 1,
        }
    }

    /// Adds an index, promoting to the heap only when a second one arrives.
    pub fn push(&mut self, idx: u32)
        ensures
            final(self)@ == old(self)@.push(idx),
            old(self).compact() ==> final(self).compact(),
    {
        let ghost before = self@;
        match self {
            Refs::One(first) => {
                let first = *first;
                let mut v: Vec<u32> = Vec::new();
                v.push(first);
                v.push(idx);
                assert(v@ =~= before.push(idx));
                *self = Refs::Many(v);
            },
            Refs::Many(v) => {
                v.push(idx);
            },
        }
    }

    /// The stored indices.
    pub fn iter(&self) -> (r: Vec<u32>)
        ensures
            r@ == self@,
    {
        match self {
            Refs::One(i) => {
                let mut v: Vec<u32> = Vec::new();
                v.push(*i);
                assert(v@ =~= self@);
                v
            },
            Refs::Many(v) => {
                let out = v.clone();
                assert(out@ =~= v@);
                out
            },
        }
    }
}

/// A network rule that was loaded: what it parsed to, its text and its list.
#[verifier::ext_equal]
pub ghost struct Loaded {
    pub parsed: ParsedV,
    pub text: Seq<char>,
    pub list: i64,
}

/// A hosts rule that was loaded: its text, its address, its list and the
/// names it covers.
#[verifier::ext_equal]
pub ghost struct LoadedHost {
    pub text: Seq<char>,
    pub ip: Ip,
    pub list: i64,
    pub names: Seq<Seq<char>>,
}

/// What a set was loaded with.
#[verifier::ext_equal]
pub ghost struct Content {
    pub net: Seq<Loaded>,
    pub hosts: Seq<LoadedHost>,
}

/// What `line` of list `list` adds to `c`. A line that does not parse adds
/// nothing.
pub open spec fn with_line(
    c: Content,
    line: Seq<char>,
    list: i64,
    k: Known,
    facts: spec_fn(Seq<char>) -> PatternFacts,
) -> Content {
    let t = trimmed(line);
    if no_rule(t) || cosmetic(t) {
        c
    } else {
        match host_address(t, k) {
            Some(ip) => Content {
                hosts: c.hosts.push(LoadedHost { text: t, ip, list, names: host_names(t, k.valid) }),
                ..c
            },
            None => match network_of(t, k, facts) {
                Ok(parsed) => Content { net: c.net.push(Loaded { parsed, text: t, list }), ..c },
                Err(_) => c,
            },
        }
    }
}

/// What `lines` of list `list` add to `c`, one after the other.
pub open spec fn with_lines(
    c: Content,
    lines: Seq<Seq<char>>,
    list: i64,
    k: Known,
    facts: spec_fn(Seq<char>) -> PatternFacts,
) -> Content
    decreases lines.len(),
{
    if lines.len() == 0 {
        c
    } else {
        with_lines(with_line(c, lines[0], list, k, facts), lines.drop_first(), list, k, facts)
    }
}

/// Lists, with their texts as sequences.
pub open spec fn sources_of(lists: Seq<(i64, String)>) -> Seq<(i64, Seq<char>)> {
    lists.map_values(|x: (i64, String)| (x.0, x.1@))
}

/// What `lists` add to `c`, one after the other.
pub open spec fn with_lists(
    c: Content,
    lists: Seq<(i64, Seq<char>)>,
    k: Known,
    facts: spec_fn(Seq<char>) -> PatternFacts,
) -> Content
    decreases lists.len(),
{
    if lists.len() == 0 {
        c
    } else {
        with_lists(with_lines(c, split(lists[0].1, '\n'), lists[0].0, k, facts), lists.drop_first(), k, facts)
    }
}

/// A set loaded with nothing.
pub open spec fn no_content() -> Content {
    Content { net: Seq::empty(), hosts: Seq::empty() }
}

/// What is reported as a rule's text: the text, unless it is too long. Such a
/// rule still matches, it just reports no text.
pub open spec fn reported(text: Seq<char>) -> Seq<char> {
    if encode_utf8(text).len() <= MAX_REPORTED {
        text
    } else {
        Seq::empty()
    }
}

/// Whether a rule is found through the domain index.
pub open spec fn anchored(l: Loaded) -> bool {
    l.parsed.pattern is DomainAnchor && l.parsed.shortcut is Some
}

/// The literal that a rule is found through, where there is one: a shortcut
/// long enough to file, and no longer than the rule it was read from.
pub open spec fn literal(l: Loaded) -> Option<Seq<u8>> {
    match l.parsed.shortcut {
        Some(sc) => if l.parsed.pattern is Rx && MIN_SHORTCUT_LEN <= encode_utf8(sc).len() <= encode_utf8(l.text).len() {
            Some(encode_utf8(sc))
        } else {
            None
        },
        None => None,
    }
}

/// The domain hashes and numbers of the rules found through the domain index.
pub open spec fn pairs_of(net: Seq<Loaded>) -> Seq<(u64, u32)>
    decreases net.len(),
{
    if net.len() == 0 {
        Seq::empty()
    } else if anchored(net.last()) {
        pairs_of(net.drop_last()).push(
            (key_hash(encode_utf8(net.last().parsed.shortcut->0)), (net.len() - 1) as u32),
        )
    } else {
        pairs_of(net.drop_last())
    }
}

/// The numbers of the rules found through the literal `text`.
pub open spec fn carriers(net: Seq<Loaded>, text: Seq<u8>) -> Seq<u32>
    decreases net.len(),
{
    if net.len() == 0 {
        Seq::empty()
    } else if literal(net.last()) == Some(text) {
        carriers(net.drop_last(), text).push((net.len() - 1) as u32)
    } else {
        carriers(net.drop_last(), text)
    }
}

/// The numbers of the rules that every request considers.
pub open spec fn scan_of(net: Seq<Loaded>) -> Seq<u32>
    decreases net.len(),
{
    if net.len() == 0 {
        Seq::empty()
    } else if !anchored(net.last()) && literal(net.last()) is None {
        scan_of(net.drop_last()).push((net.len() - 1) as u32)
    } else {
        scan_of(net.drop_last())
    }
}

/// Whether some `$badfilter` rule of `net` cancels a rule that reads `text`
/// without that modifier.
pub open spec fn cancels(net: Seq<Loaded>, text: Seq<char>) -> bool {
    exists|i: int| 0 <= i < net.len() && (#[trigger] net[i]).parsed.opts.badfilter && canonical(net[i].text) == text
}

/// The numbers of the hosts rules that name `name`, once for each time.
pub open spec fn named_in(names: Seq<Seq<char>>, name: Seq<char>, idx: u32) -> Seq<u32>
    decreases names.len(),
{
    if names.len() == 0 {
        Seq::empty()
    } else if names.last() == name {
        named_in(names.drop_last(), name, idx).push(idx)
    } else {
        named_in(names.drop_last(), name, idx)
    }
}

/// The numbers of the hosts rules that name `name`, in order.
pub open spec fn host_refs(hosts: Seq<LoadedHost>, name: Seq<char>) -> Seq<u32>
    decreases hosts.len(),
{
    if hosts.len() == 0 {
        Seq::empty()
    } else {
        host_refs(hosts.drop_last(), name) + named_in(hosts.last().names, name, (hosts.len() - 1) as u32)
    }
}

/// `names` with `name`, where it is new.
pub open spec fn noted(names: Seq<Seq<char>>, name: Seq<char>) -> Seq<Seq<char>> {
    if names.contains(name) {
        names
    } else {
        names.push(name)
    }
}

/// `names` with each of `more` that is new, in order.
pub open spec fn all_noted(names: Seq<Seq<char>>, more: Seq<Seq<char>>) -> Seq<Seq<char>>
    decreases more.len(),
{
    if more.len() == 0 {
        names
    } else {
        noted(all_noted(names, more.drop_last()), more.last())
    }
}

/// The names that hosts rules cover, each once, in the order they appear.
pub open spec fn names_in(hosts: Seq<LoadedHost>) -> Seq<Seq<char>>
    decreases hosts.len(),
{
    if hosts.len() == 0 {
        Seq::empty()
    } else {
        all_noted(names_in(hosts.drop_last()), hosts.last().names)
    }
}

/// The texts that `$badfilter` rules cancel, each once, in order.
pub open spec fn cancelled_texts(net: Seq<Loaded>) -> Seq<Seq<char>>
    decreases net.len(),
{
    if net.len() == 0 {
        Seq::empty()
    } else if net.last().parsed.opts.badfilter {
        noted(cancelled_texts(net.drop_last()), canonical(net.last().text))
    } else {
        cancelled_texts(net.drop_last())
    }
}

/// Names, as bytes.
pub open spec fn encoded(names: Seq<Seq<char>>) -> Seq<Seq<u8>> {
    names.map_values(|n: Seq<char>| encode_utf8(n))
}

/// Whether a rule is the one that `parsed` describes, its expression in
/// `exprs`.
pub open spec fn rule_is(rule: NetworkV, parsed: ParsedV, exprs: Seq<LazyRegex>) -> bool {
    &&& rule.opts == parsed.opts
    &&& rule.allowlist == parsed.allowlist
    &&& match parsed.pattern {
        PatternV::DomainAnchor => rule.kind == Kind::Anchor,
        PatternV::Any => rule.kind == Kind::Any,
        PatternV::Rx(src, target, built) => rule.kind == Kind::Rx(target) && rule.expr < exprs.len()
            && exprs[rule.expr as int].text() == src,
    }
}

/// Whether the network rules are the ones loaded, and their texts are found
/// in `sources`.
spec fn holds_net(
    net: Seq<NetworkRule>,
    refs: Seq<TextRef>,
    sources: Seq<Seq<char>>,
    ids: Seq<i64>,
    exprs: Seq<LazyRegex>,
    loaded: Seq<Loaded>,
) -> bool {
    &&& net.len() == loaded.len()
    &&& refs.len() == loaded.len()
    &&& ids.len() == sources.len()
    &&& forall|i: int|
        0 <= i < net.len() ==> rule_is((#[trigger] net[i])@, loaded[i].parsed, exprs) && net[i].carries() == !bare(
            loaded[i].parsed.opts,
        )
    &&& forall|i: int|
        0 <= i < refs.len() ==> {
            let r = #[trigger] refs[i];
            &&& r.src < sources.len()
            &&& ids[r.src as int] == loaded[i].list
            &&& text_at(sources[r.src as int], r.off as int, r.len as int) == loaded[i].text
        }
}

/// Whether the hosts rules are the ones loaded.
spec fn holds_hosts(hosts: Seq<HostRule>, loaded: Seq<LoadedHost>) -> bool {
    &&& hosts.len() == loaded.len()
    &&& forall|i: int|
        0 <= i < hosts.len() ==> (#[trigger] hosts[i]).text@ == loaded[i].text && hosts[i].addr() == loaded[i].ip
            && hosts[i].list_id == loaded[i].list
}

/// Whether the table files each name's hosts rules.
spec fn files_hosts(index: ByteTable<Refs>, hosts: Seq<LoadedHost>) -> bool {
    &&& index.wf()
    &&& index.keys() == encoded(names_in(hosts))
    &&& forall|i: int| 0 <= i < index.values().len() ==> (#[trigger] index.values()[i]).compact()
    &&& forall|name: Seq<char>|
        #![trigger host_refs(hosts, name)]
        index@.contains_key(encode_utf8(name)) == (host_refs(hosts, name).len() > 0)
    &&& forall|name: Seq<char>|
        #![trigger host_refs(hosts, name)]
        host_refs(hosts, name).len() > 0 ==> index@[encode_utf8(name)]@ == host_refs(hosts, name)
}

/// Whether the table has the text of each `$badfilter` rule.
spec fn files_cancelled(set: ByteTable<()>, net: Seq<Loaded>) -> bool {
    &&& set.wf()
    &&& set.keys() == encoded(cancelled_texts(net))
    &&& forall|t: Seq<char>| #[trigger] set@.contains_key(encode_utf8(t)) == cancels(net, t)
    &&& (set@.len() == 0) == (forall|i: int| 0 <= i < net.len() ==> !(#[trigger] net[i]).parsed.opts.badfilter)
}

/// Whether the table files each literal's rules.
spec fn files_literals(table: ByteTable<(String, Vec<u32>)>, net: Seq<Loaded>) -> bool {
    &&& table.wf()
    &&& forall|t: Seq<u8>| #[trigger] table@.contains_key(t) == (carriers(net, t).len() > 0)
    &&& forall|t: Seq<u8>| #[trigger] table@.contains_key(t) ==> encode_utf8(table@[t].0@) == t && table@[t].1@ == carriers(
            net,
            t,
        )
}

/// Whether `patterns` has each literal once, in the order of their texts, with
/// the rules found through it.
pub open spec fn grouped(patterns: Seq<(Seq<u8>, Seq<u32>)>, net: Seq<Loaded>) -> bool {
    &&& by_text(patterns)
    &&& worth_filing(patterns)
    &&& forall|p: int|
        0 <= p < patterns.len() ==> (#[trigger] patterns[p]).1 == carriers(net, patterns[p].0) && patterns[p].1.len() > 0
    &&& forall|p: int, q: int|
        0 <= p < q < patterns.len() ==> (#[trigger] patterns[p]).0 != (#[trigger] patterns[q]).0
    &&& forall|t: Seq<u8>| #[trigger]
        carriers(net, t).len() > 0 ==> exists|p: int| 0 <= p < patterns.len() && (#[trigger] patterns[p]).0 == t
}

/// An indexed set of rules from one group of lists.
pub struct RuleSet {
    pub(crate) net: Vec<NetworkRule>,
    /// The list texts the rules were parsed from.
    pub(crate) sources: Vec<String>,
    /// The list each source came from.
    pub(crate) list_ids: Vec<i64>,
    /// Where each network rule's text sits within its source.
    pub(crate) net_text: Vec<TextRef>,
    pub(crate) hosts: Vec<HostRule>,
    pub(crate) domain_index: DomainIndex,
    pub(crate) host_index: ByteTable<Refs>,
    pub(crate) shortcuts: ShortcutIndex,
    pub(crate) scan: Vec<u32>,
    pub(crate) badfilter: ByteTable<()>,
    pub(crate) content: Ghost<Content>,
}

impl RuleSet {
    /// What the set was loaded with.
    pub closed spec fn content(&self) -> Content {
        self.content@
    }

    /// How many lists the set was built from.
    pub closed spec fn lists(&self) -> nat {
        self.sources@.len()
    }

    /// Whether the set's rules and indexes are those of its content, its
    /// expressions in `exprs`.
    pub closed spec fn wf(&self, exprs: Seq<LazyRegex>) -> bool {
        let c = self.content@;
        &&& c.net.len() + c.hosts.len() <= MAX_SOURCE
        &&& holds_net(self.net@, self.net_text@, strings(self.sources@), self.list_ids@, exprs, c.net)
        &&& holds_hosts(self.hosts@, c.hosts)
        &&& self.domain_index.wf()
        &&& forall|h: u64| #[trigger] self.domain_index.run(h) == filed(pairs_of(c.net), h)
        &&& self.domain_index.count() == hashes_of(pairs_of(c.net)).len()
        &&& self.domain_index.slots() == slots_for(pairs_of(c.net))
        &&& self.domain_index.spilled() == spill_of(pairs_of(c.net))
        &&& self.shortcuts.wf()
        &&& grouped(self.shortcuts.patterns(), c.net)
        &&& self.scan@ == scan_of(c.net)
        &&& files_hosts(self.host_index, c.hosts)
        &&& files_cancelled(self.badfilter, c.net)
    }
}

/// Accumulates rules before the indexes are built.
pub struct Builder {
    net: Vec<NetworkRule>,
    sources: Vec<String>,
    list_ids: Vec<i64>,
    net_text: Vec<TextRef>,
    hosts: Vec<HostRule>,
    domain_pairs: Vec<(u64, u32)>,
    host_index: ByteTable<Refs>,
    shortcuts: ByteTable<(String, Vec<u32>)>,
    scan: Vec<u32>,
    badfilter: ByteTable<()>,
    content: Ghost<Content>,
}

impl Builder {
    /// What was loaded so far.
    pub closed spec fn content(&self) -> Content {
        self.content@
    }

    /// How many lists were loaded so far.
    pub closed spec fn lists(&self) -> nat {
        self.sources@.len()
    }

    /// Whether everything is filed, with texts in `sources`, and fits in what
    /// `used` bytes of text can hold.
    spec fn holds(&self, exprs: Seq<LazyRegex>, sources: Seq<Seq<char>>, ids: Seq<i64>, used: int) -> bool {
        let c = self.content@;
        &&& c.net.len() + c.hosts.len() <= used
        &&& used <= MAX_SOURCE
        &&& sources.len() <= MAX_LISTS
        &&& holds_net(self.net@, self.net_text@, sources, ids, exprs, c.net)
        &&& holds_hosts(self.hosts@, c.hosts)
        &&& self.domain_pairs@ == pairs_of(c.net)
        &&& files_literals(self.shortcuts, c.net)
        &&& sum(self.shortcuts.values(), |p: (String, Vec<u32>)| arena_need(p)) <= 3 * used
        &&& sum(self.shortcuts.values(), |p: (String, Vec<u32>)| spill_need(p)) <= used
        &&& self.scan@ == scan_of(c.net)
        &&& files_hosts(self.host_index, c.hosts)
        &&& files_cancelled(self.badfilter, c.net)
    }

    /// Whether the builder is one that [`Builder::new`] and
    /// [`Builder::add_list`] make, of lists of at most `used` bytes.
    pub closed spec fn wf(&self, exprs: Seq<LazyRegex>, used: int) -> bool {
        self.holds(exprs, strings(self.sources@), self.list_ids@, used)
    }

    /// A builder with nothing loaded.
    pub fn new() -> (r: Self)
        ensures
            r.content() == no_content(),
            r.lists() == 0,
            forall|exprs: Seq<LazyRegex>| #[trigger] r.wf(exprs, 0),
    {
        let r = Builder {
            net: Vec::new(),
            sources: Vec::new(),
            list_ids: Vec::new(),
            net_text: Vec::new(),
            hosts: Vec::new(),
            domain_pairs: Vec::new(),
            host_index: ByteTable::new(),
            shortcuts: ByteTable::new(),
            scan: Vec::new(),
            badfilter: ByteTable::new(),
            content: Ghost(no_content()),
        };
        proof {
            r.shortcuts.lemma_positions();
            r.host_index.lemma_positions();
            r.badfilter.lemma_positions();
            assert(r.host_index.keys() =~= encoded(names_in(no_content().hosts)));
            assert(r.badfilter.keys() =~= encoded(cancelled_texts(no_content().net)));
            assert forall|exprs: Seq<LazyRegex>| #[trigger] r.wf(exprs, 0) by {
                assert forall|t: Seq<char>| !#[trigger] cancels(no_content().net, t) by {}
                assert(files_cancelled(r.badfilter, no_content().net));
            }
        }
        r
    }

    /// Files the literal `sc` of rule `idx`.
    fn add_literal(&mut self, sc: String, idx: u32, used: Ghost<int>)
        requires
            old(self).shortcuts.wf(),
            used@ >= 0,
            sum(old(self).shortcuts.values(), |p: (String, Vec<u32>)| arena_need(p)) <= 3 * used@,
            sum(old(self).shortcuts.values(), |p: (String, Vec<u32>)| spill_need(p)) <= used@,
            forall|t: Seq<u8>| #[trigger]
                old(self).shortcuts@.contains_key(t) ==> encode_utf8(old(self).shortcuts@[t].0@) == t,
        ensures
            final(self).shortcuts.wf(),
            ({
                let t = encode_utf8(sc@);
                let was = old(self).shortcuts@;
                let now = final(self).shortcuts@;
                &&& now.dom() == was.dom().insert(t)
                &&& now[t].0@ == sc@
                &&& now[t].1@ == if was.contains_key(t) {
                    was[t].1@.push(idx)
                } else {
                    seq![idx]
                }
                &&& forall|q: Seq<u8>| q != t && #[trigger] was.contains_key(q) ==> now[q] == was[q]
            }),
            sum(final(self).shortcuts.values(), |p: (String, Vec<u32>)| arena_need(p)) <= 3 * used@ + encode_utf8(
                sc@,
            ).len() + 6,
            sum(final(self).shortcuts.values(), |p: (String, Vec<u32>)| spill_need(p)) <= used@ + 2,
            *final(self) == (Builder { shortcuts: final(self).shortcuts, ..*old(self) }),
    {
        let ghost need = |p: (String, Vec<u32>)| arena_need(p);
        let ghost room = |p: (String, Vec<u32>)| spill_need(p);
        let ghost before = self.shortcuts;
        proof {
            self.shortcuts.lemma_positions();
        }
        let key = sc.as_str().as_bytes();
        match self.shortcuts.position(key) {
            Some(i) => {
                let mut v: (String, Vec<u32>) = (String::new(), Vec::new());
                self.shortcuts.swap_at(i, &mut v);
                let ghost taken = v;
                v.1.push(idx);
                let ghost put = v;
                self.shortcuts.swap_at(i, &mut v);
                proof {
                    let s0 = before.values();
                    assert(self.shortcuts.values() =~= s0.update(i as int, put));
                    lemma_sum_update(s0, need, i as int, put);
                    lemma_sum_update(s0, room, i as int, put);
                    assert(self.shortcuts@ =~= before@.insert(key@, put));
                    lemma_encode_injective(put.0@, sc@);
                    assert(before@.dom().insert(key@) =~= before@.dom());
                    assert(put.1@ =~= before@[key@].1@.push(idx));
                    assert(arena_need(put) == arena_need(taken));
                }
            },
            None => {
                let mut k: Vec<u8> = Vec::new();
                copy_bytes(&mut k, key);
                let mut v: Vec<u32> = Vec::new();
                v.push(idx);
                self.shortcuts.insert(k, (sc, v));
                proof {
                    assert(self.shortcuts.values().drop_last() =~= before.values());
                    assert(v@ =~= seq![idx]);
                }
            },
        }
    }

    /// Indexes one network rule.
    fn add_network(
        &mut self,
        rule: NetworkRule,
        text: &str,
        src: u16,
        off: u32,
        shortcut: Option<String>,
        l: Ghost<Loaded>,
        exprs: Ghost<Seq<LazyRegex>>,
        sources: Ghost<Seq<Seq<char>>>,
        ids: Ghost<Seq<i64>>,
        used: Ghost<int>,
    )
        requires
            old(self).holds(exprs@, sources@, ids@, used@),
            rule_is(rule@, l@.parsed, exprs@),
            rule.carries() == !bare(l@.parsed.opts),
            l@.text == text@,
            text@.len() > 0,
            crate::rule::parse::text_view(shortcut) == l@.parsed.shortcut,
            src < sources@.len(),
            ids@[src as int] == l@.list,
            text_at(sources@[src as int], off as int, encode_utf8(text@).len() as int) == text@,
            used@ + encode_utf8(text@).len() <= MAX_SOURCE,
        ensures
            final(self).holds(exprs@, sources@, ids@, used@ + encode_utf8(text@).len()),
            final(self).content() == (Content { net: old(self).content().net.push(l@), ..old(self).content() }),
            final(self).sources == old(self).sources,
            final(self).list_ids == old(self).list_ids,
    {
        let ghost c = self.content@;
        let ghost net2 = c.net.push(l@);
        proof {
            lemma_encode_len(text@);
            assert(net2.drop_last() =~= c.net);
        }
        if rule.badfilter() {
            let canon = canonical_text(text);
            let mut k: Vec<u8> = Vec::new();
            copy_bytes(&mut k, canon.as_str().as_bytes());
            let ghost was = self.badfilter;
            self.badfilter.insert(k, ());
            proof {
                assert(files_cancelled(self.badfilter, net2)) by {
                    self.badfilter.lemma_positions();
                    was.lemma_positions();
                    lemma_noted(cancelled_texts(c.net), canon@, was.keys(), was@.contains_key(k@));
                    assert(self.badfilter.keys() =~= encoded(cancelled_texts(net2)));
                    assert forall|t: Seq<char>| #[trigger] self.badfilter@.contains_key(encode_utf8(t)) == cancels(
                        net2,
                        t,
                    ) by {
                        lemma_cancels_push(c.net, l@, t);
                        if encode_utf8(t) == k@ {
                            lemma_encode_injective(t, canon@);
                        }
                        assert(was@.contains_key(encode_utf8(t)) == cancels(c.net, t));
                    }
                    assert(net2[c.net.len() as int].parsed.opts.badfilter);
                    assert(self.badfilter@.dom().contains(k@));
                }
            }
        } else {
            proof {
                assert(files_cancelled(self.badfilter, net2)) by {
                    assert forall|t: Seq<char>| #[trigger] self.badfilter@.contains_key(encode_utf8(t)) == cancels(
                        net2,
                        t,
                    ) by {
                        lemma_cancels_push(c.net, l@, t);
                    }
                    if forall|i: int| 0 <= i < net2.len() ==> !(#[trigger] net2[i]).parsed.opts.badfilter {
                        assert forall|i: int| 0 <= i < c.net.len() implies !(
                        #[trigger] c.net[i]).parsed.opts.badfilter by {
                            assert(net2[i] == c.net[i]);
                        }
                    }
                    if forall|i: int| 0 <= i < c.net.len() ==> !(#[trigger] c.net[i]).parsed.opts.badfilter {
                        assert forall|i: int| 0 <= i < net2.len() implies !(
                        #[trigger] net2[i]).parsed.opts.badfilter by {
                            if i < c.net.len() {
                                assert(net2[i] == c.net[i]);
                            }
                        }
                    }
                }
            }
        }
        let idx: u32 = self.net.len() as u32;
        let bytes: usize = text.as_bytes().len();
        self.net_text.push(TextRef { off, len: bytes as u32, src });
        let pattern = rule.pattern();
        self.net.push(rule);
        proof {
            self.content@ = Content { net: net2, ..c };
            assert(pairs_of(net2) == if anchored(l@) {
                pairs_of(c.net).push((key_hash(encode_utf8(l@.parsed.shortcut->0)), idx))
            } else {
                pairs_of(c.net)
            });
            assert(scan_of(net2) == if !anchored(l@) && literal(l@) is None {
                scan_of(c.net).push(idx)
            } else {
                scan_of(c.net)
            });
            assert forall|t: Seq<u8>| #[trigger] carriers(net2, t) == if literal(l@) == Some(t) {
                carriers(c.net, t).push(idx)
            } else {
                carriers(c.net, t)
            } by {}
        }
        match (pattern, shortcut) {
            (PatternRef::DomainAnchor, Some(d)) => {
                self.domain_pairs.push((DomainIndex::hash(d.as_str()), idx));
            },
            (PatternRef::Rx { expr: _, target: _ }, Some(sc)) => {
                let m: usize = sc.as_str().as_bytes().len();
                if m >= MIN_SHORTCUT_LEN && m <= bytes {
                    let ghost was = self.shortcuts@;
                    self.add_literal(sc, idx, used);
                    proof {
                        let key = encode_utf8(sc@);
                        let now = self.shortcuts@;
                        assert(literal(l@) == Some(key));
                        assert forall|t: Seq<u8>| #[trigger] now.contains_key(t) == (carriers(net2, t).len() > 0) by {
                            assert(was.contains_key(t) == (carriers(c.net, t).len() > 0));
                        }
                        assert forall|t: Seq<u8>| #[trigger] now.contains_key(t) implies encode_utf8(now[t].0@) == t
                            && now[t].1@ == carriers(net2, t) by {
                            assert(was.contains_key(t) == (carriers(c.net, t).len() > 0));
                            if t == key && !was.contains_key(t) {
                                assert(carriers(c.net, t) =~= Seq::<u32>::empty());
                                assert(carriers(net2, t) =~= seq![idx]);
                            }
                        }
                    }
                } else {
                    self.scan.push(idx);
                }
            },
            _ => {
                self.scan.push(idx);
            },
        }
    }

    /// Indexes one hosts-file rule.
    fn add_host(
        &mut self,
        h: HostRule,
        names: Vec<String>,
        l: Ghost<LoadedHost>,
        exprs: Ghost<Seq<LazyRegex>>,
        sources: Ghost<Seq<Seq<char>>>,
        ids: Ghost<Seq<i64>>,
        used: Ghost<int>,
    )
        requires
            old(self).holds(exprs@, sources@, ids@, used@),
            h.text@ == l@.text,
            h.addr() == l@.ip,
            h.list_id == l@.list,
            strings(names@) == l@.names,
            used@ + 1 <= MAX_SOURCE,
        ensures
            final(self).holds(exprs@, sources@, ids@, used@ + 1),
            final(self).content() == (Content { hosts: old(self).content().hosts.push(l@), ..old(self).content() }),
            final(self).sources == old(self).sources,
            final(self).list_ids == old(self).list_ids,
    {
        let ghost c = self.content@;
        let ghost hosts2 = c.hosts.push(l@);
        let idx: u32 = self.hosts.len() as u32;
        let mut i: usize = 0;
        proof {
            assert forall|name: Seq<char>| #[trigger] host_refs(c.hosts, name) + named_in(
                l@.names.take(0),
                name,
                idx,
            ) =~= host_refs(c.hosts, name) by {
                assert(named_in(l@.names.take(0), name, idx) =~= Seq::<u32>::empty());
            }
        }
        while i < names.len()
            invariant
                i <= names@.len(),
                strings(names@) == l@.names,
                *self == (Builder { host_index: self.host_index, ..*old(self) }),
                self.host_index.wf(),
                self.host_index.keys() == encoded(all_noted(names_in(c.hosts), l@.names.take(i as int))),
                forall|n: int| 0 <= n < self.host_index.values().len() ==> (#[trigger] self.host_index.values()[n]).compact(),
                forall|name: Seq<char>|
                    #![trigger named_in(l@.names.take(i as int), name, idx)]
                    {
                        let refs = host_refs(c.hosts, name) + named_in(l@.names.take(i as int), name, idx);
                        &&& self.host_index@.contains_key(encode_utf8(name)) == (refs.len() > 0)
                        &&& refs.len() > 0 ==> self.host_index@[encode_utf8(name)]@ == refs
                    },
            decreases names@.len() - i,
        {
            let ghost was = self.host_index;
            let ghost here = l@.names.take(i as int);
            let ghost there = l@.names.take(i + 1);
            proof {
                assert(there.drop_last() =~= here);
                assert(there.last() == names@[i as int]@);
            }
            let key = names[i].as_str().as_bytes();
            push_ref(&mut self.host_index, key, idx);
            proof {
                was.lemma_positions();
                lemma_noted(
                    all_noted(names_in(c.hosts), here),
                    names@[i as int]@,
                    was.keys(),
                    was@.contains_key(key@),
                );
                assert(self.host_index.keys() =~= encoded(all_noted(names_in(c.hosts), there)));
                assert forall|name: Seq<char>|
                    #![trigger named_in(there, name, idx)]
                    {
                        let refs = host_refs(c.hosts, name) + named_in(there, name, idx);
                        &&& self.host_index@.contains_key(encode_utf8(name)) == (refs.len() > 0)
                        &&& refs.len() > 0 ==> self.host_index@[encode_utf8(name)]@ == refs
                    } by {
                    let before = host_refs(c.hosts, name) + named_in(here, name, idx);
                    let refs = host_refs(c.hosts, name) + named_in(there, name, idx);
                    assert(was@.contains_key(encode_utf8(name)) == (before.len() > 0));
                    if encode_utf8(name) == key@ {
                        lemma_encode_injective(name, names@[i as int]@);
                        assert(refs =~= before.push(idx));
                    } else {
                        assert(name != names@[i as int]@);
                        assert(refs == before);
                    }
                }
            }
            i = i + 1;
        }
        proof {
            assert(l@.names.take(i as int) =~= l@.names);
            assert(hosts2.drop_last() =~= c.hosts);
            assert(names_in(hosts2) == all_noted(names_in(c.hosts), l@.names));
            assert forall|name: Seq<char>|
                #![trigger host_refs(hosts2, name)]
                host_refs(hosts2, name) == host_refs(c.hosts, name) + named_in(l@.names, name, idx) by {}
            assert forall|name: Seq<char>|
                #![trigger host_refs(hosts2, name)]
                self.host_index@.contains_key(encode_utf8(name)) == (host_refs(hosts2, name).len() > 0) by {}
            assert forall|name: Seq<char>|
                #![trigger host_refs(hosts2, name)]
                host_refs(hosts2, name).len() > 0 implies self.host_index@[encode_utf8(name)]@ == host_refs(
                hosts2,
                name,
            ) by {}
        }
        self.hosts.push(h);
        proof {
            self.content@ = Content { hosts: hosts2, ..c };
        }
    }

    /// Parses and indexes one line, which begins at byte `start` of its list.
    fn add_line<V: Fn(&str) -> bool, A: Fn(&str) -> Option<Ip>, P: Fn(&str) -> PatternFacts>(
        &mut self,
        line: &str,
        id: i64,
        src: u16,
        start: usize,
        pool: &mut Pool,
        valid: &V,
        address: &A,
        facts: &P,
        before: Ghost<Seq<char>>,
        after: Ghost<Seq<char>>,
        sources: Ghost<Seq<Seq<char>>>,
        ids: Ghost<Seq<i64>>,
        used: Ghost<int>,
    )
        requires
            settled(*valid),
            settled(*address),
            settled(*facts),
            old(self).holds(old(pool).all(), sources@, ids@, used@),
            old(pool).wf(),
            old(pool).all().len() < usize::MAX,
            src < sources@.len(),
            ids@[src as int] == id,
            sources@[src as int] == before@ + line@ + after@,
            encode_utf8(before@).len() == start,
            start + encode_utf8(line@).len() <= MAX_SOURCE,
            used@ + encode_utf8(line@).len() <= MAX_SOURCE,
        ensures
            final(self).holds(final(pool).all(), sources@, ids@, used@ + encode_utf8(line@).len()),
            final(self).content() == with_line(
                old(self).content(),
                line@,
                id,
                known(*valid, *address),
                told(*facts),
            ),
            final(self).sources == old(self).sources,
            final(self).list_ids == old(self).list_ids,
            final(pool).wf(),
            final(pool).order() == old(pool).order(),
            old(pool).all().is_prefix_of(final(pool).all()),
            final(pool).all().len() <= old(pool).all().len() + 1,
    {
        let parsed = parse(line, id, valid, address, facts);
        let ghost k = known(*valid, *address);
        let ghost says = |s: Seq<char>| answer(*valid, s);
        let c = chars_of(line);
        let lead = leading(c.as_slice());
        let t = string_of(trim(c.as_slice()));
        let margin = string_of(vstd::slice::slice_subrange(c.as_slice(), 0, lead));
        let ghost tail = line@.skip(lead + t@.len());
        proof {
            lemma_trim_back(trim_front(line@));
            assert(line@ =~= margin@ + t@ + tail) by {
                let f = line@.skip(lead as int);
                assert(t@ =~= f.take(t@.len() as int));
            }
            lemma_encode_concat(margin@ + t@, tail);
            lemma_encode_concat(margin@, t@);
            lemma_encode_len(t@);
            lemma_encode_len(line@);
        }
        match parsed {
            Err(_) => {},
            Ok(Rule::Host(h)) => {
                let names = h.hostnames(valid);
                let ghost l = LoadedHost { text: t@, ip: h.addr(), list: id, names: strings(names@) };
                proof {
                    assert(k.valid == says);
                }
                self.add_host(h, names, Ghost(l), Ghost(pool.all()), sources, ids, used);
            },
            Ok(Rule::Network(n)) => {
                let ParsedNetwork { rule, shortcut, expr } = *n;
                let ghost whole = ParsedNetwork { rule, shortcut, expr };
                let mut rule = rule;
                let ghost l = Loaded { parsed: whole@, text: t@, list: id };
                let ghost exprs0 = pool.all();
                match expr {
                    Some(e) => {
                        let number = pool.insert(e);
                        rule.set_expr(number);
                        proof {
                            assert(exprs0.is_prefix_of(pool.all()));
                            lemma_holds_grows(*self, exprs0, pool.all(), sources@, ids@, used@);
                        }
                    },
                    None => {},
                }
                let off: u32 = (start + margin.as_str().as_bytes().len()) as u32;
                proof {
                    lemma_encode_concat(before@, margin@);
                    lemma_text_at(before@ + margin@, t@, tail + after@);
                    assert(before@ + line@ + after@ =~= (before@ + margin@) + t@ + (tail + after@));
                }
                self.add_network(rule, t.as_str(), src, off, shortcut, Ghost(l), Ghost(pool.all()), sources, ids, used);
            },
        }
    }

    /// Parses and indexes every line of one list. A line that does not parse
    /// is skipped rather than failing the whole list.
    pub fn add_list<V: Fn(&str) -> bool, A: Fn(&str) -> Option<Ip>, P: Fn(&str) -> PatternFacts>(
        &mut self,
        id: i64,
        text: String,
        pool: &mut Pool,
        valid: &V,
        address: &A,
        facts: &P,
        used: Ghost<int>,
    )
        requires
            settled(*valid),
            settled(*address),
            settled(*facts),
            old(self).wf(old(pool).all(), used@),
            old(self).lists() < MAX_LISTS,
            old(pool).wf(),
            used@ + encode_utf8(text@).len() <= MAX_SOURCE,
            old(pool).all().len() + encode_utf8(text@).len() < usize::MAX,
        ensures
            final(self).wf(final(pool).all(), used@ + encode_utf8(text@).len()),
            final(self).lists() == old(self).lists() + 1,
            final(self).content() == with_lines(
                old(self).content(),
                split(text@, '\n'),
                id,
                known(*valid, *address),
                told(*facts),
            ),
            final(pool).wf(),
            final(pool).order() == old(pool).order(),
            old(pool).all().is_prefix_of(final(pool).all()),
            final(pool).all().len() <= old(pool).all().len() + encode_utf8(text@).len() + 1,
    {
        let ghost k = known(*valid, *address);
        let ghost f = told(*facts);
        let ghost first = *self;
        let ghost exprs0 = pool.all();
        let ghost sources = strings(self.sources@).push(text@);
        let ghost ids = self.list_ids@.push(id);
        let src: u16 = self.sources.len() as u16;
        proof {
            lemma_more_sources(*self, pool.all(), strings(self.sources@), self.list_ids@, text@, id, used@);
        }
        let mut rest = text.as_str();
        let mut start: usize = 0;
        let ghost mut before: Seq<char> = Seq::empty();
        proof {
            assert(before + rest@ =~= text@);
        }
        let mut done = false;
        while !done
            invariant
                settled(*valid),
                settled(*address),
                settled(*facts),
                k == known(*valid, *address),
                f == told(*facts),
                first.sources == self.sources,
                first.list_ids == self.list_ids,
                src < sources.len(),
                sources[src as int] == text@,
                ids[src as int] == id,
                pool.wf(),
                pool.order() == old(pool).order(),
                exprs0.is_prefix_of(pool.all()),
                exprs0.len() + encode_utf8(text@).len() < usize::MAX,
                used@ >= 0,
                used@ + encode_utf8(text@).len() <= MAX_SOURCE,
                start <= encode_utf8(text@).len() + 1,
                self.holds(
                    pool.all(),
                    sources,
                    ids,
                    used@ + if start <= encode_utf8(text@).len() {
                        start as int
                    } else {
                        encode_utf8(text@).len() as int
                    },
                ),
                pool.all().len() <= exprs0.len() + start,
                !done ==> before + rest@ == text@ && encode_utf8(before).len() == start && start <= encode_utf8(
                    text@,
                ).len(),
                !done ==> with_lines(first.content(), split(text@, '\n'), id, k, f) == with_lines(
                    self.content(),
                    split(rest@, '\n'),
                    id,
                    k,
                    f,
                ),
                done ==> with_lines(first.content(), split(text@, '\n'), id, k, f) == self.content(),
            decreases
                    if done {
                        0
                    } else {
                        1 + rest@.len()
                    },
        {
            proof {
                lemma_encode_concat(before, rest@);
            }
            match cut_once(rest, '\n') {
                Some((line, tail)) => {
                    proof {
                        assert(text@ =~= before + line@ + (seq!['\n'] + tail@));
                        lemma_encode_concat(line@ + seq!['\n'], tail@);
                        lemma_encode_concat(line@, seq!['\n']);
                        lemma_encode_concat(before, line@ + seq!['\n']);
                        lemma_encode_ascii('\n');
                        lemma_split_front(line@, '\n', tail@);
                        let parts = split(rest@, '\n');
                        assert(parts[0] == line@);
                        assert(parts.drop_first() =~= split(tail@, '\n'));
                    }
                    self.add_line(
                        line,
                        id,
                        src,
                        start,
                        pool,
                        valid,
                        address,
                        facts,
                        Ghost(before),
                        Ghost(seq!['\n'] + tail@),
                        Ghost(sources),
                        Ghost(ids),
                        Ghost(used@ + start),
                    );
                    start = start + line.as_bytes().len() + 1;
                    proof {
                        before = before + (line@ + seq!['\n']);
                        assert(before + tail@ =~= text@);
                        lemma_encode_concat(before, tail@);
                    }
                    rest = tail;
                },
                None => {
                    proof {
                        assert(text@ =~= before + rest@ + Seq::<char>::empty());
                        lemma_split_none(rest@, '\n');
                        let parts = split(rest@, '\n');
                        assert(parts.drop_first() =~= Seq::<Seq<char>>::empty());
                        let c2 = with_line(self.content(), rest@, id, k, f);
                        assert(with_lines(c2, parts.drop_first(), id, k, f) == c2);
                    }
                    self.add_line(
                        rest,
                        id,
                        src,
                        start,
                        pool,
                        valid,
                        address,
                        facts,
                        Ghost(before),
                        Ghost(Seq::<char>::empty()),
                        Ghost(sources),
                        Ghost(ids),
                        Ghost(used@ + start),
                    );
                    start = start + rest.as_bytes().len() + 1;
                    done = true;
                },
            }
        }
        self.sources.push(text);
        self.list_ids.push(id);
        proof {
            assert(strings(self.sources@) =~= sources);
            assert(self.list_ids@ =~= ids);
        }
    }

    /// Builds the indexes.
    pub fn finish(self, exprs: Ghost<Seq<LazyRegex>>, used: Ghost<int>) -> (r: RuleSet)
        requires
            self.wf(exprs@, used@),
        ensures
            r.wf(exprs@),
            r.content() == self.content(),
            r.lists() == self.lists(),
    {
        let ghost c = self.content@;
        let ghost table = self.shortcuts;
        proof {
            table.lemma_positions();
            lemma_pairs(c.net);
            assert forall|i: int, j: int|
                0 <= i < table.values().len() && 0 <= j < table.values()[i].1@.len() implies #[trigger] table.values()[i].1@[j]
                < SPILL by {
                let t = table.keys()[i];
                assert(table@.contains_key(t));
                lemma_carriers(c.net, t);
            }
        }
        let Builder {
            net,
            sources,
            list_ids,
            net_text,
            hosts,
            domain_pairs,
            host_index,
            shortcuts,
            scan,
            badfilter,
            content,
        } = self;
        let literals = shortcuts.into_values();
        let domain_index = DomainIndex::build(domain_pairs);
        let index = ShortcutIndex::build(literals);
        proof {
            lemma_grouped(table, index.patterns(), c.net);
        }
        RuleSet {
            net,
            sources,
            list_ids,
            net_text,
            hosts,
            domain_index,
            host_index,
            shortcuts: index,
            scan,
            badfilter,
            content,
        }
    }
}

/// The bytes of all the lists.
pub open spec fn list_bytes(lists: Seq<(i64, Seq<char>)>) -> int {
    sum(lists, |p: (i64, Seq<char>)| encode_utf8(p.1).len() as int)
}

impl RuleSet {
    /// Builds a rule set from one or more lists, each an identifier and its
    /// text. The set's expressions go into `pool`.
    pub fn build<V: Fn(&str) -> bool, A: Fn(&str) -> Option<Ip>, P: Fn(&str) -> PatternFacts>(
        lists: Vec<(i64, String)>,
        pool: &mut Pool,
        valid: &V,
        address: &A,
        facts: &P,
    ) -> (r: Self)
        requires
            settled(*valid),
            settled(*address),
            settled(*facts),
            old(pool).wf(),
            lists@.len() <= MAX_LISTS,
            list_bytes(sources_of(lists@)) <= MAX_SOURCE,
            old(pool).all().len() + list_bytes(sources_of(lists@)) + lists@.len() < usize::MAX,
        ensures
            r.wf(final(pool).all()),
            r.content() == with_lists(no_content(), sources_of(lists@), known(*valid, *address), told(*facts)),
            r.lists() == lists@.len(),
            final(pool).wf(),
            final(pool).order() == old(pool).order(),
            old(pool).all().is_prefix_of(final(pool).all()),
            final(pool).all().len() <= old(pool).all().len() + list_bytes(sources_of(lists@)) + lists@.len(),
    {
        let ghost k = known(*valid, *address);
        let ghost f = told(*facts);
        let ghost size = |p: (i64, Seq<char>)| encode_utf8(p.1).len() as int;
        let ghost all = sources_of(lists@);
        let ghost exprs0 = pool.all();
        let mut lists = lists;
        let mut b = Builder::new();
        let ghost mut used: int = 0;
        while lists.len() > 0
            invariant
                settled(*valid),
                settled(*address),
                settled(*facts),
                k == known(*valid, *address),
                f == told(*facts),
                size == (|p: (i64, Seq<char>)| encode_utf8(p.1).len() as int),
                pool.wf(),
                pool.order() == old(pool).order(),
                exprs0.is_prefix_of(pool.all()),
                used + sum(sources_of(lists@), size) == sum(all, size),
                sum(all, size) <= MAX_SOURCE,
                b.lists() + lists@.len() == all.len(),
                all.len() <= MAX_LISTS,
                pool.all().len() <= exprs0.len() + used + b.lists(),
                exprs0.len() + sum(all, size) + all.len() < usize::MAX,
                b.wf(pool.all(), used),
                with_lists(no_content(), all, k, f) == with_lists(b.content(), sources_of(lists@), k, f),
            decreases lists@.len(),
        {
            let ghost before = sources_of(lists@);
            proof {
                crate::multi::lemma_sum_remove(before, size, 0);
                assert(before.remove(0) =~= before.drop_first());
                lemma_sum_part(before.drop_first(), size, 0);
            }
            let (id, text) = lists.remove(0);
            assert(sources_of(lists@) =~= before.drop_first());
            b.add_list(id, text, pool, valid, address, facts, Ghost(used));
            proof {
                used = used + encode_utf8(text@).len();
            }
        }
        b.finish(Ghost(pool.all()), Ghost(used))
    }
}

proof fn lemma_pairs(net: Seq<Loaded>)
    requires
        net.len() <= MAX_SOURCE,
    ensures
        pairs_of(net).len() <= net.len(),
        forall|i: int| 0 <= i < pairs_of(net).len() ==> (#[trigger] pairs_of(net)[i]).1 < net.len(),
    decreases net.len(),
{
    if net.len() > 0 {
        lemma_pairs(net.drop_last());
    }
}

proof fn lemma_carriers(net: Seq<Loaded>, t: Seq<u8>)
    requires
        net.len() <= MAX_SOURCE,
    ensures
        forall|i: int| 0 <= i < carriers(net, t).len() ==> #[trigger] carriers(net, t)[i] < net.len(),
        carriers(net, t).len() > 0 ==> t.len() >= MIN_SHORTCUT_LEN,
    decreases net.len(),
{
    if net.len() > 0 {
        lemma_carriers(net.drop_last(), t);
        let less = carriers(net.drop_last(), t);
        let all = carriers(net, t);
        assert forall|i: int| 0 <= i < all.len() implies #[trigger] all[i] < net.len() by {
            if i < less.len() {
                assert(less[i] < net.drop_last().len());
            }
        }
    }
}

/// Every pattern worth filing is one of the table's entries, and every entry
/// is worth filing.
proof fn lemma_kept_all(values: Seq<(String, Vec<u32>)>)
    requires
        forall|i: int| 0 <= i < values.len() ==> worth(#[trigger] values[i]) is Some,
    ensures
        kept(values).len() == values.len(),
        forall|i: int| 0 <= i < values.len() ==> #[trigger] kept(values)[i] == (
            encode_utf8(values[i].0@),
            values[i].1@,
        ),
    decreases values.len(),
{
    if values.len() > 0 {
        let d = values.drop_last();
        assert forall|i: int| 0 <= i < d.len() implies worth(#[trigger] d[i]) is Some by {
            assert(worth(values[i]) is Some);
        }
        lemma_kept_all(d);
        assert(worth(values[values.len() - 1]) is Some);
    }
}

proof fn lemma_grouped(
    table: ByteTable<(String, Vec<u32>)>,
    patterns: Seq<(Seq<u8>, Seq<u32>)>,
    net: Seq<Loaded>,
)
    requires
        files_literals(table, net),
        net.len() <= MAX_SOURCE,
        holds(patterns, table.values()),
    ensures
        grouped(patterns, net),
{
    table.lemma_positions();
    let values = table.values();
    let ks = kept(values);
    assert forall|i: int| 0 <= i < values.len() implies worth(#[trigger] values[i]) is Some && encode_utf8(
        values[i].0@,
    ) == table.keys()[i] && values[i].1@ == carriers(net, table.keys()[i]) by {
        let t = table.keys()[i];
        assert(table@.contains_key(t));
        lemma_carriers(net, t);
    }
    lemma_kept_all(values);
    patterns.to_multiset_ensures();
    ks.to_multiset_ensures();
    assert(ks.no_duplicates()) by {
        assert forall|i: int, j: int| 0 <= i < ks.len() && 0 <= j < ks.len() && i != j implies ks[i] != ks[j] by {
            assert(table.keys()[i] != table.keys()[j]);
            assert(ks[i].0 == table.keys()[i]);
            assert(ks[j].0 == table.keys()[j]);
        }
    }
    ks.lemma_multiset_has_no_duplicates();
    patterns.lemma_multiset_has_no_duplicates_conv();
    assert forall|p: int| 0 <= p < patterns.len() implies (#[trigger] patterns[p]).1 == carriers(net, patterns[p].0)
        && patterns[p].1.len() > 0 && patterns[p].0.len() >= MIN_SHORTCUT_LEN by {
        assert(patterns.contains(patterns[p]));
        assert(ks.to_multiset().count(patterns[p]) > 0);
        assert(ks.contains(patterns[p]));
        let i = ks.index_of(patterns[p]);
        assert(worth(values[i]) is Some);
        assert(ks[i] == (encode_utf8(values[i].0@), values[i].1@));
    }
    assert forall|p: int, q: int| 0 <= p < q < patterns.len() implies (#[trigger] patterns[p]).0 != (
    #[trigger] patterns[q]).0 by {
        if patterns[p].0 == patterns[q].0 {
            assert(patterns[p] == patterns[q]);
        }
    }
    assert forall|t: Seq<u8>| #[trigger] carriers(net, t).len() > 0 implies exists|p: int|
        0 <= p < patterns.len() && (#[trigger] patterns[p]).0 == t by {
        assert(table@.contains_key(t));
        let i = table.keys().index_of(t);
        assert(table.keys()[i] == t);
        assert(ks[i] == (encode_utf8(values[i].0@), values[i].1@));
        assert(ks.contains(ks[i]));
        assert(patterns.to_multiset().count(ks[i]) > 0);
        assert(patterns.contains(ks[i]));
        let p = patterns.index_of(ks[i]);
        assert(patterns[p].0 == t);
    }
}

proof fn lemma_holds_net_grows(
    net: Seq<NetworkRule>,
    refs: Seq<TextRef>,
    sources: Seq<Seq<char>>,
    ids: Seq<i64>,
    a: Seq<LazyRegex>,
    b: Seq<LazyRegex>,
    loaded: Seq<Loaded>,
)
    requires
        holds_net(net, refs, sources, ids, a, loaded),
        a.is_prefix_of(b),
    ensures
        holds_net(net, refs, sources, ids, b, loaded),
{
    assert forall|i: int| 0 <= i < net.len() implies rule_is((#[trigger] net[i])@, loaded[i].parsed, b) by {
        assert(rule_is(net[i]@, loaded[i].parsed, a));
    }
}

/// More expressions in the pool change nothing for the rules that are there.
proof fn lemma_holds_grows(
    builder: Builder,
    a: Seq<LazyRegex>,
    b: Seq<LazyRegex>,
    sources: Seq<Seq<char>>,
    ids: Seq<i64>,
    used: int,
)
    requires
        builder.holds(a, sources, ids, used),
        a.is_prefix_of(b),
    ensures
        builder.holds(b, sources, ids, used),
{
    lemma_holds_net_grows(builder.net@, builder.net_text@, sources, ids, a, b, builder.content@.net);
}

/// One more source changes nothing for the rules that are there.
proof fn lemma_more_sources(
    builder: Builder,
    exprs: Seq<LazyRegex>,
    sources: Seq<Seq<char>>,
    ids: Seq<i64>,
    text: Seq<char>,
    id: i64,
    used: int,
)
    requires
        builder.holds(exprs, sources, ids, used),
        sources.len() < MAX_LISTS,
    ensures
        builder.holds(exprs, sources.push(text), ids.push(id), used),
{
}

/// Adds `from` to the end of `to`.
fn copy_bytes(to: &mut Vec<u8>, from: &[u8])
    ensures
        final(to)@ == old(to)@ + from@,
{
    let ghost before = to@;
    let mut i: usize = 0;
    while i < from.len()
        invariant
            i <= from@.len(),
            to@ =~= before + from@.take(i as int),
        decreases from@.len() - i,
    {
        to.push(from[i]);
        i = i + 1;
    }
    assert(from@.take(i as int) =~= from@);
}

/// Adds a rule index to those under `key`.
fn push_ref(map: &mut ByteTable<Refs>, key: &[u8], idx: u32)
    requires
        old(map).wf(),
    ensures
        final(map).wf(),
        final(map)@.dom() == old(map)@.dom().insert(key@),
        final(map)@[key@]@ == if old(map)@.contains_key(key@) {
            old(map)@[key@]@.push(idx)
        } else {
            seq![idx]
        },
        forall|q: Seq<u8>| q != key@ && #[trigger] old(map)@.contains_key(q) ==> final(map)@[q] == old(map)@[q],
        old(map)@.contains_key(key@) ==> final(map).keys() == old(map).keys(),
        !old(map)@.contains_key(key@) ==> final(map).keys() == old(map).keys().push(key@),
        (forall|n: int| 0 <= n < old(map).values().len() ==> (#[trigger] old(map).values()[n]).compact()) ==> (forall|n: int|
            0 <= n < final(map).values().len() ==> (#[trigger] final(map).values()[n]).compact()),
{
    let ghost before = map@;
    proof {
        map.lemma_positions();
    }
    match map.position(key) {
        Some(i) => {
            let mut r = Refs::One(0);
            map.swap_at(i, &mut r);
            r.push(idx);
            map.swap_at(i, &mut r);
            assert(map@.dom() =~= before.dom().insert(key@));
        },
        None => {
            let mut k: Vec<u8> = Vec::new();
            copy_bytes(&mut k, key);
            map.insert(k, Refs::One(idx));
            assert(k@ =~= key@);
            assert(map@.dom() =~= before.dom().insert(key@));
        },
    }
}

/// A key is new where its name is.
proof fn lemma_noted(names: Seq<Seq<char>>, name: Seq<char>, keys: Seq<Seq<u8>>, held: bool)
    requires
        keys == encoded(names),
        held == keys.contains(encode_utf8(name)),
    ensures
        encoded(noted(names, name)) == (if held {
            keys
        } else {
            keys.push(encode_utf8(name))
        }),
        held == names.contains(name),
{
    if names.contains(name) {
        assert(keys[names.index_of(name)] == encode_utf8(name));
    }
    if held {
        let i = keys.index_of(encode_utf8(name));
        assert(encode_utf8(names[i]) == encode_utf8(name));
        lemma_encode_injective(names[i], name);
        assert(names.contains(names[i]));
    } else {
        assert(encoded(names.push(name)) =~= keys.push(encode_utf8(name)));
    }
}

proof fn lemma_cancels_push(net: Seq<Loaded>, l: Loaded, t: Seq<char>)
    ensures
        cancels(net.push(l), t) == (cancels(net, t) || (l.parsed.opts.badfilter && canonical(l.text) == t)),
{
    let n2 = net.push(l);
    if cancels(net, t) {
        let i = choose|i: int|
            0 <= i < net.len() && (#[trigger] net[i]).parsed.opts.badfilter && canonical(net[i].text) == t;
        assert(n2[i] == net[i]);
    }
    if l.parsed.opts.badfilter && canonical(l.text) == t {
        assert(n2[net.len() as int] == l);
    }
    if cancels(n2, t) {
        let i = choose|i: int|
            0 <= i < n2.len() && (#[trigger] n2[i]).parsed.opts.badfilter && canonical(n2[i].text) == t;
        if i < net.len() {
            assert(net[i] == n2[i]);
        }
    }
}

/// A DNS filtering request.
#[derive(Clone, Copy, Debug)]
pub struct Request<'a> {
    /// The queried hostname, already lowercased and without a trailing dot.
    pub hostname: &'a str,
    /// The query type, e.g. 1 for `A`.
    pub qtype: u16,
    /// The client's address as text, if known.
    pub client_ip: Option<&'a str>,
    /// The client's name or ClientID, if known.
    pub client_name: Option<&'a str>,
    /// The client's tags.
    pub client_tags: &'a [String],
}

/// A request, with texts as sequences.
pub ghost struct RequestV {
    pub host: Seq<char>,
    pub qtype: u16,
    pub ip: Option<Seq<char>>,
    pub name: Option<Seq<char>>,
    pub tags: Seq<Seq<char>>,
}

impl<'a> Request<'a> {
    /// The request, with texts as sequences.
    pub open spec fn view(&self) -> RequestV {
        RequestV {
            host: self.hostname@,
            qtype: self.qtype,
            ip: match self.client_ip {
                Some(s) => Some(s@),
                None => None,
            },
            name: match self.client_name {
                Some(s) => Some(s@),
                None => None,
            },
            tags: strings(self.client_tags@),
        }
    }
}

/// Whether `s` is there and satisfies the list.
pub open spec fn given_and(l: StrListV, s: Option<Seq<char>>) -> bool {
    match s {
        Some(v) => satisfies(l, v),
        None => false,
    }
}

/// Whether the client is excluded by name or by address.
pub open spec fn excluded_client(l: StrListV, q: RequestV) -> bool {
    ||| match q.name {
        Some(n) => lists(l.excluded, n),
        None => false,
    }
    ||| match q.ip {
        Some(i) => lists(l.excluded, i),
        None => false,
    }
}

/// Whether a `$client` list takes the client: a list that only excludes does
/// unless it excludes the client, and any other where the client's name or
/// its address satisfies it.
pub open spec fn takes_client(l: StrListV, q: RequestV) -> bool {
    if l.included.len() == 0 {
        !excluded_client(l, q)
    } else {
        given_and(l, q.name) || given_and(l, q.ip)
    }
}

/// Whether some domain of `deny` is the host or above it.
pub open spec fn denied(deny: Seq<Seq<char>>, host: Seq<char>) -> bool {
    exists|i: int| 0 <= i < deny.len() && under(host, #[trigger] deny[i])
}

/// Whether the pattern of a considered rule matches. One that the domain
/// index led to is proved by that.
pub open spec fn pattern_fits(p: PatternV, host: Seq<char>) -> bool {
    match p {
        PatternV::Rx(src, target, built) => expr_fits(
            src,
            match target {
                Target::Url => url(host),
                Target::Hostname => host,
            },
        ),
        _ => true,
    }
}

/// Whether a considered rule applies to a request: its modifiers take it and
/// its pattern matches.
pub open spec fn applicable(p: ParsedV, q: RequestV) -> bool {
    let o = p.opts;
    &&& !o.badfilter
    &&& match o.dnstype {
        Some(l) => allows_type(l, q.qtype),
        None => true,
    }
    &&& match o.client {
        Some(l) => takes_client(l, q),
        None => true,
    }
    &&& match o.ctag {
        Some(l) => satisfied_by(l, q.tags),
        None => true,
    }
    &&& !denied(o.denyallow, q.host)
    &&& pattern_fits(p.pattern, q.host)
}

/// Whether a `$badfilter` rule cancels rule `i`.
pub open spec fn cancelled(net: Seq<Loaded>, i: int) -> bool {
    cancels(net, canonical(net[i].text))
}

/// Whether rule `i` is not cancelled and applies to the request.
pub open spec fn eligible(net: Seq<Loaded>, i: int, q: RequestV) -> bool {
    !cancelled(net, i) && applicable(net[i].parsed, q)
}

/// The priority class of a rule: important exceptions, important rules,
/// exceptions, then the others.
pub open spec fn class(p: ParsedV) -> int {
    if p.opts.important {
        if p.allowlist {
            3
        } else {
            2
        }
    } else if p.allowlist {
        1
    } else {
        0
    }
}

/// Whether rule `a` outranks rule `b`: by class, then by the number of
/// specifiers, then by load order.
pub open spec fn outranks(net: Seq<Loaded>, a: int, b: int) -> bool {
    let p = net[a].parsed;
    let q = net[b].parsed;
    if class(p) != class(q) {
        class(p) > class(q)
    } else if specifiers(p.opts) != specifiers(q.opts) {
        specifiers(p.opts) > specifiers(q.opts)
    } else {
        a < b
    }
}

/// The winner among the rules of `order` that are eligible and no rewrites,
/// and the eligible rewrites as they come.
pub open spec fn weighed(net: Seq<Loaded>, order: Seq<u32>, q: RequestV) -> (Option<u32>, Seq<u32>)
    decreases order.len(),
{
    if order.len() == 0 {
        (None, Seq::empty())
    } else {
        let (best, rewrites) = weighed(net, order.drop_last(), q);
        let i = order.last();
        if !eligible(net, i as int, q) {
            (best, rewrites)
        } else if net[i as int].parsed.opts.dnsrewrite is Some {
            (best, rewrites.push(i))
        } else {
            match best {
                Some(b) => if outranks(net, i as int, b as int) {
                    (Some(i), rewrites)
                } else {
                    (best, rewrites)
                },
                None => (Some(i), rewrites),
            }
        }
    }
}

/// Priority is a strict order in which any two rules are comparable.
pub proof fn law_outranks(net: Seq<Loaded>, a: int, b: int, c: int)
    ensures
        !outranks(net, a, a),
        a != b ==> (outranks(net, a, b) <==> !outranks(net, b, a)),
        outranks(net, a, b) && outranks(net, b, c) ==> outranks(net, a, c),
{
}

/// Whether rule `i` competes: it is eligible and no rewrite.
pub open spec fn competes(net: Seq<Loaded>, i: int, q: RequestV) -> bool {
    eligible(net, i, q) && net[i].parsed.opts.dnsrewrite is None
}

/// The winner is a rule that was considered and competes, and no other such
/// rule outranks it. There is none only where no considered rule competes.
pub proof fn law_winner(net: Seq<Loaded>, order: Seq<u32>, q: RequestV)
    ensures
        match weighed(net, order, q).0 {
            Some(b) => order.contains(b) && competes(net, b as int, q) && forall|i: u32| #[trigger]
                order.contains(i) && competes(net, i as int, q) ==> !outranks(net, i as int, b as int),
            None => forall|i: u32| #[trigger] order.contains(i) ==> !competes(net, i as int, q),
        },
    decreases order.len(),
{
    if order.len() > 0 {
        let d = order.drop_last();
        let x = order.last();
        law_winner(net, d, q);
        assert(order[order.len() - 1] == x);
        assert forall|i: u32| d.contains(i) implies order.contains(i) by {
            let k = d.index_of(i);
            assert(order[k] == i);
        }
        assert forall|i: u32| order.contains(i) implies d.contains(i) || i == x by {
            let k = order.index_of(i);
            if k < d.len() {
                assert(d[k] == i);
            }
        }
        match weighed(net, order, q).0 {
            Some(b) => {
                assert forall|i: u32| #[trigger] order.contains(i) && competes(net, i as int, q) implies !outranks(
                    net,
                    i as int,
                    b as int,
                ) by {
                    law_outranks(net, i as int, b as int, i as int);
                    match weighed(net, d, q).0 {
                        Some(w) => {
                            law_outranks(net, i as int, b as int, w as int);
                            law_outranks(net, x as int, w as int, i as int);
                            law_outranks(net, i as int, w as int, b as int);
                            law_outranks(net, i as int, x as int, w as int);
                        },
                        None => {},
                    }
                }
            },
            None => {},
        }
    }
}

/// Whatever order the rules are considered in, the winner is the same.
pub proof fn law_winner_any_order(net: Seq<Loaded>, a: Seq<u32>, b: Seq<u32>, q: RequestV)
    requires
        forall|i: u32| #[trigger] a.contains(i) <==> b.contains(i),
    ensures
        weighed(net, a, q).0 == weighed(net, b, q).0,
{
    law_winner(net, a, q);
    law_winner(net, b, q);
    match (weighed(net, a, q).0, weighed(net, b, q).0) {
        (Some(x), Some(y)) => {
            assert(a.contains(x) && b.contains(y));
            assert(b.contains(x) && a.contains(y));
            law_outranks(net, x as int, y as int, x as int);
        },
        (Some(x), None) => {
            assert(a.contains(x));
            assert(b.contains(x));
        },
        (None, Some(y)) => {
            assert(b.contains(y));
            assert(a.contains(y));
        },
        (None, None) => {},
    }
}

/// The rules that the domain index gives for `suffix`: those filed under its
/// hash, where the first of them is anchored to it.
pub open spec fn looked_up(net: Seq<Loaded>, suffix: Seq<char>) -> Seq<u32> {
    let run = filed(pairs_of(net), key_hash(encode_utf8(suffix)));
    if run.len() > 0 && anchored_to(net[run[0] as int].text, suffix) {
        run
    } else {
        Seq::empty()
    }
}

/// The rules that the domain index gives for each of `names`, in order.
pub open spec fn looked_up_all(net: Seq<Loaded>, names: Seq<Seq<char>>) -> Seq<u32>
    decreases names.len(),
{
    if names.len() == 0 {
        Seq::empty()
    } else {
        looked_up(net, names[0]) + looked_up_all(net, names.drop_first())
    }
}

/// Whether `found` has the rules of every literal that occurs in `host` or in
/// `http`, each literal's once and in load order, the literals in the order in
/// which the shortcut index meets them.
pub open spec fn found_literals(net: Seq<Loaded>, host: Seq<u8>, found: Seq<u32>) -> bool {
    exists|patterns: Seq<(Seq<u8>, Seq<u32>)>| #[trigger]
        grouped(patterns, net) && found == gathered(rules_of(patterns), hits_in(patterns, host))
}

/// Whether `order` is an order in which a request for `host` considers rules:
/// those that the domain index gives for the name and its parents, those
/// whose literal occurs, and those that every request considers.
pub open spec fn considered(net: Seq<Loaded>, host: Seq<char>, order: Seq<u32>) -> bool {
    exists|found: Seq<u32>| #[trigger]
        found_literals(net, encode_utf8(lower(host)), found) && order == looked_up_all(net, suffixes(host)) + found
            + scan_of(net)
}

/// A request considers rules in one order only.
pub proof fn law_one_order_considered(net: Seq<Loaded>, host: Seq<char>, a: Seq<u32>, b: Seq<u32>)
    requires
        considered(net, host, a),
        considered(net, host, b),
    ensures
        a == b,
{
    let bytes = encode_utf8(lower(host));
    let x = choose|found: Seq<u32>| #[trigger]
        found_literals(net, bytes, found) && a == looked_up_all(net, suffixes(host)) + found + scan_of(net);
    let y = choose|found: Seq<u32>| #[trigger]
        found_literals(net, bytes, found) && b == looked_up_all(net, suffixes(host)) + found + scan_of(net);
    let ps = choose|ps: Seq<(Seq<u8>, Seq<u32>)>| #[trigger]
        grouped(ps, net) && x == gathered(rules_of(ps), hits_in(ps, bytes));
    let qs = choose|qs: Seq<(Seq<u8>, Seq<u32>)>| #[trigger]
        grouped(qs, net) && y == gathered(rules_of(qs), hits_in(qs, bytes));
    assert forall|z: (Seq<u8>, Seq<u32>)| #[trigger] ps.contains(z) == qs.contains(z) by {
        if ps.contains(z) {
            lemma_group_member(ps, qs, net, z);
        }
        if qs.contains(z) {
            lemma_group_member(qs, ps, net, z);
        }
    }
    law_one_order(ps, qs);
}

proof fn lemma_group_member(
    ps: Seq<(Seq<u8>, Seq<u32>)>,
    qs: Seq<(Seq<u8>, Seq<u32>)>,
    net: Seq<Loaded>,
    z: (Seq<u8>, Seq<u32>),
)
    requires
        grouped(ps, net),
        grouped(qs, net),
        ps.contains(z),
    ensures
        qs.contains(z),
{
    let k = ps.index_of(z);
    assert(ps[k].1 == carriers(net, ps[k].0));
    assert(carriers(net, z.0).len() > 0);
    let p = choose|p: int| 0 <= p < qs.len() && (#[trigger] qs[p]).0 == z.0;
    assert(qs[p].1 == carriers(net, qs[p].0));
    assert(qs[p] == z);
}

impl RuleSet {
    /// The number of rules that were loaded.
    pub open spec fn size(&self) -> nat {
        self.content().net.len() + self.content().hosts.len()
    }

    /// The text of rule `idx`.
    pub open spec fn text(&self, idx: int) -> Seq<char> {
        if 0 <= idx < self.content().net.len() {
            self.content().net[idx].text
        } else {
            Seq::empty()
        }
    }

    /// Expressions with the same sources serve the same rules.
    pub proof fn lemma_same_exprs(&self, a: Pool, b: Pool)
        requires
            self.wf(a.all()),
            b.same_sources(&a),
        ensures
            self.wf(b.all()),
    {
        assert forall|i: int| 0 <= i < self.net@.len() implies rule_is(
            (#[trigger] self.net@[i])@,
            self.content@.net[i].parsed,
            b.all(),
        ) by {
            assert(rule_is(self.net@[i]@, self.content@.net[i].parsed, a.all()));
            match self.content@.net[i].parsed.pattern {
                PatternV::Rx(src, target, built) => {
                    let e = self.net@[i]@.expr as int;
                    assert(b.all()[e].text() == a.all()[e].text());
                },
                _ => {},
            }
        }
    }

    /// More expressions change nothing.
    pub proof fn lemma_more_exprs(&self, a: Seq<LazyRegex>, b: Seq<LazyRegex>)
        requires
            self.wf(a),
            a.is_prefix_of(b),
        ensures
            self.wf(b),
    {
        lemma_holds_net_grows(
            self.net@,
            self.net_text@,
            strings(self.sources@),
            self.list_ids@,
            a,
            b,
            self.content@.net,
        );
    }

    pub(crate) proof fn lemma_indexes(&self, exprs: Seq<LazyRegex>)
        requires
            self.wf(exprs),
        ensures
            self.size() <= MAX_SOURCE,
            self.domain_index.wf(),
            self.domain_index.count() == hashes_of(pairs_of(self.content().net)).len(),
            self.domain_index.slots() == slots_for(pairs_of(self.content().net)),
            self.domain_index.spilled() == spill_of(pairs_of(self.content().net)),
            self.shortcuts.wf(),
            self.host_index.wf(),
            self.badfilter.wf(),
            self.scan@ == scan_of(self.content().net),
            self.net@.len() == self.content().net.len(),
            self.net_text@.len() == self.content().net.len(),
            forall|i: int|
                0 <= i < self.net@.len() ==> (#[trigger] self.net@[i]).carries() == !bare(
                    self.content().net[i].parsed.opts,
                ),
            self.hosts@.len() == self.content().hosts.len(),
            forall|i: int| 0 <= i < self.hosts@.len() ==> (#[trigger] self.hosts@[i]).text@ == self.content().hosts[i].text,
            self.sources@.len() == self.lists(),
            grouped(self.shortcuts.patterns(), self.content().net),
            self.host_index.keys() == encoded(names_in(self.content().hosts)),
            self.host_index.values().len() == names_in(self.content().hosts).len(),
            forall|i: int|
                0 <= i < self.host_index.values().len() ==> (#[trigger] self.host_index.values()[i]).compact()
                    && self.host_index.values()[i]@ == host_refs(
                    self.content().hosts,
                    names_in(self.content().hosts)[i],
                ),
            self.badfilter.keys() == encoded(cancelled_texts(self.content().net)),
    {
        let names = names_in(self.content@.hosts);
        self.host_index.lemma_positions();
        assert forall|i: int| 0 <= i < self.host_index.values().len() implies (
        #[trigger] self.host_index.values()[i]).compact() && self.host_index.values()[i]@ == host_refs(
            self.content@.hosts,
            names[i],
        ) by {
            assert(self.host_index.keys()[i] == encode_utf8(names[i]));
            assert(self.host_index@.contains_key(self.host_index.keys()[i]));
            assert(host_refs(self.content@.hosts, names[i]).len() > 0);
        }
    }

    /// The number of rules that were loaded.
    pub fn len(&self, exprs: Ghost<Seq<LazyRegex>>) -> (r: usize)
        requires
            self.wf(exprs@),
        ensures
            r == self.size(),
            r <= MAX_SOURCE,
    {
        self.net.len() + self.hosts.len()
    }

    /// Reports whether the set holds no rules.
    pub fn is_empty(&self) -> (r: bool)
        requires
            exists|exprs: Seq<LazyRegex>| self.wf(exprs),
        ensures
            r == (self.size() == 0),
    {
        self.net.len() == 0 && self.hosts.len() == 0
    }

    /// The list a rule came from.
    pub(crate) fn list_of(&self, idx: u32, exprs: Ghost<Seq<LazyRegex>>) -> (r: i64)
        requires
            self.wf(exprs@),
            idx < self.content().net.len(),
        ensures
            r == self.content().net[idx as int].list,
    {
        let t = self.net_text[idx as usize];
        assert(self.net_text@[idx as int] == t);
        assert(strings(self.sources@).len() == self.sources@.len());
        self.list_ids[t.src as usize]
    }

    /// A network rule.
    pub(crate) fn rule_at(&self, idx: u32, exprs: Ghost<Seq<LazyRegex>>) -> (r: &NetworkRule)
        requires
            self.wf(exprs@),
            idx < self.content().net.len(),
        ensures
            r@.opts == self.content().net[idx as int].parsed.opts,
            r@.allowlist == self.content().net[idx as int].parsed.allowlist,
    {
        let r = &self.net[idx as usize];
        assert(rule_is(self.net@[idx as int]@, self.content@.net[idx as int].parsed, exprs@));
        r
    }

    /// Whether a network rule is an exception.
    pub(crate) fn is_exception(&self, idx: u32, exprs: Ghost<Seq<LazyRegex>>) -> (r: bool)
        requires
            self.wf(exprs@),
            idx < self.content().net.len(),
        ensures
            r == self.content().net[idx as int].parsed.allowlist,
    {
        self.rule_at(idx, exprs).allowlist()
    }

    /// A hosts rule.
    pub(crate) fn host_at(&self, idx: u32, exprs: Ghost<Seq<LazyRegex>>) -> (r: &HostRule)
        requires
            self.wf(exprs@),
            idx < self.content().hosts.len(),
        ensures
            r.text@ == self.content().hosts[idx as int].text,
            r.addr() == self.content().hosts[idx as int].ip,
            r.list_id == self.content().hosts[idx as int].list,
    {
        let r = &self.hosts[idx as usize];
        assert(self.hosts@[idx as int] == *r);
        r
    }

    /// One network rule's original text, from the list it was read from.
    pub(crate) fn text_of(&self, idx: u32, exprs: Ghost<Seq<LazyRegex>>) -> (r: &str)
        requires
            self.wf(exprs@),
        ensures
            r@ == self.text(idx as int),
    {
        if (idx as usize) >= self.net_text.len() {
            proof {
                reveal_strlit("");
                assert(""@ =~= Seq::<char>::empty());
            }
            return "";
        }
        let t = self.net_text[idx as usize];
        assert(self.net_text@[idx as int] == t);
        assert(strings(self.sources@).len() == self.sources@.len());
        assert(strings(self.sources@)[t.src as int] == self.sources@[t.src as int]@);
        slice_text(self.sources[t.src as usize].as_str(), t.off as usize, t.len as usize)
    }

    /// Whether a `$badfilter` rule cancels rule `idx`.
    fn is_cancelled(&self, idx: u32, exprs: Ghost<Seq<LazyRegex>>) -> (r: bool)
        requires
            self.wf(exprs@),
            idx < self.content().net.len(),
        ensures
            r == cancelled(self.content().net, idx as int),
    {
        // Rare, and answering it needs the rule's text: the cheap question
        // comes first.
        if self.badfilter.len() == 0 {
            return false;
        }
        let canon = canonical_text(self.text_of(idx, exprs));
        let r = self.badfilter.contains(canon.as_str().as_bytes());
        assert(self.badfilter@.contains_key(encode_utf8(canon@)) == cancels(self.content@.net, canon@));
        r
    }

    /// Whether the rule's pattern matches the request.
    fn pattern_matches(&self, rule: &NetworkRule, req: &Request<'_>, url: &str, pool: &mut Pool, p: Ghost<ParsedV>) -> (r:
        bool)
        requires
            old(pool).wf(),
            rule_is(rule@, p@, old(pool).all()),
            url@ == self::url(req@.host),
        ensures
            r == pattern_fits(p@.pattern, req@.host),
            final(pool).wf(),
            final(pool).same_sources(old(pool)),
    {
        match rule.pattern() {
            PatternRef::Any => true,
            PatternRef::DomainAnchor => true,
            PatternRef::Rx { expr, target } => {
                match target {
                    Target::Url => pool.is_match(expr, url),
                    Target::Hostname => pool.is_match(expr, req.hostname),
                }
            },
        }
    }

    /// Whether the rule applies to the request, checking both the pattern and
    /// the modifiers.
    fn applies(&self, rule: &NetworkRule, req: &Request<'_>, url: &str, pool: &mut Pool, p: Ghost<ParsedV>) -> (r: bool)
        requires
            old(pool).wf(),
            rule_is(rule@, p@, old(pool).all()),
            url@ == self::url(req@.host),
        ensures
            r == applicable(p@, req@),
            final(pool).wf(),
            final(pool).same_sources(old(pool)),
    {
        if rule.badfilter() {
            return false;
        }
        if let Some(opts) = rule.opts() {
            if let Some(t) = &opts.dnstype {
                if !t.matches(req.qtype) {
                    return false;
                }
            }
            if let Some(c) = &opts.client {
                if !takes(c, req) {
                    return false;
                }
            }
            if let Some(t) = &opts.ctag {
                if !t.matches_any(req.client_tags) {
                    return false;
                }
            }
            if is_denied(&opts.denyallow, req.hostname) {
                return false;
            }
        }
        self.pattern_matches(rule, req, url, pool, p)
    }

    /// The rules that the domain index gives for the name and its parents.
    fn by_domain(&self, hostname: &str, exprs: Ghost<Seq<LazyRegex>>) -> (r: Vec<u32>)
        requires
            self.wf(exprs@),
        ensures
            r@ == looked_up_all(self.content().net, suffixes(hostname@)),
    {
        let ghost net = self.content@.net;
        let mut out: Vec<u32> = Vec::new();
        let mut rest: Option<&str> = if hostname.is_empty() {
            None
        } else {
            Some(hostname)
        };
        proof {
            assert(out@ + looked_up_all(net, suffixes(hostname@)) =~= looked_up_all(net, suffixes(hostname@)));
        }
        while rest.is_some()
            invariant
                self.wf(exprs@),
                net == self.content@.net,
                match rest {
                    Some(s) => s@.len() > 0 && out@ + looked_up_all(net, suffixes(s@)) == looked_up_all(
                        net,
                        suffixes(hostname@),
                    ),
                    None => out@ == looked_up_all(net, suffixes(hostname@)),
                },
            decreases
                    match rest {
                        Some(s) => s@.len() + 1,
                        None => 0,
                    },
        {
            let suffix: &str = rest.unwrap();
            let confirm = |first: u32| -> (b: bool)
                ensures
                    b == anchored_to(self.text(first as int), suffix@),
            {
                anchored_domain_is(self.text_of(first, exprs), suffix)
            };
            let run = self.domain_index.get(suffix, confirm);
            proof {
                let h = key_hash(suffix.spec_bytes());
                assert(self.domain_index.run(h) == filed(pairs_of(net), h));
                lemma_filed_in_range(net, h);
                assert(run@ == looked_up(net, suffix@));
            }
            let ghost before = out@;
            append(&mut out, run);
            let up = parent(suffix);
            proof {
                let all = suffixes(suffix@);
                assert(all[0] == suffix@);
                match up {
                    Some(p) => {
                        crate::engine::words::lemma_first_at_bound(suffix@, '.');
                        assert(all.drop_first() =~= suffixes(p@));
                    },
                    None => {
                        assert(all.drop_first() =~= Seq::<Seq<char>>::empty());
                    },
                }
                assert(out@ + looked_up_all(net, all.drop_first()) =~= before + looked_up_all(net, all));
            }
            rest = match up {
                Some(p) => if p.is_empty() {
                    proof {
                        assert(suffixes(p@) =~= Seq::<Seq<char>>::empty());
                        assert(out@ + looked_up_all(net, suffixes(p@)) =~= out@);
                    }
                    None
                } else {
                    Some(p)
                },
                None => {
                    proof {
                        assert(out@ + looked_up_all(net, suffixes(suffix@).drop_first()) =~= out@);
                    }
                    None
                },
            };
        }
        out
    }

    /// The rules to consider for a hostname, in order.
    fn candidates(&self, hostname: &str, exprs: Ghost<Seq<LazyRegex>>) -> (r: Vec<u32>)
        requires
            self.wf(exprs@),
        ensures
            considered(self.content().net, hostname@, r@),
    {
        let ghost net = self.content@.net;
        let mut out = self.by_domain(hostname, exprs);
        let ghost first = out@;
        let c = chars_of(hostname);
        let host = string_of(lowered(c.as_slice()).as_slice());
        let found = self.shortcuts.find(host.as_str().as_bytes());
        append(&mut out, found.as_slice());
        append(&mut out, self.scan.as_slice());
        proof {
            assert(found_literals(net, encode_utf8(lower(hostname@)), found@));
            assert(out@ =~= first + found@ + scan_of(net));
        }
        out
    }

    /// Finds the applicable network rules for `req` and returns the winner,
    /// plus every `$dnsrewrite` rule that applies.
    pub(crate) fn match_network(&self, req: &Request<'_>, pool: &mut Pool) -> (r: (Option<u32>, Vec<u32>))
        requires
            self.wf(old(pool).all()),
            old(pool).wf(),
        ensures
            exists|order: Seq<u32>| #[trigger]
                considered(self.content().net, req@.host, order) && (r.0, r.1@) == weighed(
                    self.content().net,
                    order,
                    req@,
                ),
            r.0 matches Some(i) ==> i < self.content().net.len(),
            forall|i: int| 0 <= i < r.1@.len() ==> #[trigger] r.1@[i] < self.content().net.len(),
            final(pool).wf(),
            final(pool).same_sources(old(pool)),
    {
        let ghost net = self.content@.net;
        let url = url_for(req.hostname);
        let order = self.candidates(req.hostname, Ghost(pool.all()));
        proof {
            lemma_considered_in_range(net, req@.host, order@);
        }
        let mut best: Option<u32> = None;
        let mut rewrites: Vec<u32> = Vec::new();
        let mut i: usize = 0;
        assert(order@.take(0) =~= Seq::<u32>::empty());
        while i < order.len()
            invariant
                self.wf(pool.all()),
                pool.wf(),
                pool.same_sources(old(pool)),
                net == self.content@.net,
                url@ == self::url(req@.host),
                i <= order@.len(),
                forall|k: int| 0 <= k < order@.len() ==> #[trigger] order@[k] < net.len(),
                (best, rewrites@) == weighed(net, order@.take(i as int), req@),
                best matches Some(b) ==> b < net.len(),
                forall|k: int| 0 <= k < rewrites@.len() ==> #[trigger] rewrites@[k] < net.len(),
            decreases order@.len() - i,
        {
            let idx = order[i];
            proof {
                assert(order@.take(i + 1).drop_last() =~= order@.take(i as int));
                assert(order@.take(i + 1).last() == idx);
            }
            if !self.is_cancelled(idx, Ghost(pool.all())) {
                let rule = &self.net[idx as usize];
                let ghost p = net[idx as int].parsed;
                let ghost before = *pool;
                assert(rule_is(self.net@[idx as int]@, p, pool.all()));
                let fits = self.applies(rule, req, url.as_str(), pool, Ghost(p));
                proof {
                    self.lemma_same_exprs(before, *pool);
                }
                if fits {
                    if rule.dnsrewrite().is_some() {
                        rewrites.push(idx);
                    } else {
                        best = match best {
                            None => Some(idx),
                            Some(b) => {
                                assert(rule_is(self.net@[b as int]@, net[b as int].parsed, pool.all()));
                                if higher_priority(idx, rule, b, &self.net[b as usize]) {
                                    Some(idx)
                                } else {
                                    Some(b)
                                }
                            },
                        };
                    }
                }
            }
            i = i + 1;
        }
        assert(order@.take(i as int) =~= order@);
        (best, rewrites)
    }

    /// The hosts rules for a hostname, by number.
    pub(crate) fn match_hosts(&self, hostname: &str, exprs: Ghost<Seq<LazyRegex>>) -> (r: Vec<u32>)
        requires
            self.wf(exprs@),
        ensures
            r@ == host_refs(self.content().hosts, hostname@),
            forall|i: int| 0 <= i < r@.len() ==> #[trigger] r@[i] < self.content().hosts.len(),
    {
        proof {
            lemma_refs_in_range(self.content@.hosts, hostname@);
        }
        match self.host_index.get(hostname.as_bytes()) {
            Some(refs) => refs.iter(),
            None => {
                assert(host_refs(self.content@.hosts, hostname@) =~= Seq::<u32>::empty());
                Vec::new()
            },
        }
    }
}

/// Adds `from` to the end of `to`.
fn append(to: &mut Vec<u32>, from: &[u32])
    ensures
        final(to)@ == old(to)@ + from@,
{
    let ghost before = to@;
    let mut i: usize = 0;
    while i < from.len()
        invariant
            i <= from@.len(),
            to@ =~= before + from@.take(i as int),
        decreases from@.len() - i,
    {
        to.push(from[i]);
        i = i + 1;
    }
    assert(from@.take(i as int) =~= from@);
}

/// Whether `s` is there and satisfies the list.
fn given_matches(l: &StrList, s: Option<&str>) -> (r: bool)
    ensures
        r == given_and(
            l@,
            match s {
                Some(t) => Some(t@),
                None => None,
            },
        ),
{
    match s {
        Some(t) => l.matches(t),
        None => false,
    }
}

/// Reports whether the client is explicitly excluded by the rule's list.
fn excluded(l: &StrList, req: &Request<'_>) -> (r: bool)
    ensures
        r == excluded_client(l@, req@),
{
    let by_name = match req.client_name {
        Some(n) => listed(&l.excluded, n),
        None => false,
    };
    let by_ip = match req.client_ip {
        Some(i) => listed(&l.excluded, i),
        None => false,
    };
    by_name || by_ip
}

/// Whether a `$client` list takes the client.
fn takes(l: &StrList, req: &Request<'_>) -> (r: bool)
    ensures
        r == takes_client(l@, req@),
{
    if l.included.len() == 0 {
        !excluded(l, req)
    } else {
        given_matches(l, req.client_name) || given_matches(l, req.client_ip)
    }
}

/// Whether some domain of `deny` is the host or above it.
fn is_denied(deny: &Vec<String>, host: &str) -> (r: bool)
    ensures
        r == denied(strings(deny@), host@),
{
    let h = chars_of(host);
    let mut i: usize = 0;
    while i < deny.len()
        invariant
            i <= deny@.len(),
            h@ == host@,
            forall|k: int| 0 <= k < i ==> !under(host@, #[trigger] strings(deny@)[k]),
        decreases deny@.len() - i,
    {
        let d = chars_of(deny[i].as_str());
        assert(strings(deny@)[i as int] == d@);
        if is_subdomain_of(h.as_slice(), d.as_slice()) {
            return true;
        }
        i = i + 1;
    }
    false
}

/// The priority class of a rule: important exceptions, important rules,
/// exceptions, then the others.
fn rank(rule: &NetworkRule) -> (r: u8)
    ensures
        r == if rule@.opts.important {
            if rule@.allowlist {
                3int
            } else {
                2
            }
        } else if rule@.allowlist {
            1
        } else {
            0
        },
{
    match (rule.allowlist(), rule.important()) {
        (true, true) => 3,
        (false, true) => 2,
        (true, false) => 1,
        (false, false) => 0,
    }
}

/// Reports whether rule `a` outranks rule `b`.
///
/// By priority class, then by the number of specifiers a rule carries, not by
/// pattern length, and finally by load order, which keeps the choice
/// independent of how the indexes are walked.
fn higher_priority(ai: u32, a: &NetworkRule, bi: u32, b: &NetworkRule) -> (r: bool)
    ensures
        forall|net: Seq<Loaded>|
            #![trigger net[ai as int], net[bi as int]]
            net[ai as int].parsed.opts == a@.opts && net[ai as int].parsed.allowlist == a@.allowlist
                && net[bi as int].parsed.opts == b@.opts && net[bi as int].parsed.allowlist == b@.allowlist ==> r
                == outranks(net, ai as int, bi as int),
{
    let (ra, rb) = (rank(a), rank(b));
    if ra != rb {
        return ra > rb;
    }
    let (sa, sb) = (a.specificity(), b.specificity());
    if sa != sb {
        return sa > sb;
    }
    ai < bi
}

proof fn lemma_filed_in_range(net: Seq<Loaded>, h: u64)
    requires
        net.len() <= MAX_SOURCE,
    ensures
        forall|i: int| 0 <= i < filed(pairs_of(net), h).len() ==> #[trigger] filed(pairs_of(net), h)[i] < net.len(),
    decreases net.len(),
{
    if net.len() > 0 {
        lemma_filed_in_range(net.drop_last(), h);
        let p = pairs_of(net);
        let d = filed(pairs_of(net.drop_last()), h);
        if anchored(net.last()) {
            assert(p.drop_last() =~= pairs_of(net.drop_last()));
        }
        assert forall|i: int| 0 <= i < filed(p, h).len() implies #[trigger] filed(p, h)[i] < net.len() by {
            if i < d.len() {
                assert(d[i] < net.drop_last().len());
            }
        }
    }
}

proof fn lemma_scan_in_range(net: Seq<Loaded>)
    requires
        net.len() <= MAX_SOURCE,
    ensures
        forall|i: int| 0 <= i < scan_of(net).len() ==> #[trigger] scan_of(net)[i] < net.len(),
    decreases net.len(),
{
    if net.len() > 0 {
        lemma_scan_in_range(net.drop_last());
        let d = scan_of(net.drop_last());
        assert forall|i: int| 0 <= i < scan_of(net).len() implies #[trigger] scan_of(net)[i] < net.len() by {
            if i < d.len() {
                assert(d[i] < net.drop_last().len());
            }
        }
    }
}

proof fn lemma_looked_up_in_range(net: Seq<Loaded>, names: Seq<Seq<char>>)
    requires
        net.len() <= MAX_SOURCE,
    ensures
        forall|i: int|
            0 <= i < looked_up_all(net, names).len() ==> #[trigger] looked_up_all(net, names)[i] < net.len(),
    decreases names.len(),
{
    if names.len() > 0 {
        lemma_looked_up_in_range(net, names.drop_first());
        let h = key_hash(encode_utf8(names[0]));
        lemma_filed_in_range(net, h);
        let a = looked_up(net, names[0]);
        let b = looked_up_all(net, names.drop_first());
        assert forall|i: int| 0 <= i < (a + b).len() implies #[trigger] (a + b)[i] < net.len() by {
            if i < a.len() {
                assert(filed(pairs_of(net), h)[i] < net.len());
            } else {
                assert(b[i - a.len()] < net.len());
            }
        }
    }
}

proof fn lemma_gathered_in_range(of: Seq<Seq<u32>>, which: Seq<int>, bound: int)
    requires
        forall|i: int| 0 <= i < which.len() ==> 0 <= #[trigger] which[i] < of.len(),
        forall|i: int, j: int| 0 <= i < of.len() && 0 <= j < of[i].len() ==> #[trigger] of[i][j] < bound,
    ensures
        forall|i: int| 0 <= i < gathered(of, which).len() ==> #[trigger] gathered(of, which)[i] < bound,
    decreases which.len(),
{
    if which.len() > 0 {
        lemma_gathered_in_range(of, which.drop_last(), bound);
        let last = which[which.len() - 1];
        assert(0 <= last < of.len());
        let a = gathered(of, which.drop_last());
        let b = of[last];
        assert forall|i: int| 0 <= i < (a + b).len() implies #[trigger] (a + b)[i] < bound by {
            if i < a.len() {
                assert(a[i] < bound);
            } else {
                assert(of[last][i - a.len()] < bound);
            }
        }
    }
}

pub(crate) proof fn lemma_considered_in_range(net: Seq<Loaded>, host: Seq<char>, order: Seq<u32>)
    requires
        net.len() <= MAX_SOURCE,
        considered(net, host, order),
    ensures
        forall|i: int| 0 <= i < order.len() ==> #[trigger] order[i] < net.len(),
{
    let bytes = encode_utf8(lower(host));
    let found = choose|found: Seq<u32>| #[trigger]
        found_literals(net, bytes, found) && order == looked_up_all(net, suffixes(host)) + found + scan_of(net);
    let patterns = choose|patterns: Seq<(Seq<u8>, Seq<u32>)>| #[trigger]
        grouped(patterns, net) && found == gathered(rules_of(patterns), hits_in(patterns, bytes));
    let hits = hits_in(patterns, bytes);
    law_each_hit_once(patterns, bytes);
    lemma_scan_in_range(net);
    lemma_looked_up_in_range(net, suffixes(host));
    let of = rules_of(patterns);
    assert forall|i: int| 0 <= i < hits.len() implies 0 <= #[trigger] hits[i] < of.len() by {
        assert(hits.contains(hits[i]));
    }
    assert forall|i: int, j: int| 0 <= i < of.len() && 0 <= j < of[i].len() implies #[trigger] of[i][j] < net.len() by {
        assert(patterns[i].1 == carriers(net, patterns[i].0));
        lemma_carriers(net, patterns[i].0);
    }
    lemma_gathered_in_range(of, hits, net.len() as int);
}

proof fn lemma_named_in_range(names: Seq<Seq<char>>, name: Seq<char>, idx: u32)
    ensures
        forall|i: int| 0 <= i < named_in(names, name, idx).len() ==> #[trigger] named_in(names, name, idx)[i] == idx,
    decreases names.len(),
{
    if names.len() > 0 {
        lemma_named_in_range(names.drop_last(), name, idx);
        let d = named_in(names.drop_last(), name, idx);
        let all = named_in(names, name, idx);
        assert forall|i: int| 0 <= i < all.len() implies #[trigger] all[i] == idx by {
            if i < d.len() {
                assert(d[i] == idx);
            }
        }
    }
}

pub(crate) proof fn lemma_refs_in_range(hosts: Seq<LoadedHost>, name: Seq<char>)
    requires
        hosts.len() <= MAX_SOURCE,
    ensures
        forall|i: int| 0 <= i < host_refs(hosts, name).len() ==> #[trigger] host_refs(hosts, name)[i] < hosts.len(),
    decreases hosts.len(),
{
    if hosts.len() > 0 {
        lemma_refs_in_range(hosts.drop_last(), name);
        let idx = (hosts.len() - 1) as u32;
        lemma_named_in_range(hosts.last().names, name, idx);
        let a = host_refs(hosts.drop_last(), name);
        let b = named_in(hosts.last().names, name, idx);
        assert forall|i: int| 0 <= i < (a + b).len() implies #[trigger] (a + b)[i] < hosts.len() by {
            if i < a.len() {
                assert(a[i] < hosts.drop_last().len());
            } else {
                assert(b[i - a.len()] == idx);
            }
        }
    }
}

} // verus!
