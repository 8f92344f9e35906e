//! Where a rule set's memory goes, roughly.

use core::mem::size_of;

use vstd::prelude::*;
use vstd::string::*;
use vstd::utf8::*;

use crate::asked::{answer, settled};
use crate::domidx::{hashes_of, slots_for, spill_of};
use crate::engine::Engine;
use crate::engine::set::{
    Content, Loaded, LoadedHost, Refs, RuleSet, TextRef, cancelled_texts, grouped, host_refs, names_in, pairs_of, scan_of,
};
use crate::multi::{capped, sum, word};
use crate::rule::parse::{HostRule, bare, host_names};
use crate::rule::{NetworkRule, Options, OptionsV};
use crate::rule::pool::LazyRegex;
use crate::shortcut::{bytes_of, unconditional};
use crate::text::strings;

verus! {

/// What one allocation costs beside what it holds, in bytes.
pub const OVERHEAD: usize = 32;

/// An estimate of where a rule set's memory goes: how many there are of each
/// thing, and how many bytes they take.
#[derive(Clone, Copy, Debug, PartialEq, Eq, Structural)]
pub struct Footprint {
    pub net_rules: usize,
    pub net_structs: usize,
    pub net_text: usize,
    pub net_opts: usize,
    pub host_rules: usize,
    pub host_structs: usize,
    pub host_text: usize,
    pub domain_entries: usize,
    pub domain_slots: usize,
    pub domain_table: usize,
    pub host_entries: usize,
    pub host_keys: usize,
    pub host_spill: usize,
    pub host_table: usize,
    pub patterns: usize,
    pub shortcuts: usize,
    pub scan: usize,
    pub badfilter: usize,
    pub total: usize,
}

/// What the names of a hosts rule take.
pub open spec fn names_cost(names: Seq<Seq<char>>) -> int {
    sum(names, |n: Seq<char>| encode_utf8(n).len() + OVERHEAD + size_of::<String>() as int)
}

/// What the text and the names of a hosts rule take.
pub open spec fn host_cost(text: Seq<char>, valid: spec_fn(Seq<char>) -> bool) -> int {
    encode_utf8(text).len() + OVERHEAD + capped(names_cost(host_names(text, valid)))
}

/// What a block of modifiers takes, where some modifier is set.
pub open spec fn opts_cost(o: OptionsV) -> int {
    if bare(o) {
        0
    } else {
        size_of::<Options>() as int + OVERHEAD
    }
}

/// What the numbers of the hosts rules that name one name take outside their
/// slot: a single one takes nothing.
pub open spec fn spill_cost(refs: Seq<u32>) -> int {
    if refs.len() == 1 {
        0
    } else {
        refs.len() * 4 + OVERHEAD
    }
}

/// What a name takes as a key.
pub open spec fn name_cost(name: Seq<char>) -> int {
    key_cost(encode_utf8(name))
}

/// What a set of `lists` lists takes, where `valid` says which texts are
/// names: the rules themselves, their modifiers and texts, the index by domain,
/// the table by name, the index by literal, and what `$badfilter` cancels.
pub open spec fn accounts(c: Content, lists: nat, r: Footprint, valid: spec_fn(Seq<char>) -> bool) -> bool {
    let names = names_in(c.hosts);
    &&& r.net_rules == c.net.len()
    &&& r.net_structs == capped(c.net.len() * size_of::<NetworkRule>())
    &&& r.net_text == capped(capped(c.net.len() * size_of::<TextRef>()) + capped(lists * size_of::<String>()))
    &&& r.net_opts == capped(sum(c.net, |l: Loaded| opts_cost(l.parsed.opts)))
    &&& r.host_rules == c.hosts.len()
    &&& r.host_structs == capped(c.hosts.len() * size_of::<HostRule>())
    &&& r.host_text == capped(sum(c.hosts, |h: LoadedHost| host_cost(h.text, valid)))
    &&& r.domain_entries == hashes_of(pairs_of(c.net)).len()
    &&& r.domain_slots == slots_for(pairs_of(c.net))
    &&& r.domain_table == capped(slots_for(pairs_of(c.net)) * 12 + spill_of(pairs_of(c.net)) * 4)
    &&& r.host_entries == names.len()
    &&& r.host_keys == capped(sum(names, |n: Seq<char>| name_cost(n)))
    &&& r.host_spill == capped(sum(names, |n: Seq<char>| spill_cost(host_refs(c.hosts, n))))
    &&& r.host_table == capped(names.len() * (size_of::<Vec<u8>>() + size_of::<Refs>() + 1))
    &&& exists|ps: Seq<(Seq<u8>, Seq<u32>)>| #[trigger]
        grouped(ps, c.net) && r.patterns == ps.len() - unconditional(ps).len() && r.shortcuts == capped(bytes_of(ps))
    &&& r.scan == capped((scan_of(c.net).len() * 4) as int)
    &&& r.badfilter == capped(sum(cancelled_texts(c.net), |t: Seq<char>| name_cost(t)))
    &&& r.total == capped(
        r.net_structs + r.net_text + r.net_opts + r.host_structs + r.host_text + r.domain_table + r.host_keys
            + r.host_spill + r.host_table + r.shortcuts + r.scan + r.badfilter,
    )
}

/// What a run of rule numbers takes outside its slot.
spec fn refs_cost(r: Refs) -> int {
    match r {
        Refs::One(_) => 0,
        Refs::Many(v) => v@.len() * 4 + OVERHEAD,
    }
}

/// What a key takes.
pub open spec fn key_cost(k: Seq<u8>) -> int {
    k.len() + OVERHEAD
}

/// So many of a size.
fn times(n: usize, size: usize) -> (r: usize)
    ensures
        r == capped(n * size),
{
    assert(0 <= n * size <= 0xffff_ffff_ffff_ffffu64 * 0xffff_ffff_ffff_ffffu64) by (nonlinear_arith)
        requires
            n <= 0xffff_ffff_ffff_ffffu64,
            size <= 0xffff_ffff_ffff_ffffu64,
    ;
    word(n as u128 * size as u128)
}

/// One more part of a sum that is held in a word.
fn plus(total: usize, part: u128) -> (r: usize)
    requires
        part <= u128::MAX / 2,
    ensures
        r == capped(total + part),
{
    word(total as u128 + part)
}

fn names_held(names: &Vec<String>) -> (r: usize)
    ensures
        r == capped(names_cost(strings(names@))),
{
    let ghost f = |n: Seq<char>| encode_utf8(n).len() + OVERHEAD + size_of::<String>() as int;
    let ghost v = strings(names@);
    let mut n: usize = 0;
    let mut i: usize = 0;
    assert(v.take(0) =~= Seq::<Seq<char>>::empty());
    while i < names.len()
        invariant
            i <= names@.len(),
            v == strings(names@),
            f == (|n: Seq<char>| encode_utf8(n).len() + OVERHEAD + size_of::<String>() as int),
            n == capped(sum(v.take(i as int), f)),
            sum(v.take(i as int), f) >= 0,
        decreases names@.len() - i,
    {
        proof {
            assert(v.take(i + 1).drop_last() =~= v.take(i as int));
            assert(v.take(i + 1).last() == names@[i as int]@);
        }
        let b: usize = names[i].as_str().as_bytes().len();
        n = plus(n, b as u128 + OVERHEAD as u128 + size_of::<String>() as u128);
        i = i + 1;
    }
    assert(v.take(i as int) =~= v);
    n
}

impl RuleSet {
    fn opts_held(&self) -> (r: usize)
        requires
            self.net@.len() == self.content().net.len(),
            forall|i: int|
                0 <= i < self.net@.len() ==> (#[trigger] self.net@[i]).carries() == !bare(
                    self.content().net[i].parsed.opts,
                ),
        ensures
            r == capped(sum(self.content().net, |l: Loaded| opts_cost(l.parsed.opts))),
    {
        let ghost f = |l: Loaded| opts_cost(l.parsed.opts);
        let ghost all = self.content().net;
        let mut n: usize = 0;
        let mut i: usize = 0;
        assert(all.take(0) =~= Seq::<Loaded>::empty());
        while i < self.net.len()
            invariant
                i <= self.net@.len(),
                all == self.content().net,
                all.len() == self.net@.len(),
                forall|i: int|
                    0 <= i < self.net@.len() ==> (#[trigger] self.net@[i]).carries() == !bare(all[i].parsed.opts),
                f == (|l: Loaded| opts_cost(l.parsed.opts)),
                n == capped(sum(all.take(i as int), f)),
                sum(all.take(i as int), f) >= 0,
            decreases self.net@.len() - i,
        {
            proof {
                assert(all.take(i + 1).drop_last() =~= all.take(i as int));
                assert(all.take(i + 1).last() == all[i as int]);
            }
            if self.net[i].has_opts() {
                n = plus(n, size_of::<Options>() as u128 + OVERHEAD as u128);
            }
            i = i + 1;
        }
        assert(all.take(i as int) =~= all);
        n
    }

    fn hosts_held<V: Fn(&str) -> bool>(&self, valid: &V) -> (r: usize)
        requires
            settled(*valid),
            self.hosts@.len() == self.content().hosts.len(),
            forall|i: int|
                0 <= i < self.hosts@.len() ==> (#[trigger] self.hosts@[i]).text@ == self.content().hosts[i].text,
        ensures
            r == capped(
                sum(self.content().hosts, |h: LoadedHost| host_cost(h.text, |s: Seq<char>| answer(*valid, s))),
            ),
    {
        let ghost ok = |s: Seq<char>| answer(*valid, s);
        let ghost f = |h: LoadedHost| host_cost(h.text, ok);
        let ghost all = self.content().hosts;
        let mut n: usize = 0;
        let mut i: usize = 0;
        assert(all.take(0) =~= Seq::<LoadedHost>::empty());
        while i < self.hosts.len()
            invariant
                settled(*valid),
                i <= self.hosts@.len(),
                all == self.content().hosts,
                all.len() == self.hosts@.len(),
                forall|i: int| 0 <= i < self.hosts@.len() ==> (#[trigger] self.hosts@[i]).text@ == all[i].text,
                ok == (|s: Seq<char>| answer(*valid, s)),
                f == (|h: LoadedHost| host_cost(h.text, ok)),
                n == capped(sum(all.take(i as int), f)),
                sum(all.take(i as int), f) >= 0,
            decreases self.hosts@.len() - i,
        {
            proof {
                assert(all.take(i + 1).drop_last() =~= all.take(i as int));
                assert(all.take(i + 1).last() == all[i as int]);
            }
            let h = &self.hosts[i];
            let names = h.hostnames(valid);
            let text: usize = h.text.as_bytes().len();
            let held: usize = names_held(&names);
            n = plus(n, text as u128 + OVERHEAD as u128 + held as u128);
            i = i + 1;
        }
        assert(all.take(i as int) =~= all);
        n
    }

    fn host_keys_held(&self) -> (r: usize)
        requires
            self.host_index.wf(),
        ensures
            r == capped(sum(self.host_index.keys(), |k: Seq<u8>| key_cost(k))),
    {
        let ghost f = |k: Seq<u8>| key_cost(k);
        let ghost ks = self.host_index.keys();
        let n: usize = self.host_index.len();
        let mut total: usize = 0;
        let mut i: usize = 0;
        assert(ks.take(0) =~= Seq::<Seq<u8>>::empty());
        while i < n
            invariant
                self.host_index.wf(),
                ks == self.host_index.keys(),
                n == ks.len(),
                i <= n,
                f == (|k: Seq<u8>| key_cost(k)),
                total == capped(sum(ks.take(i as int), f)),
                sum(ks.take(i as int), f) >= 0,
            decreases n - i,
        {
            assert(ks.take(i + 1).drop_last() =~= ks.take(i as int));
            let b: usize = self.host_index.key_at(i).len();
            total = plus(total, b as u128 + OVERHEAD as u128);
            i = i + 1;
        }
        assert(ks.take(i as int) =~= ks);
        total
    }

    fn host_spill_held(&self) -> (r: usize)
        requires
            self.host_index.wf(),
        ensures
            r == capped(sum(self.host_index.values(), |v: Refs| refs_cost(v))),
    {
        let ghost f = |v: Refs| refs_cost(v);
        let ghost vs = self.host_index.values();
        proof {
            self.host_index.lemma_positions();
        }
        let n: usize = self.host_index.len();
        let mut total: usize = 0;
        let mut i: usize = 0;
        assert(vs.take(0) =~= Seq::<Refs>::empty());
        while i < n
            invariant
                self.host_index.wf(),
                vs == self.host_index.values(),
                n == vs.len(),
                n == self.host_index.keys().len(),
                i <= n,
                f == (|v: Refs| refs_cost(v)),
                total == capped(sum(vs.take(i as int), f)),
                sum(vs.take(i as int), f) >= 0,
            decreases n - i,
        {
            assert(vs.take(i + 1).drop_last() =~= vs.take(i as int));
            match self.host_index.value_at(i) {
                Refs::One(_) => {},
                Refs::Many(v) => {
                    let m: usize = v.len();
                    total = plus(total, m as u128 * 4 + OVERHEAD as u128);
                },
            }
            i = i + 1;
        }
        assert(vs.take(i as int) =~= vs);
        total
    }

    fn badfilter_held(&self) -> (r: usize)
        requires
            self.badfilter.wf(),
        ensures
            r == capped(sum(self.badfilter.keys(), |k: Seq<u8>| key_cost(k))),
    {
        let ghost f = |k: Seq<u8>| key_cost(k);
        let ghost ks = self.badfilter.keys();
        let n: usize = self.badfilter.len();
        let mut total: usize = 0;
        let mut i: usize = 0;
        assert(ks.take(0) =~= Seq::<Seq<u8>>::empty());
        while i < n
            invariant
                self.badfilter.wf(),
                ks == self.badfilter.keys(),
                n == ks.len(),
                i <= n,
                f == (|k: Seq<u8>| key_cost(k)),
                total == capped(sum(ks.take(i as int), f)),
                sum(ks.take(i as int), f) >= 0,
            decreases n - i,
        {
            assert(ks.take(i + 1).drop_last() =~= ks.take(i as int));
            let b: usize = self.badfilter.key_at(i).len();
            total = plus(total, b as u128 + OVERHEAD as u128);
            i = i + 1;
        }
        assert(ks.take(i as int) =~= ks);
        total
    }

    /// A rough breakdown of where the set's memory goes, where `valid` says
    /// which texts are names. Estimates rather than an allocator's reading:
    /// enough to tell which structure to attack.
    pub fn footprint<V: Fn(&str) -> bool>(&self, valid: &V) -> (r: Footprint)
        requires
            settled(*valid),
            exists|exprs: Seq<LazyRegex>| self.wf(exprs),
        ensures
            accounts(self.content(), self.lists(), r, |s: Seq<char>| answer(*valid, s)),
    {
        proof {
            self.lemma_indexes(choose|exprs: Seq<LazyRegex>| self.wf(exprs));
            let c = self.content();
            let names = names_in(c.hosts);
            lemma_sum_same(self.host_index.keys(), names, |k: Seq<u8>| key_cost(k), |n: Seq<char>| name_cost(n));
            lemma_sum_same(
                self.host_index.values(),
                names,
                |v: Refs| refs_cost(v),
                |n: Seq<char>| spill_cost(host_refs(c.hosts, n)),
            );
            lemma_sum_same(
                self.badfilter.keys(),
                cancelled_texts(c.net),
                |k: Seq<u8>| key_cost(k),
                |t: Seq<char>| name_cost(t),
            );
        }
        let net_structs = times(self.net.len(), size_of::<NetworkRule>());
        let refs = times(self.net_text.len(), size_of::<TextRef>());
        let sources = times(self.sources.len(), size_of::<String>());
        let net_text = word(refs as u128 + sources as u128);
        let net_opts = self.opts_held();
        let host_structs = times(self.hosts.len(), size_of::<HostRule>());
        let host_text = self.hosts_held(valid);
        let domain_table = self.domain_index.footprint();
        let host_entries = self.host_index.len();
        let host_keys = self.host_keys_held();
        let host_spill = self.host_spill_held();
        let slot: u128 = size_of::<Vec<u8>>() as u128 + size_of::<Refs>() as u128 + 1;
        let host_table = times_wide(host_entries, slot);
        let shortcuts = self.shortcuts.footprint();
        let scan = times(self.scan.len(), 4);
        let badfilter = self.badfilter_held();
        let total = word(
            net_structs as u128 + net_text as u128 + net_opts as u128 + host_structs as u128 + host_text as u128
                + domain_table as u128 + host_keys as u128 + host_spill as u128 + host_table as u128
                + shortcuts as u128 + scan as u128 + badfilter as u128,
        );
        Footprint {
            net_rules: self.net.len(),
            net_structs,
            net_text,
            net_opts,
            host_rules: self.hosts.len(),
            host_structs,
            host_text,
            domain_entries: self.domain_index.len(),
            domain_slots: self.domain_index.capacity(),
            domain_table,
            host_entries,
            host_keys,
            host_spill,
            host_table,
            patterns: self.shortcuts.len(),
            shortcuts,
            scan,
            badfilter,
            total,
        }
    }
}

impl Engine {
    /// A rough breakdown of where the engine's memory goes: that of the
    /// blocklists, and that of the allowlists.
    pub fn footprint<V: Fn(&str) -> bool>(&self, valid: &V) -> (r: (Footprint, Footprint))
        requires
            settled(*valid),
            self.wf(),
        ensures
            accounts(self.block.content(), self.block.lists(), r.0, |s: Seq<char>| answer(*valid, s)),
            accounts(self.allow.content(), self.allow.lists(), r.1, |s: Seq<char>| answer(*valid, s)),
    {
        assert(self.block.wf(self.pool.all()) && self.allow.wf(self.pool.all()));
        (self.block.footprint(valid), self.allow.footprint(valid))
    }
}

/// Sums of equal parts are equal.
proof fn lemma_sum_same<A, B>(a: Seq<A>, b: Seq<B>, f: spec_fn(A) -> int, g: spec_fn(B) -> int)
    requires
        a.len() == b.len(),
        forall|i: int| #![trigger a[i]] 0 <= i < a.len() ==> f(a[i]) == g(b[i]),
    ensures
        sum(a, f) == sum(b, g),
    decreases a.len(),
{
    if a.len() > 0 {
        let (c, d) = (a.drop_last(), b.drop_last());
        assert forall|i: int| #![trigger c[i]] 0 <= i < c.len() implies f(c[i]) == g(d[i]) by {
            assert(c[i] == a[i]);
        }
        lemma_sum_same(c, d, f, g);
        assert(f(a[a.len() - 1]) == g(b[b.len() - 1]));
    }
}

/// So many of a size that may be more than a word.
fn times_wide(n: usize, size: u128) -> (r: usize)
    requires
        size <= 0x3_0000_0000_0000_0000,
    ensures
        r == capped(n * size),
{
    if n == 0 {
        return 0;
    }
    if size > usize::MAX as u128 {
        assert(n * size >= size) by (nonlinear_arith)
            requires
                n >= 1,
        ;
        return usize::MAX;
    }
    times(n, size as usize)
}

} // verus!
