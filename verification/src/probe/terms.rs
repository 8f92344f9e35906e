//! What the guard is configured with, and what it makes of one source.

use vstd::arithmetic::power2::{lemma_pow2_pos, lemma_pow2_unfold, pow2};
use vstd::prelude::*;

use crate::clients::{in_any, inside_any, local_nets, local_networks};
use crate::ip::{canonical, Ip};

verus! {

/// A span of time.
#[derive(Clone, Copy, Debug, PartialEq, Eq, Structural)]
pub struct Span {
    /// Whole seconds.
    pub secs: u64,
    /// Nanoseconds past them.
    pub nanos: u32,
}

impl Span {
    /// A span of whole seconds.
    pub fn from_secs(secs: u64) -> (r: Span)
        ensures
            r == (Span { secs, nanos: 0 }),
    {
        Span { secs, nanos: 0 }
    }
}

/// A span in whole seconds, rounded up so that a penalty is never shorter
/// than asked for, as far as 32 bits hold.
pub open spec fn whole_secs(d: Span) -> int {
    let s = if d.nanos > 0 { d.secs + 1 } else { d.secs as int };
    if s > u32::MAX {
        u32::MAX as int
    } else {
        s
    }
}

/// A span in whole seconds, rounded up.
pub fn secs(d: Span) -> (r: u32)
    ensures
        r == whole_secs(d),
{
    if d.secs >= 0xffff_ffff {
        return 0xffff_ffff;
    }
    if d.nanos > 0 {
        (d.secs + 1) as u32
    } else {
        d.secs as u32
    }
}

/// How the guard decides, and for how long.
#[derive(Clone, Debug)]
pub struct Config {
    /// Connections that ask nothing, within `window`, before a source is shut
    /// out. Zero switches the guard off, the limits below with it.
    pub strikes: u32,
    /// The span the strikes are counted over.
    pub window: Span,
    /// How long a source is refused the first time it runs out of strikes.
    pub penalty: Span,
    /// The longest a repeat offender is refused for. It never shortens the
    /// first penalty.
    pub max_penalty: Span,
    /// How long a source must stay out of trouble, counted from the end of
    /// its last penalty, before its offences are forgotten.
    pub forgive: Span,
    /// Whether an address on this network is left alone.
    pub exempt_local: bool,
    /// Addresses that are never shut out.
    pub allowlist: Vec<Ip>,
    /// Networks that are this network too, beyond the ones every host has.
    /// Consulted only while `exempt_local` is on.
    pub local_networks: Vec<(Ip, u8)>,
    /// This host's own IPv6 /64s, in which each address is judged as a source
    /// of its own rather than as the /64. Not an exemption.
    pub host_networks: Vec<(Ip, u8)>,
    /// Connections from judged sources that may be open at once. Zero means
    /// no limit.
    pub max_connections: usize,
    /// Connections one source may have open at once. Zero means no limit.
    pub max_per_source: usize,
    /// Handshakes from judged sources that may be in progress at once. Zero
    /// means no limit.
    pub max_handshakes: usize,
}

impl Default for Config {
    fn default() -> (r: Self)
        ensures
            r.strikes == 6,
            r.window == (Span { secs: 60, nanos: 0 }),
            r.penalty == (Span { secs: 600, nanos: 0 }),
            r.max_penalty == (Span { secs: 86400, nanos: 0 }),
            r.forgive == (Span { secs: 86400, nanos: 0 }),
            r.exempt_local,
            r.allowlist@.len() == 0,
            r.local_networks@ == local_nets(),
            r.host_networks@.len() == 0,
            r.max_connections == 4096,
            r.max_per_source == 64,
            r.max_handshakes == 256,
    {
        Config {
            strikes: 6,
            window: Span { secs: 60, nanos: 0 },
            penalty: Span { secs: 600, nanos: 0 },
            max_penalty: Span { secs: 86400, nanos: 0 },
            forgive: Span { secs: 86400, nanos: 0 },
            exempt_local: true,
            allowlist: Vec::new(),
            local_networks: local_networks(),
            host_networks: Vec::new(),
            max_connections: 4096,
            max_per_source: 64,
            max_handshakes: 256,
        }
    }
}

/// Whether an IPv4 address is loopback, private or link-local.
pub open spec fn local_v4(a: u32) -> bool {
    ||| a / 0x100_0000 == 127
    ||| a / 0x100_0000 == 10
    ||| a / 0x10_0000 == 0xac1
    ||| a / 0x1_0000 == 0xc0a8
    ||| a / 0x1_0000 == 0xa9fe
}

/// Whether an address belongs to this network rather than the internet,
/// whatever the host is configured with: loopback, private, link-local,
/// unique-local and unspecified addresses, and the first three of them mapped
/// into IPv6.
pub open spec fn on_this_network(ip: Ip) -> bool {
    match ip {
        Ip::V4(a) => local_v4(a) || a == 0,
        Ip::V6(a) => {
            ||| a == 1
            ||| a == 0
            ||| a / 0x0200_0000_0000_0000_0000_0000_0000_0000 == 0x7e
            ||| a / 0x0040_0000_0000_0000_0000_0000_0000_0000 == 0x3fa
            ||| a / 0x1_0000_0000 == 0xffff && local_v4((a % 0x1_0000_0000) as u32)
        },
    }
}

fn is_local_v4(a: u32) -> (r: bool)
    ensures
        r == local_v4(a),
{
    a / 0x100_0000 == 127 || a / 0x100_0000 == 10 || a / 0x10_0000 == 0xac1 || a / 0x1_0000 == 0xc0a8 || a / 0x1_0000
        == 0xa9fe
}

/// Reports whether an address belongs to this network rather than the
/// internet.
pub fn is_local(ip: Ip) -> (r: bool)
    ensures
        r == on_this_network(ip),
{
    match ip {
        Ip::V4(a) => is_local_v4(a) || a == 0,
        Ip::V6(a) => a == 1 || a == 0 || a / 0x0200_0000_0000_0000_0000_0000_0000_0000 == 0x7e || a
            / 0x0040_0000_0000_0000_0000_0000_0000_0000 == 0x3fa || (a / 0x1_0000_0000 == 0xffff && is_local_v4(
            (a % 0x1_0000_0000) as u32,
        )),
    }
}

/// Whether one of `list` is the address, each taken as it is judged.
pub open spec fn listed_ip(list: Seq<Ip>, ip: Ip) -> bool {
    exists|i: int| 0 <= i < list.len() && canonical(#[trigger] list[i]) == ip
}

/// Whether the configuration spares an address for what it is: one on this
/// network, or one the operator listed.
pub open spec fn spares(cfg: Config, ip: Ip) -> bool {
    let c = canonical(ip);
    (cfg.exempt_local && (on_this_network(c) || inside_any(c, cfg.local_networks@))) || listed_ip(cfg.allowlist@, c)
}

/// Whether an address is outside the guard's remit: spared, or the guard is
/// off.
pub open spec fn exempts(cfg: Config, ip: Ip) -> bool {
    cfg.strikes == 0 || spares(cfg, ip)
}

/// Reports whether `cfg` spares `ip` for what it is.
pub fn spared(cfg: &Config, ip: Ip) -> (r: bool)
    ensures
        r == spares(*cfg, ip),
{
    let c = ip.to_canonical();
    if cfg.exempt_local && (is_local(c) || in_any(c, &cfg.local_networks)) {
        return true;
    }
    let mut i: usize = 0;
    while i < cfg.allowlist.len()
        invariant
            i <= cfg.allowlist@.len(),
            c == canonical(ip),
            forall|k: int| 0 <= k < i ==> canonical(#[trigger] cfg.allowlist@[k]) != c,
        decreases cfg.allowlist@.len() - i,
    {
        if cfg.allowlist[i].to_canonical() == c {
            assert(canonical(cfg.allowlist@[i as int]) == c);
            return true;
        }
        i = i + 1;
    }
    false
}

/// Reports whether `ip` is outside the guard's remit under `cfg`.
pub fn exempt(cfg: &Config, ip: Ip) -> (r: bool)
    ensures
        r == exempts(*cfg, ip),
{
    cfg.strikes == 0 || spared(cfg, ip)
}

/// The unit a source is judged as: a tag and an integer.
///
/// An IPv4 address is one source, and an IPv6 address is judged as its /64.
/// In this host's own /64s each address is a source of its own, kept as the
/// low 64 bits alone.
#[derive(Clone, Copy, Debug, PartialEq, Eq, Structural)]
pub struct Source {
    tag: u8,
    high: u32,
    low: u32,
}

impl Source {
    /// The source as a table key.
    pub closed spec fn view(&self) -> (u8, u128) {
        (self.tag, (self.high * 0x1_0000_0000 + self.low) as u128)
    }

    /// The source of a tag and an integer. Its halves are kept, so that an
    /// entry in a table stays small.
    fn of(tag: u8, unit: u64) -> (r: Self)
        ensures
            r@ == (tag, unit as u128),
    {
        Source { tag, high: (unit / 0x1_0000_0000) as u32, low: (unit % 0x1_0000_0000) as u32 }
    }

    /// The source as a table key.
    pub(crate) fn key(&self) -> (r: (u8, u128))
        ensures
            r == self@,
    {
        (self.tag, self.high as u128 * 0x1_0000_0000 + self.low as u128)
    }
}

/// What a source is called: an IPv4 address, an IPv6 network, or an address
/// in this host's /64 by its low half alone.
#[derive(Clone, Copy, Debug, PartialEq, Eq, Structural)]
pub enum Judged {
    /// An IPv4 address.
    Address(Ip),
    /// A network, by its first address, and its length.
    Network(Ip, u8),
    /// The low half of an address in this host's own /64.
    InHostNetwork(Ip),
}

/// What the source of a table key is called.
pub open spec fn called(key: (u8, u128)) -> Judged {
    if key.0 == 0 {
        Judged::Address(Ip::V4(key.1 as u32))
    } else if key.0 == 1 {
        Judged::Network(Ip::V6((key.1 * 0x1_0000_0000_0000_0000) as u128), 64)
    } else {
        Judged::InHostNetwork(Ip::V6(key.1))
    }
}

impl Source {
    /// What the source is called, for a log.
    pub fn judged(&self) -> (r: Judged)
        ensures
            r == called(self@),
    {
        let unit: u128 = self.high as u128 * 0x1_0000_0000 + self.low as u128;
        if self.tag == 0 {
            Judged::Address(Ip::V4(unit as u32))
        } else if self.tag == 1 {
            Judged::Network(Ip::V6(unit * 0x1_0000_0000_0000_0000), 64)
        } else {
            Judged::InHostNetwork(Ip::V6(unit))
        }
    }
}

/// The source an address is judged as: an IPv4 address itself; an address in
/// one of this host's /64s by its low half; any other IPv6 address by its
/// high half.
pub open spec fn source_of(cfg: Config, ip: Ip) -> (u8, u128) {
    match canonical(ip) {
        Ip::V4(a) => (0u8, a as u128),
        Ip::V6(a) => if inside_any(Ip::V6(a), cfg.host_networks@) {
            (2u8, a % 0x1_0000_0000_0000_0000)
        } else {
            (1u8, a / 0x1_0000_0000_0000_0000)
        },
    }
}

/// The source `ip` is judged as under `cfg`.
pub fn source_under(cfg: &Config, ip: Ip) -> (r: Source)
    ensures
        r@ == source_of(*cfg, ip),
{
    match ip.to_canonical() {
        Ip::V4(a) => Source::of(0, a as u64),
        Ip::V6(a) => if in_any(Ip::V6(a), &cfg.host_networks) {
            Source::of(2, (a % 0x1_0000_0000_0000_0000) as u64)
        } else {
            Source::of(1, (a / 0x1_0000_0000_0000_0000) as u64)
        },
    }
}

/// What is known about one source. Times are whole seconds on the guard's own
/// clock.
#[derive(Clone, Copy, Debug, PartialEq, Eq, Structural)]
pub struct Mark {
    /// Connections that asked nothing since `first`.
    pub strikes: u32,
    /// Penalties earned since the source was last forgiven.
    pub offences: u32,
    /// When the current window started.
    pub first: u32,
    /// When the most recent penalty ends or ended, or zero if it never had
    /// one.
    pub until: u32,
    /// When anything was last held against it.
    pub seen: u32,
}

/// `a` plus `b`, as far as 32 bits hold.
pub open spec fn plus(a: u32, b: u32) -> int {
    if a + b > u32::MAX {
        u32::MAX as int
    } else {
        a + b
    }
}

/// How long ago `then` was, nothing where it is yet to come.
pub open spec fn since(now: u32, then_at: u32) -> int {
    if now >= then_at {
        now - then_at
    } else {
        0
    }
}

/// A source with nothing held against it.
pub open spec fn clean_mark(now: u32) -> Mark {
    Mark { strikes: 0, offences: 0, first: now, until: 0, seen: now }
}

/// Whether the source is being refused.
pub open spec fn is_banned(m: Mark, now: u32) -> bool {
    now < m.until
}

/// Whether anything is still held against the source: a penalty in progress,
/// strikes within the window, or offences not yet forgiven.
pub open spec fn held_against(m: Mark, now: u32, t: Terms) -> bool {
    ||| is_banned(m, now)
    ||| m.strikes > 0 && since(now, m.first) < t.window
    ||| m.offences > 0 && now < plus(m.until, t.forgive)
}

/// The order sources are given up in when the table is full: one with only
/// strikes first, then one with a record, then one being refused.
pub open spec fn rank_of(m: Mark, now: u32) -> u8 {
    if is_banned(m, now) {
        2
    } else if m.offences > 0 {
        1
    } else {
        0
    }
}

impl Mark {
    /// A source with nothing held against it.
    pub fn new(now: u32) -> (r: Self)
        ensures
            r == clean_mark(now),
    {
        Mark { strikes: 0, offences: 0, first: now, until: 0, seen: now }
    }

    /// Reports whether the source is being refused.
    pub fn banned(&self, now: u32) -> (r: bool)
        ensures
            r == is_banned(*self, now),
    {
        now < self.until
    }

    /// Reports whether anything is still held against the source.
    pub fn worth_keeping(&self, now: u32, t: &Terms) -> (r: bool)
        ensures
            r == held_against(*self, now, *t),
    {
        self.banned(now) || (self.strikes > 0 && now.saturating_sub(self.first) < t.window) || (self.offences > 0 && now
            < self.until.saturating_add(t.forgive))
    }

    /// The order sources are given up in when the table is full.
    pub fn rank(&self, now: u32) -> (r: u8)
        ensures
            r == rank_of(*self, now),
    {
        if self.banned(now) {
            2
        } else if self.offences > 0 {
            1
        } else {
            0
        }
    }
}

/// The configuration's numbers, in the guard's own seconds.
#[derive(Clone, Copy, Debug, PartialEq, Eq, Structural)]
pub struct Terms {
    pub strikes: u32,
    pub window: u32,
    pub penalty: u32,
    pub max_penalty: u32,
    pub forgive: u32,
}

/// The configuration's numbers, in whole seconds.
pub open spec fn terms_of(cfg: Config) -> Terms {
    Terms {
        strikes: cfg.strikes,
        window: whole_secs(cfg.window) as u32,
        penalty: whole_secs(cfg.penalty) as u32,
        max_penalty: whole_secs(cfg.max_penalty) as u32,
        forgive: whole_secs(cfg.forgive) as u32,
    }
}

/// The longest any offence is refused for: the larger of the two penalties.
pub open spec fn ceiling(t: Terms) -> int {
    if t.max_penalty > t.penalty {
        t.max_penalty as int
    } else {
        t.penalty as int
    }
}

/// How long the `n`-th offence is refused for: the first penalty, doubled for
/// each offence before it, up to the ceiling.
pub open spec fn nth_penalty(t: Terms, n: u32) -> int {
    let doubled = t.penalty * pow2(if n > 0 { (n - 1) as nat } else { 0 });
    if doubled > ceiling(t) {
        ceiling(t)
    } else {
        doubled
    }
}

impl Terms {
    /// The terms of a configuration.
    pub fn of(cfg: &Config) -> (r: Self)
        ensures
            r == terms_of(*cfg),
    {
        Terms {
            strikes: cfg.strikes,
            window: secs(cfg.window),
            penalty: secs(cfg.penalty),
            max_penalty: secs(cfg.max_penalty),
            forgive: secs(cfg.forgive),
        }
    }

    /// How long the `n`-th offence is refused for.
    pub fn penalty_for(&self, n: u32) -> (r: u32)
        ensures
            r == nth_penalty(*self, n),
    {
        let most: u64 = if self.max_penalty > self.penalty {
            self.max_penalty as u64
        } else {
            self.penalty as u64
        };
        let mut left: u32 = if n > 0 {
            n - 1
        } else {
            0
        };
        let ghost start = left as nat;
        let mut p: u64 = self.penalty as u64;
        if p == 0 {
            assert(0 * pow2(start) == 0);
            return 0;
        }
        proof {
            vstd::arithmetic::power2::lemma2_to64();
            let one = pow2((start - left) as nat);
            assert(one == 1);
            assert(self.penalty * one == self.penalty) by (nonlinear_arith)
                requires
                    one == 1,
            ;
        }
        while left > 0 && p < most
            invariant
                left <= start,
                0 < p <= 2 * most,
                most <= 0xffff_ffff,
                p == self.penalty * pow2((start - left) as nat),
            decreases left,
        {
            proof {
                lemma_pow2_unfold((start - left + 1) as nat);
                let q = pow2((start - left) as nat);
                assert(self.penalty * (2 * q) == 2 * (self.penalty * q)) by (nonlinear_arith);
            }
            p = p * 2;
            left = left - 1;
        }
        proof {
            if left > 0 {
                lemma_pow2_grows((start - left) as nat, start);
                let a = pow2((start - left) as nat);
                let b = pow2(start);
                assert(self.penalty * a <= self.penalty * b) by (nonlinear_arith)
                    requires
                        a <= b,
                ;
            }
        }
        if p > most {
            most as u32
        } else {
            p as u32
        }
    }
}

proof fn lemma_pow2_grows(a: nat, b: nat)
    requires
        a <= b,
    ensures
        pow2(a) <= pow2(b),
    decreases b - a,
{
    if a < b {
        lemma_pow2_grows(a, (b - 1) as nat);
        lemma_pow2_unfold(b);
    }
}

/// A repeat offender is refused for twice as long each time, until the
/// ceiling.
pub proof fn law_penalty_doubles(t: Terms, n: u32)
    requires
        0 < n < u32::MAX,
    ensures
        nth_penalty(t, (n + 1) as u32) == if 2 * nth_penalty(t, n) > ceiling(t) {
            ceiling(t)
        } else {
            2 * nth_penalty(t, n)
        },
{
    lemma_pow2_unfold(n as nat);
    let q = pow2((n - 1) as nat);
    assert(t.penalty * (2 * q) == 2 * (t.penalty * q)) by (nonlinear_arith);
    assert(0 <= t.penalty * q) by (nonlinear_arith);
}

/// No offence is refused for less than the first penalty, nor for more than
/// the ceiling, and the first is refused for exactly the first penalty.
pub proof fn law_penalty_bounds(t: Terms, n: u32)
    ensures
        t.penalty <= nth_penalty(t, n) <= ceiling(t),
        nth_penalty(t, 1) == t.penalty,
{
    vstd::arithmetic::power2::lemma2_to64();
    let q = pow2(if n > 0 { (n - 1) as nat } else { 0 });
    lemma_pow2_pos(if n > 0 { (n - 1) as nat } else { 0 });
    assert(t.penalty * q >= t.penalty) by (nonlinear_arith)
        requires
            q >= 1,
    ;
    assert(pow2(0) == 1);
    assert(t.penalty * 1 == t.penalty);
}

/// What a strike, or a condemnation, makes of a source's mark, and whether it
/// earns a penalty.
///
/// Nothing counts while the source is refused. A window that has run out
/// begins anew and forgiven offences are forgotten. The strikes are spent on
/// the penalty rather than held over it.
pub open spec fn charged(m: Mark, now: u32, t: Terms, condemned: bool) -> (Mark, bool) {
    if is_banned(m, now) {
        (m, false)
    } else {
        let fresh = since(now, m.first) >= t.window;
        let strikes = (if fresh { 0int } else { m.strikes as int }) + if condemned { 0int } else { 1int };
        let offences: u32 = if m.offences > 0 && now >= plus(m.until, t.forgive) { 0 } else { m.offences };
        let kept = Mark {
            strikes: strikes as u32,
            offences,
            first: if fresh { now } else { m.first },
            until: m.until,
            seen: now,
        };
        if !condemned && strikes < t.strikes {
            (kept, false)
        } else {
            let n = plus(offences, 1) as u32;
            (Mark { strikes: 0, offences: n, until: plus(now, nth_penalty(t, n) as u32) as u32, ..kept }, true)
        }
    }
}

/// Holds a strike, or a condemnation, against a source.
pub fn charge_mark(m: &mut Mark, now: u32, t: &Terms, condemned: bool) -> (r: bool)
    requires
        old(m).strikes < u32::MAX,
    ensures
        (*final(m), r) == charged(*old(m), now, *t, condemned),
        final(m).strikes < u32::MAX,
{
    if m.banned(now) {
        return false;
    }
    m.seen = now;
    if now.saturating_sub(m.first) >= t.window {
        m.strikes = 0;
        m.first = now;
    }
    if m.offences > 0 && now >= m.until.saturating_add(t.forgive) {
        m.offences = 0;
    }
    if !condemned {
        m.strikes = m.strikes + 1;
        if m.strikes < t.strikes {
            return false;
        }
    }
    m.strikes = 0;
    m.offences = m.offences.saturating_add(1);
    proof {
        law_penalty_bounds(*t, m.offences);
    }
    m.until = now.saturating_add(t.penalty_for(m.offences));
    true
}

/// Nothing a source does while it is refused counts again, and nothing lifts
/// the refusal before its time.
pub proof fn law_penalty_served_in_full(m: Mark, now: u32, t: Terms, condemned: bool)
    requires
        is_banned(m, now),
    ensures
        charged(m, now, t, condemned) == (m, false),
{
}

/// What earns a penalty is an offence: the source is refused from now on, for
/// at least as long as the first penalty and until the clock's end at most.
pub proof fn law_penalty_refuses(m: Mark, now: u32, t: Terms, condemned: bool)
    requires
        charged(m, now, t, condemned).1,
        t.penalty > 0,
        now < u32::MAX,
    ensures
        is_banned(charged(m, now, t, condemned).0, now),
        charged(m, now, t, condemned).0.until >= plus(now, t.penalty),
        charged(m, now, t, condemned).0.strikes == 0,
        charged(m, now, t, condemned).0.offences > 0,
{
    let offences: u32 = if m.offences > 0 && now >= plus(m.until, t.forgive) { 0 } else { m.offences };
    law_penalty_bounds(t, plus(offences, 1) as u32);
}

} // verus!
