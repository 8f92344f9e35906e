//! Clients discovered while running.

use vstd::prelude::*;
use vstd::string::*;

use crate::clients::{inside_any, is_local, local_nets};
use crate::ip::{Ip, canonical};
use crate::probe::sweep::{no_later, select_nth};
use crate::table::ints::IntTable;
use crate::text::{chars_of, lower, lowered, string_of};

verus! {

/// The most runtime clients the network may add.
pub const MAX_RUNTIME: usize = 10_000;

/// How long after it was first recorded an address must ask again to count as
/// returning, in seconds.
pub const RETURNING_AFTER: u32 = 600;

/// How long a returning address may stay silent before it stops counting as
/// one, in seconds.
pub const STALE_AFTER: u32 = 86_400;

/// How a runtime client's name was discovered.
#[derive(Clone, Copy, Debug, PartialEq, Eq, Structural)]
pub enum Source {
    /// The system hosts file.
    Hosts,
    /// A reverse DNS lookup.
    Rdns,
    /// The system ARP table.
    Arp,
    /// A DHCP lease.
    Dhcp,
    /// A WHOIS lookup.
    Whois,
}

impl Source {
    /// The name the API reports.
    pub fn as_str(self) -> (r: &'static str)
        ensures
            r@ == match self {
                Source::Hosts => "etc_hosts"@,
                Source::Rdns => "rdns"@,
                Source::Arp => "arp"@,
                Source::Dhcp => "dhcp"@,
                Source::Whois => "whois"@,
            },
    {
        match self {
            Source::Hosts => "etc_hosts",
            Source::Rdns => "rdns",
            Source::Arp => "arp",
            Source::Dhcp => "dhcp",
            Source::Whois => "whois",
        }
    }
}

/// How much a source is trusted.
pub open spec fn trust(s: Source) -> u8 {
    match s {
        Source::Whois => 0,
        Source::Rdns => 1,
        Source::Arp => 2,
        Source::Dhcp => 3,
        Source::Hosts => 4,
    }
}

/// How much a source is trusted, an unknown one the least.
pub open spec fn trust_of(s: Option<Source>) -> u8 {
    match s {
        Some(s) => trust(s),
        None => 0,
    }
}

/// How much a source is trusted, higher being better.
pub fn rank(s: Source) -> (r: u8)
    ensures
        r == trust(s),
{
    match s {
        Source::Whois => 0,
        Source::Rdns => 1,
        Source::Arp => 2,
        Source::Dhcp => 3,
        Source::Hosts => 4,
    }
}

/// The rank of an optional source, treating "unknown" as the lowest.
pub fn rank_of(s: Option<Source>) -> (r: u8)
    ensures
        r == trust_of(s),
{
    match s {
        Some(s) => rank(s),
        None => 0,
    }
}

/// A client discovered while running.
#[derive(Clone, Debug)]
pub struct RuntimeClient {
    /// The name, if one was found.
    pub name: String,
    /// Where the name came from.
    pub source: Option<Source>,
    /// The hardware address, when the ARP table supplied one.
    pub mac: Option<String>,
    /// WHOIS fields, in the order the API reports them.
    pub whois: Vec<(String, String)>,
}

/// A client, with its texts as sequences.
#[verifier::ext_equal]
pub ghost struct ClientV {
    pub name: Seq<char>,
    pub source: Option<Source>,
    pub mac: Option<Seq<char>>,
    pub whois: Seq<(Seq<char>, Seq<char>)>,
}

/// Fields, with their texts as sequences.
pub open spec fn fields_of(w: Seq<(String, String)>) -> Seq<(Seq<char>, Seq<char>)> {
    w.map_values(|f: (String, String)| (f.0@, f.1@))
}

/// A client of which nothing is known.
pub open spec fn nobody() -> ClientV {
    ClientV { name: Seq::empty(), source: None, mac: None, whois: Seq::empty() }
}

impl RuntimeClient {
    /// The client, with its texts as sequences.
    pub open spec fn view(&self) -> ClientV {
        ClientV {
            name: self.name@,
            source: self.source,
            mac: match self.mac {
                Some(m) => Some(m@),
                None => None,
            },
            whois: fields_of(self.whois@),
        }
    }

    /// The same client.
    pub fn copy(&self) -> (r: Self)
        ensures
            r@ == self@,
    {
        let mac = match &self.mac {
            Some(m) => Some(m.as_str().to_owned()),
            None => None,
        };
        let mut whois: Vec<(String, String)> = Vec::new();
        let mut i: usize = 0;
        while i < self.whois.len()
            invariant
                i <= self.whois@.len(),
                whois@.len() == i,
                forall|k: int|
                    0 <= k < i ==> (#[trigger] whois@[k]).0@ == self.whois@[k].0@ && whois@[k].1@ == self.whois@[k].1@,
            decreases self.whois@.len() - i,
        {
            whois.push((self.whois[i].0.as_str().to_owned(), self.whois[i].1.as_str().to_owned()));
            i = i + 1;
        }
        assert(fields_of(whois@) =~= fields_of(self.whois@));
        let r = RuntimeClient { name: self.name.as_str().to_owned(), source: self.source, mac, whois };
        assert(r@ =~= self@);
        r
    }
}

impl Default for RuntimeClient {
    fn default() -> (r: Self)
        ensures
            r@ == nobody(),
    {
        let r = RuntimeClient { name: String::new(), source: None, mac: None, whois: Vec::new() };
        assert(r@ =~= nobody());
        r
    }
}

/// Which discovery sources are switched on.
#[derive(Clone, Copy, Debug, PartialEq, Eq, Structural)]
pub struct Sources {
    /// Look names up over WHOIS.
    pub whois: bool,
    /// Read the system ARP table.
    pub arp: bool,
    /// Resolve addresses back to names.
    pub rdns: bool,
    /// Use DHCP leases.
    pub dhcp: bool,
    /// Read the system hosts file.
    pub hosts: bool,
}

impl Default for Sources {
    fn default() -> (r: Self)
        ensures
            r == (Sources { whois: false, arp: false, rdns: false, dhcp: false, hosts: false }),
    {
        Sources { whois: false, arp: false, rdns: false, dhcp: false, hosts: false }
    }
}

/// Whether this machine rather than the network supplied what is known: a
/// hosts-file or ARP name, a DHCP lease, or a hardware address.
pub open spec fn is_anchored(c: ClientV) -> bool {
    c.mac is Some || c.source matches Some(Source::Hosts) || c.source matches Some(Source::Arp)
        || c.source matches Some(Source::Dhcp)
}

/// Reports whether this machine rather than the network supplied what is
/// known.
pub fn anchored(c: &RuntimeClient) -> (r: bool)
    ensures
        r == is_anchored(c@),
{
    if c.mac.is_some() {
        return true;
    }
    match c.source {
        Some(Source::Hosts) | Some(Source::Arp) | Some(Source::Dhcp) => true,
        _ => false,
    }
}

/// Whether an address came back a good while after it was first recorded, and
/// is still around.
pub open spec fn is_returning(first: u32, seen: u32, now: u32) -> bool {
    seen - first >= RETURNING_AFTER && now - seen < STALE_AFTER
}

/// How much an operator would miss a learned entry: a local address outranks
/// a stranger's, and a returning one outranks one seen once.
pub open spec fn worth_of(addr: Ip, first: u32, seen: u32, now: u32) -> u8 {
    ((if inside_any(canonical(addr), local_nets()) {
        2int
    } else {
        0int
    }) + (if is_returning(first, seen, now) {
        1int
    } else {
        0int
    })) as u8
}

/// How much an operator would miss a learned entry, lowest first.
pub fn worth(addr: Ip, first: u32, seen: u32, now: u32) -> (r: u8)
    ensures
        r == worth_of(addr, first, seen, now),
{
    let returning = seen.saturating_sub(first) >= RETURNING_AFTER && now.saturating_sub(seen) < STALE_AFTER;
    let local: u8 = if is_local(addr) {
        2
    } else {
        0
    };
    if returning {
        local + 1
    } else {
        local
    }
}

/// An address as a table key: its family and its bits.
pub open spec fn addr_key(ip: Ip) -> (u8, u128) {
    match ip {
        Ip::V4(a) => (4u8, a as u128),
        Ip::V6(a) => (6u8, a),
    }
}

/// The address that a table key stands for.
pub open spec fn key_addr(k: (u8, u128)) -> Ip {
    if k.0 == 4 {
        Ip::V4(k.1 as u32)
    } else {
        Ip::V6(k.1)
    }
}

/// Whether a key stands for an address.
pub open spec fn is_addr_key(k: (u8, u128)) -> bool {
    k.0 == 4 && k.1 <= u32::MAX || k.0 == 6
}

/// A key stands for one address, and an address has one key.
pub proof fn law_addresses_are_told_apart(ip: Ip, k: (u8, u128))
    ensures
        key_addr(addr_key(ip)) == ip,
        is_addr_key(addr_key(ip)),
        is_addr_key(k) ==> addr_key(key_addr(k)) == k,
{
}

fn key_of(ip: Ip) -> (r: (u8, u128))
    ensures
        r == addr_key(ip),
{
    match ip {
        Ip::V4(a) => (4, a as u128),
        Ip::V6(a) => (6, a),
    }
}

fn addr_of(k: (u8, u128)) -> (r: Ip)
    requires
        is_addr_key(k),
    ensures
        r == key_addr(k),
{
    if k.0 == 4 {
        Ip::V4(k.1 as u32)
    } else {
        Ip::V6(k.1)
    }
}

/// A runtime client and what the eviction order needs to know about it.
#[derive(Debug)]
pub struct Slot {
    client: RuntimeClient,
    /// When the address was recorded, on the store's clock.
    first: u32,
    /// When it last asked something.
    seen: u32,
}

/// A slot, with its client's texts as sequences.
pub ghost struct SlotV {
    pub client: ClientV,
    pub first: u32,
    pub seen: u32,
}

impl Slot {
    /// The slot, with its client's texts as sequences.
    pub closed spec fn view(&self) -> SlotV {
        SlotV { client: self.client@, first: self.first, seen: self.seen }
    }

    /// A slot that stands in while another is out of the table: nothing is
    /// known in it.
    fn blank() -> (r: Slot)
        ensures
            r@ == (SlotV { client: nobody(), first: 0, seen: 0 }),
    {
        Slot { client: RuntimeClient::default(), first: 0, seen: 0 }
    }
}

/// The entries that the network taught.
pub open spec fn learned_keys(m: Map<(u8, u128), SlotV>) -> Set<(u8, u128)> {
    m.dom().filter(|k: (u8, u128)| !is_anchored(m[k].client))
}

/// An entry's place in the order of giving up: what it is worth, when it was
/// last seen, and its address.
pub open spec fn place_of(k: (u8, u128), s: SlotV, now: u32) -> (u8, u32, u8, u128) {
    (worth_of(key_addr(k), s.first, s.seen, now), s.seen, k.0, k.1)
}

/// Whether `after` is `before` with learned entries given up until `keep` are
/// left, none before one that comes earlier in the order. What this machine
/// supplied is never given up.
pub open spec fn evicted_to(
    before: Map<(u8, u128), SlotV>,
    after: Map<(u8, u128), SlotV>,
    keep: int,
    now: u32,
) -> bool {
    &&& after.submap_of(before)
    &&& learned_keys(after).len() == keep
    &&& forall|k: (u8, u128)| #[trigger]
        before.contains_key(k) && is_anchored(before[k].client) ==> after.contains_key(k)
    &&& forall|gone: (u8, u128), kept: (u8, u128)|
        before.contains_key(gone) && !#[trigger] after.contains_key(gone) && #[trigger] after.contains_key(kept)
            && !is_anchored(before[kept].client) ==> no_later(
            place_of(gone, before[gone], now),
            place_of(kept, before[kept], now),
        )
}

/// What a discovery adds to what is known.
pub enum Change {
    /// A name and where it came from.
    Name(String, Source),
    /// A hardware address.
    Mac(String),
    /// WHOIS fields.
    Whois(Vec<(String, String)>),
}

/// What a discovery adds, with its texts as sequences.
pub enum ChangeV {
    Name(Seq<char>, Source),
    Mac(Seq<char>),
    Whois(Seq<(Seq<char>, Seq<char>)>),
}

impl Change {
    /// The change, with its texts as sequences.
    pub open spec fn view(&self) -> ChangeV {
        match *self {
            Change::Name(n, s) => ChangeV::Name(n@, s),
            Change::Mac(m) => ChangeV::Mac(m@),
            Change::Whois(w) => ChangeV::Whois(fields_of(w@)),
        }
    }
}

/// A client after a discovery. A name from a more authoritative source wins,
/// and a later one among equals.
pub open spec fn changed(c: ClientV, ch: ChangeV) -> ClientV {
    match ch {
        ChangeV::Name(n, s) => if c.name.len() == 0 || trust(s) >= trust_of(c.source) {
            ClientV { name: n, source: Some(s), ..c }
        } else {
            c
        },
        ChangeV::Mac(m) => ClientV { mac: Some(m), ..c },
        ChangeV::Whois(w) => ClientV { whois: w, ..c },
    }
}

/// Whether anything is known of a client.
pub open spec fn says_something(c: ClientV) -> bool {
    c.name.len() > 0 || c.mac is Some || c.whois.len() > 0
}

/// How many learned entries are kept when room has to be made: a tenth of the
/// cap is freed at a time, and at least one.
pub open spec fn kept_of(cap: int) -> int {
    if cap < 10 {
        cap - 1
    } else {
        cap - cap / 10
    }
}

/// Whether `after` is what a discovery makes of `before`: an entry that is
/// there is changed; otherwise one is made, if there is anything to show, and
/// room is made for it if the network has already filled the table.
pub open spec fn updated(
    before: Map<(u8, u128), SlotV>,
    after: Map<(u8, u128), SlotV>,
    cap: int,
    k: (u8, u128),
    ch: ChangeV,
    now: u32,
) -> bool {
    if before.contains_key(k) {
        after == before.insert(k, SlotV { client: changed(before[k].client, ch), ..before[k] })
    } else {
        let c = changed(nobody(), ch);
        let slot = SlotV { client: c, first: now, seen: now };
        if !says_something(c) {
            after == before
        } else if !is_anchored(c) && learned_keys(before).len() >= cap {
            &&& after.contains_key(k)
            &&& after[k] == slot
            &&& evicted_to(before, after.remove(k), kept_of(cap), now)
        } else {
            after == before.insert(k, slot)
        }
    }
}

/// Whether what is known of a client hangs together: a source belongs to a
/// name.
pub open spec fn coherent(c: ClientV) -> bool {
    c.source is Some ==> c.name.len() > 0
}

/// The store of clients discovered at run time.
///
/// When the network has taught it as many as it may, the entries least worth
/// keeping are given up to make room.
pub struct Runtime {
    table: IntTable<Slot>,
    /// How many entries the network taught.
    learned: usize,
    sources: Sources,
    /// The most entries the network may add.
    cap: usize,
}

/// Slots, with their clients' texts as sequences.
spec fn slots(m: Map<(u8, u128), Slot>) -> Map<(u8, u128), SlotV> {
    m.map_values(|s: Slot| s@)
}

/// The empty or the given name is not learned as a source.
spec fn change_ok(ch: ChangeV) -> bool {
    ch matches ChangeV::Name(n, _) ==> n.len() > 0
}

impl Runtime {
    /// What is known, by address.
    pub closed spec fn view(&self) -> Map<(u8, u128), SlotV> {
        slots(self.table@)
    }

    /// The most entries the network may add.
    pub closed spec fn cap(&self) -> int {
        self.cap as int
    }

    /// Which sources may contribute.
    pub closed spec fn enabled(&self) -> Sources {
        self.sources
    }

    /// Whether the count of learned entries is right and within the cap.
    pub closed spec fn wf(&self) -> bool {
        &&& self.table.wf()
        &&& self@.dom().finite()
        &&& self.learned == learned_keys(self@).len()
        &&& self.learned <= self.cap
        &&& self.cap >= 1
        &&& forall|k: (u8, u128)| #[trigger] self@.contains_key(k) ==> is_addr_key(k) && coherent(self@[k].client)
    }

    /// However many sources have reached the server, the network has taught
    /// the store no more entries than its cap.
    pub proof fn law_bounded(&self)
        requires
            self.wf(),
        ensures
            learned_keys(self@).len() <= self.cap(),
    {
    }

    /// An empty store.
    pub fn new() -> (r: Self)
        ensures
            r.wf(),
            r@ == Map::<(u8, u128), SlotV>::empty(),
            r.cap() == MAX_RUNTIME,
            r.enabled() == (Sources { whois: false, arp: false, rdns: false, dhcp: false, hosts: false }),
    {
        Self::with_cap(MAX_RUNTIME)
    }

    /// An empty store that holds at most `cap` learned entries, and at least
    /// one.
    pub fn with_cap(cap: usize) -> (r: Self)
        ensures
            r.wf(),
            r@ == Map::<(u8, u128), SlotV>::empty(),
            r.cap() == if cap < 1 {
                1
            } else {
                cap as int
            },
            r.enabled() == (Sources { whois: false, arp: false, rdns: false, dhcp: false, hosts: false }),
    {
        let r = Runtime {
            table: IntTable::new(),
            learned: 0,
            sources: Sources::default(),
            cap: if cap < 1 {
                1
            } else {
                cap
            },
        };
        assert(r@ =~= Map::<(u8, u128), SlotV>::empty());
        assert(learned_keys(r@) =~= Set::<(u8, u128)>::empty());
        r
    }

    /// Replaces the enabled sources.
    pub fn set_sources(&mut self, s: Sources)
        requires
            old(self).wf(),
        ensures
            final(self).wf(),
            final(self).enabled() == s,
            final(self)@ == old(self)@,
            final(self).cap() == old(self).cap(),
    {
        self.sources = s;
    }

    /// The enabled sources.
    pub fn sources(&self) -> (r: Sources)
        ensures
            r == self.enabled(),
    {
        self.sources
    }

    /// Records a name for an address. An empty one says nothing.
    pub fn set_name(&mut self, addr: Ip, name: &str, source: Source, now: u32)
        requires
            old(self).wf(),
        ensures
            final(self).wf(),
            final(self).cap() == old(self).cap(),
            final(self).enabled() == old(self).enabled(),
            if name@.len() == 0 {
                final(self)@ == old(self)@
            } else {
                updated(
                    old(self)@,
                    final(self)@,
                    old(self).cap(),
                    addr_key(addr),
                    ChangeV::Name(name@, source),
                    now,
                )
            },
    {
        let c = chars_of(name);
        if c.len() == 0 {
            return;
        }
        self.update(addr, Change::Name(name.to_owned(), source), now);
    }

    /// Records the hardware address the ARP table reports, in lower case. An
    /// empty one says nothing.
    pub fn set_mac(&mut self, addr: Ip, mac: &str, now: u32)
        requires
            old(self).wf(),
        ensures
            final(self).wf(),
            final(self).cap() == old(self).cap(),
            final(self).enabled() == old(self).enabled(),
            if mac@.len() == 0 {
                final(self)@ == old(self)@
            } else {
                updated(old(self)@, final(self)@, old(self).cap(), addr_key(addr), ChangeV::Mac(lower(mac@)), now)
            },
    {
        let c = chars_of(mac);
        if c.len() == 0 {
            return;
        }
        let l = lowered(c.as_slice());
        self.update(addr, Change::Mac(string_of(l.as_slice())), now);
    }

    /// Records WHOIS fields for an address. An empty record for an address
    /// nothing is known about adds nothing.
    pub fn set_whois(&mut self, addr: Ip, fields: Vec<(String, String)>, now: u32)
        requires
            old(self).wf(),
        ensures
            final(self).wf(),
            final(self).cap() == old(self).cap(),
            final(self).enabled() == old(self).enabled(),
            updated(
                old(self)@,
                final(self)@,
                old(self).cap(),
                addr_key(addr),
                ChangeV::Whois(fields_of(fields@)),
                now,
            ),
    {
        self.update(addr, Change::Whois(fields), now);
    }

    /// Changes a client.
    fn apply(c: &mut RuntimeClient, ch: Change)
        ensures
            final(c)@ == changed(old(c)@, ch@),
    {
        let ghost was = c@;
        match ch {
            Change::Name(n, s) => {
                let held = chars_of(c.name.as_str());
                if held.len() == 0 || rank(s) >= rank_of(c.source) {
                    c.name = n;
                    c.source = Some(s);
                }
            },
            Change::Mac(m) => {
                c.mac = Some(m);
            },
            Change::Whois(w) => {
                c.whois = w;
            },
        }
        assert(c@ =~= changed(was, ch@));
    }

    /// Applies a change to an address's entry, making one if it has none and
    /// making room if the network has already filled the table.
    fn update(&mut self, addr: Ip, ch: Change, now: u32)
        requires
            old(self).wf(),
            change_ok(ch@),
        ensures
            final(self).wf(),
            final(self).cap() == old(self).cap(),
            final(self).enabled() == old(self).enabled(),
            updated(old(self)@, final(self)@, old(self).cap(), addr_key(addr), ch@, now),
    {
        let k = key_of(addr);
        let ghost was = self@;
        let ghost m = self.table@;
        let ghost cv = ch@;
        proof {
            self.table.lemma_positions();
            law_addresses_are_told_apart(addr, k);
        }
        match self.table.position(k) {
            Some(i) => {
                let mut slot = Slot::blank();
                self.table.swap_at(i, &mut slot);
                assert(slot@ == was[k]);
                let before = anchored(&slot.client);
                Self::apply(&mut slot.client, ch);
                let after = anchored(&slot.client);
                let ghost sv = slot@;
                let ghost put = slot;
                self.table.swap_at(i, &mut slot);
                proof {
                    assert(self.table@ =~= m.insert(k, put));
                    assert(slots(m.insert(k, put)) =~= was.insert(k, sv));
                    lemma_learned_insert(was, k, sv);
                    assert(was.contains_key(k));
                    if is_anchored(was[k].client) {
                        law_stays_anchored(was[k].client, cv);
                    }
                }
                if !before && after {
                    self.learned = self.learned - 1;
                }
            },
            None => {
                let mut client = RuntimeClient::default();
                Self::apply(&mut client, ch);
                let name = chars_of(client.name.as_str());
                if name.len() == 0 && client.mac.is_none() && client.whois.len() == 0 {
                    return;
                }
                let held = anchored(&client);
                if !held {
                    if self.learned >= self.cap {
                        let tenth: usize = self.cap / 10;
                        let room: usize = if tenth < 1 {
                            1
                        } else {
                            tenth
                        };
                        self.evict(self.cap - room, now);
                    }
                    self.learned = self.learned + 1;
                }
                let ghost mid = self@;
                let ghost mm = self.table@;
                let slot = Slot { client, first: now, seen: now };
                let ghost sv = slot@;
                self.table.insert(k, slot);
                proof {
                    assert(!was.contains_key(k));
                    assert(mid.submap_of(was));
                    assert(!mid.contains_key(k)) by {
                        assert(mid.dom().subset_of(was.dom()));
                    }
                    assert(slots(mm.insert(k, slot)) =~= mid.insert(k, sv));
                    lemma_learned_insert(mid, k, sv);
                    assert(mid.insert(k, sv).remove(k) =~= mid);
                }
            },
        }
    }

    /// Gives up learned entries until `keep` are left, the least worth keeping
    /// first and the least recently seen first among equals.
    fn evict(&mut self, keep: usize, now: u32)
        requires
            old(self).wf(),
            keep < old(self).learned,
        ensures
            final(self).wf(),
            final(self).cap == old(self).cap,
            final(self).sources == old(self).sources,
            final(self).learned == keep,
            evicted_to(old(self)@, final(self)@, keep as int, now),
    {
        let ghost start = *self;
        let ghost was = self@;
        let ghost ks = self.table.keys();
        proof {
            self.table.lemma_positions();
        }
        let n: usize = self.table.len();
        let mut order: Vec<(u8, u32, u8, u128)> = Vec::new();
        let mut i: usize = 0;
        while i < n
            invariant
                *self == start,
                start.wf(),
                was == start@,
                ks == start.table.keys(),
                n == ks.len(),
                i <= n,
                ks.no_duplicates(),
                forall|j: int| 0 <= j < ks.len() ==> was.contains_key(#[trigger] ks[j]),
                listed(was, order@, now),
                forall|x: (u8, u32, u8, u128)| #[trigger]
                    order@.contains(x) ==> exists|j: int| 0 <= j < i && #[trigger] ks[j] == (x.2, x.3),
                forall|j: int|
                    0 <= j < i && !is_anchored(was[#[trigger] ks[j]].client) ==> order@.contains(
                        place_of(ks[j], was[ks[j]], now),
                    ),
            decreases n - i,
        {
            let k = self.table.key_at(i);
            let s = self.table.value_at(i);
            assert(was.contains_key(ks[i as int]));
            assert(s@ == was[k]);
            let ghost before = order@;
            if !anchored(&s.client) {
                let p = (worth(addr_of(k), s.first, s.seen, now), s.seen, k.0, k.1);
                assert(p == place_of(k, was[k], now));
                order.push(p);
                proof {
                    assert(order@[before.len() as int] == p);
                    assert forall|a: int, b: int| 0 <= a < b < order@.len() implies ((#[trigger] order@[a]).2, order@[a].3)
                        != ((#[trigger] order@[b]).2, order@[b].3) by {
                        if b == before.len() {
                            assert(before.contains(before[a]));
                            let j = choose|j: int| 0 <= j < i && #[trigger] ks[j] == (before[a].2, before[a].3);
                            assert(ks[j] != ks[i as int]);
                        }
                    }
                    assert forall|x: (u8, u32, u8, u128)| #[trigger] order@.contains(x) implies exists|j: int|
                        0 <= j < i + 1 && #[trigger] ks[j] == (x.2, x.3) by {
                        let a = order@.index_of(x);
                        if a < before.len() {
                            assert(before[a] == x);
                            assert(before.contains(x));
                        } else {
                            assert(ks[i as int] == (x.2, x.3));
                        }
                    }
                    assert forall|j: int| 0 <= j < i && !is_anchored(was[#[trigger] ks[j]].client) implies order@.contains(
                        place_of(ks[j], was[ks[j]], now),
                    ) by {
                        let x = place_of(ks[j], was[ks[j]], now);
                        assert(before.contains(x));
                        assert(order@[before.index_of(x)] == x);
                    }
                }
            }
            i = i + 1;
        }
        proof {
            assert forall|k: (u8, u128)| #[trigger] learned_keys(was).contains(k) implies order@.contains(
                place_of(k, was[k], now),
            ) by {
                assert(start.table@.contains_key(k));
                let j = ks.index_of(k);
                assert(ks[j] == k);
            }
            lemma_listed_len(was, order@, now);
        }
        let excess: usize = order.len() - keep;
        let ghost list = order@;
        select_nth(&mut order, excess - 1);
        proof {
            lemma_reordered(was, list, order@, now);
        }
        let total: usize = order.len();
        let mut i: usize = 0;
        while i < excess
            invariant
                self.table.wf(),
                self.cap == start.cap,
                self.sources == start.sources,
                was == start@,
                was.dom().finite(),
                excess <= total,
                i <= excess,
                total == order@.len(),
                listed(was, order@, now),
                self@.submap_of(was),
                forall|k: (u8, u128)| #[trigger]
                    was.contains_key(k) && !self@.contains_key(k) ==> exists|j: int|
                        0 <= j < i && (#[trigger] order@[j]).2 == k.0 && order@[j].3 == k.1,
                forall|j: int| 0 <= j < i ==> !self@.contains_key(((#[trigger] order@[j]).2, order@[j].3)),
                forall|j: int| i <= j < total ==> self@.contains_key(((#[trigger] order@[j]).2, order@[j].3)),
                learned_keys(self@).len() == total - i,
                self@.dom().finite(),
            decreases excess - i,
        {
            let o = order[i];
            let ghost before = self@;
            let ghost bm = self.table@;
            let ghost k = (o.2, o.3);
            assert(before.contains_key((order@[i as int].2, order@[i as int].3)));
            self.table.remove((o.2, o.3));
            proof {
                assert(slots(bm.remove(k)) =~= before.remove(k));
                assert(self@ == before.remove(k));
                lemma_learned_remove(before, k);
                assert(!is_anchored(was[k].client));
                assert(before[k] == was[k]);
                assert forall|q: (u8, u128)| #[trigger] was.contains_key(q) && !self@.contains_key(q) implies exists|j: int|
                    0 <= j < i + 1 && (#[trigger] order@[j]).2 == q.0 && order@[j].3 == q.1 by {
                    if q == k {
                        assert(order@[i as int].2 == q.0 && order@[i as int].3 == q.1);
                    } else {
                        assert(!before.contains_key(q));
                    }
                }
                assert forall|j: int| i + 1 <= j < total implies self@.contains_key(((#[trigger] order@[j]).2, order@[j].3)) by {
                    assert(before.contains_key((order@[j].2, order@[j].3)));
                    assert((order@[i as int].2, order@[i as int].3) != (order@[j].2, order@[j].3));
                }
            }
            i = i + 1;
        }
        self.learned = keep;
        proof {
            assert forall|k: (u8, u128)| #[trigger] was.contains_key(k) && is_anchored(was[k].client) implies self@.contains_key(k) by {
                if !self@.contains_key(k) {
                    let j = choose|j: int| 0 <= j < excess && (#[trigger] order@[j]).2 == k.0 && order@[j].3 == k.1;
                    assert(!is_anchored(was[(order@[j].2, order@[j].3)].client));
                }
            }
            assert forall|gone: (u8, u128), kept: (u8, u128)|
                was.contains_key(gone) && !#[trigger] self@.contains_key(gone) && #[trigger] self@.contains_key(kept)
                    && !is_anchored(was[kept].client) implies no_later(
                place_of(gone, was[gone], now),
                place_of(kept, was[kept], now),
            ) by {
                let a = choose|j: int| 0 <= j < excess && (#[trigger] order@[j]).2 == gone.0 && order@[j].3 == gone.1;
                assert(order@[a] == place_of(gone, was[gone], now));
                assert(was.contains_key(kept));
                assert(learned_keys(was).contains(kept));
                let x = place_of(kept, was[kept], now);
                assert(list.contains(x));
                assert(order@.contains(x));
                let b = order@.index_of(x);
                assert(order@[b] == x);
                assert(b >= excess) by {
                    if b < excess {
                        assert(!self@.contains_key((order@[b].2, order@[b].3)));
                    }
                }
                assert(no_later(order@[a], order@[excess - 1]));
                assert(no_later(order@[excess - 1], order@[b]));
            }
            assert forall|k: (u8, u128)| #[trigger] self@.contains_key(k) implies is_addr_key(k) && coherent(self@[k].client) by {
                assert(was.contains_key(k));
            }
        }
    }

    /// Looks an address up.
    pub fn get(&self, addr: Ip) -> (r: Option<RuntimeClient>)
        requires
            self.wf(),
        ensures
            match r {
                Some(c) => self@.contains_key(addr_key(addr)) && c@ == self@[addr_key(addr)].client,
                None => !self@.contains_key(addr_key(addr)),
            },
    {
        match self.table.get(key_of(addr)) {
            Some(s) => {
                assert(s@ == self@[addr_key(addr)]);
                Some(s.client.copy())
            },
            None => None,
        }
    }

    /// The hardware address known for an address, if any.
    pub fn mac_of(&self, addr: Ip) -> (r: Option<String>)
        requires
            self.wf(),
        ensures
            match r {
                Some(m) => self@.contains_key(addr_key(addr)) && self@[addr_key(addr)].client.mac == Some(m@),
                None => !self@.contains_key(addr_key(addr)) || self@[addr_key(addr)].client.mac is None,
            },
    {
        match self.table.get(key_of(addr)) {
            Some(s) => {
                assert(s@ == self@[addr_key(addr)]);
                match &s.client.mac {
                    Some(m) => Some(m.as_str().to_owned()),
                    None => None,
                }
            },
            None => None,
        }
    }

    /// The name known for an address, or an empty string.
    pub fn name_of(&self, addr: Ip) -> (r: String)
        requires
            self.wf(),
        ensures
            r@ == if self@.contains_key(addr_key(addr)) {
                self@[addr_key(addr)].client.name
            } else {
                Seq::<char>::empty()
            },
    {
        match self.table.get(key_of(addr)) {
            Some(s) => {
                assert(s@ == self@[addr_key(addr)]);
                s.client.name.as_str().to_owned()
            },
            None => String::new(),
        }
    }

    /// Reports whether an address has already been looked at.
    pub fn is_known(&self, addr: Ip) -> (r: bool)
        requires
            self.wf(),
        ensures
            r == self@.contains_key(addr_key(addr)),
    {
        self.table.contains(key_of(addr))
    }

    /// Notes that an address asked something, and reports whether anything is
    /// known about it. The time it was seen only moves forward.
    pub fn touch(&mut self, addr: Ip, now: u32) -> (r: bool)
        requires
            old(self).wf(),
        ensures
            final(self).wf(),
            final(self).cap() == old(self).cap(),
            final(self).enabled() == old(self).enabled(),
            r == old(self)@.contains_key(addr_key(addr)),
            final(self)@ == if r && old(self)@[addr_key(addr)].seen < now {
                old(self)@.insert(addr_key(addr), SlotV { seen: now, ..old(self)@[addr_key(addr)] })
            } else {
                old(self)@
            },
    {
        let k = key_of(addr);
        let ghost was = self@;
        let ghost m = self.table@;
        proof {
            self.table.lemma_positions();
        }
        match self.table.position(k) {
            None => false,
            Some(i) => {
                let s = self.table.value_at(i);
                assert(s@ == was[k]);
                if s.seen < now {
                    let mut slot = Slot::blank();
                    self.table.swap_at(i, &mut slot);
                    slot.seen = now;
                    let ghost put = slot;
                    self.table.swap_at(i, &mut slot);
                    proof {
                        assert(self.table@ =~= m.insert(k, put));
                        assert(slots(m.insert(k, put)) =~= was.insert(k, put@));
                        lemma_learned_insert(was, k, put@);
                    }
                }
                true
            },
        }
    }

    /// How many addresses the store holds.
    pub fn len(&self) -> (r: usize)
        requires
            self.wf(),
        ensures
            r == self@.len(),
    {
        proof {
            self.table.lemma_positions();
            assert(self@.dom() =~= self.table@.dom());
        }
        self.table.len()
    }

    /// Reports whether the store holds nothing.
    pub fn is_empty(&self) -> (r: bool)
        requires
            self.wf(),
        ensures
            r == (self@.len() == 0),
    {
        self.len() == 0
    }

    /// How many addresses the store holds, and how many of those carry a
    /// WHOIS record.
    pub fn sizes(&self) -> (r: (usize, usize))
        requires
            self.wf(),
        ensures
            r.0 == self@.len(),
            r.1 == self@.dom().filter(|k: (u8, u128)| self@[k].client.whois.len() > 0).len(),
    {
        let n = self.len();
        let ghost f = |k: (u8, u128)| self@[k].client.whois.len() > 0;
        let ghost ks = self.table.keys();
        proof {
            self.table.lemma_positions();
            assert(self@.dom() =~= ks.to_set());
        }
        let mut with: usize = 0;
        let mut i: usize = 0;
        assert(ks.take(0).to_set().filter(f) =~= Set::<(u8, u128)>::empty());
        while i < n
            invariant
                self.wf(),
                ks == self.table.keys(),
                n == ks.len(),
                i <= n,
                ks.no_duplicates(),
                f == (|k: (u8, u128)| self@[k].client.whois.len() > 0),
                with <= i,
                with == ks.take(i as int).to_set().filter(f).len(),
                ks.take(i as int).to_set().filter(f).finite(),
            decreases n - i,
        {
            proof {
                self.table.lemma_positions();
                let a = ks.take(i as int).to_set();
                let b = ks.take(i + 1).to_set();
                let k = ks[i as int];
                assert(b =~= a.insert(k)) by {
                    assert forall|x: (u8, u128)| b.contains(x) == a.insert(k).contains(x) by {
                        if b.contains(x) {
                            let j = ks.take(i + 1).index_of(x);
                            if j < i {
                                assert(ks.take(i as int)[j] == x);
                            }
                        }
                        if a.contains(x) {
                            let j = ks.take(i as int).index_of(x);
                            assert(ks.take(i + 1)[j] == x);
                        }
                        assert(ks.take(i + 1)[i as int] == k);
                    }
                }
                assert(!a.contains(k)) by {
                    if a.contains(k) {
                        let j = ks.take(i as int).index_of(k);
                        assert(ks[j] == ks[i as int]);
                    }
                }
                assert(self.table@.contains_key(k));
                assert(self@[k] == self.table@[k]@);
                if f(k) {
                    assert(b.filter(f) =~= a.filter(f).insert(k));
                } else {
                    assert(b.filter(f) =~= a.filter(f));
                }
            }
            let s = self.table.value_at(i);
            if s.client.whois.len() > 0 {
                with = with + 1;
            }
            i = i + 1;
        }
        assert(ks.take(i as int) =~= ks);
        (n, with)
    }

    /// Every known client, sorted by address.
    pub fn all(&self) -> (r: Vec<(Ip, RuntimeClient)>)
        requires
            self.wf(),
        ensures
            r@.len() == self@.len(),
            forall|i: int|
                0 <= i < r@.len() ==> self@.contains_key(addr_key((#[trigger] r@[i]).0)) && r@[i].1@ == self@[addr_key(
                    r@[i].0,
                )].client,
            forall|i: int, j: int|
                0 <= i < j < r@.len() ==> key_before(addr_key((#[trigger] r@[i]).0), addr_key((#[trigger] r@[j]).0)),
    {
        let ghost ks = self.table.keys();
        proof {
            self.table.lemma_positions();
            assert(self@.dom() =~= self.table@.dom());
        }
        let n: usize = self.table.len();
        let mut keys: Vec<(u8, u128)> = Vec::new();
        let mut i: usize = 0;
        while i < n
            invariant
                self.wf(),
                ks == self.table.keys(),
                n == ks.len(),
                i <= n,
                keys@ =~= ks.take(i as int),
            decreases n - i,
        {
            keys.push(self.table.key_at(i));
            i = i + 1;
        }
        assert(keys@ =~= ks);
        sort_keys(&mut keys);
        proof {
            lemma_sorted_keys(ks, keys@);
        }
        let mut out: Vec<(Ip, RuntimeClient)> = Vec::new();
        let mut i: usize = 0;
        while i < n
            invariant
                self.wf(),
                n == keys@.len(),
                i <= n,
                out@.len() == i,
                forall|j: int| 0 <= j < n ==> self.table@.contains_key(#[trigger] keys@[j]),
                forall|j: int|
                    0 <= j < i ==> addr_key((#[trigger] out@[j]).0) == keys@[j] && out@[j].1@ == self@[keys@[j]].client,
            decreases n - i,
        {
            let k = keys[i];
            assert(self.table@.contains_key(keys@[i as int]));
            assert(self@.contains_key(k));
            match self.table.get(k) {
                Some(s) => {
                    assert(s@ == self@[k]);
                    let ip = addr_of(k);
                    proof {
                        law_addresses_are_told_apart(ip, k);
                    }
                    out.push((ip, s.client.copy()));
                },
                None => {},
            }
            i = i + 1;
        }
        proof {
            assert forall|a: int, b: int| 0 <= a < b < out@.len() implies key_before(
                addr_key((#[trigger] out@[a]).0),
                addr_key((#[trigger] out@[b]).0),
            ) by {
                assert(key_before(keys@[a], keys@[b]));
            }
            assert forall|a: int| 0 <= a < out@.len() implies self@.contains_key(addr_key((#[trigger] out@[a]).0))
                && out@[a].1@ == self@[addr_key(out@[a].0)].client by {
                assert(self.table@.contains_key(keys@[a]));
            }
        }
        out
    }

    /// Forgets everything.
    pub fn clear(&mut self)
        requires
            old(self).wf(),
        ensures
            final(self).wf(),
            final(self)@ == Map::<(u8, u128), SlotV>::empty(),
            final(self).cap() == old(self).cap(),
            final(self).enabled() == old(self).enabled(),
    {
        self.table = IntTable::new();
        self.learned = 0;
        assert(self@ =~= Map::<(u8, u128), SlotV>::empty());
        assert(learned_keys(self@) =~= Set::<(u8, u128)>::empty());
    }
}

/// Whether one key comes before another in the order of pairs.
pub open spec fn key_before(a: (u8, u128), b: (u8, u128)) -> bool {
    a.0 < b.0 || (a.0 == b.0 && a.1 < b.1)
}

/// `slice::sort_unstable`: puts the pairs in order.
#[verifier::external_body]
fn sort_keys(v: &mut Vec<(u8, u128)>)
    ensures
        final(v)@.to_multiset() == old(v)@.to_multiset(),
        forall|i: int, j: int|
            0 <= i < j < final(v)@.len() ==> key_before(#[trigger] final(v)@[i], #[trigger] final(v)@[j])
                || final(v)@[i] == final(v)@[j],
{
    v.sort_unstable();
}

proof fn lemma_sorted_keys(ks: Seq<(u8, u128)>, s: Seq<(u8, u128)>)
    requires
        ks.no_duplicates(),
        s.to_multiset() == ks.to_multiset(),
        forall|i: int, j: int| 0 <= i < j < s.len() ==> key_before(#[trigger] s[i], #[trigger] s[j]) || s[i] == s[j],
    ensures
        s.len() == ks.len(),
        forall|i: int| 0 <= i < s.len() ==> ks.contains(#[trigger] s[i]),
        forall|i: int, j: int| 0 <= i < j < s.len() ==> key_before(#[trigger] s[i], #[trigger] s[j]),
{
    ks.to_multiset_ensures();
    s.to_multiset_ensures();
    ks.lemma_multiset_has_no_duplicates();
    s.lemma_multiset_has_no_duplicates_conv();
    assert forall|i: int| 0 <= i < s.len() implies ks.contains(#[trigger] s[i]) by {
        assert(s.contains(s[i]));
        assert(ks.to_multiset().count(s[i]) > 0);
    }
}

/// Whether `order` lists places of learned entries, each address once.
spec fn listed(m: Map<(u8, u128), SlotV>, order: Seq<(u8, u32, u8, u128)>, now: u32) -> bool {
    &&& forall|j: int|
        0 <= j < order.len() ==> m.contains_key(((#[trigger] order[j]).2, order[j].3)) && !is_anchored(
            m[(order[j].2, order[j].3)].client,
        ) && order[j] == place_of((order[j].2, order[j].3), m[(order[j].2, order[j].3)], now)
    &&& forall|a: int, b: int|
        0 <= a < b < order.len() ==> ((#[trigger] order[a]).2, order[a].3) != ((#[trigger] order[b]).2, order[b].3)
}

proof fn lemma_listed_len(m: Map<(u8, u128), SlotV>, order: Seq<(u8, u32, u8, u128)>, now: u32)
    requires
        m.dom().finite(),
        listed(m, order, now),
        forall|k: (u8, u128)| #[trigger] learned_keys(m).contains(k) ==> order.contains(place_of(k, m[k], now)),
    ensures
        order.len() == learned_keys(m).len(),
{
    let ks = order.map_values(|x: (u8, u32, u8, u128)| (x.2, x.3));
    assert(ks.no_duplicates()) by {
        assert forall|i: int, j: int| 0 <= i < ks.len() && 0 <= j < ks.len() && i != j implies ks[i] != ks[j] by {
            if i < j {
                assert((order[i].2, order[i].3) != (order[j].2, order[j].3));
            } else {
                assert((order[j].2, order[j].3) != (order[i].2, order[i].3));
            }
        }
    }
    ks.unique_seq_to_set();
    assert(ks.to_set() =~= learned_keys(m)) by {
        assert forall|k: (u8, u128)| ks.to_set().contains(k) == learned_keys(m).contains(k) by {
            if ks.contains(k) {
                let i = ks.index_of(k);
                assert(m.contains_key((order[i].2, order[i].3)));
            }
            if learned_keys(m).contains(k) {
                let x = place_of(k, m[k], now);
                assert(order.contains(x));
                let i = order.index_of(x);
                assert(ks[i] == k);
            }
        }
    }
}

proof fn lemma_reordered(
    m: Map<(u8, u128), SlotV>,
    list: Seq<(u8, u32, u8, u128)>,
    order: Seq<(u8, u32, u8, u128)>,
    now: u32,
)
    requires
        listed(m, list, now),
        order.to_multiset() == list.to_multiset(),
    ensures
        listed(m, order, now),
        order.len() == list.len(),
        forall|x: (u8, u32, u8, u128)| #[trigger] list.contains(x) ==> order.contains(x),
{
    list.to_multiset_ensures();
    order.to_multiset_ensures();
    assert(list.no_duplicates()) by {
        assert forall|i: int, j: int| 0 <= i < list.len() && 0 <= j < list.len() && i != j implies list[i] != list[j] by {
            if i < j {
                assert((list[i].2, list[i].3) != (list[j].2, list[j].3));
            } else {
                assert((list[j].2, list[j].3) != (list[i].2, list[i].3));
            }
        }
    }
    list.lemma_multiset_has_no_duplicates();
    order.lemma_multiset_has_no_duplicates_conv();
    assert forall|j: int| 0 <= j < order.len() implies m.contains_key(((#[trigger] order[j]).2, order[j].3)) && !is_anchored(
        m[(order[j].2, order[j].3)].client,
    ) && order[j] == place_of((order[j].2, order[j].3), m[(order[j].2, order[j].3)], now) by {
        assert(order.contains(order[j]));
        assert(list.to_multiset().count(order[j]) > 0);
        assert(list.contains(order[j]));
        let i = list.index_of(order[j]);
        assert(list[i] == order[j]);
    }
    assert forall|a: int, b: int| 0 <= a < b < order.len() implies ((#[trigger] order[a]).2, order[a].3) != (
        (#[trigger] order[b]).2,
        order[b].3,
    ) by {
        if (order[a].2, order[a].3) == (order[b].2, order[b].3) {
            assert(order[a] == order[b]);
        }
    }
    assert forall|x: (u8, u32, u8, u128)| #[trigger] list.contains(x) implies order.contains(x) by {
        assert(order.to_multiset().count(x) > 0);
    }
}

pub(crate) proof fn lemma_learned_insert(m: Map<(u8, u128), SlotV>, k: (u8, u128), s: SlotV)
    requires
        m.dom().finite(),
    ensures
        m.insert(k, s).dom().finite(),
        learned_keys(m.insert(k, s)).len() == learned_keys(m).len() + (if is_anchored(s.client) {
            0int
        } else {
            1int
        }) - (if m.contains_key(k) && !is_anchored(m[k].client) {
            1int
        } else {
            0int
        }),
{
    let n = m.insert(k, s);
    let a = learned_keys(m);
    let b = learned_keys(n);
    assert(n.dom() =~= m.dom().insert(k));
    assert(a.finite() && b.finite());
    if is_anchored(s.client) {
        assert(b =~= a.remove(k));
    } else {
        assert(b =~= a.insert(k));
    }
}

proof fn lemma_learned_remove(m: Map<(u8, u128), SlotV>, k: (u8, u128))
    requires
        m.dom().finite(),
        m.contains_key(k),
    ensures
        m.remove(k).dom().finite(),
        learned_keys(m.remove(k)).len() == learned_keys(m).len() - (if is_anchored(m[k].client) {
            0int
        } else {
            1int
        }),
{
    let n = m.remove(k);
    assert(n.dom() =~= m.dom().remove(k));
    let a = learned_keys(m);
    let b = learned_keys(n);
    assert(a.finite());
    if is_anchored(m[k].client) {
        assert(b =~= a);
    } else {
        assert(b =~= a.remove(k));
    }
}

/// What this machine supplied stays: no discovery takes it out of the store.
pub proof fn law_anchored_stays(
    before: Map<(u8, u128), SlotV>,
    after: Map<(u8, u128), SlotV>,
    cap: int,
    k: (u8, u128),
    ch: ChangeV,
    now: u32,
    held: (u8, u128),
)
    requires
        updated(before, after, cap, k, ch, now),
        before.contains_key(held),
        is_anchored(before[held].client),
    ensures
        after.contains_key(held),
        held != k ==> after[held] == before[held],
{
    if !before.contains_key(k) && after != before {
        let c = changed(nobody(), ch);
        if says_something(c) && !is_anchored(c) && learned_keys(before).len() >= cap {
            assert(after.remove(k).contains_key(held));
        }
    }
}

/// A flood of strangers seen once cannot push out a local address or one that
/// came back: where one such is given up, every stranger seen once is gone.
pub proof fn law_strangers_go_first(
    before: Map<(u8, u128), SlotV>,
    after: Map<(u8, u128), SlotV>,
    keep: int,
    now: u32,
    stranger: (u8, u128),
    other: (u8, u128),
)
    requires
        evicted_to(before, after, keep, now),
        before.contains_key(stranger),
        !is_anchored(before[stranger].client),
        before.contains_key(other),
        worth_of(key_addr(stranger), before[stranger].first, before[stranger].seen, now) < worth_of(
            key_addr(other),
            before[other].first,
            before[other].seen,
            now,
        ),
        !after.contains_key(other),
    ensures
        !after.contains_key(stranger),
{
}

/// What this machine supplied is not forgotten by learning more: a client it
/// supplied stays such a client.
pub proof fn law_stays_anchored(c: ClientV, ch: ChangeV)
    requires
        coherent(c),
        is_anchored(c),
    ensures
        is_anchored(changed(c, ch)),
{
}

/// A name is replaced only by one of a source that is trusted as much.
pub proof fn law_better_source_wins(c: ClientV, name: Seq<char>, s: Source)
    requires
        c.name.len() > 0,
    ensures
        changed(c, ChangeV::Name(name, s)).name == if trust(s) >= trust_of(c.source) {
            name
        } else {
            c.name
        },
{
}

} // verus!
