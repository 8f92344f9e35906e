//! Clients from the configuration, and what they are recognised by.

use vstd::prelude::*;
use vstd::slice::slice_subrange;
use vstd::string::*;

use crate::asked::{answer, ask, settled};
use crate::clients::{in_subnet, inside};
use crate::ip::Ip;
use crate::multi::picked;
use crate::server::access::{read_small, small_number};
use crate::text::{
    chars_of, find, first_at, join, lower, lowered, same_but_case, same_folded, string_of, strings, trim, trimmed,
};

verus! {

/// One way of identifying a client.
#[derive(Clone, Debug, PartialEq, Eq)]
pub enum Id {
    /// A single address.
    Addr(Ip),
    /// A subnet.
    Net(Ip, u8),
    /// A MAC address, normalised to lowercase hex with colons.
    Mac(String),
    /// A ClientID, as carried by a DoH path segment or a DoT server name.
    Named(String),
}

/// An identifier, with its text as a sequence.
pub enum IdV {
    Addr(Ip),
    Net(Ip, u8),
    Mac(Seq<char>),
    Named(Seq<char>),
}

/// A hexadecimal digit.
pub open spec fn is_hex(c: char) -> bool {
    ('0' <= c && c <= '9') || ('a' <= c && c <= 'f') || ('A' <= c && c <= 'F')
}

/// Whether a text looks like a MAC address: six or eight pairs of hexadecimal
/// digits, with a colon or a hyphen between them.
pub open spec fn mac_like(s: Seq<char>) -> bool {
    &&& s.len() == 17 || s.len() == 23
    &&& forall|i: int| 0 <= i < s.len() ==> mac_char(#[trigger] s[i], i)
}

/// Whether `c` may stand at `i` in a MAC address.
pub open spec fn mac_char(c: char, i: int) -> bool {
    if i % 3 == 2 {
        c == ':' || c == '-'
    } else {
        is_hex(c)
    }
}

/// A hardware address as it is compared: in lower case, with colons.
pub open spec fn plain_mac(s: Seq<char>) -> Seq<char> {
    lower(s).map_values(|c: char| if c == '-' { ':' } else { c })
}

/// Reports whether a string looks like a MAC address.
pub fn is_mac(s: &str) -> (r: bool)
    ensures
        r == mac_like(s@),
{
    let c = chars_of(s);
    looks_like_mac(c.as_slice())
}

fn looks_like_mac(c: &[char]) -> (r: bool)
    ensures
        r == mac_like(c@),
{
    let n: usize = c.len();
    if n != 17 && n != 23 {
        return false;
    }
    let mut i: usize = 0;
    while i < n
        invariant
            i <= n,
            n == c@.len(),
            forall|k: int| 0 <= k < i ==> mac_char(#[trigger] c@[k], k),
        decreases n - i,
    {
        let x: char = c[i];
        let ok = if i % 3 == 2 {
            x == ':' || x == '-'
        } else {
            ('0' <= x && x <= '9') || ('a' <= x && x <= 'f') || ('A' <= x && x <= 'F')
        };
        if !ok {
            assert(!mac_char(c@[i as int], i as int));
            return false;
        }
        i = i + 1;
    }
    true
}

/// A hardware address as it is compared.
fn normal_mac(c: &[char]) -> (r: Vec<char>)
    ensures
        r@ == plain_mac(c@),
{
    let l = lowered(c);
    let mut out: Vec<char> = Vec::new();
    let mut i: usize = 0;
    while i < l.len()
        invariant
            i <= l@.len(),
            l@ == lower(c@),
            out@.len() == i,
            forall|k: int| 0 <= k < i ==> #[trigger] out@[k] == plain_mac(c@)[k],
        decreases l@.len() - i,
    {
        out.push(
            if l[i] == '-' {
                ':'
            } else {
                l[i]
            },
        );
        i = i + 1;
    }
    assert(out@ =~= plain_mac(c@));
    out
}

/// What a text identifies, where `address` says which address one spells. A
/// blank one identifies nothing.
pub open spec fn id_of(s: Seq<char>, address: spec_fn(Seq<char>) -> Option<Ip>) -> Option<IdV> {
    let t = trimmed(s);
    let slash = first_at(t, '/');
    let net = address(t.take(slash));
    let bits = small_number(t.skip(slash + 1));
    if t.len() == 0 {
        None
    } else if address(t) is Some {
        Some(IdV::Addr(address(t)->0))
    } else if slash < t.len() && net is Some && bits is Some {
        Some(IdV::Net(net->0, bits->0))
    } else if mac_like(t) {
        Some(IdV::Mac(plain_mac(t)))
    } else {
        Some(IdV::Named(lower(t)))
    }
}

/// How specific an identifier is.
pub open spec fn id_rank(id: IdV) -> u16 {
    match id {
        IdV::Named(_) => 1000,
        IdV::Mac(_) => 900,
        IdV::Addr(_) => 800,
        IdV::Net(_, bits) => bits as u16,
    }
}

/// Who a request comes from, as far as it is known.
pub ghost struct Asker {
    pub addr: Option<Ip>,
    pub client_id: Option<Seq<char>>,
    pub mac: Option<Seq<char>>,
}

/// A text that may be there, as a sequence.
pub open spec fn text_of(s: Option<&str>) -> Option<Seq<char>> {
    match s {
        Some(t) => Some(t@),
        None => None,
    }
}

/// Whether an identifier matches a request's client.
pub open spec fn identifies(id: IdV, who: Asker) -> bool {
    match id {
        IdV::Addr(a) => who.addr == Some(a),
        IdV::Net(net, bits) => who.addr matches Some(a) && inside(a, net, bits),
        IdV::Mac(want) => who.mac matches Some(m) && plain_mac(m) == want,
        IdV::Named(want) => who.client_id matches Some(c) && same_folded(c, want),
    }
}

impl Id {
    /// The identifier, with its text as a sequence.
    pub open spec fn view(&self) -> IdV {
        match *self {
            Id::Addr(a) => IdV::Addr(a),
            Id::Net(a, bits) => IdV::Net(a, bits),
            Id::Mac(s) => IdV::Mac(s@),
            Id::Named(s) => IdV::Named(s@),
        }
    }

    /// Parses an identifier as a client list writes them.
    pub fn parse<A: Fn(&str) -> Option<Ip>>(s: &str, address: &A) -> (r: Option<Self>)
        requires
            settled(*address),
        ensures
            match (r, id_of(s@, |t: Seq<char>| answer(*address, t))) {
                (Some(id), Some(v)) => id@ == v,
                (None, None) => true,
                _ => false,
            },
    {
        let all = chars_of(s);
        let c = trim(all.as_slice());
        let n: usize = c.len();
        if n == 0 {
            return None;
        }
        let t = string_of(c);
        if let Some(ip) = ask(address, t.as_str()) {
            return Some(Id::Addr(ip));
        }
        let slash = find(c, '/');
        if slash < n {
            let head = string_of(slice_subrange(c, 0, slash));
            assert(head@ =~= c@.take(slash as int));
            let rest = slice_subrange(c, slash + 1, n);
            assert(rest@ =~= c@.skip(slash + 1));
            if let Some(ip) = ask(address, head.as_str()) {
                if let Some(bits) = read_small(rest) {
                    return Some(Id::Net(ip, bits));
                }
            }
        }
        if looks_like_mac(c) {
            let m = normal_mac(c);
            return Some(Id::Mac(string_of(m.as_slice())));
        }
        let l = lowered(c);
        Some(Id::Named(string_of(l.as_slice())))
    }

    /// How specific this identifier is; a more specific match wins.
    pub fn specificity(&self) -> (r: u16)
        ensures
            r == id_rank(self@),
    {
        match self {
            Id::Named(_) => 1000,
            Id::Mac(_) => 900,
            Id::Addr(_) => 800,
            Id::Net(_, bits) => *bits as u16,
        }
    }

    /// Reports whether this identifier matches a request's client.
    ///
    /// A query carries no hardware address, so a MAC identifier matches only
    /// when one has already been tied to the client's address.
    pub fn matches(&self, addr: Option<Ip>, client_id: Option<&str>, mac: Option<&str>) -> (r: bool)
        ensures
            r == identifies(self@, Asker { addr, client_id: text_of(client_id), mac: text_of(mac) }),
    {
        match self {
            Id::Addr(a) => match addr {
                Some(b) => b == *a,
                None => false,
            },
            Id::Net(net, bits) => match addr {
                Some(a) => in_subnet(a, *net, *bits),
                None => false,
            },
            Id::Mac(want) => match mac {
                Some(m) => {
                    let c = chars_of(m);
                    let w = chars_of(want.as_str());
                    let p = normal_mac(c.as_slice());
                    crate::text::same(p.as_slice(), w.as_slice())
                },
                None => false,
            },
            Id::Named(want) => match client_id {
                Some(m) => {
                    let c = chars_of(m);
                    let w = chars_of(want.as_str());
                    same_but_case(c.as_slice(), w.as_slice())
                },
                None => false,
            },
        }
    }
}

/// Identifiers, with their texts as sequences.
pub open spec fn ids_of(ids: Seq<Id>) -> Seq<IdV> {
    ids.map_values(|i: Id| i@)
}

/// The best rank among the identifiers that match, or -1 where none does.
pub open spec fn best(ids: Seq<IdV>, who: Asker) -> int
    decreases ids.len(),
{
    if ids.len() == 0 {
        -1
    } else {
        let b = best(ids.drop_last(), who);
        if identifies(ids.last(), who) && id_rank(ids.last()) > b {
            id_rank(ids.last()) as int
        } else {
            b
        }
    }
}

/// The line that says something in a list of upstreams.
pub open spec fn upstream_line(s: Seq<char>) -> Option<Seq<char>> {
    let t = trimmed(s);
    if t.len() > 0 && t[0] != '#' {
        Some(t)
    } else {
        None
    }
}

/// The lines that say something, trimmed.
pub open spec fn upstream_lines(lines: Seq<Seq<char>>) -> Seq<Seq<char>> {
    picked(lines, |s: Seq<char>| upstream_line(s))
}

/// What a set of per-client upstreams is known by.
pub open spec fn upstreams_key(lines: Seq<Seq<char>>) -> Option<Seq<char>> {
    let kept = upstream_lines(lines);
    if kept.len() == 0 {
        None
    } else {
        Some(join(kept, seq!['\n']))
    }
}

/// The identity of a set of per-client upstreams, or `None` for none: the
/// lines themselves, blank ones and comments dropped, the rest trimmed and
/// joined.
pub fn upstream_key(lines: &[String]) -> (r: Option<String>)
    ensures
        match (r, upstreams_key(strings(lines@))) {
            (Some(k), Some(v)) => k@ == v,
            (None, None) => true,
            _ => false,
        },
{
    let ghost f = |s: Seq<char>| upstream_line(s);
    let ghost all = strings(lines@);
    let mut out: Vec<char> = Vec::new();
    let mut any = false;
    let mut i: usize = 0;
    assert(all.take(0) =~= Seq::<Seq<char>>::empty());
    while i < lines.len()
        invariant
            i <= lines@.len(),
            all == strings(lines@),
            f == (|s: Seq<char>| upstream_line(s)),
            any == (picked(all.take(i as int), f).len() > 0),
            out@ == join(picked(all.take(i as int), f), seq!['\n']),
        decreases lines@.len() - i,
    {
        let ghost before = picked(all.take(i as int), f);
        let c = chars_of(lines[i].as_str());
        let t = trim(c.as_slice());
        proof {
            assert(all.take(i + 1).drop_last() =~= all.take(i as int));
            assert(all.take(i + 1).last() == lines@[i as int]@);
        }
        if t.len() > 0 && t[0] != '#' {
            if any {
                out.push('\n');
            }
            append(&mut out, t);
            proof {
                let after = before.push(t@);
                assert(after.drop_last() =~= before);
                assert(picked(all.take(i + 1), f) == after);
                if before.len() == 0 {
                    assert(out@ =~= t@);
                } else {
                    assert(out@ =~= join(before, seq!['\n']) + seq!['\n'] + t@);
                }
            }
            any = true;
        }
        i = i + 1;
    }
    assert(all.take(i as int) =~= all);
    if any {
        Some(string_of(out.as_slice()))
    } else {
        None
    }
}

fn append(out: &mut Vec<char>, t: &[char])
    ensures
        final(out)@ == old(out)@ + t@,
{
    let mut i: usize = 0;
    let ghost was = out@;
    while i < t.len()
        invariant
            i <= t@.len(),
            out@ =~= was + t@.take(i as int),
        decreases t@.len() - i,
    {
        out.push(t[i]);
        i = i + 1;
    }
    assert(t@.take(i as int) =~= t@);
}

/// Clients configured with the same servers share one identity, whatever
/// blank lines and comments stand between them.
pub proof fn law_same_servers_share(a: Seq<Seq<char>>, b: Seq<Seq<char>>)
    requires
        upstream_lines(a) == upstream_lines(b),
    ensures
        upstreams_key(a) == upstreams_key(b),
{
}

/// How a persistent client is described.
#[derive(Clone, Debug)]
pub struct PersistentSpec {
    /// The client's display name.
    pub name: String,
    /// Addresses, subnets, MACs and ClientIDs.
    pub ids: Vec<String>,
    /// Tags for `$ctag` rules.
    pub tags: Vec<String>,
    /// Per-client upstreams.
    pub upstreams: Vec<String>,
    /// Whether the global settings apply.
    pub use_global_settings: bool,
    /// Whether blocklists are consulted.
    pub filtering_enabled: bool,
    /// Whether the global blocked-services settings apply.
    pub use_global_blocked_services: bool,
    /// The client's own blocked services.
    pub blocked_services: Vec<String>,
    /// Keep this client out of the query log.
    pub ignore_querylog: bool,
    /// Keep this client out of the statistics.
    pub ignore_statistics: bool,
}

impl Default for PersistentSpec {
    fn default() -> (r: Self)
        ensures
            r.name@.len() == 0,
            r.ids@.len() == 0,
            r.tags@.len() == 0,
            r.upstreams@.len() == 0,
            r.blocked_services@.len() == 0,
            !r.use_global_settings && !r.filtering_enabled && !r.use_global_blocked_services,
            !r.ignore_querylog && !r.ignore_statistics,
    {
        PersistentSpec {
            name: String::new(),
            ids: Vec::new(),
            tags: Vec::new(),
            upstreams: Vec::new(),
            use_global_settings: false,
            filtering_enabled: false,
            use_global_blocked_services: false,
            blocked_services: Vec::new(),
            ignore_querylog: false,
            ignore_statistics: false,
        }
    }
}

/// The settings a persistent client overrides.
#[derive(Clone, Debug)]
pub struct Persistent {
    /// The client's display name.
    pub name: String,
    /// Its tags, which `$ctag` rules match against.
    pub tags: Vec<String>,
    /// Its own upstream resolvers, if any.
    pub upstreams: Vec<String>,
    /// The identity of those upstreams, or `None` when it uses the global
    /// ones.
    pub upstream_key: Option<String>,
    /// Whether the global settings apply instead of the ones below.
    pub use_global_settings: bool,
    /// Whether blocklists are consulted.
    pub filtering_enabled: bool,
    /// Whether the global blocked-services settings apply.
    pub use_global_blocked_services: bool,
    /// This client's queries are kept out of the query log.
    pub ignore_querylog: bool,
    /// This client's queries are kept out of the statistics.
    pub ignore_statistics: bool,
    /// The services to block, when the client has its own list.
    pub services: Option<Vec<String>>,
    /// Whether the client has safe-search settings of its own.
    pub own_safe_search: bool,
    /// The identifiers this client is recognised by.
    pub ids: Vec<Id>,
}

fn copy_strings(s: &Vec<String>) -> (r: Vec<String>)
    ensures
        strings(r@) == strings(s@),
{
    let mut out: Vec<String> = Vec::new();
    let mut i: usize = 0;
    while i < s.len()
        invariant
            i <= s@.len(),
            out@.len() == i,
            forall|k: int| 0 <= k < i ==> (#[trigger] out@[k])@ == s@[k]@,
        decreases s@.len() - i,
    {
        out.push(s[i].as_str().to_owned());
        i = i + 1;
    }
    assert(strings(out@) =~= strings(s@));
    out
}

impl Persistent {
    /// The identifiers.
    pub open spec fn known_by(&self) -> Seq<IdV> {
        ids_of(self.ids@)
    }

    /// Whether this is the client that `spec` configures, where `address` reads
    /// a text as an address. It has services of its own only where the global
    /// ones do not apply and it lists some, and safe-search settings of its own
    /// only where the global settings do not apply.
    pub open spec fn is_of(&self, spec: PersistentSpec, address: spec_fn(Seq<char>) -> Option<Ip>) -> bool {
        &&& self.name@ == spec.name@
        &&& strings(self.tags@) == strings(spec.tags@)
        &&& strings(self.upstreams@) == strings(spec.upstreams@)
        &&& match (self.upstream_key, upstreams_key(strings(spec.upstreams@))) {
            (Some(k), Some(v)) => k@ == v,
            (None, None) => true,
            _ => false,
        }
        &&& self.use_global_settings == spec.use_global_settings
        &&& self.filtering_enabled == spec.filtering_enabled
        &&& self.use_global_blocked_services == spec.use_global_blocked_services
        &&& self.ignore_querylog == spec.ignore_querylog
        &&& self.ignore_statistics == spec.ignore_statistics
        &&& match self.services {
            Some(s) => !spec.use_global_blocked_services && spec.blocked_services@.len() > 0 && strings(s@) == strings(
                spec.blocked_services@,
            ),
            None => spec.use_global_blocked_services || spec.blocked_services@.len() == 0,
        }
        &&& self.own_safe_search == !spec.use_global_settings
        &&& self.known_by() == picked(strings(spec.ids@), |s: Seq<char>| id_of(s, address))
    }

    /// Builds a client. It gets services of its own only where the global
    /// ones do not apply and it lists some, and safe-search settings of its
    /// own only where the global settings do not apply.
    pub fn build<A: Fn(&str) -> Option<Ip>>(spec: &PersistentSpec, address: &A) -> (r: Self)
        requires
            settled(*address),
        ensures
            r.is_of(*spec, |t: Seq<char>| answer(*address, t)),
    {
        let services = if !spec.use_global_blocked_services && spec.blocked_services.len() > 0 {
            Some(copy_strings(&spec.blocked_services))
        } else {
            None
        };
        let ghost f = |s: Seq<char>| id_of(s, |t: Seq<char>| answer(*address, t));
        let ghost all = strings(spec.ids@);
        let mut ids: Vec<Id> = Vec::new();
        let mut i: usize = 0;
        assert(all.take(0) =~= Seq::<Seq<char>>::empty());
        assert(ids_of(ids@) =~= picked(all.take(0), f));
        while i < spec.ids.len()
            invariant
                settled(*address),
                i <= spec.ids@.len(),
                all == strings(spec.ids@),
                f == (|s: Seq<char>| id_of(s, |t: Seq<char>| answer(*address, t))),
                ids_of(ids@) == picked(all.take(i as int), f),
            decreases spec.ids@.len() - i,
        {
            let ghost before = ids@;
            proof {
                assert(all.take(i + 1).drop_last() =~= all.take(i as int));
                assert(all.take(i + 1).last() == spec.ids@[i as int]@);
            }
            if let Some(id) = Id::parse(spec.ids[i].as_str(), address) {
                let ghost v = id@;
                ids.push(id);
                assert(ids_of(ids@) =~= ids_of(before).push(v));
            }
            i = i + 1;
        }
        assert(all.take(i as int) =~= all);
        Persistent {
            name: spec.name.as_str().to_owned(),
            tags: copy_strings(&spec.tags),
            upstreams: copy_strings(&spec.upstreams),
            upstream_key: upstream_key(spec.upstreams.as_slice()),
            use_global_settings: spec.use_global_settings,
            filtering_enabled: spec.filtering_enabled,
            use_global_blocked_services: spec.use_global_blocked_services,
            ignore_querylog: spec.ignore_querylog,
            ignore_statistics: spec.ignore_statistics,
            services,
            own_safe_search: !spec.use_global_settings,
            ids,
        }
    }

    /// How well this client matches a request, if at all: the rank of its
    /// most specific identifier that does.
    pub fn score(&self, addr: Option<Ip>, client_id: Option<&str>, mac: Option<&str>) -> (r: Option<u16>)
        ensures
            match r {
                Some(n) => n == best(self.known_by(), Asker { addr, client_id: text_of(client_id), mac: text_of(mac) }),
                None => best(self.known_by(), Asker { addr, client_id: text_of(client_id), mac: text_of(mac) }) == -1,
            },
    {
        let ghost who = Asker { addr, client_id: text_of(client_id), mac: text_of(mac) };
        let ghost v = self.known_by();
        let mut r: Option<u16> = None;
        let mut i: usize = 0;
        assert(v.take(0) =~= Seq::<IdV>::empty());
        while i < self.ids.len()
            invariant
                i <= self.ids@.len(),
                v == ids_of(self.ids@),
                who == (Asker { addr, client_id: text_of(client_id), mac: text_of(mac) }),
                match r {
                    Some(n) => n == best(v.take(i as int), who),
                    None => best(v.take(i as int), who) == -1,
                },
            decreases self.ids@.len() - i,
        {
            proof {
                assert(v.take(i + 1).drop_last() =~= v.take(i as int));
                assert(v.take(i + 1).last() == self.ids@[i as int]@);
            }
            if self.ids[i].matches(addr, client_id, mac) {
                let s: u16 = self.ids[i].specificity();
                match r {
                    Some(n) => {
                        if s > n {
                            r = Some(s);
                        }
                    },
                    None => {
                        r = Some(s);
                    },
                }
            }
            i = i + 1;
        }
        assert(v.take(i as int) =~= v);
        r
    }
}

/// The configured persistent clients.
#[derive(Clone, Debug)]
pub struct Registry {
    /// The clients, in configuration order.
    clients: Vec<Persistent>,
}

/// Whether `i` is the client that a request belongs to: none matches it
/// better, and none after `i` as well.
pub open spec fn belongs(ids: Seq<Seq<IdV>>, who: Asker, i: int) -> bool {
    &&& 0 <= i < ids.len()
    &&& best(ids[i], who) >= 0
    &&& forall|j: int| 0 <= j < ids.len() ==> best(#[trigger] ids[j], who) <= best(ids[i], who)
    &&& forall|j: int| i < j < ids.len() ==> best(#[trigger] ids[j], who) < best(ids[i], who)
}

impl Registry {
    /// The clients.
    pub closed spec fn view(&self) -> Seq<Persistent> {
        self.clients@
    }

    /// The identifiers of each client.
    pub open spec fn ids(&self) -> Seq<Seq<IdV>> {
        self@.map_values(|c: Persistent| c.known_by())
    }

    /// Builds a registry from the configured clients.
    pub fn build<A: Fn(&str) -> Option<Ip>>(specs: &[PersistentSpec], address: &A) -> (r: Self)
        requires
            settled(*address),
        ensures
            r@.len() == specs@.len(),
            forall|i: int|
                0 <= i < specs@.len() ==> (#[trigger] r@[i]).is_of(specs@[i], |t: Seq<char>| answer(*address, t)),
    {
        let mut clients: Vec<Persistent> = Vec::new();
        let mut i: usize = 0;
        while i < specs.len()
            invariant
                settled(*address),
                i <= specs@.len(),
                clients@.len() == i,
                forall|k: int|
                    0 <= k < i ==> (#[trigger] clients@[k]).is_of(specs@[k], |t: Seq<char>| answer(*address, t)),
            decreases specs@.len() - i,
        {
            clients.push(Persistent::build(&specs[i], address));
            i = i + 1;
        }
        Registry { clients }
    }

    /// Reports whether nothing is configured.
    pub fn is_empty(&self) -> (r: bool)
        ensures
            r == (self@.len() == 0),
    {
        self.clients.len() == 0
    }

    /// How many clients are configured.
    pub fn len(&self) -> (r: usize)
        ensures
            r == self@.len(),
    {
        self.clients.len()
    }

    /// Finds the client a request belongs to.
    ///
    /// The most specific identifier wins, and the later client among equals.
    pub fn find(&self, addr: Option<Ip>, client_id: Option<&str>, mac: Option<&str>) -> (r: Option<&Persistent>)
        ensures
            match r {
                Some(c) => exists|i: int|
                    belongs(self.ids(), Asker { addr, client_id: text_of(client_id), mac: text_of(mac) }, i)
                        && *c == #[trigger] self@[i],
                None => forall|i: int|
                    0 <= i < self@.len() ==> best(
                        (#[trigger] self@[i]).known_by(),
                        Asker { addr, client_id: text_of(client_id), mac: text_of(mac) },
                    ) == -1,
            },
    {
        let ghost who = Asker { addr, client_id: text_of(client_id), mac: text_of(mac) };
        let ghost ids = self.ids();
        let mut at: Option<usize> = None;
        let mut top: u16 = 0;
        let mut i: usize = 0;
        while i < self.clients.len()
            invariant
                i <= self.clients@.len(),
                ids == self.ids(),
                who == (Asker { addr, client_id: text_of(client_id), mac: text_of(mac) }),
                match at {
                    Some(b) => {
                        &&& b < i
                        &&& best(ids[b as int], who) == top
                        &&& forall|j: int| 0 <= j < i ==> best(#[trigger] ids[j], who) <= top
                        &&& forall|j: int| b < j < i ==> best(#[trigger] ids[j], who) < top
                    },
                    None => forall|j: int| 0 <= j < i ==> best((#[trigger] self@[j]).known_by(), who) == -1,
                },
            decreases self.clients@.len() - i,
        {
            assert(ids[i as int] == self@[i as int].known_by());
            match self.clients[i].score(addr, client_id, mac) {
                Some(s) => match at {
                    Some(_) => {
                        if s >= top {
                            at = Some(i);
                            top = s;
                        }
                    },
                    None => {
                        proof {
                            assert forall|j: int| 0 <= j < i implies best(#[trigger] ids[j], who) <= s by {
                                assert(best(self@[j].known_by(), who) == -1);
                            }
                        }
                        at = Some(i);
                        top = s;
                    },
                },
                None => {},
            }
            i = i + 1;
        }
        match at {
            Some(b) => {
                assert(belongs(ids, who, b as int));
                assert(self.clients@[b as int] == self@[b as int]);
                Some(&self.clients[b])
            },
            None => None,
        }
    }
}

pub(crate) proof fn lemma_best(ids: Seq<IdV>, who: Asker, i: int)
    requires
        0 <= i < ids.len(),
        identifies(ids[i], who),
    ensures
        best(ids, who) >= id_rank(ids[i]),
    decreases ids.len(),
{
    if i < ids.len() - 1 {
        lemma_best(ids.drop_last(), who, i);
    }
}

pub(crate) proof fn lemma_best_at_most(ids: Seq<IdV>, who: Asker, n: int)
    requires
        n >= -1,
        forall|i: int| 0 <= i < ids.len() && identifies(#[trigger] ids[i], who) ==> id_rank(ids[i]) <= n,
    ensures
        best(ids, who) <= n,
    decreases ids.len(),
{
    if ids.len() > 0 {
        let d = ids.drop_last();
        assert forall|i: int| 0 <= i < d.len() && identifies(#[trigger] d[i], who) implies id_rank(d[i]) <= n by {
            assert(d[i] == ids[i]);
        }
        lemma_best_at_most(d, who, n);
        assert(ids.last() == ids[ids.len() - 1]);
    }
}

/// The most specific identifier wins: where a client has an identifier that
/// matches and outranks every matching one of another client, the request
/// does not belong to that other client.
pub proof fn law_most_specific_wins(ids: Seq<Seq<IdV>>, who: Asker, a: int, b: int, id: int)
    requires
        0 <= a < ids.len(),
        0 <= b < ids.len(),
        0 <= id < ids[a].len(),
        identifies(ids[a][id], who),
        forall|j: int|
            0 <= j < ids[b].len() && identifies(#[trigger] ids[b][j], who) ==> id_rank(ids[b][j]) < id_rank(ids[a][id]),
    ensures
        !belongs(ids, who, b),
{
    lemma_best(ids[a], who, id);
    lemma_best_at_most(ids[b], who, id_rank(ids[a][id]) - 1);
    assert(best(ids[a], who) > best(ids[b], who));
}

/// A ClientID outranks a hardware address, that an address, and that any
/// subnet; among subnets the narrower wins.
pub proof fn law_rank_of_ids(id: Seq<char>, mac: Seq<char>, ip: Ip, net: Ip, bits: u8, wider: u8)
    requires
        wider < bits,
    ensures
        id_rank(IdV::Named(id)) > id_rank(IdV::Mac(mac)),
        id_rank(IdV::Mac(mac)) > id_rank(IdV::Addr(ip)),
        id_rank(IdV::Addr(ip)) > id_rank(IdV::Net(net, bits)),
        id_rank(IdV::Net(net, bits)) > id_rank(IdV::Net(net, wider)),
{
}

} // verus!
