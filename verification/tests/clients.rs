//! Who a query comes from.

use sift::clients::persistent::{is_mac, upstream_key, Id, Persistent, PersistentSpec, Registry};
use sift::clients::runtime::{
    anchored, rank, rank_of, worth, Runtime, RuntimeClient, Slot, Source, Sources, MAX_RUNTIME, RETURNING_AFTER,
    STALE_AFTER,
};
use sift::clients::{in_any, in_subnet, is_local, local_networks};
use sift::ip::Ip;

/// A store and its clock.
struct Timed {
    r: Runtime,
    now: u32,
}

impl Timed {
    fn advance(&mut self, secs: u32) {
        self.now += secs;
    }

    fn set_name(&mut self, addr: Ip, name: &str, source: Source) {
        self.r.set_name(addr, name, source, self.now);
    }

    fn set_mac(&mut self, addr: Ip, mac: &str) {
        self.r.set_mac(addr, mac, self.now);
    }

    fn set_whois(&mut self, addr: Ip, fields: Vec<(String, String)>) {
        self.r.set_whois(addr, fields, self.now);
    }

    fn touch(&mut self, addr: Ip) -> bool {
        self.r.touch(addr, self.now)
    }

    fn name_of(&self, addr: Ip) -> String {
        self.r.name_of(addr)
    }

    fn mac_of(&self, addr: Ip) -> Option<String> {
        self.r.mac_of(addr)
    }

    fn is_known(&self, addr: Ip) -> bool {
        self.r.is_known(addr)
    }

    fn len(&self) -> usize {
        self.r.len()
    }

    fn is_empty(&self) -> bool {
        self.r.is_empty()
    }

    fn sizes(&self) -> (usize, usize) {
        self.r.sizes()
    }

    fn all(&self) -> Vec<(Ip, RuntimeClient)> {
        self.r.all()
    }

    fn clear(&mut self) {
        self.r.clear();
    }
}

fn timed(r: Runtime) -> Timed {
    Timed { r, now: 0 }
}

fn at(s: &str) -> Ip {
    address(s).expect("an address")
}

fn registry(specs: &[PersistentSpec]) -> Registry {
    Registry::build(specs, &address)
}

fn built(spec: PersistentSpec) -> Persistent {
    Persistent::build(&spec, &address)
}

/// Reads an address as text: dotted decimals, or groups in hexadecimal.
fn address(s: &str) -> Option<Ip> {
    if s.contains(':') {
        v6(s).map(Ip::V6)
    } else {
        v4(s).map(Ip::V4)
    }
}

/// Reads four decimals between dots, none with a leading zero.
fn v4(s: &str) -> Option<u32> {
    let parts: Vec<&str> = s.split('.').collect();
    if parts.len() != 4 {
        return None;
    }
    let mut n: u32 = 0;
    for p in parts {
        if p.is_empty() || p.len() > 3 || (p.len() > 1 && p.starts_with('0')) {
            return None;
        }
        if !p.bytes().all(|b| b.is_ascii_digit()) {
            return None;
        }
        let b: u32 = p.parse().ok()?;
        if b > 255 {
            return None;
        }
        n = n * 256 + b;
    }
    Some(n)
}

/// Reads groups between colons, the last maybe an IPv4 address.
fn groups(s: &str) -> Option<Vec<u16>> {
    let mut out: Vec<u16> = Vec::new();
    if s.is_empty() {
        return Some(out);
    }
    let parts: Vec<&str> = s.split(':').collect();
    for (i, p) in parts.iter().enumerate() {
        if p.contains('.') && i + 1 == parts.len() {
            let a = v4(p)?;
            out.push((a >> 16) as u16);
            out.push((a & 0xffff) as u16);
        } else {
            if p.is_empty() || p.len() > 4 {
                return None;
            }
            out.push(u16::from_str_radix(p, 16).ok()?);
        }
    }
    Some(out)
}

/// Reads eight groups in hexadecimal, with at most one `::`.
fn v6(s: &str) -> Option<u128> {
    let all: Vec<u16> = match s.split_once("::") {
        Some((a, b)) => {
            let (a, b) = (groups(a)?, groups(b)?);
            if a.len() + b.len() > 7 {
                return None;
            }
            let mut all = a.clone();
            all.extend(std::iter::repeat(0u16).take(8 - a.len() - b.len()));
            all.extend(b);
            all
        }
        None => groups(s)?,
    };
    if all.len() != 8 {
        return None;
    }
    Some(all.iter().fold(0u128, |n, g| n << 16 | u128::from(*g)))
}

fn spec(name: &str, ids: &[&str]) -> PersistentSpec {
    PersistentSpec {
        name: name.into(),
        ids: ids.iter().map(|s| (*s).to_string()).collect(),
        use_global_settings: true,
        use_global_blocked_services: true,
        ..PersistentSpec::default()
    }
}

#[test]
fn an_address_matches_its_client() {
    let r = registry(&[spec("laptop", &["192.0.2.5"])]);
    assert_eq!(
        r.find(Some(at("192.0.2.5")), None, None)
            .map(|c| c.name.clone())
            .as_deref(),
        Some("laptop")
    );
    assert!(
        r.find(Some(at("192.0.2.6")), None, None)
            .is_none()
    );
}

#[test]
fn a_subnet_matches_every_address_in_it() {
    let r = registry(&[spec("guests", &["192.0.2.0/24"])]);
    assert!(
        r.find(Some(at("192.0.2.77")), None, None)
            .is_some()
    );
    assert!(
        r.find(Some(at("198.51.100.1")), None, None)
            .is_none()
    );
}

#[test]
fn the_most_specific_identifier_wins() {
    let r = registry(&[
        spec("guests", &["192.0.2.0/24"]),
        spec("laptop", &["192.0.2.5"]),
    ]);

    assert_eq!(
        r.find(Some(at("192.0.2.5")), None, None)
            .map(|c| c.name.clone())
            .as_deref(),
        Some("laptop")
    );
}

#[test]
fn a_client_id_beats_an_address() {
    let r = registry(&[
        spec("by-address", &["192.0.2.5"]),
        spec("by-id", &["kids-tablet"]),
    ]);

    assert_eq!(
        r.find(
            Some(at("192.0.2.5")),
            Some("kids-tablet"),
            None
        )
        .map(|c| c.name.clone())
        .as_deref(),
        Some("by-id")
    );
}

#[test]
fn client_ids_are_matched_without_regard_to_case() {
    let r = registry(&[spec("tablet", &["Kids-Tablet"])]);
    assert!(r.find(None, Some("kids-tablet"), None).is_some());
}

#[test]
fn a_mac_matches_only_once_the_arp_table_supplies_one() {
    // A DNS query carries no hardware address, so the identifier hits only
    // when discovery has tied a MAC to the client's address.
    let r = registry(&[spec("printer", &["aa:bb:cc:dd:ee:ff"])]);
    let ip = at("192.0.2.9");

    assert!(r.find(Some(ip), None, None).is_none());
    assert!(
        r.find(None, Some("aa:bb:cc:dd:ee:ff"), None).is_none(),
        "a MAC is not a ClientID"
    );
    assert_eq!(
        r.find(Some(ip), None, Some("AA:BB:CC:DD:EE:FF"))
            .map(|c| c.name.clone())
            .as_deref(),
        Some("printer")
    );
}

#[test]
fn the_arp_table_supplies_a_hardware_address() {
    let mut r = timed(Runtime::new());
    let ip = at("192.0.2.5");
    assert_eq!(r.mac_of(ip), None);

    r.set_mac(ip, "AA:BB:CC:DD:EE:FF");
    assert_eq!(r.mac_of(ip).as_deref(), Some("aa:bb:cc:dd:ee:ff"));
}

#[test]
fn ipv6_subnets_match() {
    let r = registry(&[spec("v6", &["2001:db8::/32"])]);
    assert!(
        r.find(Some(at("2001:db8::1")), None, None)
            .is_some()
    );
    assert!(
        r.find(Some(at("2001:db9::1")), None, None)
            .is_none()
    );
}

#[test]
fn a_client_with_its_own_services_gets_an_engine() {
    let c = built(PersistentSpec {
        name: "kid".into(),
        ids: vec!["192.0.2.5".into()],
        use_global_blocked_services: false,
        blocked_services: vec!["youtube".into()],
        ..PersistentSpec::default()
    });

    assert!(c.services.is_some(), "a per-client list must compile");
}

#[test]
fn a_client_using_global_services_has_no_engine_of_its_own() {
    let c = built(PersistentSpec {
        use_global_blocked_services: true,
        blocked_services: vec!["youtube".into()],
        ..PersistentSpec::default()
    });

    assert!(c.services.is_none());
}

#[test]
fn a_client_enforcing_safe_search_gets_an_engine() {
    let c = built(PersistentSpec {
        use_global_settings: false,
        ..PersistentSpec::default()
    });

    assert!(c.own_safe_search);

    let c = built(PersistentSpec {
        use_global_settings: true,
        ..PersistentSpec::default()
    });

    assert!(!c.own_safe_search);
}

#[test]
fn runtime_names_prefer_the_more_authoritative_source() {
    let mut r = timed(Runtime::new());
    let ip = at("192.0.2.5");

    r.set_name(ip, "from-rdns", Source::Rdns);
    assert_eq!(r.name_of(ip), "from-rdns");

    r.set_name(ip, "from-hosts", Source::Hosts);
    assert_eq!(r.name_of(ip), "from-hosts");

    r.set_name(ip, "later-rdns", Source::Rdns);
    assert_eq!(
        r.name_of(ip),
        "from-hosts",
        "a hosts-file name is not overwritten by a reverse lookup"
    );
}

#[test]
fn an_empty_runtime_name_is_ignored() {
    let mut r = timed(Runtime::new());
    let ip = at("192.0.2.5");
    r.set_name(ip, "", Source::Rdns);

    assert!(!r.is_known(ip));
    assert_eq!(r.name_of(ip), "");
}

#[test]
fn runtime_clients_come_back_sorted() {
    let mut r = timed(Runtime::new());
    r.set_name(at("192.0.2.9"), "b", Source::Arp);
    r.set_name(at("192.0.2.1"), "a", Source::Arp);

    let all = r.all();
    assert_eq!(all.len(), 2);
    assert_eq!(all[0].1.name, "a");
}

#[test]
fn mac_addresses_are_recognised() {
    assert!(is_mac("aa:bb:cc:dd:ee:ff"));
    assert!(is_mac("AA-BB-CC-DD-EE-FF"));
    assert!(!is_mac("aa:bb:cc:dd:ee"));
    assert!(!is_mac("kids-tablet"));
}

/// A stranger's address: one per /64, which is what a source rotating
/// through a routed /48 has to spend.
fn stranger(i: u32) -> Ip {
    let bits = (0x2001_0db8_u128 << 96) | (u128::from(i) << 64) | 1;

    Ip::V6(bits)
}

/// What WHOIS says about a typical broadband address.
fn whois_record() -> Vec<(String, String)> {
    vec![
        ("orgname".into(), "Example Broadband Networks Ltd".into()),
        ("city".into(), "Amsterdam".into()),
        ("country".into(), "NL".into()),
    ]
}

#[test]
fn the_table_never_holds_more_than_the_cap_whatever_floods_it() {
    // A hundred thousand sources, each in a /64 of its own, each named by
    // a reverse lookup and described by WHOIS -- ten times the cap, and
    // the most expensive entry there is.
    let mut r = timed(Runtime::new());
    let mut most = 0;
    for i in 0..100_000 {
        let a = stranger(i);
        r.set_name(a, &format!("host-{i}.dyn.example.net"), Source::Rdns);
        r.set_whois(a, whois_record());
        most = most.max(r.len());
        if i % 100 == 0 {
            r.advance(1);
        }
    }

    assert!(most <= MAX_RUNTIME, "held {most}");
    assert!(
        r.len() > MAX_RUNTIME - MAX_RUNTIME / 10,
        "room is made a batch at a time, not by emptying the table"
    );
    assert!(r.is_known(stranger(99_999)), "the newest is kept");
    assert_eq!(r.sizes().1, r.len(), "every entry kept its record");
}

#[test]
fn a_local_client_and_a_busy_one_outlive_a_flood_of_strangers() {
    let mut r = timed(Runtime::with_cap(1_000));

    // Seen once and never again, but on the operator's own network.
    let nas = at("192.168.1.20");
    r.set_name(nas, "nas.lan", Source::Rdns);
    let laptop = at("fd00::1234");
    r.set_name(laptop, "laptop.lan", Source::Rdns);

    // A phone on mobile data: it asked, came back ten minutes later, and
    // then went quiet for the whole of the flood.
    let phone = at("203.0.113.7");
    r.set_name(phone, "phone.mobile.example", Source::Rdns);
    r.advance(RETURNING_AFTER);
    assert!(r.touch(phone));

    // A public client that is in use the whole time.
    let busy = at("198.51.100.9");
    r.set_whois(busy, whois_record());

    for i in 0..20_000 {
        r.set_name(stranger(i), &format!("s{i}.example"), Source::Rdns);
        if i % 10 == 0 {
            r.advance(1);
            r.touch(busy);
        }
        assert!(r.len() <= 1_000);
    }

    for (a, what) in [
        (nas, "a local address"),
        (laptop, "a local IPv6 address"),
        (phone, "a client that came back"),
        (busy, "a client in use"),
    ] {
        assert!(r.is_known(a), "{what} was given up for strangers");
    }
}

#[test]
fn what_this_machine_supplied_is_never_given_up() {
    // A persistent client identified by its hardware address is only
    // recognised while the ARP table's MAC stays in the runtime store, so
    // evicting it would quietly drop the operator's settings for it.
    let registry = registry(&[spec("kids-tablet", &["aa:bb:cc:dd:ee:ff"])]);
    let mut r = timed(Runtime::with_cap(100));

    let tablet = at("192.0.2.50");
    r.set_mac(tablet, "AA:BB:CC:DD:EE:FF");
    for i in 0..150 {
        r.set_name(
            Ip::V4(0xc612_0000 + i),
            &format!("h{i}"),
            Source::Hosts,
        );
    }

    for i in 0..5_000 {
        r.set_name(stranger(i), "s.example", Source::Rdns);
    }

    assert_eq!(r.mac_of(tablet).as_deref(), Some("aa:bb:cc:dd:ee:ff"));
    assert!(
        registry
            .find(Some(tablet), None, r.mac_of(tablet).as_deref())
            .is_some(),
        "the persistent client is still recognised"
    );
    assert_eq!(r.name_of(at("198.18.0.149")), "h149");
    assert!(
        r.len() <= 151 + 100,
        "the cap binds what the network taught, beside what the machine did"
    );
}

#[test]
fn a_learned_entry_the_arp_table_names_stops_counting_against_the_cap() {
    let mut r = timed(Runtime::with_cap(10));
    let printer = at("192.0.2.9");
    r.set_name(printer, "printer.rdns.example", Source::Rdns);
    r.set_mac(printer, "aa:bb:cc:00:00:01");

    for i in 0..100 {
        r.set_name(stranger(i), "s.example", Source::Rdns);
    }

    assert!(r.is_known(printer));
    assert!(r.len() <= 11);
}

#[test]
fn the_least_recently_seen_stranger_goes_first() {
    let mut r = timed(Runtime::with_cap(10));
    for i in 0..10 {
        r.set_name(stranger(i), "s.example", Source::Rdns);
        r.advance(1);
    }
    // The first one asks again, so the second is now the oldest.
    assert!(r.touch(stranger(0)));

    r.set_name(stranger(10), "s.example", Source::Rdns);

    assert!(r.is_known(stranger(0)), "seen a moment ago");
    assert!(!r.is_known(stranger(1)), "the least recently seen");
    assert!(r.is_known(stranger(10)), "the newcomer");
    assert_eq!(r.len(), 10);
}

#[test]
fn a_client_gone_a_day_is_no_longer_protected() {
    let mut r = timed(Runtime::with_cap(10));
    let gone = at("203.0.113.7");
    r.set_name(gone, "old-phone.example", Source::Rdns);
    r.advance(RETURNING_AFTER);
    r.touch(gone);
    r.advance(STALE_AFTER);

    for i in 0..10 {
        r.set_name(stranger(i), "s.example", Source::Rdns);
    }

    assert!(
        !r.is_known(gone),
        "a device silent for a day ranks with the strangers, and is the oldest of them"
    );
}

#[test]
fn a_learned_entry_is_refused_nothing_when_the_machine_filled_the_table() {
    // The hosts file does not count against the cap, so however large it
    // is there is still room for the network's own entries.
    let mut r = timed(Runtime::with_cap(10));
    for i in 0..50 {
        r.set_name(Ip::V4(0xc612_0000 + i), "h", Source::Hosts);
    }
    r.set_name(stranger(0), "s.example", Source::Rdns);

    assert!(r.is_known(stranger(0)));
}

#[test]
fn touching_an_unknown_address_records_nothing() {
    let mut r = timed(Runtime::new());
    assert!(!r.touch(at("192.0.2.1")));
    assert!(r.is_empty());
}

#[test]
fn an_empty_whois_record_for_an_unknown_address_adds_nothing() {
    let mut r = timed(Runtime::new());
    let a = at("203.0.113.1");
    r.set_whois(a, Vec::new());
    assert!(!r.is_known(a));

    r.set_whois(a, whois_record());
    assert_eq!(r.sizes(), (1, 1));
}

#[test]
fn clearing_the_store_resets_the_cap() {
    let mut r = timed(Runtime::with_cap(10));
    for i in 0..10 {
        r.set_name(stranger(i), "s.example", Source::Rdns);
    }
    r.clear();
    for i in 10..20 {
        r.set_name(stranger(i), "s.example", Source::Rdns);
    }

    assert_eq!(r.len(), 10, "nothing was evicted to make room");
}

#[test]
fn local_networks_are_the_resolvers_defaults() {
    assert_eq!(
        local_networks(),
        vec![
            (at("10.0.0.0"), 8),
            (at("172.16.0.0"), 12),
            (at("192.168.0.0"), 16),
            (at("169.254.0.0"), 16),
            (at("127.0.0.0"), 8),
            (at("100.64.0.0"), 10),
            (at("fd00::"), 8),
            (at("fe80::"), 10),
            (at("::1"), 128),
        ]
    );
}

#[test]
fn local_addresses_are_recognised() {
    assert!(is_local(at("192.168.1.1")));
    assert!(is_local(at("10.1.2.3")));
    assert!(is_local(at("fd00::1")));
    assert!(
        is_local(at("::ffff:192.168.1.1")),
        "an IPv4 address in IPv6"
    );
    assert!(!is_local(at("93.184.216.34")));
    assert!(!is_local(at("2001:db8::1")));
}

#[test]
fn a_network_holds_the_addresses_with_its_first_bits() {
    assert!(in_subnet(at("10.1.2.3"), at("10.0.0.0"), 8));
    assert!(!in_subnet(at("11.1.2.3"), at("10.0.0.0"), 8));
    assert!(in_subnet(at("2001:db8::1"), at("::"), 0));
    assert!(!in_subnet(at("10.1.2.3"), at("::"), 0), "the other family");
    assert!(!in_subnet(at("10.1.2.3"), at("10.1.2.3"), 33), "no such length");
    assert!(in_any(at("10.1.2.3"), &vec![(at("192.168.0.0"), 16), (at("10.0.0.0"), 8)]));
    assert!(!in_any(at("10.1.2.3"), &vec![]));
}

#[test]
fn identifiers_are_sorted_into_their_kinds() {
    let id = |s: &str| Id::parse(s, &address);
    assert_eq!(id("192.0.2.5"), Some(Id::Addr(at("192.0.2.5"))));
    assert_eq!(id("192.0.2.0/24"), Some(Id::Net(at("192.0.2.0"), 24)));
    assert_eq!(id("AA-BB-CC-DD-EE-FF"), Some(Id::Mac("aa:bb:cc:dd:ee:ff".to_string())));
    assert_eq!(id("Kids-Tablet"), Some(Id::Named("kids-tablet".to_string())));
    assert_eq!(id(""), None);

    // A name beats a MAC, a MAC an address, an address a network, and a
    // longer network a shorter one.
    let rank = |s: &str| id(s).expect("an identifier").specificity();
    assert!(rank("kids-tablet") > rank("aa:bb:cc:dd:ee:ff"));
    assert!(rank("aa:bb:cc:dd:ee:ff") > rank("192.0.2.5"));
    assert!(rank("192.0.2.5") > rank("2001:db8::/128"));
    assert!(rank("192.0.2.0/24") > rank("192.0.2.0/23"));
    assert!(id("192.0.2.0/24").expect("a network").matches(Some(at("192.0.2.9")), None, None));
    assert!(!id("192.0.2.0/24").expect("a network").matches(None, Some("192.0.2.0/24"), None));
}

#[test]
fn hyphens_and_colons_in_a_mac_are_one() {
    let r = registry(&[spec("printer", &["AA-BB-CC-DD-EE-FF"])]);
    assert!(r.find(None, None, Some("aa:bb:cc:dd:ee:ff")).is_some());
    assert!(r.find(None, None, Some("aa-bb-cc-dd-ee-ff")).is_some());
    assert_eq!(r.len(), 1);
    assert!(registry(&[]).is_empty());
}

#[test]
fn the_score_is_that_of_the_best_identifier() {
    let c = built(spec("laptop", &["192.0.2.0/24", "192.0.2.5"]));
    let near = c.score(Some(at("192.0.2.9")), None, None).expect("in the network");
    let own = c.score(Some(at("192.0.2.5")), None, None).expect("the address");
    assert!(own > near);
    assert_eq!(c.score(Some(at("198.51.100.1")), None, None), None);
}

#[test]
fn the_same_servers_share_a_key() {
    let key = |v: &[&str]| upstream_key(&v.iter().map(|s| s.to_string()).collect::<Vec<_>>());
    assert_eq!(key(&[]), None);
    assert_eq!(key(&["", "# a comment"]), None);
    assert_eq!(key(&["9.9.9.9", "1.1.1.1"]), key(&["  9.9.9.9", "", "1.1.1.1 "]));
    assert_ne!(key(&["9.9.9.9"]), key(&["1.1.1.1"]));
}

#[test]
fn a_source_is_named_and_ranked() {
    let all = [Source::Whois, Source::Rdns, Source::Arp, Source::Dhcp, Source::Hosts];
    let names: Vec<&str> = all.iter().map(|s| s.as_str()).collect();
    assert_eq!(names, ["whois", "rdns", "arp", "dhcp", "etc_hosts"]);
    assert!(all.windows(2).all(|w| rank(w[0]) < rank(w[1])));
    assert_eq!(rank_of(None), 0);

    let mut c = RuntimeClient::default();
    assert!(!anchored(&c));
    c.source = Some(Source::Hosts);
    assert!(anchored(&c));
}

#[test]
fn a_returning_or_local_client_is_worth_more_than_a_stranger() {
    let far = at("203.0.113.7");
    assert!(worth(far, 0, RETURNING_AFTER, RETURNING_AFTER) > worth(far, 0, RETURNING_AFTER - 1, RETURNING_AFTER));
    assert!(worth(at("192.168.1.5"), 0, 0, 0) > worth(far, 0, 0, 0));
    assert_eq!(
        worth(far, 0, RETURNING_AFTER, RETURNING_AFTER + STALE_AFTER),
        worth(far, 0, 0, 0),
        "gone a day"
    );
}

#[test]
fn the_enabled_sources_are_remembered() {
    let mut r = timed(Runtime::new());
    r.r.set_sources(Sources { rdns: false, ..Sources::default() });
    assert!(!r.r.sources().rdns);
    r.set_name(at("192.0.2.5"), "host", Source::Hosts);
    let c = r.r.get(at("192.0.2.5")).expect("known");
    assert_eq!((c.name.as_str(), c.source), ("host", Some(Source::Hosts)));
    assert!(r.r.get(at("192.0.2.6")).is_none());
}

#[test]
fn clients_are_listed_by_family_and_number() {
    let mut r = timed(Runtime::new());
    for a in ["2001:db8::2", "192.0.2.9", "2001:db8::1", "10.0.0.1"] {
        r.set_name(at(a), a, Source::Arp);
    }
    let names: Vec<String> = r.all().into_iter().map(|(_, c)| c.name).collect();
    assert_eq!(names, ["10.0.0.1", "192.0.2.9", "2001:db8::1", "2001:db8::2"]);
}

#[test]
fn clients_an_entry_stays_small() {
    // The table is sized for ten thousand of these: an address, which is its
    // family and at most sixteen bytes, and what is known of it.
    let slot = size_of::<([u8; 17], Slot)>();
    assert!(slot <= 112, "{slot} bytes");
}
