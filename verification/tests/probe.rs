//! The guard against sources that connect and ask nothing.

use std::mem::size_of;

use sift::clients::local_networks;
use sift::ip::Ip;
use sift::probe::sweep::MAX_TRACKED;
use sift::probe::terms::{is_local, Config, Judged, Mark, Source, Span};
use sift::probe::{host_networks, Guard, HandshakeSlot, Penalty, Refused, Stats, Ticket};

/// A guard and its clock.
struct Guarded {
    g: Guard,
    now: u32,
    strikes: u32,
}

impl Guarded {
    fn advance(&mut self, secs: u32) {
        self.now += secs;
    }

    fn admits(&mut self, ip: Ip) -> bool {
        self.g.admits(ip, self.now)
    }

    fn wasted(&mut self, ip: Ip) -> Option<Penalty> {
        self.g.wasted(ip, self.now)
    }

    fn strike(&mut self, ip: Ip) -> Option<Penalty> {
        self.g.strike(ip, self.now)
    }

    fn condemn(&mut self, ip: Ip) -> Option<Penalty> {
        self.g.condemn(ip, self.now)
    }

    fn served(&mut self, ip: Ip) {
        self.g.served(ip, self.now);
    }

    fn open(&mut self, ip: Ip) -> Result<Ticket, Refused> {
        self.g.open(ip, self.now)
    }

    fn release(&mut self, t: Ticket) {
        self.g.release(t);
    }

    fn handshake(&mut self, ip: Ip) -> Option<HandshakeSlot> {
        self.g.handshake(ip, self.now)
    }

    fn finish_handshake(&mut self, s: HandshakeSlot) {
        self.g.finish_handshake(s);
    }

    fn set_config(&mut self, cfg: Config) {
        self.strikes = cfg.strikes;
        self.g.set_config(cfg);
    }

    fn exempts(&self, ip: Ip) -> bool {
        self.g.exempts(ip)
    }

    fn source(&self, ip: Ip) -> Source {
        self.g.source(ip)
    }

    fn watched(&self) -> usize {
        self.g.watched()
    }

    fn stats(&self) -> Stats {
        self.g.stats(self.now)
    }

    fn clear(&mut self) {
        self.g.clear();
    }
}

fn guarded(cfg: Config) -> Guarded {
    Guarded { strikes: cfg.strikes, g: Guard::new(cfg), now: 0 }
}

fn guard(strikes: u32) -> Guarded {
    guarded(Config { strikes, ..Config::default() })
}

fn at(s: &str) -> Ip {
    address(s).expect("an address")
}

/// A public address, so nothing is exempt by locality.
fn scanner() -> Ip {
    at("198.51.100.7")
}

/// Runs `ip` out of strikes.
fn strike_out(g: &mut Guarded, ip: Ip) {
    for _ in 0..g.strikes {
        g.wasted(ip);
    }
}

/// How long `ip`'s current penalty has left, in seconds.
fn remaining(g: &Guarded, ip: Ip) -> u32 {
    let (mut low, mut high) = (0u32, 1_000_000u32);
    while low < high {
        let mid = (low + high) / 2;
        if g.g.is_banned(ip, g.now + mid) {
            low = mid + 1;
        } else {
            high = mid;
        }
    }
    low
}

/// Reads an address as text: dotted decimals, or groups in hexadecimal.
fn address(s: &str) -> Option<Ip> {
    if s.contains(':') {
        v6(s).map(Ip::V6)
    } else {
        v4(s).map(Ip::V4)
    }
}

/// Reads four decimals between dots, none with a leading zero.
fn v4(s: &str) -> Option<u32> {
    let parts: Vec<&str> = s.split('.').collect();
    if parts.len() != 4 {
        return None;
    }
    let mut n: u32 = 0;
    for p in parts {
        if p.is_empty() || p.len() > 3 || (p.len() > 1 && p.starts_with('0')) {
            return None;
        }
        if !p.bytes().all(|b| b.is_ascii_digit()) {
            return None;
        }
        let b: u32 = p.parse().ok()?;
        if b > 255 {
            return None;
        }
        n = n * 256 + b;
    }
    Some(n)
}

/// Reads groups between colons, the last maybe an IPv4 address.
fn groups(s: &str) -> Option<Vec<u16>> {
    let mut out: Vec<u16> = Vec::new();
    if s.is_empty() {
        return Some(out);
    }
    let parts: Vec<&str> = s.split(':').collect();
    for (i, p) in parts.iter().enumerate() {
        if p.contains('.') && i + 1 == parts.len() {
            let a = v4(p)?;
            out.push((a >> 16) as u16);
            out.push((a & 0xffff) as u16);
        } else {
            if p.is_empty() || p.len() > 4 {
                return None;
            }
            out.push(u16::from_str_radix(p, 16).ok()?);
        }
    }
    Some(out)
}

/// Reads eight groups in hexadecimal, with at most one `::`.
fn v6(s: &str) -> Option<u128> {
    let all: Vec<u16> = match s.split_once("::") {
        Some((a, b)) => {
            let (a, b) = (groups(a)?, groups(b)?);
            if a.len() + b.len() > 7 {
                return None;
            }
            let mut all = a.clone();
            all.extend(std::iter::repeat(0u16).take(8 - a.len() - b.len()));
            all.extend(b);
            all
        }
        None => groups(s)?,
    };
    if all.len() != 8 {
        return None;
    }
    Some(all.iter().fold(0u128, |n, g| n << 16 | u128::from(*g)))
}

#[test]
fn a_source_that_never_asks_anything_is_refused() {
    let mut g = guard(3);
    let ip = scanner();

    for i in 0..2 {
        assert!(g.admits(ip), "strike {i} is not yet the last one");
        g.wasted(ip);
    }

    assert!(g.admits(ip), "two of three strikes is still a welcome");
    g.wasted(ip);
    assert!(!g.admits(ip), "the third strike shuts it out");
}

#[test]
fn a_source_that_asks_something_is_never_refused() {
    // The whole point: a busy client -- or a NAT full of them -- opens
    // connections at any rate it likes.  Only silence counts, and one
    // answered query clears the record, so the alternation below can run
    // forever without the guard ever noticing it.
    let mut g = guard(3);
    let ip = scanner();

    for _ in 0..100 {
        assert!(g.admits(ip));
        g.wasted(ip);
        g.wasted(ip);
        g.served(ip);
    }

    assert!(g.admits(ip));
    assert_eq!(g.watched(), 0, "an answered query leaves nothing behind");
}

#[test]
fn connections_spread_out_do_not_accumulate() {
    // A liveness monitor connects to see whether the port answers and
    // closes without asking anything.  At one a minute it must never be
    // shut out, however long it runs -- which is why the strikes are
    // counted over a window rather than for ever.
    let mut g = guard(3);
    let ip = scanner();

    for _ in 0..50 {
        g.wasted(ip);
        g.advance(61);
        assert!(g.admits(ip), "one connection a minute is not a scan");
    }
}

#[test]
fn the_penalty_runs_out() {
    let mut g = guard(2);
    let ip = scanner();

    g.wasted(ip);
    g.wasted(ip);
    assert!(!g.admits(ip));

    g.advance(601);
    assert!(g.admits(ip), "the penalty is served");

    // The address is not forgotten outright, because a scanner comes back
    // and its second offence has to cost more than its first. But the
    // strikes are not held against it: it starts again from none.
    assert_eq!(g.watched(), 1, "the offence is remembered");
    g.wasted(ip);
    assert!(g.admits(ip), "and the strikes are not: one is not two");
}

#[test]
fn a_local_address_is_never_refused() {
    let mut g = guard(1);

    for ip in [
        "127.0.0.1",
        "192.168.1.10",
        "10.4.4.4",
        "172.16.0.1",
        "169.254.1.1",
        "::1",
        "fd00::1",
        "fe80::1",
        "::ffff:192.168.1.10",
    ] {
        let ip = at(ip);
        for _ in 0..10 {
            g.wasted(ip);
        }
        g.condemn(ip);

        assert!(g.admits(ip), "{ip:?} is on this network, not the internet");
    }

    assert_eq!(g.watched(), 0);
}

#[test]
fn zero_strikes_switches_the_guard_off() {
    let mut g = guarded(Config {
        strikes: 0,
        max_connections: 1,
        max_per_source: 1,
        max_handshakes: 1,
        ..Config::default()
    });
    let ip = scanner();

    for _ in 0..1000 {
        g.wasted(ip);
    }
    g.condemn(ip);

    assert!(g.admits(ip));
    assert_eq!(g.watched(), 0);

    // The limits are part of the guard, so they go off with it.
    let held: Vec<_> = (0..10).map(|_| g.open(ip).unwrap()).collect();
    let slots: Vec<_> = (0..10).map(|_| g.handshake(ip).unwrap()).collect();
    assert!(held.iter().all(|t| !t.is_counted()));
    assert!(slots.iter().all(|s| !s.is_counted()));
}

#[test]
fn an_allowlisted_address_is_exempt_at_once() {
    let mut g = guard(1);
    let ip = scanner();

    g.wasted(ip);
    assert!(!g.admits(ip));

    // `ratelimit_whitelist` is the operator's escape hatch, and saving it
    // has to take effect on the running server rather than at the next
    // restart.
    g.set_config(Config {
        strikes: 1,
        allowlist: vec![ip],
        ..Config::default()
    });
    assert!(g.admits(ip), "the allowlist is consulted before the marks");
}

#[test]
fn an_allowlisted_address_is_recognised_when_it_arrives_mapped() {
    // A dual-stack socket reports an IPv4 client as `::ffff:a.b.c.d`, and
    // the operator wrote down `a.b.c.d`.
    let mut g = guarded(Config {
        strikes: 1,
        allowlist: vec![scanner()],
        ..Config::default()
    });
    let mapped = at("::ffff:198.51.100.7");

    g.wasted(mapped);
    assert!(g.admits(mapped));
    assert_eq!(g.watched(), 0);
}

#[test]
fn a_public_address_is_not_local() {
    for ip in ["198.51.100.7", "8.8.8.8", "2001:db8::1", "::ffff:8.8.8.8"] {
        assert!(!is_local(at(ip)), "{ip} is on the internet");
    }
}

/// This host's global address, and two other devices in its /64.
const HOST: &str = "2001:db8:aa:bb::53";
const HOST_DEVICE: &str = "2001:db8:aa:bb:1c2d:3e4f:5a6b:7c8d";
const HOST_NEIGHBOUR: &str = "2001:db8:aa:bb:9e8d:7c6b:5a4f:3e2d";

/// A shared guard with `strikes`, on a host whose address is `HOST`.
fn guard_on_host(strikes: u32) -> Guarded {
    guarded(Config {
        strikes,
        host_networks: host_networks(&vec![at(HOST)]),
        ..Config::default()
    })
}

/// A guard with one strike to give, local networks as `local`.
fn guard_with_local(local: Vec<(Ip, u8)>) -> Guarded {
    guarded(Config {
        strikes: 1,
        local_networks: local,
        ..Config::default()
    })
}

/// Reports whether `g` leaves `ip` alone, asked both ways it is asked.
fn spares(g: &mut Guarded, ip: &str) -> bool {
    let ip = at(ip);
    g.condemn(ip);
    let admitted = g.admits(ip);
    assert_eq!(admitted, g.exempts(ip), "{ip:?}: one notion of local");

    admitted
}

#[test]
fn an_address_in_a_configured_private_network_is_local() {
    // `dns.private_networks` is the operator saying what their network
    // is, and the resolver already believes them.
    let mut g = guard_with_local(vec![(at("203.0.113.0"), 24)]);

    assert!(spares(&mut g, "203.0.113.77"));
    assert!(spares(&mut g, "::ffff:203.0.113.78"), "mapped, it is the same");
    assert!(!spares(&mut g, "203.0.114.1"), "the next /24 is the internet");
    assert!(
        spares(&mut g, "192.168.1.10"),
        "the networks every host has stay local whatever is configured"
    );
}

#[test]
fn shared_address_space_is_local_by_default() {
    // 100.64.0.0/10: carrier-grade NAT, and every Tailscale address.
    let mut g = guard(1);

    assert!(spares(&mut g, "100.64.0.1"));
    assert!(spares(&mut g, "100.101.102.103"));
    assert!(!spares(&mut g, "100.128.0.1"), "past the /10");
}

#[test]
fn an_address_in_the_hosts_own_slash_64_is_not_exempt() {
    // On a rented server the /64 may be shared with other customers, so
    // an address in it is judged, only on its own.
    let mut g = guard_on_host(1);

    assert!(!spares(&mut g, HOST_DEVICE));
    let neighbour = at(HOST_NEIGHBOUR);
    assert!(!g.exempts(neighbour));
    assert!(g.open(neighbour).unwrap().is_counted(), "it is counted");
}

#[test]
fn two_addresses_in_the_hosts_own_slash_64_are_separate_sources() {
    // A household reaching the server by its global address: one device
    // tripping the guard is not a ban for the rest.
    let mut g = guard_on_host(2);
    let (a, b): (Ip, Ip) = (
        at(HOST_DEVICE),
        at(HOST_NEIGHBOUR),
    );

    strike_out(&mut g, a);
    assert!(!g.admits(a));
    assert!(g.admits(b), "the next device is somebody else");
    g.wasted(b);
    assert!(g.admits(b), "with strikes of its own");
    assert_eq!(g.watched(), 2);
    assert_ne!(g.source(a), g.source(b));
}

#[test]
fn each_address_in_the_hosts_own_slash_64_has_its_own_allowance() {
    let mut g = guarded(Config {
        max_per_source: 2,
        host_networks: host_networks(&vec![at(HOST)]),
        ..Config::default()
    });
    let (a, b): (Ip, Ip) = (
        at(HOST_DEVICE),
        at(HOST_NEIGHBOUR),
    );

    let _held: Vec<_> = (0..2).map(|_| g.open(a).unwrap()).collect();
    assert_eq!(g.open(a).unwrap_err(), Refused::Busy);
    let _theirs: Vec<_> = (0..2).map(|_| g.open(b).unwrap()).collect();
    assert_eq!(g.stats().sources, 2);
}

#[test]
fn an_address_outside_the_hosts_own_slash_64_is_still_its_slash_64() {
    let mut g = guard_on_host(1);
    let noisy = at("2001:db8:aa:bc::1");
    let fresh = at("2001:db8:aa:bc::2");

    g.wasted(noisy);
    assert!(
        !g.admits(fresh),
        "a fresh address next door is no fresh start"
    );
    assert_eq!(g.source(noisy), g.source(fresh));
    assert!(g.admits(at(HOST_DEVICE)));
}

#[test]
fn a_ticket_gives_back_what_it_took_when_the_hosts_networks_change() {
    // An ISP renumbers under a connection that is open.
    let mut g = guarded(Config {
        host_networks: host_networks(&vec![at(HOST)]),
        ..Config::default()
    });
    let t = g.open(at(HOST_DEVICE)).unwrap();

    g.set_config(Config::default());
    assert_eq!(g.stats().sources, 1);
    g.release(t);
    assert_eq!((g.stats().open, g.stats().sources), (0, 0));
}

#[test]
fn switching_locality_off_switches_off_the_configured_networks_too() {
    let mut g = guarded(Config {
        strikes: 1,
        exempt_local: false,
        local_networks: vec![(at("203.0.113.0"), 24)],
        ..Config::default()
    });

    assert!(!spares(&mut g, "203.0.113.77"));
    assert!(!spares(&mut g, "100.64.0.1"));
}

#[test]
fn the_hosts_networks_are_the_slash_64s_of_its_global_ipv6_addresses() {
    let ips = |v: &[&str]| -> Vec<Ip> { v.iter().map(|s| at(s)).collect() };
    let found = host_networks(&ips(&[
        // A SLAAC address, a temporary one and a DHCPv6 one: one /64.
        "2a02:1:2:3:aaaa:bbbb:cccc:dddd",
        "2a02:1:2:3:1111:2222:3333:4444",
        "2a02:1:2:3::1234",
        // A second prefix, as a renumbering ISP leaves for a while.
        "2a02:1:2:4::1",
        // Nothing for any of these.
        "203.0.113.5",
        "192.168.1.2",
        "::1",
        "::",
        "fe80::1",
        "fd12:3456::1",
        "::ffff:203.0.113.5",
        "ff02::1",
        "2001:0:4136:e378:8000:63bf:3fff:fdd2",
    ]));

    assert_eq!(
        found,
        vec![
            (at("2a02:1:2:3::"), 64),
            (at("2a02:1:2:4::"), 64),
        ]
    );
}

#[test]
fn an_ipv6_scanner_cannot_escape_by_changing_address_within_its_slash_64() {
    // Every address in a /64 belongs to whoever was given it, so a fresh
    // one per connection is free -- and must not be a fresh start.
    let mut g = guard(3);

    for i in 1..=3u16 {
        let ip = at(&format!("2001:db8:1:2:{i}:{i}:{i}:{i}"));
        assert!(g.admits(ip), "strike {i} is not yet the last one");
        g.wasted(ip);
    }

    let another = at("2001:db8:1:2:dead:beef::1");
    assert!(!g.admits(another), "the whole /64 is refused");
    assert_eq!(g.watched(), 1, "and it is one source, not three");

    let neighbour = at("2001:db8:1:3::1");
    assert!(g.admits(neighbour), "the next /64 is somebody else");
}

#[test]
fn a_query_from_anywhere_in_the_slash_64_clears_it() {
    // A household with one real client in it is a household with a
    // client, whichever of its addresses the scanner used.
    let mut g = guard(3);
    let noisy = at("2001:db8:1:2::bad");
    let client = at("2001:db8:1:2::600d");

    strike_out(&mut g, noisy);
    assert!(!g.admits(noisy));
    g.advance(600);

    g.served(client);
    assert!(g.admits(noisy));
    assert_eq!(g.watched(), 0, "the offence is forgiven with the strikes");
}

#[test]
fn a_query_answered_while_refused_does_not_lift_the_penalty() {
    // A scanner holds a DNS connection open, earns a penalty on the web
    // port, then asks one real question on the connection it kept. That
    // wipes neither the penalty nor the offence.
    let mut g = guard(2);
    let ip = scanner();

    g.condemn(ip);
    g.advance(60);
    g.served(ip);
    assert!(!g.admits(ip), "still refused");
    assert_eq!(remaining(&g, ip), 540, "for exactly as long as before");

    // Served in full, the offence is still on record: the next one
    // costs double, as a repeat offender's should.
    g.advance(540);
    g.condemn(ip);
    assert_eq!(remaining(&g, ip), 1200);
}

#[test]
fn outside_a_penalty_a_query_still_clears_strikes_and_offences() {
    let mut g = guard(2);
    let ip = scanner();

    g.wasted(ip);
    g.served(ip);
    g.wasted(ip);
    assert!(g.admits(ip), "the first strike was forgiven");

    strike_out(&mut g, ip);
    g.advance(600);
    g.served(ip);
    assert_eq!(g.watched(), 0);
    strike_out(&mut g, ip);
    assert_eq!(remaining(&g, ip), 600, "and so was the offence");
}

#[test]
fn a_mapped_ipv4_address_is_judged_as_the_ipv4_address_it_is() {
    let mut g = guard(2);
    let mapped = at("::ffff:198.51.100.7");

    g.wasted(mapped);
    g.wasted(scanner());
    assert!(!g.admits(scanner()));
    assert!(!g.admits(mapped));
    assert_eq!(g.watched(), 1);
}

#[test]
fn a_source_is_logged_as_what_it_is_judged_as() {
    let g = guard_on_host(6);
    let judged = |ip: &str| g.source(at(ip)).judged();

    assert_eq!(judged("198.51.100.7"), Judged::Address(at("198.51.100.7")));
    assert_eq!(judged("::ffff:198.51.100.7"), Judged::Address(at("198.51.100.7")));
    assert_eq!(judged("2001:db8:1:2:3:4:5:6"), Judged::Network(at("2001:db8:1:2::"), 64));
    assert_eq!(
        judged("2001:db8:aa:bb:1c2d:3e4f:5a6b:7c8d"),
        Judged::InHostNetwork(at("::1c2d:3e4f:5a6b:7c8d"))
    );
}

#[test]
fn a_repeat_offender_is_refused_for_twice_as_long_each_time() {
    let mut g = guard(2);
    let ip = scanner();

    for expected in [600, 1200, 2400, 4800] {
        strike_out(&mut g, ip);
        assert!(!g.admits(ip));
        assert_eq!(remaining(&g, ip), expected);

        g.advance(expected);
        assert!(g.admits(ip), "a penalty of {expected} seconds is served");
    }
}

#[test]
fn the_penalty_never_grows_past_its_ceiling() {
    let mut g = guard(1);
    let ip = scanner();
    let ceiling = 24 * 3600;

    for _ in 0..40 {
        g.wasted(ip);
        let left = remaining(&g, ip);
        assert!(left <= ceiling, "{left} seconds is past the ceiling");
        g.advance(left);
    }

    g.wasted(ip);
    assert_eq!(remaining(&g, ip), ceiling);
}

#[test]
fn a_ceiling_below_the_first_penalty_does_not_shorten_it() {
    let mut g = guarded(Config {
        strikes: 1,
        max_penalty: Span::from_secs(1),
        ..Config::default()
    });

    g.wasted(scanner());
    assert_eq!(remaining(&g, scanner()), 600);
}

#[test]
fn offences_are_forgotten_after_a_quiet_day() {
    let mut g = guard(1);
    let ip = scanner();

    g.wasted(ip);
    g.advance(600);
    g.wasted(ip);
    assert_eq!(remaining(&g, ip), 1200, "the second offence costs double");

    // A day after the second penalty ended, with nothing in between.
    g.advance(1200 + 24 * 3600);
    g.wasted(ip);
    assert_eq!(remaining(&g, ip), 600, "and a day later it is a first");
}

#[test]
fn a_quiet_offender_is_swept_away_after_its_day() {
    let mut g = guard(1);

    g.wasted(scanner());
    g.advance(600 + 24 * 3600);

    // Anything that makes the guard look at its table.
    g.wasted(at("203.0.113.1"));
    assert_eq!(g.watched(), 1, "only the newcomer is left");
}

#[test]
fn an_answered_query_forgives_every_offence() {
    let mut g = guard(1);
    let ip = scanner();

    for _ in 0..5 {
        g.wasted(ip);
        let left = remaining(&g, ip);
        g.advance(left);
    }

    g.served(ip);
    assert_eq!(g.watched(), 0);
    g.wasted(ip);
    assert_eq!(remaining(&g, ip), 600, "a fixed client starts from nothing");
}

#[test]
fn a_condemned_source_is_refused_at_once() {
    let mut g = guard(6);
    let ip = scanner();

    g.condemn(ip);
    assert!(!g.admits(ip), "one such request settles it");
    assert_eq!(remaining(&g, ip), 600);

    let s = g.stats();
    assert_eq!((s.penalties, s.condemned, s.banned), (1, 1, 1));
}

#[test]
fn condemnation_escalates_like_running_out_of_strikes() {
    let mut g = guard(2);
    let ip = scanner();

    strike_out(&mut g, ip);
    g.advance(600);
    g.condemn(ip);
    assert_eq!(remaining(&g, ip), 1200, "it is the second offence");
}

#[test]
fn nothing_counts_against_a_source_while_it_is_refused() {
    // A scanner that fires fifty probes down one kept-alive connection
    // has committed one offence, not fifty: it would otherwise reach the
    // day-long ceiling in one burst.
    let mut g = guard(2);
    let ip = scanner();

    g.condemn(ip);
    for _ in 0..50 {
        g.condemn(ip);
        g.wasted(ip);
    }

    assert_eq!(remaining(&g, ip), 600);
    assert_eq!(g.stats().penalties, 1);
}

#[test]
fn a_strike_counts_like_a_wasted_connection() {
    let mut g = guard(3);
    let ip = scanner();

    g.strike(ip);
    g.wasted(ip);
    assert!(g.admits(ip));
    g.strike(ip);
    assert!(!g.admits(ip));
}

#[test]
fn one_source_cannot_take_every_connection() {
    let mut g = guarded(Config {
        max_per_source: 3,
        ..Config::default()
    });
    let ip = scanner();

    let held: Vec<_> = (0..3).map(|_| g.open(ip).unwrap()).collect();
    assert!(held.iter().all(Ticket::is_counted));
    assert_eq!(g.open(ip).unwrap_err(), Refused::Busy);

    let other = at("203.0.113.9");
    assert!(g.open(other).is_ok(), "somebody else is not affected");
}

#[test]
fn a_slash_64_shares_one_allowance() {
    let mut g = guarded(Config {
        max_per_source: 2,
        ..Config::default()
    });

    let _a = g.open(at("2001:db8::1")).unwrap();
    let _b = g.open(at("2001:db8::2")).unwrap();
    assert_eq!(
        g.open(at("2001:db8::3")).unwrap_err(),
        Refused::Busy
    );
}

#[test]
fn the_whole_guard_has_a_ceiling() {
    let mut g = guarded(Config {
        max_connections: 3,
        ..Config::default()
    });

    let held: Vec<_> = (1..=3u8)
        .map(|i| g.open(Ip::V4(0xcb00_7100 + u32::from(i))).unwrap())
        .collect();
    assert_eq!(
        g.open(at("203.0.113.4")).unwrap_err(),
        Refused::Busy
    );

    held.into_iter().for_each(|t| g.release(t));
    assert!(g.open(at("203.0.113.4")).is_ok());
}

#[test]
fn a_ticket_gives_its_connection_back_when_dropped() {
    let mut g = guarded(Config {
        max_per_source: 1,
        ..Config::default()
    });
    let ip = scanner();

    let t = g.open(ip).unwrap();
    assert_eq!((g.stats().open, g.stats().sources), (1, 1));
    assert!(g.open(ip).is_err());

    g.release(t);
    let s = g.stats();
    assert_eq!(
        (s.open, s.sources),
        (0, 0),
        "a source with nothing open is not kept"
    );
    assert!(g.open(ip).is_ok());
}

#[test]
fn being_busy_is_not_an_offence() {
    // A NAT with one phone too many is busy, not hostile, and turning its
    // connections away must not become a penalty for the rest of it.
    let mut g = guarded(Config {
        max_per_source: 1,
        max_handshakes: 1,
        ..Config::default()
    });
    let ip = scanner();

    let _t = g.open(ip).unwrap();
    let _s = g.handshake(ip).unwrap();
    for _ in 0..1000 {
        assert!(g.open(ip).is_err());
        assert!(g.handshake(ip).is_none());
    }

    assert_eq!(g.watched(), 0, "no strike, no offence");
    assert!(g.admits(ip));
    assert_eq!(g.stats().refused_busy, 2000);
}

#[test]
fn a_source_serving_a_penalty_is_refused_a_ticket() {
    let mut g = guarded(Config::default());
    let ip = scanner();

    g.condemn(ip);
    assert_eq!(g.open(ip).unwrap_err(), Refused::Banned);
    assert_eq!(g.stats().refused_banned, 1);
    assert_eq!(g.stats().refused_busy, 0);
}

#[test]
fn an_exempt_source_is_never_counted_or_capped() {
    let mut g = guarded(Config {
        max_connections: 1,
        max_per_source: 1,
        max_handshakes: 1,
        ..Config::default()
    });
    let lan = at("192.168.1.10");

    let held: Vec<_> = (0..100).map(|_| g.open(lan).unwrap()).collect();
    let slots: Vec<_> = (0..100).map(|_| g.handshake(lan).unwrap()).collect();
    assert!(held.iter().all(|t| !t.is_counted()));
    assert!(slots.iter().all(|s| !s.is_counted()));

    let s = g.stats();
    assert_eq!((s.open, s.sources, s.handshakes), (0, 0, 0));
    assert!(g.open(scanner()).is_ok(), "and it used none of the budget");
}

#[test]
fn handshakes_have_their_own_ceiling() {
    let mut g = guarded(Config {
        max_handshakes: 2,
        ..Config::default()
    });

    let a = g.handshake(scanner()).unwrap();
    let _b = g.handshake(at("203.0.113.1")).unwrap();
    assert!(g.handshake(at("203.0.113.2")).is_none());
    assert_eq!(g.stats().handshakes, 2);

    g.finish_handshake(a);
    assert!(g.handshake(at("203.0.113.2")).is_some());
}

#[test]
fn lowering_a_limit_leaves_what_is_open_alone() {
    let mut g = guarded(Config::default());
    let ip = scanner();

    let held: Vec<_> = (0..10).map(|_| g.open(ip).unwrap()).collect();
    let slots: Vec<_> = (0..10).map(|_| g.handshake(ip).unwrap()).collect();

    g.set_config(Config {
        max_connections: 2,
        max_per_source: 2,
        max_handshakes: 2,
        ..Config::default()
    });
    assert!(g.open(ip).is_err(), "newcomers wait for the count to fall");
    assert!(g.handshake(ip).is_none());

    held.into_iter().for_each(|t| g.release(t));
    slots.into_iter().for_each(|s| g.finish_handshake(s));
    let s = g.stats();
    assert_eq!(
        (s.open, s.sources, s.handshakes),
        (0, 0, 0),
        "every ticket gave back exactly what it took"
    );
    assert!(g.open(ip).is_ok());
}

#[test]
fn clearing_the_table_leaves_open_connections_counted() {
    let mut g = guarded(Config::default());
    let t = g.open(scanner()).unwrap();

    g.clear();
    assert_eq!(g.stats().open, 1);
    g.release(t);
    assert_eq!(g.stats().open, 0);
}

#[test]
fn a_distributed_scan_cannot_grow_the_table_without_bound() {
    let mut g = guard(6);

    for i in 0..200_000u32 {
        g.wasted(Ip::V4(0x0b00_0000 + i));
        assert!(g.watched() <= MAX_TRACKED);
    }
}

#[test]
fn the_table_gives_up_strikes_before_penalties() {
    let mut g = guard(2);
    let banned: Vec<Ip> = (0..1000u32)
        .map(|i| Ip::V4(0xc633_6400 + i))
        .collect();
    for &ip in &banned {
        strike_out(&mut g, ip);
    }

    // A scan from far more addresses than the table holds, each one
    // connecting once.
    for i in 0..(2 * MAX_TRACKED as u32) {
        g.wasted(Ip::V4(0x0b00_0000 + i));
    }

    assert!(g.watched() <= MAX_TRACKED);
    assert!(
        banned.iter().all(|&ip| !g.admits(ip)),
        "a source serving a penalty outlasts one with a single strike"
    );
}

#[test]
fn a_refusal_at_a_limit_is_logged_once_a_minute() {
    let mut g = guarded(Config {
        max_per_source: 1,
        ..Config::default()
    });
    let ip = scanner();
    let _t = g.open(ip).unwrap();

    assert!(g.open(ip).is_err());
    assert_eq!(g.g.take_warning(), Some(1), "the first is logged");

    for _ in 0..499 {
        assert!(g.open(ip).is_err());
        assert_eq!(g.g.take_warning(), None, "the flood is not");
    }

    g.advance(60);
    assert!(g.open(ip).is_err());
    assert_eq!(
        g.g.take_warning(),
        Some(500),
        "and a minute later one line says how many there were"
    );
}

#[test]
fn a_table_entry_stays_small() {
    // The table can hold `MAX_TRACKED` of these, so what one costs is
    // what a distributed scan costs.
    assert!(size_of::<(Source, Mark)>() <= 32);
}

#[test]
fn a_penalty_is_told_with_its_number_and_length() {
    let mut g = guard(2);
    let ip = scanner();
    assert_eq!(g.wasted(ip), None);
    assert_eq!(g.wasted(ip), Some(Penalty { offence: 1, seconds: 600 }));
    assert_eq!(g.wasted(ip), None, "nothing counts while it is refused");
    g.advance(600);
    assert_eq!(g.condemn(ip), Some(Penalty { offence: 2, seconds: 1200 }));
    assert_eq!(g.condemn(at("192.168.1.10")), None);
}

#[test]
fn a_finished_connection_is_recorded_by_what_it_was_answered() {
    let mut g = guard(1);
    let ip = scanner();
    assert_eq!(g.g.record(ip, 2, 0), None);
    assert_eq!(g.watched(), 0);
    assert_eq!(g.g.record(ip, 0, 0), Some(Penalty { offence: 1, seconds: 600 }));
    assert!(!g.admits(ip));
}

#[test]
fn standing_says_how_opening_would_fare() {
    let mut g = guarded(Config { max_per_source: 1, ..Config::default() });
    let ip = scanner();
    assert_eq!(g.g.standing(ip, 0), Ok(()));
    let t = g.open(ip).unwrap();
    assert_eq!(g.g.standing(ip, 0), Err(Refused::Busy));
    assert_eq!(g.stats().refused_busy, 0, "asking is charged nothing");
    g.release(t);
    g.condemn(ip);
    assert_eq!(g.g.standing(ip, 0), Err(Refused::Banned));
}

#[test]
fn handshakes_are_scarce_from_half_of_them_on() {
    let mut g = guarded(Config { max_handshakes: 3, ..Config::default() });
    assert!(!g.g.handshakes_scarce());
    let _a = g.handshake(scanner()).unwrap();
    assert!(g.g.handshakes_scarce(), "a second of three would be more than half");
    let _b = g.g.unproven_handshake().unwrap();
    assert!(g.g.handshakes_scarce());
    assert!(g.g.unproven_handshake().is_some());
    assert!(g.g.unproven_handshake().is_none());
    g.g.retried();
    assert_eq!(g.stats().retried, 1);
    assert!(!guarded(Config { max_handshakes: 0, ..Config::default() }).g.handshakes_scarce());
}

#[test]
fn the_guard_starts_from_the_shared_notion_of_local() {
    let cfg = Config::default();
    assert_eq!(cfg.local_networks, local_networks());
    assert_eq!((cfg.strikes, cfg.penalty), (6, Span::from_secs(600)));
    assert_eq!(sift::probe::terms::secs(Span { secs: 7, nanos: 1 }), 8);
}

#[test]
fn what_is_forgiven_is_no_longer_reported() {
    let mut g = guard(2);
    let (a, b) = (scanner(), at("203.0.113.9"));

    g.wasted(a);
    g.condemn(b);
    let s = g.stats();
    assert_eq!((s.watched, s.banned), (2, 1));

    // The strike is older than the window, the penalty is over and its
    // offence forgiven: the sources stay in the table until it is swept, with
    // nothing held against them.
    g.advance(1_000_000);
    let s = g.stats();
    assert_eq!((s.watched, s.banned), (0, 0));
    assert_eq!(g.watched(), 2);
}

#[test]
fn a_sweep_changes_nothing_of_a_refused_source() {
    let mut g = guard(6);
    let (ip, other) = (scanner(), at("203.0.113.9"));

    g.wasted(other);
    g.condemn(ip);
    g.advance(500);
    assert_eq!(remaining(&g, ip), 100);

    // The other source's strike is forgotten on the way, and nothing more is
    // held against the refused one.
    assert_eq!(g.condemn(ip), None);
    assert_eq!(g.wasted(ip), None);
    assert_eq!(remaining(&g, ip), 100);
    let s = g.stats();
    assert_eq!((s.penalties, s.condemned, s.watched), (1, 1, 1));
}
