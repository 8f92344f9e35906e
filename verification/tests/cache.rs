//! The response cache.

use sift::cache::key::{wants_dnssec, Key};
use sift::cache::model::{Config, Freshness, COMPACT_SLACK, ENTRY_SLOTS, NAME_COUNTS};
use sift::cache::shard::{charge, decrement_ttls, secs_u32, set_ttls, Entry, Hit, Shard};
use sift::cache::{is_cacheable_type, with_size, Cache, SHARDS};
use sift::message::{least_ttl, Edns, Message, Metadata, Name, OptHead, Query, Record};
use sift::packed::Packed;
use sift::probe::terms::Span;

const A: u16 = 1;
const CNAME: u16 = 5;

/// A name written as text, with a dot behind each label.
fn name(s: &str) -> Name {
    let mut wire: Vec<u8> = Vec::new();
    for label in s.trim_end_matches('.').split('.') {
        wire.push(label.len() as u8);
        wire.extend(label.as_bytes());
    }
    Name::from_wire(&wire).expect("a name")
}

/// A name as record data holds it, with the root's zero.
fn target(s: &str) -> Vec<u8> {
    let mut wire = name(s).wire().to_vec();
    wire.push(0);
    wire
}

/// A query with no question yet.
fn query() -> Message {
    Message {
        metadata: Metadata {
            id: 0x1234,
            response: false,
            op_code: 0,
            authoritative: false,
            truncation: false,
            recursion_desired: false,
            recursion_available: false,
            authentic_data: false,
            checking_disabled: false,
            response_code: 0,
        },
        queries: Vec::new(),
        answers: Vec::new(),
        authorities: Vec::new(),
        additionals: Vec::new(),
        edns: None,
        signed: false,
    }
}

fn record(owner: &str, rtype: u16, ttl: u32, data: &[u8]) -> Record {
    Record { name: name(owner), rtype, class: 1, ttl, data: data.to_vec() }
}

fn req(n: &str) -> Message {
    let mut m = query();
    m.queries.push(Query { name: name(n), qtype: A, qclass: 1 });

    m
}

fn resp(n: &str, ttl: u32) -> Message {
    let mut m = req(n);
    m.metadata.response = true;
    m.answers = vec![record(n, A, ttl, &[1, 2, 3, 4])];

    m
}

fn key(n: &str) -> Key {
    Key::from_request(&req(n)).expect("a question")
}

/// A request for the name `k` is keyed on.
fn ask(k: &Key) -> Message {
    let mut m = query();
    m.metadata.id = 0x4242;
    m.queries.push(Query {
        name: Name::from_wire(&k.name).expect("a name"),
        qtype: k.qtype,
        qclass: k.qclass,
    });

    m
}

/// A cache and its clock, in milliseconds.
struct Timed {
    c: Cache,
    now: u64,
}

impl Timed {
    fn new(cfg: Config) -> Self {
        Timed { c: Cache::new(cfg), now: 0 }
    }

    fn put(&mut self, k: &Key, m: &Message) -> bool {
        self.c.put(k, m, self.now)
    }

    fn get(&mut self, k: &Key) -> Option<Hit> {
        self.c.get(k, &ask(k), self.now)
    }

    fn later(&mut self, secs: u64) {
        self.now += secs * 1000;
    }

    fn ttl_for(&self, m: &Message) -> Option<u32> {
        self.c.cache_ttl_for(m)
    }
}

#[test]
fn a_clients_own_upstreams_get_their_own_entries() {
    // One client resolves through its company's split-horizon resolver,
    // another through the global ones, and neither decides what the other is
    // told.
    let mut c = Timed::new(Config::default());
    let global = key("intranet.example.com.");
    let theirs = key("intranet.example.com.").for_upstreams(Some("10.0.0.1".to_string()));

    assert_ne!(global, theirs);
    assert!(c.put(&global, &resp("intranet.example.com.", 300)));

    assert!(c.get(&global).is_some(), "the global entry is there");
    assert!(c.get(&theirs).is_none(), "a client with its own upstreams must not be served it");

    // And the two coexist rather than evicting each other.
    assert!(c.put(&theirs, &resp("intranet.example.com.", 300)));
    assert_eq!(c.c.len(), 2);
    assert!(c.get(&global).is_some());
    assert!(c.get(&theirs).is_some());
}

#[test]
fn clients_configured_with_the_same_upstreams_share_entries() {
    let mut c = Timed::new(Config::default());
    let one = key("example.com.").for_upstreams(Some("10.0.0.1".to_string()));
    let two = key("example.com.").for_upstreams(Some("10.0.0.1".to_string()));

    assert_eq!(one, two);
    assert!(c.put(&one, &resp("example.com.", 300)));
    assert!(c.get(&two).is_some());
}

#[test]
fn the_cache_can_be_reconfigured_while_running() {
    let mut c = Timed::new(Config::default());
    let k = key("example.com.");
    assert!(c.put(&k, &resp("example.com.", 300)));
    assert_eq!(c.c.len(), 1);

    // Switching caching off empties it and stops it storing anything.
    c.c.set_config(Config { size_bytes: 0, ..Config::default() });
    assert!(c.c.is_disabled());
    assert_eq!(c.c.len(), 0, "entries must not survive the cache being off");
    assert!(!c.put(&k, &resp("example.com.", 300)));
    assert!(c.get(&k).is_none());

    // And switching it back on works without a restart.
    c.c.set_config(Config::default());
    assert!(!c.c.is_disabled());
    assert!(c.put(&k, &resp("example.com.", 300)));
    assert!(c.get(&k).is_some());
}

#[test]
fn new_ttl_bounds_apply_without_a_restart() {
    // The bounds decide how long an entry is held, not what TTL the answer
    // carries, so check the lifetime the cache would choose.
    let mut c = Timed::new(Config::default());
    let r = resp("example.com.", 300);
    assert_eq!(c.ttl_for(&r), Some(300));

    c.c.set_config(Config { ttl_max: 5, ..Config::default() });
    assert_eq!(c.ttl_for(&r), Some(5));

    c.c.set_config(Config { ttl_min: 600, ..Config::default() });
    assert_eq!(c.ttl_for(&r), Some(600));
}

#[test]
fn stores_and_retrieves() {
    let mut c = Timed::new(Config::default());
    let k = key("example.com.");
    assert!(c.put(&k, &resp("example.com.", 300)));

    let hit = c.get(&k).expect("should hit");
    assert_eq!(hit.freshness, Freshness::Fresh);
    assert_eq!(hit.msg.answers.len(), 1);
    assert_eq!(c.c.len(), 1);
}

#[test]
fn keys_distinguish_name_type_and_dnssec() {
    let a = key("example.com.");
    let b = key("other.com.");
    assert_ne!(a, b);

    let mut r = req("example.com.");
    r.metadata.authentic_data = true;
    assert_ne!(a, Key::from_request(&r).unwrap());
    assert!(Key::from_request(&query()).is_none(), "no question, no key");
}

#[test]
fn the_dnssec_ok_bit_separates_entries() {
    // Serving a signed answer's cache entry to a client that did not ask
    // for signatures is harmless; the reverse is not, because a
    // validating client cannot validate what it was not sent.
    let plain = key("example.com.");

    let mut signed = req("example.com.");
    signed.edns = Some(Edns {
        head: OptHead { rcode_high: 0, version: 0, flags: 0x8000, max_payload: 1232 },
        options: Vec::new(),
    });

    assert!(wants_dnssec(&signed));
    assert_ne!(plain, Key::from_request(&signed).unwrap());
}

#[test]
fn keys_are_case_insensitive_and_ignore_the_trailing_dot() {
    let a = key("Example.COM.");
    let b = key("example.com.");
    assert_eq!(a, b);
    assert_eq!(&*a.name, b"\x07example\x03com");
}

#[test]
fn a_dot_inside_a_label_is_a_different_name() {
    // `www.victim\.com.` is two labels under a top-level domain that does
    // not exist, and its NXDOMAIN must never be what `www.victim.com.` is
    // told.
    let mut r = query();
    let crafted = Name::from_wire(b"\x03www\x0avictim.com").expect("two labels");
    r.queries.push(Query { name: crafted, qtype: A, qclass: 1 });

    assert_ne!(Key::from_request(&r).unwrap(), key("www.victim.com."));
}

#[test]
fn a_miss_returns_nothing() {
    let mut c = Timed::new(Config::default());
    assert!(c.get(&key("absent.com.")).is_none());
}

#[test]
fn refuses_to_cache_failures() {
    let mut c = Timed::new(Config::default());
    let k = key("example.com.");
    let mut m = resp("example.com.", 300);
    m.metadata.response_code = 2;
    assert!(!c.put(&k, &m));
    assert!(c.get(&k).is_none());
}

#[test]
fn refuses_to_cache_a_zero_ttl() {
    let mut c = Timed::new(Config::default());
    assert!(!c.put(&key("example.com."), &resp("example.com.", 0)));
}

#[test]
fn applies_the_configured_ttl_bounds() {
    let c = Timed::new(Config { ttl_min: 60, ..Config::default() });
    assert_eq!(c.ttl_for(&resp("a.com.", 5)), Some(60));

    let c = Timed::new(Config { ttl_max: 30, ..Config::default() });
    assert_eq!(c.ttl_for(&resp("a.com.", 300)), Some(30));
}

#[test]
fn a_disabled_cache_stores_nothing() {
    let mut c = Timed::new(Config { size_bytes: 0, ..Config::default() });
    assert!(c.c.is_disabled());
    let k = key("example.com.");
    assert!(!c.put(&k, &resp("example.com.", 300)));
    assert!(c.get(&k).is_none());
}

#[test]
fn evicts_when_over_budget() {
    // A tiny budget so a handful of entries forces eviction.
    let mut c = Timed::new(Config { size_bytes: SHARDS * 400, ..Config::default() });
    for i in 0..500 {
        let n = format!("host{i}.example.com.");
        c.put(&key(&n), &resp(&n, 300));
    }

    assert!(c.c.len() < 500, "eviction should have dropped entries, got {}", c.c.len());
    assert!(c.c.bytes() <= SHARDS * 400 + 4096, "bytes should stay near budget");
}

#[test]
fn clearing_empties_the_cache() {
    let mut c = Timed::new(Config::default());
    c.put(&key("example.com."), &resp("example.com.", 300));
    assert!(!c.c.is_empty());
    c.c.clear();
    assert!(c.c.is_empty());
    assert_eq!(c.c.bytes(), 0);
}

#[test]
fn an_expired_entry_is_served_with_the_configured_optimistic_ttl() {
    // A stale answer carries the configured TTL, not what was left of the
    // one it was stored for.
    let mut c = Timed::new(Config {
        optimistic: true,
        optimistic_answer_ttl: Span::from_secs(7),
        ..Config::default()
    });
    let k = key("example.com.");
    c.put(&k, &resp("example.com.", 300));
    c.later(400);

    let hit = c.get(&k).expect("optimistic serving keeps it");
    assert_eq!(hit.freshness, Freshness::Stale);
    assert_eq!(hit.msg.answers[0].ttl, 7);
    assert!(hit.refresh, "and its caller is told to refresh it");
}

#[test]
fn an_expired_entry_is_still_dropped_when_optimistic_serving_is_off() {
    let mut c = Timed::new(Config::default());
    let k = key("example.com.");
    c.put(&k, &resp("example.com.", 300));
    c.later(400);

    assert!(c.get(&k).is_none());
    assert_eq!(c.c.len(), 0, "and it is gone rather than kept");
}

#[test]
fn an_entry_past_the_stale_window_is_dropped_rather_than_served() {
    let mut c = Timed::new(Config {
        optimistic: true,
        optimistic_max_age: Span::from_secs(60),
        ..Config::default()
    });
    let k = key("example.com.");
    c.put(&k, &resp("example.com.", 300));
    c.later(3600);

    assert!(c.get(&k).is_none());
}

#[test]
fn only_one_caller_at_a_time_is_told_to_refresh() {
    // Otherwise a burst on one expired name queues a job per client.
    let mut c = Timed::new(Config { optimistic: true, ..Config::default() });
    let k = key("example.com.");
    c.put(&k, &resp("example.com.", 300));
    c.later(400);

    assert!(c.get(&k).expect("a hit").refresh, "the first claims it");
    assert!(
        !c.get(&k).expect("a hit").refresh,
        "the rest are served the same stale answer and refresh nothing"
    );

    c.c.end_refresh(&k);
    assert!(
        c.get(&k).expect("a hit").refresh,
        "and the claim can be taken again once it is released"
    );
}

#[test]
fn a_popular_entry_is_refreshed_before_it_expires() {
    // The last tenth of the TTL is the window.
    let mut c = Timed::new(Config { optimistic: true, ..Config::default() });
    let k = key("example.com.");
    c.put(&k, &resp("example.com.", 100));
    c.later(95);

    let first = c.get(&k).expect("a hit");
    assert_eq!(first.freshness, Freshness::Fresh);
    assert!(!first.refresh, "a name asked for once is left to expire quietly");
    assert!(c.get(&k).expect("a hit").refresh, "a second ask pays for the exchange");
}

#[test]
fn an_entry_well_inside_its_ttl_is_left_alone() {
    let mut c = Timed::new(Config { optimistic: true, ..Config::default() });
    let k = key("example.com.");
    c.put(&k, &resp("example.com.", 100));
    c.later(10);

    for _ in 0..5 {
        assert!(!c.get(&k).expect("a hit").refresh);
    }
}

#[test]
fn refreshing_ahead_is_gated_on_optimistic_serving() {
    let mut c = Timed::new(Config::default());
    let k = key("example.com.");
    c.put(&k, &resp("example.com.", 100));
    c.later(95);

    assert!(!c.get(&k).expect("a hit").refresh);
    assert!(!c.get(&k).expect("a hit").refresh);
}

#[test]
fn the_eviction_order_does_not_grow_without_bound() {
    // An expiring lookup takes the entry out without its slot in the order,
    // and storing the key again adds a second slot.
    let mut c = Timed::new(Config::default());
    let k = key("example.com.");

    for _ in 0..10_000 {
        c.put(&k, &resp("example.com.", 300));
        c.later(400);
        assert!(c.get(&k).is_none(), "expired, and dropped by the lookup");
    }

    assert_eq!(c.c.len(), 0, "the cache is empty");
    assert!(
        c.c.order_len() <= COMPACT_SLACK * 2,
        "{} eviction slots for an empty cache",
        c.c.order_len()
    );
}

#[test]
fn a_dead_eviction_slot_does_not_take_the_live_entry_with_it() {
    // A key stored again after expiring leaves its first slot behind. That
    // slot sorts ahead of everything stored since.
    let cfg = Config::default();
    let mut sh = Shard::new(262_144);
    let k = key("example.com.");
    let pack = |n: &str| Packed::pack(&resp(n, 300)).expect("packs");

    sh.put(&k, pack("example.com."), 300, 0);
    assert!(sh.get(&cfg, &k, 400_000).is_none(), "the lookup drops it, leaving its slot");

    // Something else, stored between the dead slot and the live one, is what
    // eviction should actually take.
    let ok = key("filler.example.com.");
    sh.put(&ok, pack("filler.example.com."), 300, 400_000);
    sh.put(&k, pack("example.com."), 300, 400_000);

    // Just enough pressure to need one entry's worth freed.
    assert_eq!(sh.order_len(), 3, "the dead slot is still in the order");
    let budget = sh.bytes() - 1;
    sh.set_budget(budget);

    assert!(
        sh.get(&cfg, &k, 400_000).is_some(),
        "the entry stored last must survive its own dead slot"
    );
    assert!(
        sh.get(&cfg, &ok, 400_000).is_none(),
        "the genuinely older entry is what goes instead"
    );
}

#[test]
fn an_entry_is_charged_for_what_it_holds() {
    let mut c = Timed::new(Config::default());
    let k = key("example.com.");
    let m = resp("example.com.", 300);
    assert!(c.put(&k, &m));

    assert!(c.c.bytes() > ENTRY_SLOTS, "both slots and the heap are charged");
    assert!(c.c.bytes() < 300, "charged {} bytes", c.c.bytes());

    let p = Packed::pack(&m).expect("packs");
    assert_eq!(charge(&k, &p), ENTRY_SLOTS + p.heap_len() + k.name.len() + NAME_COUNTS);
    assert_eq!(c.c.bytes(), charge(&k, &p));
}

#[test]
fn a_hit_is_the_answer_that_was_stored() {
    // Byte for byte, and so case for case: packing is lossless.
    let mut c = Timed::new(Config::default());
    let q = "www.example.com.";
    let mut m = resp(q, 300);
    m.answers = vec![
        record(q, CNAME, 300, &target("Edge.CDN.example.net.")),
        record("Edge.CDN.example.net.", A, 300, &[192, 0, 2, 1]),
    ];
    let k = key(q);
    assert!(c.put(&k, &m));

    // Readdressed to whoever asked, and otherwise the same.
    let asking = ask(&k);
    assert_ne!(asking.metadata.id, m.metadata.id);
    let hit = c.c.get(&k, &asking, 0).expect("a hit");
    m.metadata.id = asking.metadata.id;
    assert_eq!(hit.msg, m);
    assert_eq!(hit.msg.answers[1].name, name("Edge.CDN.example.net."));
}

#[test]
fn a_hit_is_addressed_to_the_request_not_the_one_that_filled_it() {
    let mut c = Timed::new(Config::default());
    let mut first = req("www.example.com.");
    first.metadata.recursion_desired = true;
    let mut stored = resp("www.example.com.", 300);
    stored.metadata.recursion_desired = true;
    stored.edns = Some(Edns {
        head: OptHead { rcode_high: 0, version: 0, flags: 0, max_payload: 1232 },
        options: [&[0u8, 10, 0, 8][..], &[0xaa; 8][..]].concat(),
    });
    let k = Key::from_request(&first).unwrap();
    assert!(c.put(&k, &stored));

    let mut second = query();
    second.metadata.id = 0x9876;
    second.queries.push(Query { name: name("WwW.eXaMpLe.CoM."), qtype: A, qclass: 1 });
    second.metadata.recursion_desired = false;
    second.metadata.checking_disabled = true;
    assert_eq!(Key::from_request(&second).unwrap(), k, "the same entry");

    let hit = c.c.get(&k, &second, 0).expect("a hit").msg;
    assert_eq!(hit.metadata.id, second.metadata.id);
    assert_eq!(hit.queries[0].name, name("WwW.eXaMpLe.CoM."));
    assert!(!hit.metadata.recursion_desired);
    assert!(hit.metadata.checking_disabled);
    assert!(hit.edns.is_none(), "not the first asker's cookie");
    assert_eq!(hit.answers[0].name, name("www.example.com."));
    assert!(hit.metadata.response);

    // One that sent an OPT record gets one.
    second.edns = Some(Edns {
        head: OptHead { rcode_high: 0, version: 0, flags: 0, max_payload: 4096 },
        options: Vec::new(),
    });
    assert!(c.c.get(&k, &second, 0).expect("a hit").msg.edns.is_some());

    // And one that asks nothing finds nothing.
    second.queries.clear();
    assert!(c.c.get(&k, &second, 0).is_none());
    assert_eq!(c.c.len(), 1);
}

#[test]
fn the_least_ttl_is_that_of_any_section() {
    let mut m = resp("example.com.", 300);
    assert_eq!(least_ttl(&m), Some(300));
    m.authorities.push(record("example.com.", A, 60, &[1, 2, 3, 4]));
    assert_eq!(least_ttl(&m), Some(60));
    m.additionals.push(record("example.com.", A, 7, &[1, 2, 3, 4]));
    m.additionals.push(record("example.com.", A, 9, &[1, 2, 3, 4]));
    assert_eq!(least_ttl(&m), Some(7));
    assert_eq!(least_ttl(&req("example.com.")), None);

    let mut c = Timed::new(Config::default());
    assert_eq!(c.ttl_for(&m), Some(7));
    assert!(!c.put(&key("example.com."), &req("example.com.")), "no records, no TTL");
    assert_eq!((c.c.len(), c.c.bytes()), (0, 0));
}

#[test]
fn one_refresh_is_claimed_until_it_is_released() {
    let mut c = Timed::new(Config { optimistic: true, ..Config::default() });
    let k = key("example.com.");
    assert!(c.put(&k, &resp("example.com.", 300)));
    let fresh = c.get(&k).expect("a hit");
    assert_eq!((fresh.freshness, fresh.refresh), (Freshness::Fresh, false));
    c.later(301);
    for round in 0..2 {
        for i in 0..5 {
            let hit = c.get(&k).expect("served stale");
            assert_eq!((hit.freshness, hit.refresh), (Freshness::Stale, i == 0), "round {round}");
        }
        c.c.end_refresh(&k);
    }
}

#[test]
fn zone_transfer_and_any_are_not_cacheable() {
    assert!(!is_cacheable_type(252));
    assert!(!is_cacheable_type(255));
    assert!(is_cacheable_type(A));
}

#[test]
fn a_hit_counts_its_ttl_down() {
    let mut c = Timed::new(Config::default());
    let k = key("example.com.");
    c.put(&k, &resp("example.com.", 300));
    c.now += 100_999;
    assert_eq!(c.get(&k).expect("a hit").msg.answers[0].ttl, 200);
    c.now = 299_999;
    assert_eq!(c.get(&k).expect("the last moment").msg.answers[0].ttl, 1);
    c.now = 300_000;
    assert!(c.get(&k).is_none());
}

#[test]
fn a_key_keeps_its_shard() {
    let c = with_size(1_048_576);
    let at = c.shard_of(&key("example.com."));
    assert!(at < SHARDS);
    assert_eq!(at, c.shard_of(&key("example.com.")));
    let used: std::collections::BTreeSet<usize> =
        (0..1000).map(|i| c.shard_of(&key(&format!("h{i}.example.")))).collect();
    assert_eq!(used.len(), SHARDS, "and the keys are spread over them");
}

#[test]
fn spans_and_ttls_are_whole_seconds() {
    assert_eq!(secs_u32(Span { secs: 7, nanos: 999_999_999 }), 7);
    assert_eq!(secs_u32(Span { secs: u64::MAX, nanos: 0 }), u32::MAX);

    let mut m = resp("example.com.", 300);
    decrement_ttls(&mut m, 100);
    assert_eq!(m.answers[0].ttl, 200);
    decrement_ttls(&mut m, 500);
    assert_eq!(m.answers[0].ttl, 1, "never down to nothing");
    set_ttls(&mut m, 30);
    assert_eq!(m.answers[0].ttl, 30);
}

#[test]
fn the_oldest_entry_goes_first() {
    let cfg = Config::default();
    let pack = |n: &str| Packed::pack(&resp(n, 300)).expect("packs");
    let mut sh = Shard::new(600);
    for n in ["a.example.", "b.example.", "c.example."] {
        assert!(sh.put(&key(n), pack(n), 300, 0));
    }
    assert_eq!(sh.len(), 2);
    assert!(sh.get(&cfg, &key("a.example."), 0).is_none());
    assert!(sh.get(&cfg, &key("c.example."), 0).is_some());
    assert!(!Shard::new(10).put(&key("a.example."), pack("a.example."), 300, 0), "too large");

    sh.remove(&key("c.example."));
    assert_eq!(sh.len(), 1);
    sh.clear();
    assert_eq!((sh.len(), sh.bytes(), sh.order_len()), (0, 0, 0));
}

#[test]
fn cache_an_entry_stays_small() {
    // The cache holds as many of these as its size fits.
    assert!(size_of::<Entry>() <= 72, "Entry grew to {} bytes", size_of::<Entry>());
    assert!(
        size_of::<Key>() <= 40,
        "Key grew to {} bytes, and every entry holds two",
        size_of::<Key>()
    );
}

#[test]
fn the_stale_window_opens_when_the_ttl_has_run_out() {
    let cfg = Config {
        optimistic: true,
        optimistic_max_age: Span::from_secs(60),
        ..Config::default()
    };
    let k = key("example.com.");
    for (age, served) in [(299, true), (310, true), (360, true), (361, false)] {
        let mut c = Timed::new(cfg);
        c.put(&k, &resp("example.com.", 300));
        c.later(age);
        match c.get(&k) {
            Some(hit) => {
                assert!(served, "after {age} s");
                let want = if age < 300 { Freshness::Fresh } else { Freshness::Stale };
                assert_eq!(hit.freshness, want, "after {age} s");
            }
            None => assert!(!served, "after {age} s"),
        }
    }
}

#[test]
fn a_cache_of_a_few_bytes_holds_nothing() {
    let mut c = Timed::new(Config { size_bytes: 15, ..Config::default() });
    assert!(c.c.has_numbers());
    assert!(!c.put(&key("example.com."), &resp("example.com.", 300)));
    assert_eq!(c.c.bytes(), 0);
}
