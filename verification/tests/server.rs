//! Who may ask, what a request comes to, and how a connection is judged.

use sift::ip::Ip;
use sift::probe::terms::{Config, Span};
use sift::probe::Guard;
use sift::server::access::{
    in_net, is_valid_client_id, mask_bits, parse_access_entry, Access, AccessEntry, AccessList,
};
use sift::server::answer::{
    begin, conclude, entered, finish, limited, reply_code, seated, tried, waited, Answer, Resolved, Step, Tried, Waited,
};
use sift::server::conduct::{is_connection_error, AcceptErrors, Conduct, Fault, Tally, Throttle, Waiting, ACCEPT_BACKOFF};
use sift::server::names::{client_id_from_server_name, client_id_from_sni, ServerName, ServerNameError};
use sift::server::share::{InFlight, IN_FLIGHT_PER_SOURCE};
use sift::server::stream::{closed_at_once, frame, message_len, read_message, First, Sending, Stream};

fn ip(s: &str) -> Ip {
    address(s).expect("an address")
}

fn texts(all: &[&str]) -> Vec<String> {
    all.iter().map(|s| s.to_string()).collect()
}

fn access(allowed: &[&str], disallowed: &[&str]) -> Access {
    Access::new(&texts(allowed), &texts(disallowed), &address)
}

fn entry(s: &str) -> Option<AccessEntry> {
    parse_access_entry(s, &address)
}

/// A guard that judges every source, and shuts one out at once.
fn guard(strikes: u32) -> Guard {
    Guard::new(Config { strikes, exempt_local: false, ..Config::default() })
}

/// A query for the address of `a.example`, as bytes.
fn query() -> Vec<u8> {
    let mut q = vec![0x12, 0x34, 1, 0, 0, 1, 0, 0, 0, 0, 0, 0];
    q.extend(*b"\x01a\x07example\x00");
    q.extend([0, 1, 0, 1]);
    q
}

/// Reads an address as text: dotted decimals, or groups in hexadecimal.
fn address(s: &str) -> Option<Ip> {
    if s.contains(':') {
        v6(s).map(Ip::V6)
    } else {
        v4(s).map(Ip::V4)
    }
}

/// Reads four decimals between dots, none with a leading zero.
fn v4(s: &str) -> Option<u32> {
    let parts: Vec<&str> = s.split('.').collect();
    if parts.len() != 4 {
        return None;
    }
    let mut n: u32 = 0;
    for p in parts {
        if p.is_empty() || p.len() > 3 || (p.len() > 1 && p.starts_with('0')) {
            return None;
        }
        if !p.bytes().all(|b| b.is_ascii_digit()) {
            return None;
        }
        let b: u32 = p.parse().ok()?;
        if b > 255 {
            return None;
        }
        n = n * 256 + b;
    }
    Some(n)
}

/// Reads groups between colons, the last maybe an IPv4 address.
fn groups(s: &str) -> Option<Vec<u16>> {
    let mut out: Vec<u16> = Vec::new();
    if s.is_empty() {
        return Some(out);
    }
    let parts: Vec<&str> = s.split(':').collect();
    for (i, p) in parts.iter().enumerate() {
        if p.contains('.') && i + 1 == parts.len() {
            let a = v4(p)?;
            out.push((a >> 16) as u16);
            out.push((a & 0xffff) as u16);
        } else {
            if p.is_empty() || p.len() > 4 {
                return None;
            }
            out.push(u16::from_str_radix(p, 16).ok()?);
        }
    }
    Some(out)
}

/// Reads eight groups in hexadecimal, with at most one `::`.
fn v6(s: &str) -> Option<u128> {
    let all: Vec<u16> = match s.split_once("::") {
        Some((a, b)) => {
            let (a, b) = (groups(a)?, groups(b)?);
            if a.len() + b.len() > 7 {
                return None;
            }
            let mut all = a.clone();
            all.extend(std::iter::repeat(0u16).take(8 - a.len() - b.len()));
            all.extend(b);
            all
        }
        None => groups(s)?,
    };
    if all.len() != 8 {
        return None;
    }
    Some(all.iter().fold(0u128, |n, g| n << 16 | u128::from(*g)))
}

#[test]
fn access_defaults_to_permitting_everyone() {
    let a = Access::default();
    assert!(a.permits(ip("1.2.3.4"), None));
}

/// The three forms the field documents, in one list.
fn mixed_allowlist() -> Access {
    access(&["mi12t", "hoangnc-chrome", "172.17.0.0/16", "192.168.99.2/31", "10.0.0.7"], &[])
}

#[test]
fn an_allowlist_of_cidrs_and_clientids_is_not_an_empty_allowlist() {
    // An empty allowlist admits everybody, so a list written entirely in
    // networks and identifiers must not parse to one.
    let a = mixed_allowlist();
    assert!(!a.allowed.is_empty(), "nothing parsed");

    assert!(a.permits(ip("172.17.0.5"), None), "inside the /16");
    assert!(a.permits(ip("192.168.99.3"), None), "inside the /31");
    assert!(a.permits(ip("10.0.0.7"), None), "the bare address");

    assert!(!a.permits(ip("172.18.0.5"), None), "outside the /16");
    assert!(!a.permits(ip("192.168.99.4"), None), "outside the /31");
    assert!(!a.permits(ip("8.8.8.8"), None), "not listed at all");
}

#[test]
fn a_listed_clientid_gets_in_from_an_unlisted_address() {
    // An allowlist refuses only when both checks refuse, which is what makes
    // a ClientID worth listing: the phone is on a different network every
    // day.
    let a = mixed_allowlist();
    let elsewhere = ip("203.0.113.9");

    assert!(a.permits(elsewhere, Some("mi12t")));
    assert!(a.permits(elsewhere, Some("hoangnc-chrome")));
    assert!(!a.permits(elsewhere, Some("someone-else")));
    assert!(!a.permits(elsewhere, None));

    // And an allowed address still gets in carrying no ClientID at all,
    // which is every plain UDP query.
    assert!(a.permits(ip("172.17.0.5"), None));
}

#[test]
fn a_blocklist_refuses_on_either_check() {
    // With no allowlist, one match is enough to refuse.
    let a = access(&[], &["10.0.0.0/8", "guest-tablet"]);

    assert!(!a.permits(ip("10.1.2.3"), None));
    assert!(!a.permits(ip("203.0.113.9"), Some("guest-tablet")));
    assert!(a.permits(ip("203.0.113.9"), Some("laptop")));
    assert!(a.permits(ip("203.0.113.9"), None));
}

#[test]
fn access_entries_are_sorted_the_way_upstream_sorts_them() {
    assert_eq!(entry("10.0.0.1"), Some(AccessEntry::Ip(ip("10.0.0.1"))));
    assert_eq!(entry("2001:db8::1"), Some(AccessEntry::Ip(ip("2001:db8::1"))));
    assert_eq!(entry("172.17.0.0/16"), Some(AccessEntry::Net(ip("172.17.0.0"), 16)));
    assert_eq!(entry("2001:db8::/32"), Some(AccessEntry::Net(ip("2001:db8::"), 32)));
    assert_eq!(entry("mi12t"), Some(AccessEntry::Id("mi12t".to_string())));

    // A prefix too long for its family is not a network, and is not a
    // label either.
    assert_eq!(entry("10.0.0.0/33"), None);
    assert_eq!(entry("2001:db8::/129"), None);

    // Neither is anything that is not a single DNS label.
    for bad in ["", "-x", "x-", "a.b", "has space", "under_score", &"x".repeat(64)] {
        assert_eq!(entry(bad), None, "{bad:?} must be refused");
    }
    assert!(is_valid_client_id(&"x".repeat(63)));
}

#[test]
fn an_ipv6_network_matches_only_its_own_family() {
    let a = access(&["2001:db8::/32"], &[]);
    assert!(a.permits(ip("2001:db8::1"), None));
    assert!(!a.permits(ip("2001:db9::1"), None));
    // A v4 address must not fall into a v6 prefix through the masking.
    assert!(!a.permits(ip("10.0.0.1"), None));
}

#[test]
fn a_zero_length_prefix_matches_its_whole_family() {
    let a = access(&["0.0.0.0/0"], &[]);
    assert!(a.permits(ip("8.8.8.8"), None));
    assert!(!a.permits(ip("2001:db8::1"), None));
}

#[test]
fn a_zero_length_ipv6_prefix_matches_its_whole_family() {
    let a = access(&["::/0"], &[]);
    assert!(a.permits(ip("2001:db8::1"), None));
    assert!(!a.permits(ip("8.8.8.8"), None));
    assert!(AccessList::none().is_empty());
}

#[test]
fn a_mask_keeps_the_first_bits() {
    assert_eq!(mask_bits(0xc0a8_0105, 24, 32), 0xc0a8_0100);
    assert_eq!(mask_bits(0xc0a8_0105, 32, 32), 0xc0a8_0105);
    assert_eq!(mask_bits(0xc0a8_0105, 0, 32), 0);
    assert_eq!(mask_bits(u128::MAX, 0, 128), 0);
    assert_eq!(mask_bits(u128::MAX, 1, 128), 1 << 127);
    assert!(in_net(ip("192.168.1.5"), ip("192.168.1.77"), 24));
    assert!(!in_net(ip("192.168.2.5"), ip("192.168.1.77"), 24));
}

#[test]
fn a_client_id_is_the_label_below_the_server_name() {
    assert_eq!(
        client_id_from_sni("kids-tablet.dns.example", "dns.example").as_deref(),
        Some("kids-tablet")
    );
    assert_eq!(
        client_id_from_sni("KIDS-TABLET.DNS.EXAMPLE.", "dns.example").as_deref(),
        Some("kids-tablet"),
        "case and a trailing dot do not matter"
    );
}

#[test]
fn the_server_name_itself_carries_no_client_id() {
    assert_eq!(client_id_from_sni("dns.example", "dns.example"), None);
}

#[test]
fn a_deeper_or_unrelated_name_yields_nothing() {
    // Taking a label out of an unrelated name would let a client claim
    // any identifier it liked.
    assert_eq!(client_id_from_sni("a.b.dns.example", "dns.example"), None);
    assert_eq!(client_id_from_sni("evil.example", "dns.example"), None);
    assert_eq!(client_id_from_sni("xdns.example", "dns.example"), None);
}

#[test]
fn without_a_configured_name_no_identifier_is_taken() {
    assert_eq!(client_id_from_sni("anything.example", ""), None);
}

#[test]
fn a_server_name_is_judged_as_upstream_judges_it() {
    let long = format!(
        "{}.example.com",
        "abcdefghijklmnopqrstuvwxyz0123456789abcdefghijklmnopqrstuvwxyz0123456789"
    );
    let judge = |host: &str, sent: Option<&str>, strict: bool| match client_id_from_server_name(host, sent, strict) {
        Ok(None) => "none".to_string(),
        Ok(Some(id)) => format!("id:{id}"),
        Err(ServerNameError::Mismatch { .. }) => "mismatch".to_string(),
        Err(ServerNameError::InvalidClientId(_)) => "invalid".to_string(),
    };

    let cases: &[(&str, Option<&str>, bool, &str)] = &[
        ("", None, false, "none"),
        ("", Some("anything.example"), true, "none"),
        ("example.com", Some("example.com"), true, "none"),
        ("example.com", None, true, "mismatch"),
        ("example.com", None, false, "none"),
        ("example.com", Some("cli.example.com"), true, "id:cli"),
        ("example.com", Some("cli.example.net"), true, "mismatch"),
        ("example.com", Some("cli.example.net"), false, "none"),
        ("example.com", Some("!!!.example.com"), true, "invalid"),
        ("example.com", Some(&long), true, "invalid"),
        ("example.com", Some("cli.myexample.com"), true, "mismatch"),
        ("example.com", Some("InSeNsItIvE.example.com"), true, "id:insensitive"),
        ("example.com", Some("a.b.example.com"), true, "mismatch"),
        ("example.com", Some("a.b.example.com"), false, "none"),
        // An underscore gets through the handshake; the label is refused
        // whether or not the check is strict.
        ("example.com", Some("under_score.example.com"), false, "invalid"),
    ];

    for &(host, sent, strict, want) in cases {
        assert_eq!(judge(host, sent, strict), want, "host {host:?}, sent {sent:?}, strict {strict}");
    }
}

#[test]
fn the_server_name_is_read_only_while_one_is_set() {
    let mut s = ServerName::default();
    assert_eq!(s.client_id_for(Some("kid.dns.example")), Ok(None));

    s.set_server_name("dns.example", true);
    assert_eq!(s.client_id_for(Some("kid.dns.example")), Ok(Some("kid".to_string())));
    assert!(s.client_id_for(None).is_err(), "strict refuses no name");

    s.set_server_name("", true);
    assert_eq!(s.client_id_for(None), Ok(None), "encryption off: nothing read");
}

#[test]
fn a_refused_server_name_is_told_in_words() {
    let e = client_id_from_server_name("example.com", Some("cli.example.net"), true).unwrap_err();
    assert_eq!(
        e.message(),
        "client server name \"cli.example.net\" doesn't match host server name \"example.com\""
    );
    let e = client_id_from_server_name("example.com", Some("!!!.example.com"), true).unwrap_err();
    assert_eq!(e.message(), "invalid clientid \"!!!\"");
}

#[test]
fn an_error_about_one_connection_is_passed_over_and_one_about_the_process_waited_out() {
    let mut errors = AcceptErrors::new("test");
    let now = Span::from_secs(0);

    for kind in [
        Fault::ConnectionAborted,
        Fault::ConnectionReset,
        Fault::ConnectionRefused,
        Fault::Interrupted,
    ] {
        assert_eq!(errors.pause_after(kind, now).0, None, "{kind:?}");
        assert!(is_connection_error(kind), "{kind:?}");
    }

    // Errors which clear only when something else closes, twice.
    for told in [Some(1), None] {
        assert_eq!(
            errors.pause_after(Fault::Other, now),
            (Some(Span::from_secs(ACCEPT_BACKOFF)), told)
        );
    }
}

#[test]
fn a_recurring_warning_is_said_once_a_minute_with_its_count() {
    let mut t = Throttle::new();

    assert_eq!(t.due_at(0), Some(1), "the first is said");
    for s in 0..59 {
        assert_eq!(t.due_at(s), None, "the flood is not");
    }
    assert_eq!(t.due_at(60), Some(60), "a minute on, one line says how many there were");
    assert_eq!(t.due_at(61), None);
}

#[test]
fn what_a_connection_came_to_is_reported_to_the_guard_as_it_should_be() {
    let mut g = guard(1);
    let from = ip("198.51.100.7");

    for nothing in [Conduct::Busy, Conduct::Silent] {
        nothing.report(&mut g, from, 0);
        assert_eq!(g.watched(), 0, "{nothing:?} is reported as nothing");
    }

    Conduct::Wasted.report(&mut g, from, 0);
    assert!(!g.admits(from, 0), "and nothing asked is a strike");

    let mut t = Tally::default();
    assert_eq!(t.conduct(), Conduct::Wasted);
    t.add(Conduct::Busy);
    t.add(Conduct::Wasted);
    assert_eq!(t.conduct(), Conduct::Busy);
    t.add(Conduct::Served(1));
    t.add(Conduct::Served(1));
    assert_eq!(t.conduct(), Conduct::Served(2));
}

#[test]
fn a_handshake_and_silence_is_a_strike() {
    assert_eq!(Conduct::Silent.after_handshake(), Conduct::Wasted);
    assert_eq!(Conduct::Busy.after_handshake(), Conduct::Busy);
    assert_eq!(Conduct::Served(2).after_handshake(), Conduct::Served(2));
}

#[test]
fn a_waiting_room_holds_so_many() {
    let mut w = Waiting::new();
    assert!(w.enter(2));
    assert!(w.enter(2));
    assert!(!w.enter(2));
    w.leave();
    assert!(w.enter(2));
    assert!(!Waiting::new().enter(0));
}

// One request.

#[test]
fn a_refused_client_hears_it_on_a_stream_and_nothing_on_a_datagram() {
    let a = access(&[], &["198.51.100.7"]);
    let from = ip("198.51.100.7");
    let wire = query();

    assert_eq!(begin(&a, from, None, true, &wire), Step::Drop);
    assert_eq!(finish(Step::Drop, &wire, None), Answer::nothing());

    assert_eq!(begin(&a, from, None, false, &wire), Step::Refuse);
    let told = finish(Step::Refuse, &wire, Some(vec![5]));
    assert_eq!(told.bytes, Some(vec![5]));
    assert!(!told.counts && !told.busy);

    // Bytes that are no message get nothing, even from a refusal.
    assert_eq!(finish(Step::Refuse, b"junk", Some(vec![5])).bytes, None);
}

#[test]
fn garbage_gets_no_answer() {
    let a = Access::default();
    let from = ip("198.51.100.7");
    assert_eq!(begin(&a, from, None, false, b"not a message"), Step::Drop);
    assert_eq!(begin(&a, from, None, true, b"not a message"), Step::AskLimiter);
    assert_eq!(limited(true, b"not a message"), Step::Drop);
    assert_eq!(Answer::servfail(b"not a message", Some(vec![2])).bytes, None);
    assert_eq!(Answer::servfail(&query(), Some(vec![2])).bytes, Some(vec![2]));
}

#[test]
fn a_datagram_asks_the_limiter_and_a_stream_takes_a_seat() {
    let a = Access::default();
    let from = ip("198.51.100.7");
    let wire = query();

    assert_eq!(begin(&a, from, None, true, &wire), Step::AskLimiter);
    assert_eq!(limited(true, &wire), Step::TryWorker);
    assert_eq!(limited(false, &wire), Step::Drop);

    assert_eq!(begin(&a, from, None, false, &wire), Step::TakeSeat);
    assert_eq!(seated(true), Step::TryWorker);
    assert_eq!(seated(false), Step::Overload);
}

#[test]
fn a_query_no_worker_is_free_for_waits_for_one() {
    assert_eq!(tried(true, Tried::Got), Step::Resolve);
    assert_eq!(tried(false, Tried::Closed), Step::Drop);
    assert_eq!(tried(true, Tried::Taken), Step::EnterRoom);
    assert_eq!(tried(false, Tried::Taken), Step::AwaitWorker);

    assert_eq!(entered(true), Step::AwaitWorker);
    assert_eq!(entered(false), Step::DropBusy);

    assert_eq!(waited(true, Waited::Got), Step::Resolve);
    assert_eq!(waited(true, Waited::Closed), Step::Drop);
    assert_eq!(waited(true, Waited::TimedOut), Step::DropBusy);
    assert_eq!(waited(false, Waited::TimedOut), Step::Overload);

    let wire = query();
    let told = finish(Step::Overload, &wire, Some(vec![2]));
    assert_eq!((told.bytes, told.counts, told.busy), (Some(vec![2]), false, true));
    assert_eq!(finish(Step::DropBusy, &wire, Some(vec![2])), Answer::dropped_busy());
}

#[test]
fn an_answer_counts_unless_the_question_was_no_good() {
    assert!(Answer::resolved(Some(vec![1]), false, 0).counts);
    assert!(Answer::resolved(Some(vec![1]), false, 5).counts, "a refusal by a rule is an answer");
    assert!(!Answer::resolved(Some(vec![1]), true, 0).counts, "a blocked host is not served");
    assert!(!Answer::resolved(Some(vec![1]), false, 1).counts, "a malformed question");
    assert!(!Answer::resolved(Some(vec![1]), false, 4).counts, "an unsupported one");
    assert!(!Answer::resolved(None, false, 0).counts);
    assert!(!Answer::failure(Some(vec![1])).counts);
    assert!(Answer::overloaded(None).busy);
}

// Streams.

#[test]
fn a_frame_reads_back() {
    let m = vec![7u8; 300];
    let f = frame(&m).expect("short enough");
    assert_eq!(f[..2], [1, 44]);
    assert_eq!(message_len(f[0], f[1]), 300);
    assert_eq!(read_message(f[0], f[1], f[2..].to_vec()), Some(m.clone()));
    assert_eq!(read_message(f[0], f[1], m[..299].to_vec()), None, "cut short");
    assert!(frame(&vec![0; 65_535]).is_some());
    assert!(frame(&vec![0; 65_536]).is_none());
}

#[test]
fn a_stream_that_closes_at_once_without_a_byte_is_silent() {
    let at = |secs, nanos| Span { secs, nanos };
    assert_eq!(Stream::new().first(First::Gone(at(0, 999_999_999))), Some(Conduct::Silent));
    assert_eq!(Stream::new().first(First::Gone(at(1, 0))), Some(Conduct::Wasted), "it lingered");
    assert_eq!(Stream::new().first(First::Idle), Some(Conduct::Wasted));
    assert!(closed_at_once(true, at(0, 5)));
    assert!(!closed_at_once(false, at(0, 5)));
    assert!(!closed_at_once(true, at(1, 0)));

    // Once it has spoken it is not silent.
    let mut s = Stream::new();
    assert_eq!(s.first(First::Byte), None);
    assert_eq!(s.first(First::Gone(at(0, 5))), Some(Conduct::Wasted));
}

#[test]
fn a_stream_keeps_what_it_asked() {
    let mut s = Stream::new();
    let served = Answer::resolved(Some(vec![9]), false, 0);
    for _ in 0..2 {
        assert_eq!(s.first(First::Byte), None);
        assert_eq!(s.message(Some(17)), None);
        assert_eq!(s.answered(&served), Ok(vec![0, 1, 9]));
        assert_eq!(s.sent(Sending::Done), None);
    }
    assert_eq!(s.first(First::Idle), Some(Conduct::Served(2)));

    // A message of no bytes ends it, and so does an answer of none.
    assert_eq!(s.message(Some(0)), Some(Conduct::Served(2)));
    assert_eq!(s.answered(&Answer::nothing()), Err(Conduct::Served(2)));
    assert_eq!(s.sent(Sending::Failed), Some(Conduct::Served(2)));
}

#[test]
fn a_stream_that_stalls_asked_nothing_whatever_it_asked_before() {
    let mut s = Stream::new();
    s.first(First::Byte);
    s.message(Some(17));
    let _ = s.answered(&Answer::resolved(Some(vec![9]), false, 0));
    s.sent(Sending::Done);
    s.first(First::Byte);
    assert_eq!(s.message(None), Some(Conduct::Wasted));
    assert_eq!(s.sent(Sending::Blocked), Some(Conduct::Wasted), "nor one that takes no answer");
}

#[test]
fn a_stream_whose_every_answer_was_busy_is_neither_served_nor_wasted() {
    let mut s = Stream::new();
    s.first(First::Byte);
    s.message(Some(17));
    assert_eq!(s.answered(&Answer::overloaded(Some(vec![2]))), Ok(vec![0, 1, 2]));
    assert_eq!(s.sent(Sending::Done), None);
    assert_eq!(s.first(First::Idle), Some(Conduct::Busy));
}

// Shares.

#[test]
fn a_source_holds_no_more_than_its_share() {
    let g = guard(3);
    let mut t = InFlight::new();
    let from = ip("198.51.100.7");

    for n in 0..IN_FLIGHT_PER_SOURCE {
        let s = t.enter(&g, from).expect("judged");
        assert!(t.take(s), "slot {n}");
    }
    let s = t.enter(&g, from).expect("judged");
    assert!(!t.take(s), "the share is used up");
    assert_eq!(t.sources(), 1);

    t.leave(s, true);
    assert!(t.take(s), "one is free again");
}

#[test]
fn the_table_forgets_a_source_once_its_queries_are_done() {
    let g = guard(3);
    let mut t = InFlight::new();
    let a = t.enter(&g, ip("198.51.100.7")).expect("judged");
    let b = t.enter(&g, ip("198.51.100.8")).expect("judged");
    assert_eq!(t.sources(), 2);
    t.leave(a, false);
    assert_eq!(t.sources(), 1);
    t.leave(b, false);
    assert_eq!(t.sources(), 0);
}

#[test]
fn one_slash_64_holds_one_share() {
    let g = guard(3);
    let mut t = InFlight::new();
    let a = t.enter(&g, ip("2001:db8::1")).expect("judged");
    let b = t.enter(&g, ip("2001:db8::2")).expect("judged");
    assert_eq!(a, b);
    assert_eq!(t.sources(), 1);
    let c = t.enter(&g, ip("2001:db8:0:1::2")).expect("judged");
    assert_ne!(a, c);
    assert_eq!(t.sources(), 2);
}

#[test]
fn a_local_source_is_held_to_no_share() {
    let g = Guard::new(Config::default());
    let mut t = InFlight::new();
    assert!(t.enter(&g, ip("192.168.1.5")).is_none());
    assert!(t.enter(&g, ip("198.51.100.7")).is_some());
}

#[test]
fn a_refusal_and_a_failure_have_their_codes() {
    assert_eq!(reply_code(Step::Refuse), Some(5));
    assert_eq!(reply_code(Step::Overload), Some(2));
    for at in [Step::Drop, Step::DropBusy, Step::Resolve, Step::TakeSeat] {
        assert_eq!(reply_code(at), None);
    }
}

#[test]
fn only_what_the_resolver_answers_counts() {
    let told = |reply, blocked_host, code| conclude(Resolved::Responded { reply, blocked_host, code });
    assert_eq!(conclude(Resolved::Dropped), Answer::nothing());
    assert!(told(Some(vec![1]), false, 0).counts);
    assert!(!told(None, false, 0).counts);
    assert!(!told(Some(vec![1]), true, 0).counts);
    assert!(!told(Some(vec![1]), false, 1).counts);
    assert!(!told(Some(vec![1]), false, 4).counts);
    for at in [Step::Refuse, Step::Overload, Step::Drop, Step::DropBusy] {
        assert!(!finish(at, b"junk", Some(vec![1])).counts);
    }
}
