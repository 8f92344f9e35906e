//! Which QUIC connections are taken up, and queries on their streams.

use sift::doq::{outcome, query_of, to_send, MAX_CONCURRENT_STREAMS, STREAM_RECEIVE_WINDOW};
use sift::ip::Ip;
use sift::probe::terms::Config;
use sift::probe::{Guard, Penalty};
use sift::quic::{establish, judge, Established, Verdict, RECEIVE_WINDOW};
use sift::server::answer::Answer;
use sift::server::conduct::Conduct;
use sift::server::stream::frame;

/// Where the tests' clients come from: loopback, judged like the internet.
fn here() -> Ip {
    Ip::V4(0x7f00_0001)
}

/// A public address, standing in for everyone else.
fn stranger() -> Ip {
    Ip::V4(0xcb00_7132)
}

/// A guard that judges loopback, with the given limits.
fn guard(max_handshakes: usize, max_per_source: usize) -> Guard {
    Guard::new(Config { exempt_local: false, max_handshakes, max_per_source, ..Config::default() })
}

/// Gives back what a verdict holds.
fn give_back(g: &mut Guard, v: Verdict) {
    if let Verdict::Accept { slot, ticket } = v {
        g.finish_handshake(slot);
        if let Some(t) = ticket {
            g.release(t);
        }
    }
}

#[test]
fn a_source_serving_a_penalty_is_ignored_whether_or_not_its_address_is_proven() {
    let mut g = guard(256, 64);
    g.condemn(here(), 0);

    for validated in [false, true] {
        assert!(
            matches!(judge(&mut g, here(), validated, 0), Verdict::Ignore),
            "validated: {validated}"
        );
    }
    assert_eq!(g.stats(0).open, 0);
    assert_eq!(g.stats(0).handshakes, 0);
}

#[test]
fn an_unproven_address_takes_a_handshake_and_nothing_else() {
    let mut g = guard(256, 64);

    let v = judge(&mut g, here(), false, 0);
    let Verdict::Accept { slot, ticket } = &v else {
        panic!("got {v:?}");
    };
    assert!(slot.is_counted());
    assert!(
        ticket.is_none(),
        "no connection is charged before it is proved"
    );

    let s = g.stats(0);
    assert_eq!((s.open, s.sources, s.handshakes), (0, 0, 1));
}

#[test]
fn a_proven_address_is_charged_its_connection_before_the_handshake() {
    let mut g = guard(256, 64);

    let v = judge(&mut g, here(), true, 0);
    let Verdict::Accept { ticket, .. } = &v else {
        panic!("got {v:?}");
    };
    assert!(ticket.as_ref().is_some_and(|t| t.is_counted()));
    assert_eq!(g.stats(0).open, 1);

    give_back(&mut g, v);
    assert_eq!((g.stats(0).open, g.stats(0).handshakes), (0, 0));
}

#[test]
fn an_unproven_address_is_asked_to_retry_once_half_the_handshakes_are_taken() {
    let mut g = guard(4, 64);

    let first = judge(&mut g, here(), false, 0);
    assert!(matches!(first, Verdict::Accept { .. }), "got {first:?}");
    let _held = g.handshake(stranger(), 0).unwrap();

    assert!(
        matches!(judge(&mut g, here(), false, 0), Verdict::Retry),
        "two of four is half"
    );
    assert!(
        matches!(judge(&mut g, here(), true, 0), Verdict::Accept { .. }),
        "a proved address may still use the other half"
    );
}

#[test]
fn a_proven_address_is_refused_when_no_handshake_is_free() {
    let mut g = guard(1, 64);
    let _held = g.handshake(stranger(), 0).unwrap();

    assert!(matches!(judge(&mut g, here(), false, 0), Verdict::Retry));
    assert!(matches!(judge(&mut g, here(), true, 0), Verdict::Refuse));
    assert_eq!(g.stats(0).open, 0, "the ticket taken first was given back");
    assert_eq!(g.watched(), 0, "and being busy is not an offence");
}

#[test]
fn a_proven_address_over_its_allowance_is_refused_before_the_handshake() {
    let mut g = guard(256, 1);
    let _held = g.open(here(), 0).unwrap();

    assert!(matches!(judge(&mut g, here(), true, 0), Verdict::Refuse));
    assert_eq!(g.stats(0).handshakes, 0, "nothing was spent on it");
}

#[test]
fn a_forged_address_cannot_use_up_its_victims_allowance() {
    // A spoofer can put the victim's address on as many initial packets
    // as it likes.  None of them may count against what the victim
    // itself is allowed to open, nor as anything the victim did.
    let mut g = guard(256, 2);
    let victim = stranger();

    let forged: Vec<_> = (0..100).map(|_| judge(&mut g, victim, false, 0)).collect();
    assert!(forged.iter().all(|v| matches!(v, Verdict::Accept { .. })));
    forged.into_iter().for_each(|v| give_back(&mut g, v));

    let a = g.open(victim, 0).expect("the victim's allowance is untouched");
    let _b = g.open(victim, 0).expect("all of it");

    // Once the victim is at its allowance, a forged attempt is retried,
    // not refused: a refusal would be sent to the victim.
    assert!(matches!(judge(&mut g, victim, false, 0), Verdict::Retry));

    g.release(a);
    assert!(g.open(victim, 0).is_ok());
    assert_eq!(g.watched(), 0, "and nothing is held against it");
}

#[test]
fn an_unproven_claim_to_be_local_still_takes_a_counted_handshake() {
    // An exemption belongs to an address, and an unvalidated packet has
    // not shown it comes from the one it names -- so a spoofer writing a
    // LAN address on its packets does not get handshakes for free.
    let mut g = Guard::new(Config { max_handshakes: 2, ..Config::default() });
    let lan = Ip::V4(0xc0a8_010a);

    let v = judge(&mut g, lan, false, 0);
    let Verdict::Accept { slot, ticket } = &v else {
        panic!("got {v:?}");
    };
    assert!(slot.is_counted());
    assert!(ticket.is_none());

    // Proved, it is exempt as ever.
    let v = judge(&mut g, lan, true, 0);
    let Verdict::Accept { slot, ticket } = &v else {
        panic!("got {v:?}");
    };
    assert!(!slot.is_counted());
    assert!(ticket.as_ref().is_some_and(|t| !t.is_counted()));
}

/// Takes a connection up.
fn accepted(g: &mut Guard, validated: bool) -> (sift::probe::HandshakeSlot, Option<sift::probe::Ticket>) {
    match judge(g, stranger(), validated, 0) {
        Verdict::Accept { slot, ticket } => (slot, ticket),
        v => panic!("got {v:?}"),
    }
}

#[test]
fn a_completed_handshake_is_charged_its_connection() {
    let mut g = guard(256, 64);
    for validated in [false, true] {
        let (slot, ticket) = accepted(&mut g, validated);
        let Established::Serve(t) = establish(&mut g, slot, ticket, stranger(), validated, true, 0) else {
            panic!("it is served");
        };
        assert!(t.is_counted());
        assert_eq!((g.stats(0).open, g.stats(0).handshakes), (1, 0));
        g.release(t);
    }
}

#[test]
fn a_connection_over_its_allowance_is_closed_once_it_is_proved() {
    let mut g = guard(256, 1);
    let (slot, ticket) = accepted(&mut g, false);
    let _held = g.open(stranger(), 0).unwrap();
    assert!(matches!(
        establish(&mut g, slot, ticket, stranger(), false, true, 0),
        Established::CloseBusy
    ));
    assert_eq!(g.stats(0).refused_busy, 1);
}

#[test]
fn a_failed_handshake_is_held_against_a_proved_address_only() {
    let mut g = Guard::new(Config { strikes: 1, ..Config::default() });
    let (slot, ticket) = accepted(&mut g, false);
    assert!(matches!(
        establish(&mut g, slot, ticket, stranger(), false, false, 0),
        Established::Nothing(None)
    ));
    assert_eq!(g.watched(), 0, "an address nobody proved is never struck");

    let (slot, ticket) = accepted(&mut g, true);
    let Established::Nothing(told) = establish(&mut g, slot, ticket, stranger(), true, false, 0) else {
        panic!("nothing is served");
    };
    assert_eq!(told, Some(Penalty { offence: 1, seconds: 600 }));
    assert_eq!((g.stats(0).open, g.stats(0).handshakes), (0, 0));
}

#[test]
fn a_doq_connection_is_bounded_to_what_one_query_per_stream_needs() {
    assert_eq!(MAX_CONCURRENT_STREAMS, 64);
    assert_eq!(STREAM_RECEIVE_WINDOW, 66_000);
    // What both QUIC listeners share.
    assert_eq!(RECEIVE_WINDOW, 1_048_576);
}

#[test]
fn a_stream_carries_one_framed_query() {
    let framed = frame(b"query").expect("short");
    assert_eq!(query_of(&framed), Some(&b"query"[..]));
    assert_eq!(query_of(&framed[..6]), None, "cut short");
    assert_eq!(query_of(&[0, 0, 1]), None, "an empty one");
    assert_eq!(query_of(&[0]), None);
    assert_eq!(query_of(&[0, 1, 7, 8]), Some(&[7u8][..]), "what follows is ignored");
}

#[test]
fn a_stream_comes_to_its_answer() {
    let served = Answer::resolved(Some(vec![9]), false, 0);
    assert_eq!(to_send(&served), Some(vec![0, 1, 9]));
    assert_eq!(outcome(&served, true), Conduct::Served(1));
    assert_eq!(outcome(&served, false), Conduct::Wasted);
    assert_eq!(to_send(&Answer::nothing()), None);
    assert_eq!(to_send(&Answer::failure(Some(vec![0; 65_536]))), None);
    assert_eq!(outcome(&Answer::overloaded(Some(vec![2])), true), Conduct::Busy);
    assert_eq!(outcome(&Answer::failure(Some(vec![2])), true), Conduct::Wasted);
}

#[test]
fn a_guard_switched_off_asks_nobody_to_retry() {
    let mut g = Guard::new(Config {
        strikes: 0,
        max_handshakes: 1,
        max_per_source: 1,
        ..Config::default()
    });

    let held: Vec<_> = (0..10).map(|_| judge(&mut g, here(), false, 0)).collect();
    assert!(held.iter().all(|v| matches!(v, Verdict::Accept { .. })));
    assert_eq!(g.stats(0).handshakes, 10);
    held.into_iter().for_each(|v| give_back(&mut g, v));
    assert_eq!(g.stats(0).handshakes, 0);
}

#[test]
fn unproved_addresses_hold_at_most_half_of_an_odd_number_of_slots() {
    for max in 1..10usize {
        let mut g = guard(max, 64);
        let taken = (0..max)
            .filter(|_| matches!(judge(&mut g, here(), false, 0), Verdict::Accept { .. }))
            .count();
        assert_eq!(taken, max / 2);
        assert_eq!(g.stats(0).handshakes, max / 2);
    }
}
