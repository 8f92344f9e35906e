//! Responses packed and read back.

use hickory_proto::op;
use hickory_proto::rr;
use hickory_proto::serialize::binary::{BinEncodable, BinEncoder};
use sift::message::{Edns, Message, Metadata, Name, OptHead, Query, Record};
use sift::packed::Packed;

const A: u16 = 1;
const CNAME: u16 = 5;
const SOA: u16 = 6;
const NULL: u16 = 10;
const MX: u16 = 15;
const TXT: u16 = 16;
const AAAA: u16 = 28;

/// A name written as text, with a dot behind each label.
fn name(s: &str) -> Name {
    let mut wire: Vec<u8> = Vec::new();
    for label in s.trim_end_matches('.').split('.') {
        wire.push(label.len() as u8);
        wire.extend(label.as_bytes());
    }
    Name::from_wire(&wire).expect("a name")
}

/// A name as record data holds it, with the root's zero.
fn target(s: &str) -> Vec<u8> {
    let mut wire = name(s).wire().to_vec();
    wire.push(0);
    wire
}

/// A query with no question yet.
fn query() -> Message {
    Message {
        metadata: Metadata {
            id: 0x1234,
            response: false,
            op_code: 0,
            authoritative: false,
            truncation: false,
            recursion_desired: false,
            recursion_available: false,
            authentic_data: false,
            checking_disabled: false,
            response_code: 0,
        },
        queries: Vec::new(),
        answers: Vec::new(),
        authorities: Vec::new(),
        additionals: Vec::new(),
        edns: None,
        signed: false,
    }
}

fn record(owner: &str, rtype: u16, ttl: u32, data: &[u8]) -> Record {
    Record { name: name(owner), rtype, class: 1, ttl, data: data.to_vec() }
}

fn response(q: &str, qtype: u16) -> Message {
    let mut m = query();
    m.metadata.response = true;
    m.metadata.recursion_desired = true;
    m.metadata.recursion_available = true;
    m.queries.push(Query { name: name(q), qtype, qclass: 1 });

    m
}

/// Packs and unpacks `m`, and checks that what comes back is the same, case
/// and all.
fn round_trip(m: &Message) -> Message {
    let back = Packed::pack(m).expect("packs").unpack().expect("unpacks");
    assert_eq!(&back, m);

    back
}

#[test]
fn a_one_address_answer_is_a_fraction_of_the_message() {
    let q = "www.example.com.";
    let mut m = response(q, A);
    m.answers.push(record(q, A, 300, &[93, 184, 216, 34]));

    round_trip(&m);

    // The question once, then a flag byte instead of the owner name, ten
    // bytes of type, class, TTL and length, and the address.
    let packed = Packed::pack(&m).unwrap();
    assert_eq!(packed.heap_len(), 17 + 4 + 1 + 10 + 4);
}

/// The bytes that a chain of two `CNAME`s and an address takes on the wire.
fn chain_on_the_wire() -> usize {
    let n = |s: &str| rr::Name::from_utf8(s).unwrap();
    let alias = |s: &str| rr::RData::CNAME(rr::rdata::CNAME(n(s)));
    let mut m = op::Message::query();
    m.metadata.message_type = op::MessageType::Response;
    m.add_query(op::Query::query(n("www.microsoft.com."), rr::RecordType::A));
    m.answers = vec![
        rr::Record::from_rdata(n("www.microsoft.com."), 3600, alias("www.microsoft.com-c-3.edgekey.net.")),
        rr::Record::from_rdata(n("www.microsoft.com-c-3.edgekey.net."), 900, alias("e13678.dscb.akamaiedge.net.")),
        rr::Record::from_rdata(
            n("e13678.dscb.akamaiedge.net."),
            20,
            rr::RData::A(rr::rdata::A::new(23, 1, 2, 3)),
        ),
    ];
    m.to_vec().unwrap().len()
}

#[test]
fn a_cname_chain_keeps_every_owner() {
    let mut m = response("www.microsoft.com.", A);
    m.answers = vec![
        record("www.microsoft.com.", CNAME, 3600, &target("www.microsoft.com-c-3.edgekey.net.")),
        record("www.microsoft.com-c-3.edgekey.net.", CNAME, 900, &target("e13678.dscb.akamaiedge.net.")),
        record("e13678.dscb.akamaiedge.net.", A, 20, &[23, 1, 2, 3]),
    ];

    let back = round_trip(&m);
    assert_eq!(back.answers[2].name, name("e13678.dscb.akamaiedge.net."));

    // Each name after the first was written as the previous record's target,
    // so the chain is not stored twice.
    assert!(
        Packed::pack(&m).unwrap().heap_len() < chain_on_the_wire(),
        "no larger than the message it came from"
    );
}

#[test]
fn a_negative_answer_keeps_its_soa_and_code() {
    let mut m = response("nope.example.com.", AAAA);
    m.metadata.response_code = 3;
    let mut soa = target("ns.icann.org.");
    soa.extend(target("noc.dns.icann.org."));
    for n in [2024u32, 7200, 3600, 1_209_600, 3600] {
        soa.extend(n.to_be_bytes());
    }
    m.authorities.push(record("example.com.", SOA, 3600, &soa));

    round_trip(&m);
}

#[test]
fn every_section_and_the_opt_record_survive() {
    let q = "example.com.";
    let mut m = response(q, MX);
    m.metadata.authentic_data = true;
    let mut mx = vec![0, 10];
    mx.extend(target("mail.example.com."));
    m.answers.push(record(q, MX, 300, &mx));
    m.answers.push(record(q, TXT, 300, b"\x0bv=spf1 -all"));
    m.authorities.push(record(q, CNAME, 300, &target("ns1.example.com.")));
    m.additionals.push(record(
        "mail.example.com.",
        AAAA,
        300,
        &[0x20, 0x01, 0x0d, 0xb8, 0, 0, 0, 0, 0, 0, 0, 0, 0, 0, 0, 1],
    ));

    // A client subnet of 192.0.2.0/24.
    m.edns = Some(Edns {
        head: OptHead { rcode_high: 0, version: 0, flags: 0x8000, max_payload: 1232 },
        options: vec![0, 8, 0, 7, 0, 1, 24, 24, 192, 0, 2],
    });

    let back = round_trip(&m);
    assert_eq!(back.answers.len(), 2);
    assert_eq!(back.authorities.len(), 1);
    assert_eq!(back.additionals.len(), 1);
}

#[test]
fn an_extended_response_code_keeps_its_high_bits() {
    // BADVERS is 16: the header holds its low four bits and the OPT record
    // the rest, and both have to come back.
    let mut m = response("example.com.", A);
    m.metadata.response_code = 16;
    m.edns = Some(Edns {
        head: OptHead { rcode_high: 1, version: 0, flags: 0, max_payload: 1232 },
        options: Vec::new(),
    });

    let back = round_trip(&m);
    assert_eq!(back.metadata.response_code, 16);
}

#[test]
fn owner_names_keep_their_case() {
    // An owner spelled differently from the question is not elided, or it
    // would come back spelled like the question.
    let mut m = response("example.com.", A);
    m.queries[0].name = name("WwW.Example.COM.");
    m.answers.push(record("www.example.com.", A, 60, &[192, 0, 2, 1]));
    m.answers.push(record("WwW.Example.COM.", A, 60, &[192, 0, 2, 2]));

    let back = round_trip(&m);
    assert_eq!(back.answers[0].name.wire(), name("www.example.com.").wire());
    assert_eq!(back.answers[1].name.wire(), name("WwW.Example.COM.").wire());
    assert!(!back.answers[0].name.eq_case(&back.answers[1].name));
}

#[test]
fn a_record_with_no_data_reads_back_the_way_the_wire_reads_it() {
    let mut m = response("example.com.", NULL);
    m.answers.push(record("example.com.", NULL, 60, &[]));

    round_trip(&m);
}

#[test]
fn a_response_without_a_question_still_packs() {
    let mut m = query();
    m.metadata.response = true;
    m.answers.push(record("example.com.", A, 60, &[192, 0, 2, 1]));

    round_trip(&m);
}

#[test]
fn a_repeated_owner_takes_a_byte() {
    let mut m = query();
    m.metadata.response = true;
    m.answers.push(record("example.com.", A, 60, &[192, 0, 2, 1]));
    let one = Packed::pack(&m).unwrap().heap_len();
    m.answers.push(record("example.com.", A, 60, &[192, 0, 2, 2]));
    assert_eq!(Packed::pack(&m).unwrap().heap_len(), one + 1 + 10 + 4);
    round_trip(&m);
}

#[test]
fn a_signed_message_is_not_packed() {
    let mut m = response("example.com.", A);
    m.signed = true;
    assert!(Packed::pack(&m).is_none());
}

#[test]
fn a_name_is_labels_behind_their_lengths() {
    assert!(Name::from_wire(b"\x03www\x07example").is_some());
    assert!(Name::from_wire(b"").is_some(), "the root");
    assert!(Name::from_wire(b"\x03ww").is_none(), "cut short");
    assert!(Name::from_wire(b"\x00").is_none(), "an empty label");
    assert!(Name::from_wire(&[64; 65]).is_none(), "too long a label");
    assert!(Name::from_wire(&[1; 256]).is_none(), "too long a name");
    assert_eq!(name("a.b.").copy(), name("a.b."));
}

/// The data of a `SOA` record.
fn soa(primary: &str, contact: &str) -> Vec<u8> {
    let mut data = target(primary);
    data.extend(target(contact));
    for n in [2024u32, 7200, 3600, 1_209_600, 3600] {
        data.extend(n.to_be_bytes());
    }
    data
}

/// The bytes that a question and one record take, where the record's owner is
/// written out and every name is compressed as on the wire.
fn compressed(q: &str, qtype: rr::RecordType, r: &rr::Record) -> usize {
    let mut buf: Vec<u8> = Vec::new();
    let mut enc = BinEncoder::new(&mut buf);
    op::Query::query(rr::Name::from_utf8(q).unwrap(), qtype).emit(&mut enc).unwrap();
    enc.emit(0).unwrap();
    r.name.emit(&mut enc).unwrap();
    for n in [0u16; 5] {
        enc.emit_u16(n).unwrap();
    }
    r.data.emit(&mut enc).unwrap();
    enc.len()
}

#[test]
fn any_other_name_is_written_once_and_pointed_at_afterwards() {
    // The zone is the end of the question's name, its primary lies in it, and
    // its contact lies in the primary's zone.
    let q = "nope.example.com.";
    let mut m = response(q, AAAA);
    m.authorities.push(record("example.com.", SOA, 3600, &soa("ns.example.com.", "noc.example.com.")));
    round_trip(&m);

    let n = |s: &str| rr::Name::from_utf8(s).unwrap();
    let data = rr::RData::SOA(rr::rdata::SOA::new(n("ns.example.com."), n("noc.example.com."), 2024, 7200, 3600, 1_209_600, 3600));
    let r = rr::Record::from_rdata(n("example.com."), 3600, data);
    let packed = Packed::pack(&m).unwrap();
    assert_eq!(packed.heap_len(), compressed(q, rr::RecordType::AAAA, &r));

    // Question, flag, pointer, middle, `ns` and a pointer, `noc` and a
    // pointer, and the five numbers.
    assert_eq!(packed.heap_len(), 22 + 1 + 2 + 10 + (3 + 2) + (4 + 2) + 20);
}

#[test]
fn a_name_in_a_mail_exchange_is_pointed_at() {
    let mut m = response("example.com.", MX);
    let mut mx = vec![0, 10];
    mx.extend(target("mail.example.com."));
    m.answers.push(record("example.com.", MX, 300, &mx));
    m.additionals.push(record("mail.example.com.", A, 300, &[192, 0, 2, 1]));
    round_trip(&m);
    // The exchange is `mail` and a pointer, and the additional record's owner
    // is a pointer.
    assert_eq!(Packed::pack(&m).unwrap().heap_len(), 17 + (1 + 10 + 2 + 5 + 2) + (1 + 2 + 10 + 4));
}

#[test]
fn a_name_is_pointed_at_only_where_its_case_is_the_same() {
    let mut m = response("www.example.com.", A);
    m.answers.push(record("www.EXAMPLE.com.", CNAME, 60, &target("edge.example.com.")));
    let back = round_trip(&m);
    assert_eq!(back.answers[0].name.wire(), name("www.EXAMPLE.com.").wire());
}

#[test]
fn data_that_does_not_hold_the_names_of_its_type_survives() {
    let mut m = response("example.com.", CNAME);
    for data in [&b"\xc0\x00"[..], b"\x03abc", b"", b"\x00\x01\x02", b"\x07example\x03com\x00more"] {
        m.answers.push(record("example.com.", CNAME, 60, data));
        m.authorities.push(record("example.com.", SOA, 60, data));
        m.additionals.push(record("example.com.", MX, 60, data));
    }
    round_trip(&m);
}

#[test]
fn a_response_of_many_names_survives() {
    let mut m = response("example.com.", A);
    for i in 0..900 {
        m.answers.push(record(&format!("h{i}.net{}.example.com.", i % 70), CNAME, 60, &target(&format!("t{}.example.net.", i % 90))));
    }
    round_trip(&m);
}

#[test]
fn a_response_too_large_for_a_message_is_not_packed() {
    let mut m = response("example.com.", TXT);
    m.answers.push(record("example.com.", TXT, 60, &[0; 40_000]));
    assert!(Packed::pack(&m).is_some());
    m.answers.push(record("example.com.", TXT, 60, &[0; 40_000]));
    assert!(Packed::pack(&m).is_none());
}
