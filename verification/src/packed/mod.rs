//! A response packed for the cache.
//!
//! One buffer holds the questions, then every record of every section, then
//! the OPT record's options; counts say where each ends. A record's owner is
//! elided where it repeats the question's name, the owner before it, or the
//! target of the `CNAME` before it: a flag byte stands in for the name. Any
//! other name, an owner's or one in a record's data, is written once and
//! pointed at afterwards.

use vstd::prelude::*;
use vstd::slice::slice_subrange;

use crate::message::{
    CNAME, Edns, EdnsV, Message, MessageV, Metadata, Name, OptHead, Query, QueryV, Record, RecordV, copy_bytes,
    names_valid, owners_valid, queries_of, records_of, valid_name,
};
use crate::packed::names::{
    WrittenV, Writer, blank, labels_at, lemma_bytes, lemma_name, lemma_name_then, lemma_plain, lemma_read, name_at,
    read_name, sound, with_name,
};

pub mod names;

verus! {

/// Set on a record whose owner is the first question's name.
pub const OWNER_IS_QNAME: u8 = 1;

/// Set on a record whose owner is the previous record's.
pub const OWNER_IS_PREVIOUS: u8 = 2;

/// Set on a record whose owner is the target of the `CNAME` before it.
pub const OWNER_IS_TARGET: u8 = 3;

/// Added for a record whose data is written as the names in it.
pub const DATA_IS_NAMES: u8 = 4;

/// The most bytes that a packed response has.
pub const MAX_PACKED: usize = 0xffff;

/// Two bytes, the high one first.
pub open spec fn be16(n: int) -> Seq<u8> {
    seq![(n / 256 % 256) as u8, (n % 256) as u8]
}

/// Four bytes, the highest first.
pub open spec fn be32(n: int) -> Seq<u8> {
    be16(n / 65536) + be16(n % 65536)
}

/// With some bytes that are no name.
pub open spec fn with_bytes(s: WrittenV, x: Seq<u8>) -> WrittenV {
    WrittenV { bytes: s.bytes + x, ..s }
}

/// With some names, one after the other.
pub open spec fn with_names(s: WrittenV, ws: Seq<Seq<u8>>) -> WrittenV
    decreases ws.len(),
{
    if ws.len() == 0 {
        s
    } else {
        with_names(with_name(s, ws[0]), ws.drop_first())
    }
}

/// With a question: its name, type and class.
pub open spec fn with_query(s: WrittenV, q: QueryV) -> WrittenV {
    with_bytes(with_name(s, q.name), be16(q.qtype as int) + be16(q.qclass as int))
}

/// With some questions, one after the other.
pub open spec fn with_queries(s: WrittenV, q: Seq<QueryV>) -> WrittenV
    decreases q.len(),
{
    if q.len() == 0 {
        s
    } else {
        with_queries(with_query(s, q[0]), q.drop_first())
    }
}

/// The names an owner is compared with before it is written out.
pub ghost struct RecentV {
    /// The last record's owner.
    pub owner: Option<Seq<u8>>,
    /// The last record's target, if it was a `CNAME`.
    pub target: Option<Seq<u8>>,
}

/// Nothing seen yet.
pub open spec fn none_seen() -> RecentV {
    RecentV { owner: None, target: None }
}

/// The name that a `CNAME` record points to.
pub open spec fn target_of(r: RecordV) -> Option<Seq<u8>> {
    if r.rtype == CNAME && r.data.len() > 0 && r.data.last() == 0 && valid_name(r.data.drop_last()) {
        Some(r.data.drop_last())
    } else {
        None
    }
}

/// What is recent after a record.
pub open spec fn saw(r: RecordV) -> RecentV {
    RecentV { owner: Some(r.name), target: target_of(r) }
}

/// Which name an owner repeats, if any.
pub open spec fn owner_flag(name: Seq<u8>, qname: Option<Seq<u8>>, recent: RecentV) -> u8 {
    if qname == Some(name) {
        OWNER_IS_QNAME
    } else if recent.owner == Some(name) {
        OWNER_IS_PREVIOUS
    } else if recent.target == Some(name) {
        OWNER_IS_TARGET
    } else {
        0
    }
}

/// How many bytes and how many names the data of a record begins with, for
/// the types whose names may be pointed at: `NS`, `CNAME`, `SOA`, `PTR`, `MX`
/// and `ANAME`.
pub open spec fn shape(rtype: u16) -> Option<(int, nat)> {
    if rtype == 2 || rtype == 5 || rtype == 12 || rtype == 65305 {
        Some((0, 1))
    } else if rtype == 6 {
        Some((0, 2))
    } else if rtype == 15 {
        Some((2, 1))
    } else {
        None
    }
}

/// The data of a record: what precedes its names, the names, and what follows
/// them.
pub ghost struct PartsV {
    pub lead: Seq<u8>,
    pub names: Seq<Seq<u8>>,
    pub tail: Seq<u8>,
}

/// The names from `at` on, and where what follows them begins.
pub open spec fn names_at(b: Seq<u8>, at: int, n: nat, plain: bool) -> Option<(Seq<Seq<u8>>, int)>
    decreases n,
{
    if n == 0 {
        Some((Seq::empty(), at))
    } else {
        match name_at(b, at, plain) {
            None => None,
            Some((w, p)) => match names_at(b, p, (n - 1) as nat, plain) {
                None => None,
                Some((ws, q)) => Some((seq![w] + ws, q)),
            },
        }
    }
}

/// The parts of a record's data, where its type says that there are names in
/// it and they are there.
pub open spec fn parts_of(rtype: u16, data: Seq<u8>) -> Option<PartsV> {
    match shape(rtype) {
        None => None,
        Some((k, n)) => match names_at(data, k, n, true) {
            None => None,
            Some((names, end)) => Some(PartsV { lead: data.take(k), names, tail: data.skip(end) }),
        },
    }
}

/// With a record's data.
pub open spec fn with_data(s: WrittenV, rtype: u16, data: Seq<u8>) -> WrittenV {
    match parts_of(rtype, data) {
        None => with_bytes(s, data),
        Some(p) => with_bytes(with_names(with_bytes(s, p.lead), p.names), p.tail),
    }
}

/// A record's flag: which name its owner repeats, and whether its data is
/// written as names.
pub open spec fn flag_of(r: RecordV, qname: Option<Seq<u8>>, recent: RecentV) -> u8 {
    (owner_flag(r.name, qname, recent) + if parts_of(r.rtype, r.data) is Some {
        DATA_IS_NAMES as int
    } else {
        0
    }) as u8
}

/// What stands between a record's owner and its data: type, class, time to
/// live, and the length of the data.
pub open spec fn middle(r: RecordV) -> Seq<u8> {
    be16(r.rtype as int) + be16(r.class as int) + be32(r.ttl as int) + be16(r.data.len() as int)
}

/// With a record's flag, and its owner if it repeats none.
pub open spec fn with_owner(s: WrittenV, r: RecordV, qname: Option<Seq<u8>>, recent: RecentV) -> WrittenV {
    let t = with_bytes(s, seq![flag_of(r, qname, recent)]);
    if owner_flag(r.name, qname, recent) == 0 {
        with_name(t, r.name)
    } else {
        t
    }
}

/// With one record: a byte saying which name the owner repeats, the owner if
/// it repeats none, and the rest.
pub open spec fn with_record(s: WrittenV, r: RecordV, qname: Option<Seq<u8>>, recent: RecentV) -> WrittenV {
    with_data(with_bytes(with_owner(s, r, qname, recent), middle(r)), r.rtype, r.data)
}

/// With some records, one after the other.
pub open spec fn with_records(s: WrittenV, rs: Seq<RecordV>, qname: Option<Seq<u8>>, recent: RecentV) -> WrittenV
    decreases rs.len(),
{
    if rs.len() == 0 {
        s
    } else {
        with_records(with_record(s, rs[0], qname, recent), rs.drop_first(), qname, saw(rs[0]))
    }
}

/// The first question's name.
pub open spec fn first_name(q: Seq<QueryV>) -> Option<Seq<u8>> {
    if q.len() > 0 {
        Some(q[0].name)
    } else {
        None
    }
}

/// Every record of every section.
pub open spec fn all_records(m: MessageV) -> Seq<RecordV> {
    m.answers + m.authorities + m.additionals
}

/// The options of a message's OPT record.
pub open spec fn options_of(m: MessageV) -> Seq<u8> {
    match m.edns {
        Some(e) => e.options,
        None => Seq::empty(),
    }
}

/// A packed response.
#[verifier::ext_equal]
pub ghost struct PackedV {
    pub metadata: Metadata,
    /// How many questions, answers, authorities and additionals there are.
    pub counts: (u16, u16, u16, u16),
    pub edns: Option<OptHead>,
    pub bytes: Seq<u8>,
}

/// Whether a message can be packed: it is not signed, its sections and the
/// data of its records are no longer than 16 bits can say, and neither is what
/// it packs to.
pub open spec fn packs(m: MessageV) -> bool {
    &&& !m.signed
    &&& m.queries.len() <= 0xffff
    &&& m.answers.len() <= 0xffff
    &&& m.authorities.len() <= 0xffff
    &&& m.additionals.len() <= 0xffff
    &&& short_data(all_records(m))
    &&& packed(m).bytes.len() <= MAX_PACKED
}

/// Whether the data of every record has a length that 16 bits can say.
pub open spec fn short_data(s: Seq<RecordV>) -> bool {
    forall|i: int| 0 <= i < s.len() ==> (#[trigger] s[i]).data.len() <= 0xffff
}

/// A message as it is packed.
pub open spec fn packed(m: MessageV) -> PackedV {
    PackedV {
        metadata: m.metadata,
        counts: (
            m.queries.len() as u16,
            m.answers.len() as u16,
            m.authorities.len() as u16,
            m.additionals.len() as u16,
        ),
        edns: match m.edns {
            Some(e) => Some(e.head),
            None => None,
        },
        bytes: with_records(
            with_queries(blank(), m.queries),
            all_records(m),
            first_name(m.queries),
            none_seen(),
        ).bytes + options_of(m),
    }
}

/// A response that says nothing.
pub open spec fn no_response() -> MessageV {
    MessageV {
        metadata: Metadata {
            id: 0,
            response: true,
            op_code: 0,
            authoritative: false,
            truncation: false,
            recursion_desired: false,
            recursion_available: false,
            authentic_data: false,
            checking_disabled: false,
            response_code: 0,
        },
        queries: Seq::empty(),
        answers: Seq::empty(),
        authorities: Seq::empty(),
        additionals: Seq::empty(),
        edns: None,
        signed: false,
    }
}

/// Two bytes at `at`, read as a number.
pub open spec fn get16(b: Seq<u8>, at: int) -> u16 {
    (b[at] * 256 + b[at + 1]) as u16
}

/// The question at `at`, and where what follows it begins.
pub open spec fn query_at(b: Seq<u8>, at: int) -> Option<(QueryV, int)> {
    match name_at(b, at, false) {
        None => None,
        Some((name, p)) => if p + 4 > b.len() {
            None
        } else {
            Some((QueryV { name, qtype: get16(b, p), qclass: get16(b, p + 2) }, p + 4))
        },
    }
}

/// So many questions, and where what follows them begins.
pub open spec fn queries_at(b: Seq<u8>, at: int, n: nat) -> Option<(Seq<QueryV>, int)>
    decreases n,
{
    if n == 0 {
        Some((Seq::empty(), at))
    } else {
        match query_at(b, at) {
            None => None,
            Some((q, p)) => match queries_at(b, p, (n - 1) as nat) {
                None => None,
                Some((qs, e)) => Some((seq![q] + qs, e)),
            },
        }
    }
}

/// The owner behind the flag at `at`, and where what follows it begins.
pub open spec fn owner_at(b: Seq<u8>, at: int, qname: Option<Seq<u8>>, recent: RecentV) -> Option<(Seq<u8>, int)> {
    let repeated = |n: Option<Seq<u8>>|
        match n {
            Some(w) => Some((w, at + 1)),
            None => None,
        };
    if at < 0 || at >= b.len() || b[at] >= 8 {
        None
    } else if b[at] % 4 == 0 {
        name_at(b, at + 1, false)
    } else if b[at] % 4 == OWNER_IS_QNAME {
        repeated(qname)
    } else if b[at] % 4 == OWNER_IS_PREVIOUS {
        repeated(recent.owner)
    } else {
        repeated(recent.target)
    }
}

/// Names as a record's data has them, each with the root's zero.
pub open spec fn spelt(ws: Seq<Seq<u8>>) -> Seq<u8>
    decreases ws.len(),
{
    if ws.len() == 0 {
        Seq::empty()
    } else {
        ws[0].push(0) + spelt(ws.drop_first())
    }
}

/// The `n` bytes of data that are written at `at`, and where what follows them
/// begins.
pub open spec fn data_at(b: Seq<u8>, at: int, n: int, rtype: u16, named: bool) -> Option<(Seq<u8>, int)> {
    if !named {
        if at + n > b.len() {
            None
        } else {
            Some((b.subrange(at, at + n), at + n))
        }
    } else {
        match shape(rtype) {
            None => None,
            Some((k, m)) => match names_at(b, at + k, m, false) {
                None => None,
                Some((ws, p)) => {
                    let head = b.subrange(at, at + k) + spelt(ws);
                    let left = n - head.len();
                    if left < 0 || p + left > b.len() {
                        None
                    } else {
                        Some((head + b.subrange(p, p + left), p + left))
                    }
                },
            },
        }
    }
}

/// One record, and where what follows it begins.
pub open spec fn record_at(b: Seq<u8>, at: int, qname: Option<Seq<u8>>, recent: RecentV) -> Option<(RecordV, int)> {
    match owner_at(b, at, qname, recent) {
        None => None,
        Some((name, p)) => if p + 10 > b.len() {
            None
        } else {
            match data_at(b, p + 10, get16(b, p + 8) as int, get16(b, p), b[at] >= 4) {
                None => None,
                Some((data, e)) => Some(
                    (
                        RecordV {
                            name,
                            rtype: get16(b, p),
                            class: get16(b, p + 2),
                            ttl: (get16(b, p + 4) * 65536 + get16(b, p + 6)) as u32,
                            data,
                        },
                        e,
                    ),
                ),
            }
        },
    }
}

/// So many records, and where what follows them begins.
pub open spec fn records_at(b: Seq<u8>, at: int, n: nat, qname: Option<Seq<u8>>, recent: RecentV) -> Option<
    (Seq<RecordV>, int),
>
    decreases n,
{
    if n == 0 {
        Some((Seq::empty(), at))
    } else {
        match record_at(b, at, qname, recent) {
            None => None,
            Some((r, p)) => match records_at(b, p, (n - 1) as nat, qname, saw(r)) {
                None => None,
                Some((rs, e)) => Some((seq![r] + rs, e)),
            },
        }
    }
}

/// What a packed response says, or `None` where its bytes do not decode.
pub open spec fn unpacked(p: PackedV) -> Option<MessageV> {
    let (nq, na, nu, nd) = p.counts;
    match queries_at(p.bytes, 0, nq as nat) {
        None => None,
        Some((queries, at)) => match records_at(
            p.bytes,
            at,
            (na + nu + nd) as nat,
            first_name(queries),
            none_seen(),
        ) {
            None => None,
            Some((rs, end)) => if p.edns is Some && p.bytes.len() - end > 0xffff {
                None
            } else {
                Some(
                    MessageV {
                        metadata: p.metadata,
                        queries,
                        answers: rs.take(na as int),
                        authorities: rs.subrange(na as int, na + nu),
                        additionals: rs.skip(na + nu),
                        edns: match p.edns {
                            Some(head) => Some(EdnsV { head, options: p.bytes.skip(end) }),
                            None => None,
                        },
                        signed: false,
                    },
                )
            },
        },
    }
}

/// Whether `t` was written on from `s`.
spec fn goes_on(s: WrittenV, t: WrittenV) -> bool {
    s.bytes.len() <= t.bytes.len() && t.bytes.take(s.bytes.len() as int) == s.bytes
}

proof fn lemma_goes_on(a: WrittenV, b: WrittenV, c: WrittenV)
    requires
        goes_on(a, b),
        goes_on(b, c),
    ensures
        goes_on(a, c),
{
    assert(c.bytes.take(a.bytes.len() as int) =~= b.bytes.take(a.bytes.len() as int)) by {
        assert(c.bytes.take(b.bytes.len() as int).take(a.bytes.len() as int) =~= c.bytes.take(a.bytes.len() as int));
    }
}

proof fn lemma_more(s: WrittenV, x: Seq<u8>)
    requires
        sound(s),
    ensures
        sound(with_bytes(s, x)),
        goes_on(s, with_bytes(s, x)),
{
    lemma_bytes(s, x);
    assert((s.bytes + x).take(s.bytes.len() as int) =~= s.bytes);
}

/// What goes on from `s` is `s` and more.
proof fn lemma_rest(s: WrittenV, t: WrittenV, more: Seq<u8>) -> (x: Seq<u8>)
    requires
        goes_on(s, t),
    ensures
        t.bytes + more == s.bytes + x,
{
    let x = t.bytes.skip(s.bytes.len() as int) + more;
    assert(t.bytes =~= t.bytes.take(s.bytes.len() as int) + t.bytes.skip(s.bytes.len() as int));
    assert(t.bytes + more =~= s.bytes + x);
    x
}

proof fn lemma_get16(n: int, b: Seq<u8>, at: int)
    requires
        0 <= n <= 0xffff,
        0 <= at,
        at + 2 <= b.len(),
        b.subrange(at, at + 2) == be16(n),
    ensures
        get16(b, at) == n,
{
    assert(b[at] == be16(n)[0]) by {
        assert(b.subrange(at, at + 2)[0] == b[at]);
    }
    assert(b[at + 1] == be16(n)[1]) by {
        assert(b.subrange(at, at + 2)[1] == b[at + 1]);
    }
}

/// Whether every name is valid.
spec fn all_valid(ws: Seq<Seq<u8>>) -> bool {
    forall|i: int| 0 <= i < ws.len() ==> valid_name(#[trigger] ws[i])
}

proof fn lemma_names(s: WrittenV, ws: Seq<Seq<u8>>, more: Seq<u8>)
    requires
        sound(s),
        all_valid(ws),
    ensures
        sound(with_names(s, ws)),
        goes_on(s, with_names(s, ws)),
        with_names(s, ws).bytes.len() <= s.bytes.len() + spelt(ws).len(),
        names_at(with_names(s, ws).bytes + more, s.bytes.len() as int, ws.len(), false) == Some(
            (ws, with_names(s, ws).bytes.len() as int),
        ),
    decreases ws.len(),
{
    if ws.len() == 0 {
        assert(s.bytes.take(s.bytes.len() as int) =~= s.bytes);
        assert(ws =~= Seq::<Seq<u8>>::empty());
    } else {
        let s1 = with_name(s, ws[0]);
        let d = ws.drop_first();
        let t = with_names(s1, d);
        assert(valid_name(ws[0]));
        assert forall|i: int| 0 <= i < d.len() implies valid_name(#[trigger] d[i]) by {
            assert(valid_name(ws[i + 1]));
        }
        lemma_name(s, ws[0]);
        lemma_names(s1, d, more);
        lemma_goes_on(s, s1, t);
        let x = lemma_rest(s1, t, more);
        lemma_name_then(s, ws[0], x);
        assert(seq![ws[0]] + d =~= ws);
    }
}

proof fn lemma_plain_names(b: Seq<u8>, at: int, n: nat)
    requires
        0 <= at <= b.len(),
    ensures
        names_at(b, at, n, true) matches Some((ws, end)) ==> ws.len() == n && all_valid(ws) && at <= end <= b.len()
            && b.subrange(at, end) == spelt(ws),
    decreases n,
{
    if n == 0 {
        assert(b.subrange(at, at) =~= Seq::<u8>::empty());
    } else if let Some((w, p)) = name_at(b, at, true) {
        lemma_plain(b, at);
        lemma_read(b, at, 0);
        lemma_plain_names(b, p, (n - 1) as nat);
        if let Some((ws, end)) = names_at(b, p, (n - 1) as nat, true) {
            let all = seq![w] + ws;
            assert(all.drop_first() =~= ws);
            assert(all[0] == w);
            assert(b.subrange(at, end) =~= b.subrange(at, p) + b.subrange(p, end));
            assert forall|i: int| 0 <= i < all.len() implies valid_name(#[trigger] all[i]) by {
                if i > 0 {
                    assert(all[i] == ws[i - 1]);
                }
            }
        }
    }
}

proof fn lemma_parts(rtype: u16, data: Seq<u8>)
    ensures
        parts_of(rtype, data) matches Some(p) ==> all_valid(p.names) && data == p.lead + spelt(p.names) + p.tail
            && shape(rtype) == Some((p.lead.len() as int, p.names.len())),
{
    if let Some((k, n)) = shape(rtype) {
        if let Some((ws, end)) = names_at(data, k, n, true) {
            assert(k <= data.len()) by {
                if k > data.len() {
                    assert(labels_at(data, k, 0) is None);
                }
            }
            lemma_plain_names(data, k, n);
            assert(data =~= data.take(k) + data.subrange(k, end) + data.skip(end));
        }
    }
}

proof fn lemma_data(s: WrittenV, rtype: u16, data: Seq<u8>, more: Seq<u8>)
    requires
        sound(s),
    ensures
        sound(with_data(s, rtype, data)),
        goes_on(s, with_data(s, rtype, data)),
        with_data(s, rtype, data).bytes.len() <= s.bytes.len() + data.len(),
        data_at(
            with_data(s, rtype, data).bytes + more,
            s.bytes.len() as int,
            data.len() as int,
            rtype,
            parts_of(rtype, data) is Some,
        ) == Some((data, with_data(s, rtype, data).bytes.len() as int)),
{
    let t = with_data(s, rtype, data);
    let b = t.bytes + more;
    let at = s.bytes.len() as int;
    match parts_of(rtype, data) {
        None => {
            lemma_more(s, data);
            assert(b.subrange(at, at + data.len()) =~= data);
        },
        Some(p) => {
            lemma_parts(rtype, data);
            let s1 = with_bytes(s, p.lead);
            let s2 = with_names(s1, p.names);
            lemma_more(s, p.lead);
            lemma_names(s1, p.names, p.tail + more);
            lemma_more(s2, p.tail);
            lemma_goes_on(s, s1, s2);
            lemma_goes_on(s, s2, t);
            assert(b =~= s2.bytes + (p.tail + more));
            let x = lemma_rest(s1, s2, p.tail + more);
            let k = p.lead.len() as int;
            assert(b.subrange(at, at + k) =~= p.lead);
            let q = s2.bytes.len() as int;
            assert(b.subrange(q, q + p.tail.len()) =~= p.tail);
            let head = p.lead + spelt(p.names);
            assert(data.len() - head.len() == p.tail.len());
        },
    }
}

proof fn lemma_query(s: WrittenV, q: QueryV, more: Seq<u8>)
    requires
        sound(s),
        valid_name(q.name),
    ensures
        sound(with_query(s, q)),
        goes_on(s, with_query(s, q)),
        query_at(with_query(s, q).bytes + more, s.bytes.len() as int) == Some(
            (q, with_query(s, q).bytes.len() as int),
        ),
{
    let s1 = with_name(s, q.name);
    let x = be16(q.qtype as int) + be16(q.qclass as int);
    let t = with_bytes(s1, x);
    lemma_name(s, q.name);
    lemma_more(s1, x);
    lemma_goes_on(s, s1, t);
    let b = t.bytes + more;
    lemma_name_then(s, q.name, x + more);
    assert(b =~= s1.bytes + (x + more));
    let p = s1.bytes.len() as int;
    assert(b.subrange(p, p + 2) =~= be16(q.qtype as int));
    assert(b.subrange(p + 2, p + 4) =~= be16(q.qclass as int));
    lemma_get16(q.qtype as int, b, p);
    lemma_get16(q.qclass as int, b, p + 2);
}

proof fn lemma_queries(s: WrittenV, q: Seq<QueryV>, more: Seq<u8>)
    requires
        sound(s),
        forall|i: int| 0 <= i < q.len() ==> valid_name(#[trigger] q[i].name),
    ensures
        sound(with_queries(s, q)),
        goes_on(s, with_queries(s, q)),
        queries_at(with_queries(s, q).bytes + more, s.bytes.len() as int, q.len()) == Some(
            (q, with_queries(s, q).bytes.len() as int),
        ),
    decreases q.len(),
{
    if q.len() == 0 {
        assert(s.bytes.take(s.bytes.len() as int) =~= s.bytes);
        assert(q =~= Seq::<QueryV>::empty());
    } else {
        let s1 = with_query(s, q[0]);
        let d = q.drop_first();
        let t = with_queries(s1, d);
        assert(valid_name(q[0].name));
        assert forall|i: int| 0 <= i < d.len() implies valid_name(#[trigger] d[i].name) by {
            assert(valid_name(q[i + 1].name));
        }
        lemma_query(s, q[0], more);
        lemma_queries(s1, d, more);
        lemma_goes_on(s, s1, t);
        let x = lemma_rest(s1, t, more);
        lemma_query(s, q[0], x);
        assert(seq![q[0]] + d =~= q);
    }
}

proof fn lemma_owner(s: WrittenV, r: RecordV, qname: Option<Seq<u8>>, recent: RecentV, more: Seq<u8>)
    requires
        sound(s),
        valid_name(r.name),
    ensures
        ({
            let t = with_owner(s, r, qname, recent);
            let b = t.bytes + more;
            let at = s.bytes.len() as int;
            &&& sound(t)
            &&& goes_on(s, t)
            &&& t.bytes.len() > at
            &&& b[at] == flag_of(r, qname, recent)
            &&& owner_at(b, at, qname, recent) == Some((r.name, t.bytes.len() as int))
        }),
{
    let f = seq![flag_of(r, qname, recent)];
    let s1 = with_bytes(s, f);
    let t = with_owner(s, r, qname, recent);
    let at = s.bytes.len() as int;
    lemma_more(s, f);
    if owner_flag(r.name, qname, recent) == 0 {
        lemma_name(s1, r.name);
        lemma_goes_on(s, s1, t);
        lemma_name_then(s1, r.name, more);
        let x = lemma_rest(s1, t, more);
        assert((t.bytes + more)[at] == s1.bytes[at]);
    } else {
        assert((t.bytes + more)[at] == f[0]);
    }
}

proof fn lemma_middle(r: RecordV, b: Seq<u8>, p: int)
    requires
        0 <= p,
        p + 10 <= b.len(),
        b.subrange(p, p + 10) == middle(r),
        r.data.len() <= 0xffff,
    ensures
        get16(b, p) == r.rtype,
        get16(b, p + 2) == r.class,
        (get16(b, p + 4) * 65536 + get16(b, p + 6)) as u32 == r.ttl,
        get16(b, p + 8) == r.data.len(),
{
    let ttl = r.ttl as int;
    let m = b.subrange(p, p + 10);
    assert(b.subrange(p, p + 2) =~= m.subrange(0, 2));
    assert(b.subrange(p + 2, p + 4) =~= m.subrange(2, 4));
    assert(b.subrange(p + 4, p + 6) =~= m.subrange(4, 6));
    assert(b.subrange(p + 6, p + 8) =~= m.subrange(6, 8));
    assert(b.subrange(p + 8, p + 10) =~= m.subrange(8, 10));
    assert(m.subrange(0, 2) =~= be16(r.rtype as int));
    assert(m.subrange(2, 4) =~= be16(r.class as int));
    assert(m.subrange(4, 6) =~= be16(ttl / 65536));
    assert(m.subrange(6, 8) =~= be16(ttl % 65536));
    assert(m.subrange(8, 10) =~= be16(r.data.len() as int));
    lemma_get16(r.rtype as int, b, p);
    lemma_get16(r.class as int, b, p + 2);
    lemma_get16(ttl / 65536, b, p + 4);
    lemma_get16(ttl % 65536, b, p + 6);
    lemma_get16(r.data.len() as int, b, p + 8);
}

#[verifier::spinoff_prover]
#[verifier::rlimit(40)]
proof fn lemma_record(s: WrittenV, r: RecordV, qname: Option<Seq<u8>>, recent: RecentV, more: Seq<u8>)
    requires
        sound(s),
        valid_name(r.name),
        r.data.len() <= 0xffff,
    ensures
        sound(with_record(s, r, qname, recent)),
        goes_on(s, with_record(s, r, qname, recent)),
        record_at(with_record(s, r, qname, recent).bytes + more, s.bytes.len() as int, qname, recent) == Some(
            (r, with_record(s, r, qname, recent).bytes.len() as int),
        ),
{
    let s1 = with_owner(s, r, qname, recent);
    let s2 = with_bytes(s1, middle(r));
    let t = with_data(s2, r.rtype, r.data);
    let b = t.bytes + more;
    lemma_owner(s, r, qname, recent, more);
    lemma_more(s1, middle(r));
    lemma_data(s2, r.rtype, r.data, more);
    lemma_goes_on(s, s1, s2);
    lemma_goes_on(s, s2, t);
    lemma_goes_on(s1, s2, t);
    let x = lemma_rest(s1, t, more);
    lemma_owner(s, r, qname, recent, x);
    let y = lemma_rest(s2, t, more);
    let p = s1.bytes.len() as int;
    assert(b.subrange(p, p + 10) =~= middle(r));
    lemma_middle(r, b, p);
    assert((b[s.bytes.len() as int] >= 4) == (parts_of(r.rtype, r.data) is Some));
}

#[verifier::spinoff_prover]
#[verifier::rlimit(40)]
proof fn lemma_records(s: WrittenV, rs: Seq<RecordV>, qname: Option<Seq<u8>>, recent: RecentV, more: Seq<u8>)
    requires
        sound(s),
        owners_valid(rs),
        short_data(rs),
    ensures
        goes_on(s, with_records(s, rs, qname, recent)),
        records_at(with_records(s, rs, qname, recent).bytes + more, s.bytes.len() as int, rs.len(), qname, recent)
            == Some((rs, with_records(s, rs, qname, recent).bytes.len() as int)),
    decreases rs.len(),
{
    if rs.len() == 0 {
        assert(s.bytes.take(s.bytes.len() as int) =~= s.bytes);
        assert(rs =~= Seq::<RecordV>::empty());
    } else {
        let s1 = with_record(s, rs[0], qname, recent);
        let d = rs.drop_first();
        let t = with_records(s1, d, qname, saw(rs[0]));
        assert(valid_name(rs[0].name) && rs[0].data.len() <= 0xffff);
        assert forall|i: int| 0 <= i < d.len() implies valid_name(#[trigger] d[i].name) by {
            assert(valid_name(rs[i + 1].name));
        }
        assert forall|i: int| 0 <= i < d.len() implies (#[trigger] d[i]).data.len() <= 0xffff by {
            assert(rs[i + 1].data.len() <= 0xffff);
        }
        lemma_record(s, rs[0], qname, recent, more);
        lemma_records(s1, d, qname, saw(rs[0]), more);
        lemma_goes_on(s, s1, t);
        let x = lemma_rest(s1, t, more);
        lemma_record(s, rs[0], qname, recent, x);
        assert(seq![rs[0]] + d =~= rs);
    }
}

proof fn lemma_owners(m: MessageV)
    requires
        names_valid(m),
    ensures
        owners_valid(all_records(m)),
{
    let rs = all_records(m);
    let na = m.answers.len() as int;
    let nu = m.authorities.len() as int;
    assert forall|i: int| 0 <= i < rs.len() implies valid_name(#[trigger] rs[i].name) by {
        if i < na {
            assert(rs[i] == m.answers[i]);
        } else if i < na + nu {
            assert(rs[i] == m.authorities[i - na]);
        } else {
            assert(rs[i] == m.additionals[i - na - nu]);
        }
    }
}

/// The packing is lossless: what was packed comes back, the case of every
/// name included.
pub proof fn law_lossless(m: MessageV)
    requires
        packs(m),
        names_valid(m),
    ensures
        unpacked(packed(m)) == Some(m),
{
    let rs = all_records(m);
    let qname = first_name(m.queries);
    let s1 = with_queries(blank(), m.queries);
    let s2 = with_records(s1, rs, qname, none_seen());
    let more = options_of(m);
    lemma_owners(m);
    lemma_queries(blank(), m.queries, more);
    lemma_records(s1, rs, qname, none_seen(), more);
    let x = lemma_rest(s1, s2, more);
    lemma_queries(blank(), m.queries, x);
    assert(packed(m).bytes.skip(s2.bytes.len() as int) =~= more);
    let na = m.answers.len() as int;
    let nu = m.authorities.len() as int;
    assert(rs.take(na) =~= m.answers);
    assert(rs.subrange(na, na + nu) =~= m.authorities);
    assert(rs.skip(na + nu) =~= m.additionals);
}

/// A record whose owner repeats a name in hand takes no more than eleven bytes
/// and its data, whatever the name, and just that where its data is not
/// written as names.
pub proof fn law_repeated_owner_takes_a_byte(s: WrittenV, r: RecordV, qname: Option<Seq<u8>>, recent: RecentV)
    requires
        sound(s),
        qname == Some(r.name) || recent.owner == Some(r.name) || recent.target == Some(r.name),
    ensures
        with_record(s, r, qname, recent).bytes.len() <= s.bytes.len() + 11 + r.data.len(),
        parts_of(r.rtype, r.data) is None ==> with_record(s, r, qname, recent).bytes.len() == s.bytes.len() + 11
            + r.data.len(),
{
    let s1 = with_owner(s, r, qname, recent);
    lemma_more(s, seq![flag_of(r, qname, recent)]);
    lemma_more(s1, middle(r));
    lemma_data(with_bytes(s1, middle(r)), r.rtype, r.data, Seq::empty());
}

/// What is recent after some records.
spec fn recent_after(s: Seq<RecordV>, recent: RecentV) -> RecentV {
    if s.len() == 0 {
        recent
    } else {
        saw(s.last())
    }
}

proof fn lemma_concat(s: WrittenV, a: Seq<RecordV>, b: Seq<RecordV>, qname: Option<Seq<u8>>, recent: RecentV)
    ensures
        with_records(s, a + b, qname, recent) == with_records(
            with_records(s, a, qname, recent),
            b,
            qname,
            recent_after(a, recent),
        ),
        recent_after(a + b, recent) == recent_after(b, recent_after(a, recent)),
    decreases a.len(),
{
    if a.len() == 0 {
        assert(a + b =~= b);
    } else {
        let d = a.drop_first();
        lemma_concat(with_record(s, a[0], qname, recent), d, b, qname, saw(a[0]));
        assert((a + b).drop_first() =~= d + b);
        if d.len() == 0 {
            assert(a.last() == a[0]);
        } else {
            assert(d.last() == a.last());
        }
        if b.len() > 0 {
            assert((a + b).last() == b.last());
        } else {
            assert(a + b =~= a);
        }
    }
}

/// Writes two bytes.
fn push16(out: &mut Writer, n: u16)
    requires
        old(out).wf(),
    ensures
        final(out).wf(),
        final(out)@ == with_bytes(old(out)@, be16(n as int)),
{
    let ghost s = out@;
    out.push((n / 256) as u8);
    out.push((n % 256) as u8);
    assert(out@.bytes =~= s.bytes + be16(n as int));
}

/// Writes four bytes.
fn push32(out: &mut Writer, n: u32)
    requires
        old(out).wf(),
    ensures
        final(out).wf(),
        final(out)@ == with_bytes(old(out)@, be32(n as int)),
{
    let ghost s = out@;
    push16(out, (n / 65536) as u16);
    push16(out, (n % 65536) as u16);
    assert(out@.bytes =~= s.bytes + be32(n as int));
}

/// Writes every question.
fn push_queries(out: &mut Writer, q: &Vec<Query>)
    requires
        old(out).wf(),
    ensures
        final(out).wf(),
        final(out)@ == with_queries(old(out)@, queries_of(q@)),
        forall|i: int| 0 <= i < q@.len() ==> valid_name(#[trigger] queries_of(q@)[i].name),
{
    let ghost first = out@;
    let ghost v = queries_of(q@);
    let mut i: usize = 0;
    assert(v.skip(0) =~= v);
    while i < q.len()
        invariant
            out.wf(),
            i <= q@.len(),
            v == queries_of(q@),
            with_queries(first, v) == with_queries(out@, v.skip(i as int)),
            forall|k: int| 0 <= k < i ==> valid_name(#[trigger] v[k].name),
        decreases q@.len() - i,
    {
        let ghost s = out@;
        q[i].name.known();
        out.push_name(&q[i].name);
        let ghost named = out@;
        push16(out, q[i].qtype);
        push16(out, q[i].qclass);
        proof {
            let x = v[i as int];
            assert(x == q@[i as int]@);
            assert(out@.bytes =~= named.bytes + (be16(x.qtype as int) + be16(x.qclass as int)));
            assert(out@ =~= with_query(s, x));
            assert(v.skip(i as int)[0] == x);
            assert(v.skip(i as int).drop_first() =~= v.skip(i + 1));
        }
        i = i + 1;
    }
    assert(v.skip(i as int) =~= Seq::<QueryV>::empty());
}

/// The names an owner is compared with before it is written out.
struct Recent {
    owner: Option<Name>,
    target: Option<Name>,
}

/// A name that may be there, as a sequence.
spec fn name_of(n: Option<Name>) -> Option<Seq<u8>> {
    match n {
        Some(n) => Some(n@),
        None => None,
    }
}

/// The name that a `CNAME` record points to.
fn target_name(r: &Record) -> (t: Option<Name>)
    ensures
        name_of(t) == target_of(r@),
{
    let n: usize = r.data.len();
    if r.rtype != CNAME || n == 0 || r.data[n - 1] != 0 {
        return None;
    }
    let w = slice_subrange(r.data.as_slice(), 0, n - 1);
    assert(w@ =~= r.data@.drop_last());
    Name::from_wire(w)
}

impl Recent {
    spec fn view(&self) -> RecentV {
        RecentV { owner: name_of(self.owner), target: name_of(self.target) }
    }

    /// Notes the record just written or read.
    fn saw(&mut self, r: &Record)
        ensures
            final(self)@ == saw(r@),
    {
        self.owner = Some(r.name.copy());
        self.target = target_name(r);
    }
}

/// Whether a name is there and is spelled like `n`.
fn repeats(x: &Option<Name>, n: &Name) -> (r: bool)
    ensures
        r == (name_of(*x) == Some(n@)),
{
    match x {
        Some(m) => m.eq_case(n),
        None => false,
    }
}

/// Names, as sequences.
spec fn names_of(s: Seq<Name>) -> Seq<Seq<u8>> {
    s.map_values(|n: Name| n@)
}

/// `ws` before the names that follow.
spec fn names_behind(ws: Seq<Seq<u8>>, r: Option<(Seq<Seq<u8>>, int)>) -> Option<(Seq<Seq<u8>>, int)> {
    match r {
        Some((x, end)) => Some((ws + x, end)),
        None => None,
    }
}

/// Reads the names from `at` on.
fn read_names(b: &[u8], at: usize, n: u8, plain: bool) -> (r: Option<(Vec<Name>, usize)>)
    requires
        at <= b@.len(),
    ensures
        match r {
            Some((ws, p)) => p <= b@.len() && names_at(b@, at as int, n as nat, plain) == Some(
                (names_of(ws@), p as int),
            ),
            None => names_at(b@, at as int, n as nat, plain) is None,
        },
{
    let ghost want = names_at(b@, at as int, n as nat, plain);
    let mut out: Vec<Name> = Vec::new();
    let mut p: usize = at;
    let mut i: u8 = 0;
    proof {
        if let Some((x, _)) = want {
            assert(names_of(out@) + x =~= x);
        }
    }
    while i < n
        invariant
            i <= n,
            p <= b@.len(),
            want == names_at(b@, at as int, n as nat, plain),
            want == names_behind(names_of(out@), names_at(b@, p as int, (n - i) as nat, plain)),
        decreases n - i,
    {
        let ghost before = names_of(out@);
        match read_name(b, p, plain) {
            None => {
                return None;
            },
            Some((w, q)) => {
                let ghost v = w@;
                out.push(w);
                proof {
                    assert(names_of(out@) =~= before.push(v));
                    if let Some((x, _)) = names_at(b@, q as int, (n - i - 1) as nat, plain) {
                        assert(before + (seq![v] + x) =~= before.push(v) + x);
                    }
                }
                p = q;
            },
        }
        i = i + 1;
    }
    assert(names_of(out@) + Seq::<Seq<u8>>::empty() =~= names_of(out@));
    Some((out, p))
}

/// How many bytes and how many names the data of a record begins with.
fn shaped(rtype: u16) -> (r: Option<(usize, u8)>)
    ensures
        match (r, shape(rtype)) {
            (Some((k, n)), Some((a, b))) => k == a && n == b && k <= 2 && n <= 2,
            (None, None) => true,
            _ => false,
        },
{
    match rtype {
        2 | 5 | 12 | 65305 => Some((0, 1)),
        6 => Some((0, 2)),
        15 => Some((2, 1)),
        _ => None,
    }
}

/// The names in a record's data, and where what precedes them ends and what
/// follows them begins.
fn names_in(rtype: u16, data: &[u8]) -> (r: Option<(usize, Vec<Name>, usize)>)
    ensures
        match (r, parts_of(rtype, data@)) {
            (Some((k, ws, end)), Some(p)) => k <= data@.len() && end <= data@.len() && p == (PartsV {
                lead: data@.take(k as int),
                names: names_of(ws@),
                tail: data@.skip(end as int),
            }),
            (None, None) => true,
            _ => false,
        },
{
    let (k, n) = match shaped(rtype) {
        None => {
            return None;
        },
        Some(x) => x,
    };
    if k > data.len() {
        assert(labels_at(data@, k as int, 0) is None);
        return None;
    }
    match read_names(data, k, n, true) {
        None => None,
        Some((ws, end)) => Some((k, ws, end)),
    }
}

/// Writes names, one after the other.
fn push_names(out: &mut Writer, ws: &Vec<Name>)
    requires
        old(out).wf(),
    ensures
        final(out).wf(),
        final(out)@ == with_names(old(out)@, names_of(ws@)),
{
    let ghost first = out@;
    let ghost v = names_of(ws@);
    let mut i: usize = 0;
    assert(v.skip(0) =~= v);
    while i < ws.len()
        invariant
            out.wf(),
            i <= ws@.len(),
            v == names_of(ws@),
            with_names(first, v) == with_names(out@, v.skip(i as int)),
        decreases ws@.len() - i,
    {
        out.push_name(&ws[i]);
        proof {
            assert(v.skip(i as int)[0] == ws@[i as int]@);
            assert(v.skip(i as int).drop_first() =~= v.skip(i + 1));
        }
        i = i + 1;
    }
    assert(v.skip(i as int) =~= Seq::<Seq<u8>>::empty());
}

/// Writes one record.
fn emit_record(out: &mut Writer, r: &Record, qname: &Option<Name>, recent: &Recent)
    requires
        old(out).wf(),
        r.data@.len() <= 0xffff,
    ensures
        final(out).wf(),
        final(out)@ == with_record(old(out)@, r@, name_of(*qname), recent@),
{
    let ghost s = out@;
    let ghost q = name_of(*qname);
    let owner: u8 = if repeats(qname, &r.name) {
        OWNER_IS_QNAME
    } else if repeats(&recent.owner, &r.name) {
        OWNER_IS_PREVIOUS
    } else if repeats(&recent.target, &r.name) {
        OWNER_IS_TARGET
    } else {
        0
    };
    let parts = names_in(r.rtype, r.data.as_slice());
    out.push(
        if parts.is_some() {
            owner + DATA_IS_NAMES
        } else {
            owner
        },
    );
    if owner == 0 {
        out.push_name(&r.name);
    }
    let ghost s1 = out@;
    assert(s1 == with_owner(s, r@, q, recent@));
    push16(out, r.rtype);
    push16(out, r.class);
    push32(out, r.ttl);
    push16(out, r.data.len() as u16);
    assert(out@.bytes =~= s1.bytes + middle(r@));
    assert(out@ =~= with_bytes(s1, middle(r@)));
    match parts {
        None => {
            out.push_all(r.data.as_slice());
        },
        Some((k, ws, end)) => {
            let lead = slice_subrange(r.data.as_slice(), 0, k);
            assert(lead@ =~= r.data@.take(k as int));
            out.push_all(lead);
            push_names(out, &ws);
            let tail = slice_subrange(r.data.as_slice(), end, r.data.len());
            assert(tail@ =~= r.data@.skip(end as int));
            out.push_all(tail);
        },
    }
}

/// Writes a section, unless the data of one of its records is too long.
fn emit_section(out: &mut Writer, s: &Vec<Record>, qname: &Option<Name>, recent: &mut Recent) -> (ok: bool)
    requires
        old(out).wf(),
    ensures
        final(out).wf(),
        ok == short_data(records_of(s@)),
        ok ==> final(out)@ == with_records(old(out)@, records_of(s@), name_of(*qname), old(recent)@),
        ok ==> final(recent)@ == recent_after(records_of(s@), old(recent)@),
        ok ==> owners_valid(records_of(s@)),
{
    let ghost first = out@;
    let ghost began = recent@;
    let ghost q = name_of(*qname);
    let ghost v = records_of(s@);
    let mut i: usize = 0;
    assert(v.skip(0) =~= v);
    while i < s.len()
        invariant
            out.wf(),
            i <= s@.len(),
            v == records_of(s@),
            q == name_of(*qname),
            with_records(first, v, q, began) == with_records(out@, v.skip(i as int), q, recent@),
            recent@ == recent_after(v.take(i as int), began),
            forall|k: int| 0 <= k < i ==> (#[trigger] v[k]).data.len() <= 0xffff,
            forall|k: int| 0 <= k < i ==> valid_name(#[trigger] v[k].name),
        decreases s@.len() - i,
    {
        assert(v[i as int] == s@[i as int]@);
        s[i].name.known();
        if s[i].data.len() > 0xffff {
            return false;
        }
        emit_record(out, &s[i], qname, recent);
        recent.saw(&s[i]);
        proof {
            assert(v.skip(i as int)[0] == v[i as int]);
            assert(v.skip(i as int).drop_first() =~= v.skip(i + 1));
            assert(v.take(i + 1).last() == v[i as int]);
        }
        i = i + 1;
    }
    assert(v.skip(i as int) =~= Seq::<RecordV>::empty());
    assert(v.take(i as int) =~= v);
    true
}

/// A response, packed for storage.
#[derive(Debug)]
pub struct Packed {
    id: u16,
    /// The operation and the flags of the header, in one word.
    bits: u16,
    response_code: u16,
    queries: u16,
    answers: u16,
    authorities: u16,
    additionals: u16,
    edns: Option<OptHead>,
    bytes: Box<[u8]>,
}

/// One where a flag is set.
spec fn bit(b: bool) -> int {
    if b {
        1
    } else {
        0
    }
}

/// The operation of a header and its flags, as one number.
spec fn bits_of(m: Metadata) -> int {
    m.op_code + 256 * bit(m.response) + 512 * bit(m.authoritative) + 1024 * bit(m.truncation) + 2048 * bit(
        m.recursion_desired,
    ) + 4096 * bit(m.recursion_available) + 8192 * bit(m.authentic_data) + 16384 * bit(m.checking_disabled)
}

/// The header that a number stands for.
spec fn header_of(id: u16, bits: u16, response_code: u16) -> Metadata {
    Metadata {
        id,
        response: bits / 256 % 2 == 1,
        op_code: (bits % 256) as u8,
        authoritative: bits / 512 % 2 == 1,
        truncation: bits / 1024 % 2 == 1,
        recursion_desired: bits / 2048 % 2 == 1,
        recursion_available: bits / 4096 % 2 == 1,
        authentic_data: bits / 8192 % 2 == 1,
        checking_disabled: bits / 16384 % 2 == 1,
        response_code,
    }
}

/// The number of a header's operation and flags.
fn bits_from(m: &Metadata) -> (r: u16)
    ensures
        header_of(m.id, r, m.response_code) == *m,
{
    let mut r: u16 = m.op_code as u16;
    if m.response {
        r = r + 256;
    }
    if m.authoritative {
        r = r + 512;
    }
    if m.truncation {
        r = r + 1024;
    }
    if m.recursion_desired {
        r = r + 2048;
    }
    if m.recursion_available {
        r = r + 4096;
    }
    if m.authentic_data {
        r = r + 8192;
    }
    if m.checking_disabled {
        r = r + 16384;
    }
    proof {
        assert(r == bits_of(*m));
        lemma_bits(*m);
    }
    r
}

proof fn lemma_bits(m: Metadata)
    ensures
        0 <= bits_of(m) < 0x8000,
        header_of(m.id, bits_of(m) as u16, m.response_code) == m,
{
    let a = bit(m.response);
    let b = bit(m.authoritative);
    let c = bit(m.truncation);
    let d = bit(m.recursion_desired);
    let e = bit(m.recursion_available);
    let f = bit(m.authentic_data);
    let g = bit(m.checking_disabled);
    let n = bits_of(m);
    assert(n / 256 == a + 2 * b + 4 * c + 8 * d + 16 * e + 32 * f + 64 * g);
    assert(n / 512 == b + 2 * c + 4 * d + 8 * e + 16 * f + 32 * g);
    assert(n / 1024 == c + 2 * d + 4 * e + 8 * f + 16 * g);
    assert(n / 2048 == d + 2 * e + 4 * f + 8 * g);
    assert(n / 4096 == e + 2 * f + 4 * g);
    assert(n / 8192 == f + 2 * g);
    assert(n / 16384 == g);
}

/// Drops a vector's spare room, by the standard library's
/// `Vec::into_boxed_slice`: the same items, in the same order.
#[verifier::external_body]
pub(crate) fn boxed(v: Vec<u8>) -> (r: Box<[u8]>)
    ensures
        r@ == v@,
{
    v.into_boxed_slice()
}

impl Packed {
    /// The packed response, with its bytes as a sequence.
    pub closed spec fn view(&self) -> PackedV {
        PackedV {
            metadata: header_of(self.id, self.bits, self.response_code),
            counts: (self.queries, self.answers, self.authorities, self.additionals),
            edns: self.edns,
            bytes: self.bytes@,
        }
    }

    /// Packs a response, or `None` for one that must not be stored.
    ///
    /// A signed response is refused rather than stored without its signature.
    /// What was packed unpacks to the message.
    pub fn pack(m: &Message) -> (r: Option<Self>)
        ensures
            match r {
                Some(p) => packs(m@) && p@ == packed(m@) && unpacked(p@) == Some(m@),
                None => !packs(m@),
            },
    {
        if m.signed {
            return None;
        }
        if m.queries.len() > 0xffff || m.answers.len() > 0xffff || m.authorities.len() > 0xffff || m.additionals.len()
            > 0xffff {
            return None;
        }
        let qname = if m.queries.len() > 0 {
            Some(m.queries[0].name.copy())
        } else {
            None
        };
        let ghost q = first_name(m@.queries);
        assert(name_of(qname) == q);
        let mut recent = Recent { owner: None, target: None };
        let mut out = Writer::new();
        push_queries(&mut out, &m.queries);
        let ghost head = out@;
        proof {
            lemma_sections(m@);
        }
        if !emit_section(&mut out, &m.answers, &qname, &mut recent) {
            return None;
        }
        if !emit_section(&mut out, &m.authorities, &qname, &mut recent) {
            return None;
        }
        if !emit_section(&mut out, &m.additionals, &qname, &mut recent) {
            return None;
        }
        proof {
            lemma_concat(head, m@.answers, m@.authorities, q, none_seen());
            lemma_concat(head, m@.answers + m@.authorities, m@.additionals, q, none_seen());
            assert(out@ == with_records(head, all_records(m@), q, none_seen()));
        }
        let ghost written = out@.bytes;
        let mut bytes = out.into_bytes();
        let edns = match &m.edns {
            Some(e) => {
                bytes.extend_from_slice(e.options.as_slice());
                Some(e.head)
            },
            None => None,
        };
        assert(bytes@ =~= written + options_of(m@));
        if bytes.len() > MAX_PACKED {
            return None;
        }
        let p = Packed {
            id: m.metadata.id,
            bits: bits_from(&m.metadata),
            response_code: m.metadata.response_code,
            queries: m.queries.len() as u16,
            answers: m.answers.len() as u16,
            authorities: m.authorities.len() as u16,
            additionals: m.additionals.len() as u16,
            edns,
            bytes: boxed(bytes),
        };
        proof {
            assert(p@ =~= packed(m@));
            law_lossless(m@);
        }
        Some(p)
    }

    /// A response that says nothing, packed.
    pub(crate) fn empty() -> (r: Self)
        ensures
            r@ == packed(no_response()),
    {
        let metadata = Metadata {
            id: 0,
            response: true,
            op_code: 0,
            authoritative: false,
            truncation: false,
            recursion_desired: false,
            recursion_available: false,
            authentic_data: false,
            checking_disabled: false,
            response_code: 0,
        };
        let p = Packed {
            id: 0,
            bits: bits_from(&metadata),
            response_code: 0,
            queries: 0,
            answers: 0,
            authorities: 0,
            additionals: 0,
            edns: None,
            bytes: boxed(Vec::new()),
        };
        assert(all_records(no_response()) =~= Seq::<RecordV>::empty());
        assert(p@ =~= packed(no_response()));
        p
    }

    /// The header, as it was packed.
    fn header(&self) -> (r: Metadata)
        ensures
            r == self@.metadata,
    {
        let bits: u16 = self.bits;
        Metadata {
            id: self.id,
            response: bits / 256 % 2 == 1,
            op_code: (bits % 256) as u8,
            authoritative: bits / 512 % 2 == 1,
            truncation: bits / 1024 % 2 == 1,
            recursion_desired: bits / 2048 % 2 == 1,
            recursion_available: bits / 4096 % 2 == 1,
            authentic_data: bits / 8192 % 2 == 1,
            checking_disabled: bits / 16384 % 2 == 1,
            response_code: self.response_code,
        }
    }

    /// The bytes held on the heap.
    pub fn heap_len(&self) -> (r: usize)
        ensures
            r == self@.bytes.len(),
    {
        self.bytes.len()
    }
}

proof fn lemma_sections(m: MessageV)
    ensures
        short_data(all_records(m)) == (short_data(m.answers) && short_data(m.authorities) && short_data(m.additionals)),
{
    let rs = all_records(m);
    let na = m.answers.len() as int;
    let nu = m.authorities.len() as int;
    if short_data(rs) {
        assert forall|i: int| 0 <= i < m.answers.len() implies (#[trigger] m.answers[i]).data.len() <= 0xffff by {
            assert(rs[i].data.len() <= 0xffff);
        }
        assert forall|i: int| 0 <= i < m.authorities.len() implies (#[trigger] m.authorities[i]).data.len() <= 0xffff by {
            assert(rs[i + na].data.len() <= 0xffff);
        }
        assert forall|i: int| 0 <= i < m.additionals.len() implies (#[trigger] m.additionals[i]).data.len() <= 0xffff by {
            assert(rs[i + na + nu].data.len() <= 0xffff);
        }
    }
    if short_data(m.answers) && short_data(m.authorities) && short_data(m.additionals) {
        assert forall|i: int| 0 <= i < rs.len() implies (#[trigger] rs[i]).data.len() <= 0xffff by {
            if i < na {
                assert(rs[i] == m.answers[i]);
            } else if i < na + nu {
                assert(rs[i] == m.authorities[i - na]);
            } else {
                assert(rs[i] == m.additionals[i - na - nu]);
            }
        }
    }
}

/// Reads two bytes at `at`.
fn read16(b: &[u8], at: usize) -> (r: u16)
    requires
        at + 2 <= b@.len(),
    ensures
        r == get16(b@, at as int),
{
    (b[at] as u16) * 256 + (b[at + 1] as u16)
}

/// Reads the question at `at`.
fn read_query(b: &[u8], at: usize) -> (r: Option<(Query, usize)>)
    requires
        at <= b@.len(),
    ensures
        match r {
            Some((q, p)) => p <= b@.len() && query_at(b@, at as int) == Some((q@, p as int)),
            None => query_at(b@, at as int) is None,
        },
{
    match read_name(b, at, false) {
        None => None,
        Some((name, p)) => if b.len() - p < 4 {
            None
        } else {
            Some((Query { name, qtype: read16(b, p), qclass: read16(b, p + 2) }, p + 4))
        },
    }
}

/// `qs` before the questions that follow.
spec fn queries_behind(qs: Seq<QueryV>, r: Option<(Seq<QueryV>, int)>) -> Option<(Seq<QueryV>, int)> {
    match r {
        Some((x, end)) => Some((qs + x, end)),
        None => None,
    }
}

/// Reads `n` questions.
fn read_queries(b: &[u8], n: u16) -> (r: Option<(Vec<Query>, usize)>)
    ensures
        match r {
            Some((q, p)) => p <= b@.len() && queries_at(b@, 0, n as nat) == Some((queries_of(q@), p as int)),
            None => queries_at(b@, 0, n as nat) is None,
        },
{
    let mut out: Vec<Query> = Vec::new();
    let mut at: usize = 0;
    let mut i: u16 = 0;
    proof {
        if let Some((x, _)) = queries_at(b@, 0, n as nat) {
            assert(queries_of(out@) + x =~= x);
        }
    }
    while i < n
        invariant
            i <= n,
            at <= b@.len(),
            queries_at(b@, 0, n as nat) == queries_behind(
                queries_of(out@),
                queries_at(b@, at as int, (n - i) as nat),
            ),
        decreases n - i,
    {
        let ghost before = queries_of(out@);
        match read_query(b, at) {
            None => {
                return None;
            },
            Some((q, p)) => {
                let ghost v = q@;
                out.push(q);
                proof {
                    assert(queries_of(out@) =~= before.push(v));
                    if let Some((x, _)) = queries_at(b@, p as int, (n - i - 1) as nat) {
                        assert(before + (seq![v] + x) =~= before.push(v) + x);
                    }
                }
                at = p;
            },
        }
        i = i + 1;
    }
    assert(queries_of(out@) + Seq::<QueryV>::empty() =~= queries_of(out@));
    Some((out, at))
}

/// The name a flag stands for, where it is there.
fn repeated(n: &Option<Name>, at: usize) -> (r: Option<(Name, usize)>)
    requires
        at < usize::MAX,
    ensures
        match r {
            Some((m, p)) => name_of(*n) == Some(m@) && p == at + 1,
            None => name_of(*n) is None,
        },
{
    match n {
        Some(m) => Some((m.copy(), at + 1)),
        None => None,
    }
}

/// Reads the owner at `at`, behind its flag.
fn read_owner(b: &[u8], at: usize, qname: &Option<Name>, recent: &Recent) -> (r: Option<(Name, usize)>)
    requires
        at <= b@.len(),
    ensures
        match r {
            Some((n, p)) => p <= b@.len() && owner_at(b@, at as int, name_of(*qname), recent@) == Some((n@, p as int)),
            None => owner_at(b@, at as int, name_of(*qname), recent@) is None,
        },
{
    if at >= b.len() || b[at] >= 8 {
        return None;
    }
    match b[at] % 4 {
        0 => read_name(b, at + 1, false),
        1 => repeated(qname, at),
        2 => repeated(&recent.owner, at),
        _ => repeated(&recent.target, at),
    }
}

/// Names as a record's data has them, each with the root's zero.
fn spell(out: &mut Vec<u8>, ws: &Vec<Name>)
    ensures
        final(out)@ == old(out)@ + spelt(names_of(ws@)),
{
    let ghost first = out@;
    let ghost v = names_of(ws@);
    let mut i: usize = 0;
    assert(v.skip(0) =~= v);
    assert(first + spelt(v) =~= out@ + spelt(v.skip(0)));
    while i < ws.len()
        invariant
            i <= ws@.len(),
            v == names_of(ws@),
            first + spelt(v) == out@ + spelt(v.skip(i as int)),
        decreases ws@.len() - i,
    {
        let ghost before = out@;
        out.extend_from_slice(ws[i].wire());
        out.push(0);
        proof {
            let w = ws@[i as int]@;
            assert(v.skip(i as int)[0] == w);
            assert(v.skip(i as int).drop_first() =~= v.skip(i + 1));
            assert(out@ =~= before + w.push(0));
            assert(before + (w.push(0) + spelt(v.skip(i + 1))) =~= out@ + spelt(v.skip(i + 1)));
        }
        i = i + 1;
    }
    assert(v.skip(i as int) =~= Seq::<Seq<u8>>::empty());
    assert(out@ + spelt(v.skip(i as int)) =~= out@);
}

/// Reads `n` bytes of data that are written at `at`.
fn read_data(b: &[u8], at: usize, n: usize, rtype: u16, named: bool) -> (r: Option<(Vec<u8>, usize)>)
    requires
        at <= b@.len(),
    ensures
        match r {
            Some((d, p)) => p <= b@.len() && data_at(b@, at as int, n as int, rtype, named) == Some((d@, p as int)),
            None => data_at(b@, at as int, n as int, rtype, named) is None,
        },
{
    if !named {
        if b.len() - at < n {
            return None;
        }
        return Some((copy_bytes(slice_subrange(b, at, at + n)), at + n));
    }
    let (k, m) = match shaped(rtype) {
        None => {
            return None;
        },
        Some(x) => x,
    };
    if b.len() - at < k {
        assert(labels_at(b@, at + k, at + k) is None);
        return None;
    }
    let (ws, p) = match read_names(b, at + k, m, false) {
        None => {
            return None;
        },
        Some(x) => x,
    };
    let mut data = copy_bytes(slice_subrange(b, at, at + k));
    spell(&mut data, &ws);
    if n < data.len() {
        return None;
    }
    let left: usize = n - data.len();
    if b.len() - p < left {
        return None;
    }
    data.extend_from_slice(slice_subrange(b, p, p + left));
    assert(data@ =~= b@.subrange(at as int, at + k) + spelt(names_of(ws@)) + b@.subrange(p as int, p + left));
    Some((data, p + left))
}

/// Reads the record at `at`.
fn read_record(b: &[u8], at: usize, qname: &Option<Name>, recent: &Recent) -> (r: Option<(Record, usize)>)
    requires
        at <= b@.len(),
    ensures
        match r {
            Some((x, p)) => p <= b@.len() && record_at(b@, at as int, name_of(*qname), recent@) == Some((x@, p as int)),
            None => record_at(b@, at as int, name_of(*qname), recent@) is None,
        },
{
    let (name, p) = match read_owner(b, at, qname, recent) {
        None => {
            return None;
        },
        Some(x) => x,
    };
    if b.len() - p < 10 {
        return None;
    }
    let rtype = read16(b, p);
    let n = read16(b, p + 8);
    match read_data(b, p + 10, n as usize, rtype, b[at] >= 4) {
        None => None,
        Some((data, end)) => {
            let ttl: u32 = (read16(b, p + 4) as u32) * 65536 + read16(b, p + 6) as u32;
            Some((Record { name, rtype, class: read16(b, p + 2), ttl, data }, end))
        },
    }
}

/// `rs` before the records that follow.
spec fn records_behind(rs: Seq<RecordV>, r: Option<(Seq<RecordV>, int)>) -> Option<(Seq<RecordV>, int)> {
    match r {
        Some((x, end)) => Some((rs + x, end)),
        None => None,
    }
}

/// Reads `n` records.
fn read_records(b: &[u8], start: usize, n: u32, qname: &Option<Name>) -> (r: Option<(Vec<Record>, usize)>)
    requires
        start <= b@.len(),
    ensures
        match r {
            Some((s, p)) => p <= b@.len() && s@.len() == n && records_at(
                b@,
                start as int,
                n as nat,
                name_of(*qname),
                none_seen(),
            ) == Some((records_of(s@), p as int)),
            None => records_at(b@, start as int, n as nat, name_of(*qname), none_seen()) is None,
        },
{
    let ghost q = name_of(*qname);
    let ghost want = records_at(b@, start as int, n as nat, q, none_seen());
    let mut out: Vec<Record> = Vec::new();
    let mut recent = Recent { owner: None, target: None };
    let mut at: usize = start;
    let mut i: u32 = 0;
    proof {
        if let Some((x, _)) = want {
            assert(records_of(out@) + x =~= x);
        }
    }
    while i < n
        invariant
            i <= n,
            out@.len() == i,
            at <= b@.len(),
            q == name_of(*qname),
            want == records_behind(records_of(out@), records_at(b@, at as int, (n - i) as nat, q, recent@)),
            want == records_at(b@, start as int, n as nat, q, none_seen()),
        decreases n - i,
    {
        let ghost before = records_of(out@);
        match read_record(b, at, qname, &recent) {
            None => {
                return None;
            },
            Some((x, p)) => {
                let ghost v = x@;
                recent.saw(&x);
                out.push(x);
                proof {
                    assert(records_of(out@) =~= before.push(v));
                    if let Some((y, _)) = records_at(b@, p as int, (n - i - 1) as nat, q, saw(v)) {
                        assert(before + (seq![v] + y) =~= before.push(v) + y);
                    }
                }
                at = p;
            },
        }
        i = i + 1;
    }
    assert(records_of(out@) + Seq::<RecordV>::empty() =~= records_of(out@));
    Some((out, at))
}

impl Packed {
    /// Rebuilds the message that was packed, or `None` where the bytes do not
    /// decode.
    pub fn unpack(&self) -> (r: Option<Message>)
        ensures
            match (r, unpacked(self@)) {
                (Some(m), Some(v)) => m@ == v,
                (None, None) => true,
                _ => false,
            },
    {
        let b: &[u8] = &self.bytes;
        let (queries, at) = match read_queries(b, self.queries) {
            None => {
                return None;
            },
            Some(x) => x,
        };
        let qname = if queries.len() > 0 {
            Some(queries[0].name.copy())
        } else {
            None
        };
        assert(name_of(qname) == first_name(queries_of(queries@)));
        let n: u32 = self.answers as u32 + self.authorities as u32 + self.additionals as u32;
        let (mut answers, end) = match read_records(b, at, n, &qname) {
            None => {
                return None;
            },
            Some(x) => x,
        };
        let ghost rs = records_of(answers@);
        let mut authorities = answers.split_off(self.answers as usize);
        let additionals = authorities.split_off(self.authorities as usize);
        let edns = match self.edns {
            None => None,
            Some(head) => {
                if b.len() - end > 0xffff {
                    return None;
                }
                let options = copy_bytes(slice_subrange(b, end, b.len()));
                assert(options@ =~= b@.skip(end as int));
                Some(Edns { head, options })
            },
        };
        let m = Message { metadata: self.header(), queries, answers, authorities, additionals, edns, signed: false };
        proof {
            let na = self.answers as int;
            let nu = self.authorities as int;
            assert(m@.answers =~= rs.take(na));
            assert(m@.authorities =~= rs.subrange(na, na + nu));
            assert(m@.additionals =~= rs.skip(na + nu));
            assert(m@ =~= unpacked(self@)->0);
        }
        Some(m)
    }
}

} // verus!
