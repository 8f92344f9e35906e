//! What a client is told and what is thought of it, in terms of what it sent.

use vstd::prelude::*;

use crate::doq::{query_in, stream_came_to};
use crate::laws::text::{alike, law_alike, law_lower, law_stripping};
use crate::server::access::client_id;
use crate::server::answer::{code_of, comes_to as answered, ends, law_request_ends, Answer, Course, Resolved};
use crate::server::conduct::{comes_to, is_due, reading, tally_of, Conduct};
use crate::server::names::{named, plain_name, NameErrorV};
use crate::server::share::{in_bounds, Share};
use crate::server::stream::{announced, framed, fresh, happens, Came, First, Sending, StreamV};
use crate::text::lower;

verus! {

/// A server name is compared without regard to case and to dots at its end.
pub proof fn law_plain_name(s: Seq<char>, t: Seq<char>, n: nat, m: nat)
    requires
        s.len() > 0 ==> s[0] != '.' && s.last() != '.',
        t.len() > 0 ==> t[0] != '.' && t.last() != '.',
    ensures
        (plain_name(s + Seq::new(n, |i: int| '.')) == plain_name(t + Seq::new(m, |i: int| '.'))) == alike(s, t),
        plain_name(s + Seq::new(n, |i: int| '.')).len() == s.len(),
        plain_name(s) == plain_name(s + Seq::new(n, |i: int| '.')),
{
    law_stripping(s, '.', n);
    law_stripping(t, '.', m);
    law_stripping(s, '.', 0);
    assert(s + Seq::new(0nat, |i: int| '.') =~= s);
    law_alike(s, t);
    law_lower(s);
}

/// Where a server has a name, one label before it is the client's ClientID:
/// read in lower case if it can be one, and refused, whether or not the check
/// is strict, if it cannot. The name itself carries none.
pub proof fn law_label_is_the_id(host: Seq<char>, label: Seq<char>, strict: bool)
    requires
        host.len() > 0,
        host[0] != '.' && host.last() != '.',
        label.len() > 0,
        !label.contains('.'),
    ensures
        named(host, Some(label + seq!['.'] + host), strict) == if client_id(lower(label)) {
            Ok::<Option<Seq<char>>, NameErrorV>(Some(lower(label)))
        } else {
            Err(NameErrorV::InvalidClientId(lower(label)))
        },
        named(host, Some(host), strict) == Ok::<Option<Seq<char>>, NameErrorV>(None),
{
    let sent = label + seq!['.'] + host;
    let dots = Seq::new(0nat, |i: int| '.');
    assert(label[0] != '.') by {
        assert(label.contains(label[0]));
    }
    assert(sent.last() == host.last());
    law_stripping(sent, '.', 0);
    assert(sent + dots =~= sent);
    law_stripping(host, '.', 0);
    assert(host + dots =~= host);
    law_lower(sent);
    law_lower(host);
    law_lower(label);
    let p = plain_name(sent);
    let h = plain_name(host);
    let n = p.len() - h.len() - 1;
    assert(n == label.len());
    assert(p.skip(n) =~= seq!['.'] + h) by {
        assert forall|i: int| 0 <= i < h.len() + 1 implies #[trigger] p.skip(n)[i] == (seq!['.'] + h)[i] by {
            assert(p[n + i] as int == lower(sent)[n + i] as int);
            if i > 0 {
                assert(sent[n + i] == host[i - 1]);
                assert(lower(host)[i - 1] == lower(host)[i - 1]);
            } else {
                assert(sent[n] == '.');
            }
        }
    }
    assert(p.take(n) =~= lower(label)) by {
        assert forall|i: int| 0 <= i < n implies #[trigger] p.take(n)[i] == lower(label)[i] by {
            assert(sent[i] == label[i]);
            assert(lower(sent)[i] == lower(sent)[i]);
        }
    }
    assert(!lower(label).contains('.')) by {
        if lower(label).contains('.') {
            let i = lower(label).index_of('.');
            assert(lower(label)[i] == '.');
            assert(label.contains(label[i]));
        }
    }
}

/// With no name of its own a server reads nothing and refuses nothing. A name
/// that is neither the server's nor one label before it says nothing of the
/// client, and under a strict check is refused, in the words it was sent in.
pub proof fn law_other_names(host: Seq<char>, sent: Seq<char>, strict: bool)
    ensures
        host.len() == 0 ==> named(host, Some(sent), strict) == Ok::<Option<Seq<char>>, NameErrorV>(None),
        host.len() == 0 ==> named(host, None, strict) == Ok::<Option<Seq<char>>, NameErrorV>(None),
        host.len() > 0 && plain_name(sent).len() <= plain_name(host).len() && plain_name(sent) != plain_name(host)
            ==> named(host, Some(sent), true) == Err::<Option<Seq<char>>, NameErrorV>(NameErrorV::Mismatch(sent, host))
            && named(host, Some(sent), false) == Ok::<Option<Seq<char>>, NameErrorV>(None),
        ({
            let p = plain_name(sent);
            let h = plain_name(host);
            let n = p.len() - h.len() - 1;
            host.len() > 0 && n > 0 && (p[n] != '.' || p.skip(n + 1) != h || p.take(n).contains('.')) ==> named(
                host,
                Some(sent),
                true,
            ) == Err::<Option<Seq<char>>, NameErrorV>(NameErrorV::Mismatch(sent, host)) && named(host, Some(sent), false)
                == Ok::<Option<Seq<char>>, NameErrorV>(None)
        }),
{
    let p = plain_name(sent);
    let h = plain_name(host);
    let n = p.len() - h.len() - 1;
    if n > 0 && p.skip(n) == seq!['.'] + h {
        assert(p[n] == p.skip(n)[0]);
        assert(p.skip(n + 1) =~= p.skip(n).skip(1));
        assert((seq!['.'] + h).skip(1) =~= h);
    }
}

/// A warning is said the first time it comes up, and again from a minute
/// after it was last said, not before.
pub proof fn law_throttle(first: u64, later: u64)
    requires
        first <= later < u64::MAX - 1,
    ensures
        is_due(0, later),
        is_due(reading(first) as u64, later) == (later - first >= 60),
        reading(first) > 0,
{
}

/// How many questions counted in all.
pub open spec fn served_in(cs: Seq<Conduct>) -> nat
    decreases cs.len(),
{
    if cs.len() == 0 {
        0
    } else {
        served_in(cs.drop_last()) + match cs.last() {
            Conduct::Served(n) => n as nat,
            _ => 0,
        }
    }
}

/// What a connection came to: as many answers as its questions that counted,
/// all together; where none did, busy if one of them was turned away for
/// that, and wasted if none was.
pub proof fn law_tally(cs: Seq<Conduct>)
    ensures
        served_in(cs) > 0 ==> comes_to(tally_of(cs)) == Conduct::Served(
            if served_in(cs) > 0xffff_ffff {
                0xffff_ffff
            } else {
                served_in(cs) as u32
            },
        ),
        served_in(cs) == 0 && (exists|i: int| 0 <= i < cs.len() && #[trigger] cs[i] is Busy) ==> comes_to(tally_of(cs)) is Busy,
        served_in(cs) == 0 && !(exists|i: int| 0 <= i < cs.len() && #[trigger] cs[i] is Busy) ==> comes_to(
            tally_of(cs),
        ) is Wasted,
{
    lemma_tally(cs);
}

proof fn lemma_tally(cs: Seq<Conduct>)
    ensures
        tally_of(cs).counted == if served_in(cs) > u32::MAX {
            u32::MAX as int
        } else {
            served_in(cs) as int
        },
        tally_of(cs).busy == (exists|i: int| 0 <= i < cs.len() && #[trigger] cs[i] is Busy),
    decreases cs.len(),
{
    if cs.len() > 0 {
        let d = cs.drop_last();
        lemma_tally(d);
        assert(cs[cs.len() - 1] == cs.last());
        if exists|i: int| 0 <= i < d.len() && #[trigger] d[i] is Busy {
            let i = choose|i: int| 0 <= i < d.len() && #[trigger] d[i] is Busy;
            assert(cs[i] is Busy);
        }
        if exists|i: int| 0 <= i < cs.len() && #[trigger] cs[i] is Busy {
            let i = choose|i: int| 0 <= i < cs.len() && #[trigger] cs[i] is Busy;
            if i < d.len() {
                assert(d[i] is Busy);
            }
        }
    }
}

/// When a connection ends and as what. Closed before it sent anything, within
/// a second, it is silent; idle, closed later or failed, what its questions
/// came to; cut off within a message, or not taking its answer, wasted.
pub proof fn law_connection_ends(s: StreamV, secs: u64, nanos: u32)
    ensures
        ({
            let gone = Came::First(First::Gone(crate::probe::terms::Span { secs, nanos }));
            &&& !s.spoke && secs == 0 ==> happens(s, gone).1 == Some(Conduct::Silent)
            &&& s.spoke || secs > 0 ==> happens(s, gone).1 == Some(comes_to(s.tally))
            &&& happens(s, gone).0 == s
        }),
        happens(s, Came::First(First::Idle)) == (s, Some(comes_to(s.tally))),
        happens(s, Came::Message(None)).1 == Some(Conduct::Wasted),
        happens(s, Came::Message(Some(0))).1 == Some(comes_to(s.tally)),
        happens(s, Came::Sent(Sending::Failed)).1 == Some(comes_to(s.tally)),
        happens(s, Came::Sent(Sending::Blocked)).1 == Some(Conduct::Wasted),
        happens(s, Came::First(First::Byte)) == (StreamV { spoke: true, ..s }, None::<Conduct>),
{
}

/// What a question adds. An answer counts once it is written, if it counts; a
/// question that was turned away is noted as that at once; and a question that
/// has no answer to send, or one too long for the frame, ends the connection.
pub proof fn law_question(s: StreamV, busy: bool, counts: bool, len: nat, n: nat)
    requires
        n > 0,
    ensures
        happens(s, Came::Message(Some(n))) == (s, None::<Conduct>),
        ({
            let (after, end) = happens(s, Came::Answered { busy, counts, len: Some(len) });
            &&& end is None == (len < 65536)
            &&& after.tally.busy == (s.tally.busy || busy)
            &&& after.tally.counted == s.tally.counted
            &&& after.spoke == s.spoke
            &&& ({
                let (sent, on) = happens(after, Came::Sent(Sending::Done));
                &&& on is None
                &&& sent.tally.busy == after.tally.busy
                &&& s.tally.counted < u32::MAX ==> sent.tally.counted == s.tally.counted + if counts {
                    1int
                } else {
                    0int
                }
            })
        }),
        happens(s, Came::Answered { busy, counts, len: None }).1 is Some,
{
}

/// A frame is the length of its message, high byte first, and the message.
pub proof fn law_frame(m: Seq<u8>)
    requires
        m.len() < 65536,
    ensures
        framed(m).len() == m.len() + 2,
        256 * framed(m)[0] + framed(m)[1] == m.len(),
        forall|i: int| 0 <= i < m.len() ==> #[trigger] framed(m)[i + 2] == m[i],
        announced(framed(m)[0], framed(m)[1]) == m.len(),
{
}

/// What a QUIC stream carries is read as far as it was announced: what comes
/// after is ignored, and an empty message, or one that stops short, is none.
pub proof fn law_stream_query(m: Seq<u8>, more: Seq<u8>, cut: int)
    requires
        0 < m.len() < 65536,
        0 <= cut < m.len() + 2,
    ensures
        query_in(framed(m) + more) == Some(m),
        query_in(framed(m).take(cut)) is None,
        query_in(framed(Seq::empty()) + more) is None,
{
    let b = framed(m) + more;
    assert(b[0] == framed(m)[0] && b[1] == framed(m)[1]);
    assert(b.subrange(2, 2 + m.len() as int) =~= m);
    let c = framed(m).take(cut);
    if cut >= 2 {
        assert(c[0] == framed(m)[0] && c[1] == framed(m)[1]);
    }
    let e = framed(Seq::empty()) + more;
    assert(e[0] == 0 && e[1] == 0);
}

/// A QUIC stream is served only where an answer that counts was sent, busy
/// only where it was turned away for that, and wasted otherwise.
pub proof fn law_stream_outcome(busy: bool, counts: bool, sent: bool)
    ensures
        stream_came_to(busy, true, true) == Conduct::Served(1),
        stream_came_to(true, counts, false) is Busy,
        stream_came_to(true, false, sent) is Busy,
        stream_came_to(false, counts, false) is Wasted,
        stream_came_to(false, false, sent) is Wasted,
{
}

/// What becomes of a request. One that may not ask is refused on a connection
/// and dropped as a datagram; so is one that the limiter holds back, or whose
/// bytes are no message. On a connection it waits for a seat and for a worker,
/// and is told of an overload where either does not come; as a datagram it
/// waits for a worker only where there is room to wait, and is dropped where
/// there is none or none comes. All others are resolved.
pub proof fn law_course(c: Course)
    ensures
        !c.permitted ==> ends(false, c) is Refuse && ends(true, c) is Drop,
        c.permitted && !c.decodes ==> ends(false, c) is Drop && ends(true, c) is Drop,
        c.permitted && !c.allowed ==> ends(true, c) is Drop,
        c.permitted && c.decodes && !c.seat ==> ends(false, c) is Overload,
        c.permitted && c.decodes && c.seat ==> {
            &&& c.tried is Got ==> ends(false, c) is Resolve
            &&& c.tried is Closed ==> ends(false, c) is Drop
            &&& c.tried is Taken && c.waited is Got ==> ends(false, c) is Resolve
            &&& c.tried is Taken && c.waited is Closed ==> ends(false, c) is Drop
            &&& c.tried is Taken && c.waited is TimedOut ==> ends(false, c) is Overload
        },
        c.permitted && c.decodes && c.allowed ==> {
            &&& c.tried is Got ==> ends(true, c) is Resolve
            &&& c.tried is Closed ==> ends(true, c) is Drop
            &&& c.tried is Taken && !c.room ==> ends(true, c) is DropBusy
            &&& c.tried is Taken && c.room && c.waited is Got ==> ends(true, c) is Resolve
            &&& c.tried is Taken && c.room && c.waited is Closed ==> ends(true, c) is Drop
            &&& c.tried is Taken && c.room && c.waited is TimedOut ==> ends(true, c) is DropBusy
        },
        code_of(ends(false, c)) == if !c.permitted {
            Some(5u16)
        } else if c.decodes && (!c.seat || c.tried is Taken && c.waited is TimedOut) {
            Some(2u16)
        } else {
            None
        },
        code_of(ends(true, c)) is None,
{
}

/// What is sent back, and what it is taken for. A client that may not ask is
/// sent the refusal if its bytes are a message; one that ran into a bound on
/// a connection the failure; and one that was resolved what the resolver says,
/// which counts unless it was blocked for its host, or says that the question
/// was malformed or of a kind not served.
pub proof fn law_answer(c: Course, reply: Option<Vec<u8>>, o: Resolved)
    ensures
        !c.permitted && c.decodes ==> answered(false, c, reply, o) == (Answer { bytes: reply, counts: false, busy: false }),
        !c.permitted && !c.decodes ==> answered(false, c, reply, o).bytes is None,
        !c.permitted ==> answered(true, c, reply, o) == (Answer { bytes: None, counts: false, busy: false }),
        ends(false, c) is Overload ==> answered(false, c, reply, o) == (Answer { bytes: reply, counts: false, busy: true }),
        ends(true, c) is DropBusy ==> answered(true, c, reply, o) == (Answer { bytes: None, counts: false, busy: true }),
        ends(false, c) is Drop ==> answered(false, c, reply, o) == (Answer { bytes: None, counts: false, busy: false }),
        ends(true, c) is Drop ==> answered(true, c, reply, o) == (Answer { bytes: None, counts: false, busy: false }),
        forall|datagram: bool| #[trigger]
            ends(datagram, c) is Resolve ==> {
                &&& o is Dropped ==> answered(datagram, c, reply, o) == (Answer { bytes: None, counts: false, busy: false })
                &&& o matches Resolved::Responded { reply: said, blocked_host, code } ==> {
                    let a = answered(datagram, c, reply, o);
                    &&& a.bytes == said
                    &&& !a.busy
                    &&& said is None || blocked_host || code == 1 || code == 4 ==> !a.counts
                    &&& said is Some && !blocked_host && code != 1 && code != 4 ==> a.counts
                }
            },
{
    law_request_ends(false, c);
    law_request_ends(true, c);
}

/// A source has at most 32 questions with a worker, and no more than it has
/// in hand.
pub proof fn law_share(s: Share)
    requires
        in_bounds(s),
    ensures
        s.taken <= 32,
        s.taken <= s.holders,
        s.holders >= 1,
{
}

/// A stream begins with nothing sent, nothing counted and nothing turned away.
pub proof fn law_fresh_stream()
    ensures
        !fresh().spoke,
        !fresh().counts,
        fresh().tally.counted == 0,
        !fresh().tally.busy,
{
}

} // verus!
