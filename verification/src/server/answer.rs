//! The way of one request, from its bytes to an answer.
//!
//! The waiting along the way is the caller's: for a slot, for a worker, for
//! the resolver. [`Step`] says what to do next, and each function here takes
//! what came of it and says what follows.

use hickory_proto::op::Message;
use hickory_proto::serialize::binary::BinDecodable;
use vstd::prelude::*;

use crate::ip::Ip;
use crate::server::access::{Access, permitted};
use crate::server::names::sent_text;

verus! {

/// The response code of a question that could not be read.
pub const FORM_ERR: u16 = 1;

/// The response code of a server that could not answer.
pub const SERV_FAIL: u16 = 2;

/// The response code of a question of an unsupported kind.
pub const NOT_IMP: u16 = 4;

/// The response code of a client that is refused.
pub const REFUSED: u16 = 5;

/// Whether bytes decode as a DNS message.
pub uninterp spec fn decodes(wire: Seq<u8>) -> bool;

/// `Message::from_bytes` of hickory-proto: whether it reads a message from
/// `wire`, which rests on the bytes alone.
#[verifier::external_body]
pub(crate) fn is_message(wire: &[u8]) -> (r: bool)
    ensures
        r == decodes(wire@),
{
    Message::from_bytes(wire).is_ok()
}

/// What handling one request produced.
#[derive(Clone, Debug, PartialEq, Eq)]
pub struct Answer {
    /// The bytes to send back, if anything is to be sent.
    pub bytes: Option<Vec<u8>>,
    /// Whether the request was something a client of this server asks.
    pub counts: bool,
    /// Whether the request went unanswered because the server was busy.
    pub busy: bool,
}

impl Answer {
    /// An answer counts only where there is one, and never where the server
    /// was busy.
    pub open spec fn wf(&self) -> bool {
        &&& self.counts ==> self.bytes is Some
        &&& self.counts ==> !self.busy
    }

    /// Nothing to send, and nothing asked.
    pub fn nothing() -> (r: Self)
        ensures
            r == (Answer { bytes: None, counts: false, busy: false }),
            r.wf(),
    {
        Answer { bytes: None, counts: false, busy: false }
    }

    /// Nothing to send, because the server was too busy to answer.
    pub fn dropped_busy() -> (r: Self)
        ensures
            r == (Answer { bytes: None, counts: false, busy: true }),
            r.wf(),
    {
        Answer { bytes: None, counts: false, busy: true }
    }

    /// `SERVFAIL` to a request that was not answered, which does not count as
    /// having been served. `reply` is the encoded failure. Nothing is sent
    /// when the request is not a DNS message.
    pub fn servfail(wire: &[u8], reply: Option<Vec<u8>>) -> (r: Self)
        ensures
            r == (Answer {
                bytes: if decodes(wire@) {
                    reply
                } else {
                    None
                },
                counts: false,
                busy: false,
            }),
            r.wf(),
    {
        if is_message(wire) {
            Self::failure(reply)
        } else {
            Self::nothing()
        }
    }

    /// A reply that tells the client no more than that it was not served.
    pub fn failure(reply: Option<Vec<u8>>) -> (r: Self)
        ensures
            r == (Answer { bytes: reply, counts: false, busy: false }),
            r.wf(),
    {
        Answer { bytes: reply, counts: false, busy: false }
    }

    /// A failure that the server's being busy has caused.
    pub fn overloaded(reply: Option<Vec<u8>>) -> (r: Self)
        ensures
            r == (Answer { bytes: reply, counts: false, busy: true }),
            r.wf(),
    {
        Answer { bytes: reply, counts: false, busy: true }
    }

    /// What the resolver answered, as encoded. It counts where there are
    /// bytes to send, the name asked for is not one that is refused outright,
    /// and the question was neither malformed nor unsupported.
    pub fn resolved(reply: Option<Vec<u8>>, blocked_host: bool, code: u16) -> (r: Self)
        ensures
            r == (Answer {
                bytes: reply,
                counts: reply is Some && !blocked_host && code != FORM_ERR && code != NOT_IMP,
                busy: false,
            }),
            r.wf(),
    {
        let counts = reply.is_some() && !blocked_host && code != FORM_ERR && code != NOT_IMP;
        Answer { bytes: reply, counts, busy: false }
    }
}

/// What to do next with a request.
#[derive(Clone, Copy, Debug, PartialEq, Eq, Structural)]
pub enum Step {
    /// Ask the rate limiter about the client.
    AskLimiter,
    /// Wait for one of the source's slots.
    TakeSeat,
    /// Try for a worker.
    TryWorker,
    /// Enter the room where datagrams wait.
    EnterRoom,
    /// Wait for a worker.
    AwaitWorker,
    /// Hand the request to the resolver.
    Resolve,
    /// Tell the client that it is refused.
    Refuse,
    /// Answer `SERVFAIL`, because the server is busy.
    Overload,
    /// Send nothing.
    Drop,
    /// Send nothing, because the server is busy.
    DropBusy,
}

/// What came of trying for a worker.
#[derive(Clone, Copy, Debug, PartialEq, Eq, Structural)]
pub enum Tried {
    /// There is no bound, or one came at once.
    Got,
    /// The server is going down.
    Closed,
    /// Every worker is taken.
    Taken,
}

/// What came of waiting for a worker.
#[derive(Clone, Copy, Debug, PartialEq, Eq, Structural)]
pub enum Waited {
    /// One came free.
    Got,
    /// The server is going down.
    Closed,
    /// None came free in time.
    TimedOut,
}

/// What the outside says along the way of one request.
pub struct Course {
    /// Whether the client may query.
    pub permitted: bool,
    /// Whether the rate limiter lets it.
    pub allowed: bool,
    /// Whether the bytes are a DNS message.
    pub decodes: bool,
    /// Whether the source had a slot.
    pub seat: bool,
    /// What came of trying for a worker.
    pub tried: Tried,
    /// Whether there was room to wait.
    pub room: bool,
    /// What came of waiting for one.
    pub waited: Waited,
}

/// Where a request ends, over a datagram transport or a stream.
pub open spec fn ends(datagram: bool, c: Course) -> Step {
    if !c.permitted {
        if datagram {
            Step::Drop
        } else {
            Step::Refuse
        }
    } else if datagram && !c.allowed || !c.decodes {
        Step::Drop
    } else if !datagram && !c.seat {
        Step::Overload
    } else {
        match (c.tried, c.waited) {
            (Tried::Got, _) => Step::Resolve,
            (Tried::Closed, _) => Step::Drop,
            (Tried::Taken, _) if datagram && !c.room => Step::DropBusy,
            (Tried::Taken, Waited::Got) => Step::Resolve,
            (Tried::Taken, Waited::Closed) => Step::Drop,
            (Tried::Taken, Waited::TimedOut) => if datagram {
                Step::DropBusy
            } else {
                Step::Overload
            },
        }
    }
}

/// What follows a step, by what came of it.
pub open spec fn follows(datagram: bool, at: Step, c: Course) -> Step {
    match at {
        Step::AskLimiter => if c.allowed && c.decodes {
            Step::TryWorker
        } else {
            Step::Drop
        },
        Step::TakeSeat => if c.seat {
            Step::TryWorker
        } else {
            Step::Overload
        },
        Step::TryWorker => match c.tried {
            Tried::Got => Step::Resolve,
            Tried::Closed => Step::Drop,
            Tried::Taken => if datagram {
                Step::EnterRoom
            } else {
                Step::AwaitWorker
            },
        },
        Step::EnterRoom => if c.room {
            Step::AwaitWorker
        } else {
            Step::DropBusy
        },
        Step::AwaitWorker => match c.waited {
            Waited::Got => Step::Resolve,
            Waited::Closed => Step::Drop,
            Waited::TimedOut => if datagram {
                Step::DropBusy
            } else {
                Step::Overload
            },
        },
        _ => at,
    }
}

/// The first step of a request.
pub open spec fn starts_with(datagram: bool, c: Course) -> Step {
    if !c.permitted {
        if datagram {
            Step::Drop
        } else {
            Step::Refuse
        }
    } else if datagram {
        Step::AskLimiter
    } else if c.decodes {
        Step::TakeSeat
    } else {
        Step::Drop
    }
}

/// The step a request is at after `n` steps.
pub open spec fn after(datagram: bool, c: Course, n: nat) -> Step
    decreases n,
{
    if n == 0 {
        starts_with(datagram, c)
    } else {
        follows(datagram, after(datagram, c, (n - 1) as nat), c)
    }
}

/// Step by step, a request ends where [`ends`] says: within four steps, and
/// it stays there.
pub proof fn law_request_ends(datagram: bool, c: Course)
    ensures
        after(datagram, c, 4) == ends(datagram, c),
        follows(datagram, ends(datagram, c), c) == ends(datagram, c),
{
    reveal_with_fuel(after, 5);
}

/// A client whose query arrived on a connection always hears something where
/// its bytes are a query and the server is not going down: a refusal, a
/// failure or what the resolver says.
pub proof fn law_a_connection_hears(c: Course)
    requires
        c.decodes,
        c.tried !is Closed,
        c.waited !is Closed,
    ensures
        ends(false, c) is Refuse || ends(false, c) is Overload || ends(false, c) is Resolve,
{
}

/// A datagram is answered by the resolver or not at all, so that a forged
/// source is sent nothing else.
pub proof fn law_a_datagram_is_resolved_or_dropped(c: Course)
    ensures
        ends(true, c) is Resolve || ends(true, c) is Drop || ends(true, c) is DropBusy,
{
}

/// Only a request that a bound stopped ends as busy, and only one that no
/// bound stopped is resolved.
pub proof fn law_busy_means_a_bound(datagram: bool, c: Course)
    ensures
        ends(datagram, c) is Overload || ends(datagram, c) is DropBusy ==> c.permitted && c.decodes && (!c.seat
            || c.tried is Taken),
        ends(datagram, c) is Resolve ==> c.permitted && c.decodes && c.tried !is Closed,
{
}

/// Begins with a request: access control comes before anything is read, so
/// that a flood of malformed bytes costs as little as possible.
pub fn begin(access: &Access, ip: Ip, client_id: Option<&str>, datagram: bool, wire: &[u8]) -> (r: Step)
    ensures
        forall|c: Course|
            c.permitted == permitted(access.allowed@, access.disallowed@, ip, sent_text(client_id)) && c.decodes
                == decodes(wire@) ==> r == #[trigger] starts_with(datagram, c),
{
    if !access.permits(ip, client_id) {
        if datagram {
            return Step::Drop;
        }
        return Step::Refuse;
    }
    if datagram {
        return Step::AskLimiter;
    }
    if is_message(wire) {
        Step::TakeSeat
    } else {
        Step::Drop
    }
}

/// What follows [`Step::AskLimiter`]: the bytes are read only if the limiter
/// lets the client, and a datagram takes no slot of its source.
pub fn limited(allowed: bool, wire: &[u8]) -> (r: Step)
    ensures
        forall|c: Course|
            c.allowed == allowed && c.decodes == decodes(wire@) ==> r == #[trigger] follows(true, Step::AskLimiter, c),
{
    if allowed && is_message(wire) {
        Step::TryWorker
    } else {
        Step::Drop
    }
}

/// What follows [`Step::TakeSeat`].
pub fn seated(got: bool) -> (r: Step)
    ensures
        forall|c: Course| c.seat == got ==> r == #[trigger] follows(false, Step::TakeSeat, c),
{
    if got {
        Step::TryWorker
    } else {
        Step::Overload
    }
}

/// What follows [`Step::TryWorker`].
pub fn tried(datagram: bool, came: Tried) -> (r: Step)
    ensures
        forall|c: Course| c.tried == came ==> r == #[trigger] follows(datagram, Step::TryWorker, c),
{
    match came {
        Tried::Got => Step::Resolve,
        Tried::Closed => Step::Drop,
        Tried::Taken => if datagram {
            Step::EnterRoom
        } else {
            Step::AwaitWorker
        },
    }
}

/// What follows [`Step::EnterRoom`].
pub fn entered(room: bool) -> (r: Step)
    ensures
        forall|c: Course| c.room == room ==> r == #[trigger] follows(true, Step::EnterRoom, c),
{
    if room {
        Step::AwaitWorker
    } else {
        Step::DropBusy
    }
}

/// What follows [`Step::AwaitWorker`].
pub fn waited(datagram: bool, came: Waited) -> (r: Step)
    ensures
        forall|c: Course| c.waited == came ==> r == #[trigger] follows(datagram, Step::AwaitWorker, c),
{
    match came {
        Waited::Got => Step::Resolve,
        Waited::Closed => Step::Drop,
        Waited::TimedOut => if datagram {
            Step::DropBusy
        } else {
            Step::Overload
        },
    }
}

/// The response code that a request is answered with where it ends before the
/// resolver, or `None` where nothing is sent.
pub open spec fn code_of(at: Step) -> Option<u16> {
    match at {
        Step::Refuse => Some(REFUSED),
        Step::Overload => Some(SERV_FAIL),
        _ => None,
    }
}

/// The response code that a request is answered with where it ends before the
/// resolver: a refusal for a client that may not query, a failure where a
/// bound was reached, and nothing otherwise.
pub fn reply_code(at: Step) -> (r: Option<u16>)
    ensures
        r == code_of(at),
        at is Refuse ==> r == Some(5u16),
        at is Overload ==> r == Some(2u16),
        !(at is Refuse) && !(at is Overload) ==> r is None,
{
    match at {
        Step::Refuse => Some(REFUSED),
        Step::Overload => Some(SERV_FAIL),
        _ => None,
    }
}

/// On a connection, a client that may not query is told that it is refused,
/// and one that a bound stopped is told of a failure. A datagram is sent
/// neither.
pub proof fn law_codes(datagram: bool, c: Course)
    ensures
        !datagram && !c.permitted ==> code_of(ends(datagram, c)) == Some(REFUSED),
        !datagram && c.permitted && c.decodes && !c.seat ==> code_of(ends(datagram, c)) == Some(SERV_FAIL),
        !datagram && c.permitted && c.decodes && c.seat && c.tried is Taken && c.waited is TimedOut ==> code_of(
            ends(datagram, c),
        ) == Some(SERV_FAIL),
        datagram ==> code_of(ends(datagram, c)) is None,
{
}

/// The answer to a request that ended before the resolver, whose bytes are a
/// message where `decodes`.
pub open spec fn ending(at: Step, decodes: bool, reply: Option<Vec<u8>>) -> Answer {
    match at {
        Step::Refuse => Answer {
            bytes: if decodes {
                reply
            } else {
                None
            },
            counts: false,
            busy: false,
        },
        Step::Overload => Answer { bytes: reply, counts: false, busy: true },
        Step::DropBusy => Answer { bytes: None, counts: false, busy: true },
        _ => Answer { bytes: None, counts: false, busy: false },
    }
}

/// What the resolver made of a request.
#[derive(Clone, Debug)]
pub enum Resolved {
    /// It is not to be answered.
    Dropped,
    /// It is answered with these bytes, as far as the answer could be encoded.
    Responded { reply: Option<Vec<u8>>, blocked_host: bool, code: u16 },
}

/// The answer to a request that reached the resolver.
pub open spec fn resolution(o: Resolved) -> Answer {
    match o {
        Resolved::Dropped => Answer { bytes: None, counts: false, busy: false },
        Resolved::Responded { reply, blocked_host, code } => Answer {
            bytes: reply,
            counts: reply is Some && !blocked_host && code != FORM_ERR && code != NOT_IMP,
            busy: false,
        },
    }
}

/// The answer to a request that reached the resolver.
pub fn conclude(o: Resolved) -> (r: Answer)
    ensures
        r == resolution(o),
        r.wf(),
{
    match o {
        Resolved::Dropped => Answer::nothing(),
        Resolved::Responded { reply, blocked_host, code } => Answer::resolved(reply, blocked_host, code),
    }
}

/// What a request comes to, from its bytes to its answer: `reply` is the
/// refusal or failure it would be sent, and `o` what the resolver would make
/// of it.
pub open spec fn comes_to(datagram: bool, c: Course, reply: Option<Vec<u8>>, o: Resolved) -> Answer {
    let at = after(datagram, c, 4);
    if at is Resolve {
        resolution(o)
    } else {
        ending(at, c.decodes, reply)
    }
}

/// Whatever happens on the way, an answer counts only where there are bytes to
/// send and the server was not busy, and only where the resolver answered: a
/// client that may query, whose bytes are a message, with a code that is
/// neither of a malformed nor of an unsupported question, about a name that
/// is not refused outright.
pub proof fn law_what_counts(datagram: bool, c: Course, reply: Option<Vec<u8>>, o: Resolved)
    ensures
        ({
            let a = comes_to(datagram, c, reply, o);
            &&& a.counts ==> a.bytes is Some
            &&& !(a.counts && a.busy)
            &&& a.counts ==> ends(datagram, c) is Resolve && c.permitted && c.decodes
            &&& a.counts ==> (o matches Resolved::Responded { reply, blocked_host, code } && a.bytes == reply
                && !blocked_host && code != FORM_ERR && code != NOT_IMP)
            &&& a.busy ==> ends(datagram, c) is Overload || ends(datagram, c) is DropBusy
        }),
{
    law_request_ends(datagram, c);
}

/// The answer to a request that ended before the resolver. `reply` is the
/// encoded refusal or failure, with the code that [`reply_code`] gives. A
/// refused client whose bytes are no message is sent nothing.
pub fn finish(at: Step, wire: &[u8], reply: Option<Vec<u8>>) -> (r: Answer)
    requires
        at is Refuse || at is Overload || at is Drop || at is DropBusy,
    ensures
        r.wf(),
        r == ending(at, decodes(wire@), reply),
{
    match at {
        Step::Refuse => if is_message(wire) {
            Answer::failure(reply)
        } else {
            Answer::nothing()
        },
        Step::Overload => Answer::overloaded(reply),
        Step::DropBusy => Answer::dropped_busy(),
        _ => Answer::nothing(),
    }
}

} // verus!
