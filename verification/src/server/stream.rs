//! Queries on one stream: the framing, and how the stream is judged.

use vstd::prelude::*;

use crate::probe::terms::Span;
use crate::server::answer::Answer;
use crate::server::conduct::{Conduct, Tally, comes_to, tallied};

verus! {

/// The largest datagram the server will read, in bytes.
pub const UDP_BUF: usize = 4096;

/// Seconds a client may stay idle between queries on a stream.
pub const TCP_IDLE: u64 = 30;

/// Seconds the rest of a message may take once its first byte has arrived.
pub const MESSAGE_TIMEOUT: u64 = 5;

/// Seconds an answer may take to be written.
pub const WRITE_TIMEOUT: u64 = 10;

/// Seconds a TLS handshake may take.
pub const TLS_HANDSHAKE_TIMEOUT: u64 = 10;

/// Seconds after it opened within which a connection may close without
/// sending a byte and be charged nothing for it.
pub const SILENT_GRACE: u64 = 1;

/// Seconds a query over its source's share waits for a slot.
pub const IN_FLIGHT_WAIT: u64 = 1;

/// Seconds a query waits for a worker.
pub const WORKER_WAIT: u64 = 2;

/// Datagrams that may wait for a worker at once.
pub const UDP_WAITING: usize = 1024;

/// A message behind its length, which takes two bytes, the high one first.
pub open spec fn framed(m: Seq<u8>) -> Seq<u8> {
    seq![(m.len() / 256) as u8, (m.len() % 256) as u8] + m
}

/// The length that two bytes announce.
pub open spec fn announced(first: u8, second: u8) -> int {
    first * 256 + second
}

/// Puts a message behind its length, unless it is too long to have one.
pub fn frame(m: &[u8]) -> (r: Option<Vec<u8>>)
    ensures
        match r {
            Some(f) => m@.len() <= 0xffff && f@ == framed(m@),
            None => m@.len() > 0xffff,
        },
{
    let n: usize = m.len();
    if n > 0xffff {
        return None;
    }
    let mut out: Vec<u8> = Vec::new();
    out.push((n / 256) as u8);
    out.push((n % 256) as u8);
    out.extend_from_slice(m);
    assert(out@ =~= framed(m@));
    Some(out)
}

/// How many bytes a message has that begins with these two.
pub fn message_len(first: u8, second: u8) -> (r: u16)
    ensures
        r == announced(first, second),
{
    (first as u16) * 256 + (second as u16)
}

/// A message that was read as far as its announced length or the end of the
/// stream: itself where it is whole, and otherwise nothing.
pub fn read_message(first: u8, second: u8, wire: Vec<u8>) -> (r: Option<Vec<u8>>)
    ensures
        r == if wire@.len() == announced(first, second) {
            Some(wire)
        } else {
            None
        },
{
    if wire.len() == message_len(first, second) as usize {
        Some(wire)
    } else {
        None
    }
}

/// What is framed reads back: its first two bytes announce the message that
/// follows them.
pub proof fn law_frame_reads_back(m: Seq<u8>)
    requires
        m.len() <= 0xffff,
    ensures
        framed(m).len() == m.len() + 2,
        announced(framed(m)[0], framed(m)[1]) == m.len(),
        framed(m).skip(2) == m,
{
    assert(framed(m).skip(2) =~= m);
}

/// Whether a connection that ended before its first byte did so at once.
pub fn closed_at_once(ended: bool, since_opened: Span) -> (r: bool)
    ensures
        r == (ended && since_opened.secs < SILENT_GRACE),
{
    ended && since_opened.secs < SILENT_GRACE
}

/// What came of waiting for the first byte of a message.
#[derive(Clone, Copy, Debug, PartialEq, Eq, Structural)]
pub enum First {
    /// It came.
    Byte,
    /// The stream was closed or reset, this long after it opened.
    Gone(Span),
    /// Nothing came in time.
    Idle,
}

/// What came of sending an answer.
#[derive(Clone, Copy, Debug, PartialEq, Eq, Structural)]
pub enum Sending {
    /// It was written.
    Done,
    /// The stream failed.
    Failed,
    /// The client did not take it in time.
    Blocked,
}

/// Something that happens on a stream.
pub enum Came {
    /// The wait for a message's first byte ended.
    First(First),
    /// A whole message of this many bytes, or one that stalled.
    Message(Option<nat>),
    /// The answer to it.
    Answered { busy: bool, counts: bool, len: Option<nat> },
    /// The answer's sending ended.
    Sent(Sending),
}

/// A stream as it is judged.
pub ghost struct StreamV {
    /// What its questions have come to.
    pub tally: Tally,
    /// Whether it has sent a byte.
    pub spoke: bool,
    /// Whether the answer being sent counts.
    pub counts: bool,
}

/// A stream on which nothing has happened.
pub open spec fn fresh() -> StreamV {
    StreamV { tally: Tally { counted: 0, busy: false }, spoke: false, counts: false }
}

/// What becomes of a stream, and how it behaved where it is over.
pub open spec fn happens(s: StreamV, c: Came) -> (StreamV, Option<Conduct>) {
    match c {
        Came::First(First::Byte) => (StreamV { spoke: true, ..s }, None),
        Came::First(First::Gone(d)) if !s.spoke && d.secs < SILENT_GRACE => (s, Some(Conduct::Silent)),
        Came::First(_) => (s, Some(comes_to(s.tally))),
        Came::Message(None) => (s, Some(Conduct::Wasted)),
        Came::Message(Some(n)) => (
            s,
            if n == 0 {
                Some(comes_to(s.tally))
            } else {
                None
            },
        ),
        Came::Answered { busy, counts, len } => {
            let t = if busy {
                tallied(s.tally, Conduct::Busy)
            } else {
                s.tally
            };
            (
                StreamV { tally: t, counts, ..s },
                if len matches Some(n) && n <= 0xffff {
                    None
                } else {
                    Some(comes_to(t))
                },
            )
        },
        Came::Sent(Sending::Done) => (
            if s.counts {
                StreamV { tally: tallied(s.tally, Conduct::Served(1)), ..s }
            } else {
                s
            },
            None,
        ),
        Came::Sent(Sending::Failed) => (s, Some(comes_to(s.tally))),
        Came::Sent(Sending::Blocked) => (s, Some(Conduct::Wasted)),
    }
}

/// One stream and how it behaves.
#[derive(Clone, Copy, Debug)]
pub struct Stream {
    tally: Tally,
    spoke: bool,
    counts: bool,
}

impl Stream {
    /// The stream as it is judged.
    pub closed spec fn view(&self) -> StreamV {
        StreamV { tally: self.tally, spoke: self.spoke, counts: self.counts }
    }

    /// A stream that has just opened.
    pub fn new() -> (r: Self)
        ensures
            r@ == fresh(),
    {
        Stream { tally: Tally { counted: 0, busy: false }, spoke: false, counts: false }
    }

    /// The wait for a message's first byte ended: the message follows, or the
    /// stream is over.
    pub fn first(&mut self, came: First) -> (r: Option<Conduct>)
        ensures
            (final(self)@, r) == happens(old(self)@, Came::First(came)),
    {
        match came {
            First::Byte => {
                self.spoke = true;
                None
            },
            First::Gone(d) => if !self.spoke && d.secs < SILENT_GRACE {
                Some(Conduct::Silent)
            } else {
                Some(self.tally.conduct())
            },
            First::Idle => Some(self.tally.conduct()),
        }
    }

    /// A whole message of `len` bytes came, or it stalled: it is to be
    /// answered, or the stream is over.
    pub fn message(&mut self, len: Option<usize>) -> (r: Option<Conduct>)
        ensures
            (final(self)@, r) == happens(
                old(self)@,
                Came::Message(
                    match len {
                        Some(n) => Some(n as nat),
                        None => None,
                    },
                ),
            ),
    {
        match len {
            None => Some(Conduct::Wasted),
            Some(n) => if n == 0 {
                Some(self.tally.conduct())
            } else {
                None
            },
        }
    }

    /// The message was answered: the framed bytes to send, or the stream is
    /// over. With nothing to send it closes, rather than leave the client
    /// waiting.
    pub fn answered(&mut self, a: &Answer) -> (r: Result<Vec<u8>, Conduct>)
        ensures
            ({
                let (s, over) = happens(
                    old(self)@,
                    Came::Answered {
                        busy: a.busy,
                        counts: a.counts,
                        len: match a.bytes {
                            Some(b) => Some(b@.len()),
                            None => None,
                        },
                    },
                );
                &&& final(self)@ == s
                &&& match r {
                    Ok(f) => over is None && f@ == framed(a.bytes->0@),
                    Err(c) => over == Some(c),
                }
            }),
    {
        if a.busy {
            self.tally.add(Conduct::Busy);
        }
        self.counts = a.counts;
        match &a.bytes {
            None => Err(self.tally.conduct()),
            Some(b) => match frame(b.as_slice()) {
                Some(f) => Ok(f),
                None => Err(self.tally.conduct()),
            },
        }
    }

    /// The answer was sent, or was not: the next message may come, or the
    /// stream is over. Only an answer that was sent counts.
    pub fn sent(&mut self, came: Sending) -> (r: Option<Conduct>)
        ensures
            (final(self)@, r) == happens(old(self)@, Came::Sent(came)),
    {
        match came {
            Sending::Done => {
                if self.counts {
                    self.tally.add(Conduct::Served(1));
                }
                None
            },
            Sending::Failed => Some(self.tally.conduct()),
            Sending::Blocked => Some(Conduct::Wasted),
        }
    }
}

/// A stream after some events, none of which ended it.
pub open spec fn lasts(cs: Seq<Came>) -> StreamV
    decreases cs.len(),
{
    if cs.len() == 0 {
        fresh()
    } else {
        happens(lasts(cs.drop_last()), cs.last()).0
    }
}

/// Whether an event is the first byte of a message.
pub open spec fn is_byte(c: Came) -> bool {
    c matches Came::First(First::Byte)
}

/// Whether an event turned a question away because the server was busy.
pub open spec fn is_busy(c: Came) -> bool {
    c matches Came::Answered { busy, .. } && busy
}

/// A stream that has sent a byte is never silent.
pub proof fn law_silent_sent_nothing(cs: Seq<Came>, c: Came)
    requires
        happens(lasts(cs), c).1 == Some(Conduct::Silent),
    ensures
        forall|i: int| 0 <= i < cs.len() ==> !is_byte(#[trigger] cs[i]),
{
    lemma_not_spoken(cs);
}

proof fn lemma_not_spoken(cs: Seq<Came>)
    ensures
        !lasts(cs).spoke ==> forall|i: int| 0 <= i < cs.len() ==> !is_byte(#[trigger] cs[i]),
    decreases cs.len(),
{
    if cs.len() > 0 {
        lemma_not_spoken(cs.drop_last());
        if !lasts(cs).spoke {
            assert forall|i: int| 0 <= i < cs.len() implies !is_byte(#[trigger] cs[i]) by {
                if i < cs.len() - 1 {
                    assert(cs.drop_last()[i] == cs[i]);
                }
            }
        }
    }
}

/// A stream that stalls has asked nothing, whatever it asked before.
pub proof fn law_stalling_asks_nothing(s: StreamV)
    ensures
        happens(s, Came::Message(None)).1 == Some(Conduct::Wasted),
        happens(s, Came::Sent(Sending::Blocked)).1 == Some(Conduct::Wasted),
{
}

/// A stream that was turned away while the server was busy, and then closed
/// or went idle, is not held against its source.
pub proof fn law_busy_stream_is_not_charged(cs: Seq<Came>, i: int, over: First)
    requires
        0 <= i < cs.len(),
        is_busy(cs[i]),
        over !is Byte,
    ensures
        happens(lasts(cs), Came::First(over)).1->0 !is Wasted,
{
    lemma_busy_stays(cs, i);
}

proof fn lemma_busy_stays(cs: Seq<Came>, i: int)
    requires
        0 <= i < cs.len(),
        is_busy(cs[i]),
    ensures
        lasts(cs).tally.busy,
    decreases cs.len(),
{
    if i < cs.len() - 1 {
        lemma_busy_stays(cs.drop_last(), i);
    }
}

} // verus!
