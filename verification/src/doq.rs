//! Queries over QUIC: one to a stream, framed as on TCP.

use vstd::prelude::*;
use vstd::slice::slice_subrange;

use crate::server::answer::Answer;
use crate::server::conduct::Conduct;
use crate::server::stream::{announced, frame, framed, law_frame_reads_back, message_len};

verus! {

/// The largest query that is read from a stream, in bytes.
pub const MAX_MSG: usize = 65_536;

/// The most streams a single connection may have open at once.
pub const MAX_CONCURRENT_STREAMS: u32 = 64;

/// What a peer may send on one stream before it has to wait for it to be
/// read: one whole query, length prefix included.
pub const STREAM_RECEIVE_WINDOW: u32 = 66_000;

/// Seconds a stream may take to deliver its query once opened.
pub const READ_TIMEOUT: u64 = 5;

/// Seconds an answer may take to be written to a stream.
pub const WRITE_TIMEOUT: u64 = 10;

/// The query that a stream carried, or `None` where it announced an empty one
/// or fell short of what it announced. What follows the query is ignored.
pub open spec fn query_in(b: Seq<u8>) -> Option<Seq<u8>> {
    if b.len() < 2 {
        None
    } else {
        let n = announced(b[0], b[1]);
        if n == 0 || b.len() < 2 + n {
            None
        } else {
            Some(b.subrange(2, 2 + n))
        }
    }
}

/// The query that a stream carried.
pub fn query_of<'a>(b: &'a [u8]) -> (r: Option<&'a [u8]>)
    ensures
        match (r, query_in(b@)) {
            (Some(q), Some(v)) => q@ == v,
            (None, None) => true,
            _ => false,
        },
{
    if b.len() < 2 {
        return None;
    }
    let n: usize = message_len(b[0], b[1]) as usize;
    if n == 0 || b.len() - 2 < n {
        return None;
    }
    Some(slice_subrange(b, 2, 2 + n))
}

/// What a client frames and sends, the server reads.
pub proof fn law_framed_query_is_read(m: Seq<u8>)
    requires
        0 < m.len() <= 0xffff,
    ensures
        query_in(framed(m)) == Some(m),
{
    law_frame_reads_back(m);
    assert(framed(m).subrange(2, 2 + m.len() as int) =~= m);
}

/// The bytes to send on a stream, if anything is to be sent.
pub fn to_send(a: &Answer) -> (r: Option<Vec<u8>>)
    ensures
        match r {
            Some(f) => a.bytes is Some && a.bytes->0@.len() <= 0xffff && f@ == framed(a.bytes->0@),
            None => a.bytes is None || a.bytes->0@.len() > 0xffff,
        },
{
    match &a.bytes {
        Some(b) => frame(b.as_slice()),
        None => None,
    }
}

/// What one stream came to, where `sent` says whether its answer was written:
/// served, when an answer went back to something a client asks; busy, when it
/// was turned away because the server was; and otherwise wasted.
pub open spec fn stream_came_to(busy: bool, counts: bool, sent: bool) -> Conduct {
    if sent && counts {
        Conduct::Served(1)
    } else if busy {
        Conduct::Busy
    } else {
        Conduct::Wasted
    }
}

/// What one stream came to.
pub fn outcome(a: &Answer, sent: bool) -> (r: Conduct)
    ensures
        r == stream_came_to(a.busy, a.counts, sent),
{
    if sent && a.counts {
        Conduct::Served(1)
    } else if a.busy {
        Conduct::Busy
    } else {
        Conduct::Wasted
    }
}

} // verus!
