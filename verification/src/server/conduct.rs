//! How a connection behaved, and warnings that may recur.

use vstd::prelude::*;

use crate::ip::Ip;
use crate::probe::{Guard, Penalty, charges, cleared, told_of};
use crate::probe::terms::Span;

verus! {

/// Seconds between two of the same warning.
pub const WARN_EVERY: u64 = 60;

/// Seconds an accept loop waits after an error that is not about one
/// connection, before it tries again.
pub const ACCEPT_BACKOFF: u64 = 1;

/// A warning that may be due on every request, said at most once a minute.
#[derive(Clone, Copy, Debug, PartialEq, Eq, Structural)]
pub struct Throttle {
    /// When the warning was last said, in seconds plus one, so zero is never.
    said: u64,
    /// Occurrences since.
    pending: u64,
}

/// The clock reading that stands for `secs`: never zero.
pub open spec fn reading(secs: u64) -> int {
    if secs < u64::MAX {
        secs + 1
    } else {
        secs as int
    }
}

/// Whether a warning last said at `said` is due at `secs`.
pub open spec fn is_due(said: u64, secs: u64) -> bool {
    said == 0 || reading(secs) >= u64::MAX || reading(secs) >= said + WARN_EVERY
}

impl Throttle {
    /// When the warning was last said, as a clock reading; zero is never.
    pub closed spec fn said(&self) -> u64 {
        self.said
    }

    /// Occurrences that no warning has told of.
    pub closed spec fn pending(&self) -> u64 {
        self.pending
    }

    /// A warning that was never said.
    pub fn new() -> (r: Self)
        ensures
            r.said() == 0,
            r.pending() == 0,
    {
        Throttle { said: 0, pending: 0 }
    }

    /// Counts one occurrence, at a time since the throttle was made,
    /// returning how many there have been since the warning was last said
    /// when it is time to say it again.
    pub fn due(&mut self, elapsed: Span) -> (r: Option<u64>)
        ensures
            if is_due(old(self).said(), elapsed.secs) {
                r == Some(old(self).pending().wrapping_add(1)) && final(self).pending() == 0 && final(self).said()
                    == reading(elapsed.secs)
            } else {
                r is None && final(self).pending() == old(self).pending().wrapping_add(1) && final(self).said() == old(
                    self,
                ).said()
            },
    {
        self.due_at(elapsed.secs)
    }

    /// `due`, at `secs` on the throttle's own clock.
    pub fn due_at(&mut self, secs: u64) -> (r: Option<u64>)
        ensures
            if is_due(old(self).said(), secs) {
                r == Some(old(self).pending().wrapping_add(1)) && final(self).pending() == 0 && final(self).said()
                    == reading(secs)
            } else {
                r is None && final(self).pending() == old(self).pending().wrapping_add(1) && final(self).said() == old(
                    self,
                ).said()
            },
    {
        self.pending = self.pending.wrapping_add(1);
        let now: u64 = secs.saturating_add(1);
        let next: u64 = self.said.saturating_add(WARN_EVERY);
        if self.said != 0 && now < next {
            return None;
        }
        self.said = now;
        let n: u64 = self.pending;
        self.pending = 0;
        Some(n)
    }
}

/// A warning is not due again within a minute of having been said.
pub proof fn law_said_once_a_minute(secs: u64, later: u64)
    requires
        secs <= later < secs + WARN_EVERY,
        reading(later) < u64::MAX,
    ensures
        !is_due(reading(secs) as u64, later),
{
}

/// A warning said a minute ago is due.
pub proof fn law_said_again_after_a_minute(secs: u64, later: u64)
    requires
        later >= secs + WARN_EVERY,
    ensures
        is_due(reading(secs) as u64, later),
{
}

/// Datagrams waiting for a worker.
#[derive(Clone, Copy, Debug, PartialEq, Eq, Structural)]
pub struct Waiting {
    count: usize,
}

impl Waiting {
    /// How many wait.
    pub closed spec fn view(&self) -> usize {
        self.count
    }

    /// A room in which none waits.
    pub fn new() -> (r: Self)
        ensures
            r@ == 0,
    {
        Waiting { count: 0 }
    }

    /// Counts one more waiting, unless `max` already are.
    pub fn enter(&mut self, max: usize) -> (r: bool)
        ensures
            r == (old(self)@ < max),
            final(self)@ == if r {
                old(self)@ + 1
            } else {
                old(self)@ as int
            },
    {
        if self.count < max {
            self.count = self.count + 1;
            true
        } else {
            false
        }
    }

    /// Counts one fewer waiting: it got its worker, or gave up.
    pub fn leave(&mut self)
        requires
            old(self)@ > 0,
        ensures
            final(self)@ == old(self)@ - 1,
    {
        self.count = self.count - 1;
    }
}

/// How one connection behaved, as the connection guard is to be told it.
#[derive(Clone, Copy, Debug, PartialEq, Eq, Structural)]
pub enum Conduct {
    /// It was answered this many queries a client asks, at least one.
    Served(u32),
    /// It asked nothing a client asks.
    Wasted,
    /// Nothing it asked counted, and some of it was turned away because the
    /// server was busy. Being busy is never held against a source.
    Busy,
    /// It closed without sending a byte, at once.
    Silent,
}

impl Conduct {
    /// Tells `guard` how a connection from `ip` behaved: a served one clears
    /// its source, a wasted one is held against it, and the guard is told
    /// nothing of the others.
    pub fn report(self, guard: &mut Guard, ip: Ip, now: u32) -> (r: Option<Penalty>)
        requires
            old(guard).wf(),
        ensures
            final(guard).wf(),
            match self {
                Conduct::Served(n) if n > 0 => r is None && final(guard)@ == cleared(old(guard)@, ip, now),
                Conduct::Served(_) | Conduct::Wasted => charges(old(guard)@, final(guard)@, ip, now, false) && told_of(
                    r,
                    old(guard)@,
                    final(guard)@,
                    ip,
                ),
                Conduct::Busy | Conduct::Silent => r is None && *final(guard) == *old(guard),
            },
    {
        match self {
            Conduct::Served(n) => guard.record(ip, n, now),
            Conduct::Wasted => guard.record(ip, 0, now),
            Conduct::Busy | Conduct::Silent => None,
        }
    }

    /// How a connection behaved on a transport where closing without a word
    /// has cost a handshake.
    pub fn after_handshake(self) -> (r: Conduct)
        ensures
            r == if self is Silent {
                Conduct::Wasted
            } else {
                self
            },
    {
        match self {
            Conduct::Silent => Conduct::Wasted,
            c => c,
        }
    }
}

/// What the questions on one connection have come to so far.
#[derive(Clone, Copy, Debug, PartialEq, Eq, Structural)]
pub struct Tally {
    /// Queries answered that a client asks.
    pub counted: u32,
    /// Whether any was turned away because the server was busy.
    pub busy: bool,
}

/// `t` with what one question came to.
pub open spec fn tallied(t: Tally, c: Conduct) -> Tally {
    match c {
        Conduct::Served(n) => Tally {
            counted: if t.counted + n > u32::MAX {
                u32::MAX
            } else {
                (t.counted + n) as u32
            },
            ..t
        },
        Conduct::Busy => Tally { busy: true, ..t },
        Conduct::Wasted | Conduct::Silent => t,
    }
}

/// What a connection came to: served if anything counted, busy if nothing did
/// but the server was, and otherwise nothing asked.
pub open spec fn comes_to(t: Tally) -> Conduct {
    if t.counted > 0 {
        Conduct::Served(t.counted)
    } else if t.busy {
        Conduct::Busy
    } else {
        Conduct::Wasted
    }
}

impl Default for Tally {
    fn default() -> (r: Self)
        ensures
            r == (Tally { counted: 0, busy: false }),
    {
        Tally { counted: 0, busy: false }
    }
}

impl Tally {
    /// Adds what one question came to.
    pub fn add(&mut self, c: Conduct)
        ensures
            *final(self) == tallied(*old(self), c),
    {
        match c {
            Conduct::Served(n) => {
                self.counted = self.counted.saturating_add(n);
            },
            Conduct::Busy => {
                self.busy = true;
            },
            Conduct::Wasted | Conduct::Silent => {},
        }
    }

    /// What the connection came to.
    pub fn conduct(self) -> (r: Conduct)
        ensures
            r == comes_to(self),
    {
        if self.counted > 0 {
            Conduct::Served(self.counted)
        } else if self.busy {
            Conduct::Busy
        } else {
            Conduct::Wasted
        }
    }
}

/// The tally of a connection whose questions came to `cs`.
pub open spec fn tally_of(cs: Seq<Conduct>) -> Tally
    decreases cs.len(),
{
    if cs.len() == 0 {
        Tally { counted: 0, busy: false }
    } else {
        tallied(tally_of(cs.drop_last()), cs.last())
    }
}

/// A connection counts as served if and only if one of its questions was.
pub proof fn law_served_if_one_counted(cs: Seq<Conduct>)
    ensures
        comes_to(tally_of(cs)) is Served <==> exists|i: int| 0 <= i < cs.len() && counts(#[trigger] cs[i]),
    decreases cs.len(),
{
    if cs.len() > 0 {
        law_served_if_one_counted(cs.drop_last());
        let d = cs.drop_last();
        if exists|i: int| 0 <= i < d.len() && counts(#[trigger] d[i]) {
            let i = choose|i: int| 0 <= i < d.len() && counts(#[trigger] d[i]);
            assert(counts(cs[i]));
        }
        if exists|i: int| 0 <= i < cs.len() && counts(#[trigger] cs[i]) {
            let i = choose|i: int| 0 <= i < cs.len() && counts(#[trigger] cs[i]);
            if i < d.len() {
                assert(counts(d[i]));
            }
        }
        if counts(cs.last()) {
            assert(counts(cs[cs.len() - 1]));
        }
    }
}

/// Whether a question counted.
pub open spec fn counts(c: Conduct) -> bool {
    c matches Conduct::Served(n) && n > 0
}

/// A connection that was turned away while the server was busy is never held
/// against its source: it comes to busy or to served.
pub proof fn law_busy_is_never_wasted(cs: Seq<Conduct>, i: int)
    requires
        0 <= i < cs.len(),
        cs[i] is Busy,
    ensures
        comes_to(tally_of(cs)) !is Wasted,
        tally_of(cs).busy,
    decreases cs.len(),
{
    if i < cs.len() - 1 {
        law_busy_is_never_wasted(cs.drop_last(), i);
    }
}

/// What kind of error a socket reported.
#[derive(Clone, Copy, Debug, PartialEq, Eq, Structural)]
pub enum Fault {
    ConnectionRefused,
    ConnectionAborted,
    ConnectionReset,
    Interrupted,
    TimedOut,
    NetworkDown,
    NetworkUnreachable,
    HostUnreachable,
    /// Any other kind.
    Other,
}

/// Reports whether an error from accepting or receiving is about one peer
/// rather than the socket.
pub fn is_connection_error(e: Fault) -> (r: bool)
    ensures
        r == (e !is Other),
{
    match e {
        Fault::Other => false,
        _ => true,
    }
}

/// How a listener rides out what its socket reports.
///
/// An error about a single connection leaves the next accept unaffected, so
/// the loop carries on. Any other clears only when something else closes, so
/// the loop waits first. Neither ends the loop.
#[derive(Clone, Debug)]
pub struct AcceptErrors {
    /// Which listener, for the log.
    what: String,
    /// The warning, at most once a minute.
    throttle: Throttle,
}

impl AcceptErrors {
    /// Which listener.
    pub closed spec fn listener(&self) -> Seq<char> {
        self.what@
    }

    /// The warning.
    pub closed spec fn warning(&self) -> Throttle {
        self.throttle
    }

    /// A listener's record of its errors; `what` names it in the log.
    pub fn new(what: &str) -> (r: Self)
        ensures
            r.listener() == what@,
            r.warning().said() == 0,
            r.warning().pending() == 0,
    {
        AcceptErrors { what: what.to_owned(), throttle: Throttle::new() }
    }

    /// Decides what to do after `e`, at a time since the record was made:
    /// carry on at once (`None`), or wait for the returned time first. Beside
    /// it comes how many errors the log is to tell of, when it is to.
    pub fn pause_after(&mut self, e: Fault, elapsed: Span) -> (r: (Option<Span>, Option<u64>))
        ensures
            final(self).listener() == old(self).listener(),
            if e is Other {
                &&& r.0 == Some(Span { secs: ACCEPT_BACKOFF, nanos: 0 })
                &&& if is_due(old(self).warning().said(), elapsed.secs) {
                    &&& r.1 == Some(old(self).warning().pending().wrapping_add(1))
                    &&& final(self).warning().pending() == 0
                    &&& final(self).warning().said() == reading(elapsed.secs)
                } else {
                    &&& r.1 is None
                    &&& final(self).warning().pending() == old(self).warning().pending().wrapping_add(1)
                    &&& final(self).warning().said() == old(self).warning().said()
                }
            } else {
                r == (None::<Span>, None::<u64>) && final(self).warning() == old(self).warning()
            },
    {
        if is_connection_error(e) {
            return (None, None);
        }
        let told = self.throttle.due(elapsed);
        (Some(Span { secs: ACCEPT_BACKOFF, nanos: 0 }), told)
    }
}

} // verus!
