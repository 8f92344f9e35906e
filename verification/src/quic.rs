//! Admitting QUIC connections, the same way for every QUIC listener.
//!
//! The source address on a first packet is whatever the sender chose to write
//! there, so every decision is made knowing whether that address has been
//! proved. An address nobody has proved is never charged anything.

use vstd::prelude::*;

use crate::ip::Ip;
use crate::probe::{
    Guard, GuardV, HandshakeSlot, Penalty, Refused, Ticket, busy, charges, full, held, law_release_gives_back, refused,
    scarce, slot_free, told_of, up,
};
use crate::probe::terms::{exempts, source_of};

verus! {

/// Seconds a QUIC handshake may take before it is abandoned.
pub const HANDSHAKE_TIMEOUT: u64 = 10;

/// The code for closing a DNS-over-QUIC connection that was turned away at a
/// limit once its handshake had completed.
pub const DOQ_EXCESSIVE_LOAD: u32 = 0x4;

/// The same for HTTP/3.
pub const H3_EXCESSIVE_LOAD: u32 = 0x0107;

/// Seconds a connection may sit idle before it is closed.
pub const IDLE_TIMEOUT: u64 = 30;

/// What a peer may send on one stream before it has to wait for it to be
/// read.
pub const STREAM_RECEIVE_WINDOW: u32 = 131_072;

/// What a peer may send across a whole connection before it has to wait.
pub const RECEIVE_WINDOW: u32 = 1_048_576;

/// What this side buffers for a peer before a write has to wait.
pub const SEND_WINDOW: u64 = 524_288;

/// Connection attempts that may be held before the listener has looked at
/// them.
pub const MAX_INCOMING: usize = 4096;

/// Bytes that may be buffered for one attempt before the listener decides on
/// it.
pub const INCOMING_BUFFER: u64 = 65_536;

/// Bytes that may be buffered for all of them together.
pub const INCOMING_BUFFER_TOTAL: u64 = 16_777_216;

/// What to do with one incoming connection.
#[derive(Debug)]
pub enum Verdict {
    /// Send nothing.
    Ignore,
    /// Ask the client to prove its address first.
    Retry,
    /// Tell a proved address it is turned away.
    Refuse,
    /// Go ahead with the handshake. The ticket is already charged when the
    /// address was proved; otherwise it is charged once the handshake is.
    Accept {
        /// The handshake slot it holds.
        slot: HandshakeSlot,
        /// The connection's ticket.
        ticket: Option<Ticket>,
    },
}

/// A verdict, with what it holds.
pub enum VerdictV {
    Ignore,
    Retry,
    Refuse,
    /// Whether the slot counts, and the ticket: none, one that counts
    /// nothing, or one that counts for a source.
    Accept(bool, Option<Option<(u8, u128)>>),
}

impl Verdict {
    /// The verdict, with what it holds.
    pub open spec fn view(&self) -> VerdictV {
        match *self {
            Verdict::Ignore => VerdictV::Ignore,
            Verdict::Retry => VerdictV::Retry,
            Verdict::Refuse => VerdictV::Refuse,
            Verdict::Accept { slot, ticket } => VerdictV::Accept(
                slot.holds(),
                match ticket {
                    Some(t) => Some(t.holds()),
                    None => None,
                },
            ),
        }
    }
}

/// What to do with a connection from `ip`.
///
/// A proved address is judged as one over TCP is: it takes a ticket and a
/// handshake slot, or is refused. One nobody has proved is asked to prove
/// itself once half the slots are taken, or where it would be turned away. A
/// source serving a penalty is sent nothing.
pub open spec fn verdict_on(g: GuardV, ip: Ip, validated: bool, now: u32) -> VerdictV {
    let key = source_of(g.cfg, ip);
    let exempt = exempts(g.cfg, ip);
    if !exempt && refused(g, key, now) {
        VerdictV::Ignore
    } else if validated {
        if exempt {
            VerdictV::Accept(false, Some(None))
        } else if full(g, key) || !slot_free(g) {
            VerdictV::Refuse
        } else {
            VerdictV::Accept(true, Some(Some(key)))
        }
    } else if !exempt && full(g, key) || scarce(g) || !slot_free(g) {
        VerdictV::Retry
    } else {
        VerdictV::Accept(true, None)
    }
}

/// The guard after that.
pub open spec fn after_verdict(g: GuardV, ip: Ip, validated: bool, now: u32) -> GuardV {
    let key = source_of(g.cfg, ip);
    match verdict_on(g, ip, validated, now) {
        VerdictV::Ignore => GuardV { refused_banned: up(g.refused_banned), ..g },
        VerdictV::Retry => g,
        VerdictV::Refuse => busy(g, now),
        VerdictV::Accept(false, _) => g,
        VerdictV::Accept(true, None) => GuardV { handshakes: g.handshakes + 1, ..g },
        VerdictV::Accept(true, Some(_)) => GuardV {
            live: g.live.insert(key, (held(g, key) + 1) as u32),
            open: g.open + 1,
            handshakes: g.handshakes + 1,
            ..g
        },
    }
}

/// Decides what to do with a connection from `ip`, taking what it is granted.
pub fn judge(guard: &mut Guard, ip: Ip, validated: bool, now: u32) -> (r: Verdict)
    requires
        old(guard).wf(),
        old(guard)@.open < u32::MAX,
        old(guard)@.handshakes < usize::MAX,
    ensures
        final(guard).wf(),
        r@ == verdict_on(old(guard)@, ip, validated, now),
        final(guard)@ == after_verdict(old(guard)@, ip, validated, now),
{
    let ghost g = guard@;
    let ghost key = source_of(g.cfg, ip);
    proof {
        guard.law_counted(key);
    }
    if validated {
        let ticket = match guard.open(ip, now) {
            Ok(t) => t,
            Err(Refused::Banned) => {
                return Verdict::Ignore;
            },
            Err(Refused::Busy) => {
                return Verdict::Refuse;
            },
        };
        return match guard.handshake(ip, now) {
            Some(slot) => Verdict::Accept { slot, ticket: Some(ticket) },
            None => {
                guard.release(ticket);
                proof {
                    law_release_gives_back(g, key);
                    assert(guard@ =~= busy(g, now));
                }
                Verdict::Refuse
            },
        };
    }
    match guard.standing(ip, now) {
        Ok(()) => {},
        Err(Refused::Banned) => {
            return Verdict::Ignore;
        },
        Err(Refused::Busy) => {
            return Verdict::Retry;
        },
    }
    if guard.handshakes_scarce() {
        return Verdict::Retry;
    }
    match guard.unproven_handshake() {
        Some(slot) => Verdict::Accept { slot, ticket: None },
        None => Verdict::Retry,
    }
}

/// An address nobody has proved is charged nothing: no connection, no strike
/// and no penalty, whatever the verdict on it.
pub proof fn law_unproved_is_charged_nothing(g: GuardV, ip: Ip, now: u32)
    ensures
        ({
            let h = after_verdict(g, ip, false, now);
            h.marks == g.marks && h.live == g.live && h.open == g.open && h.penalties == g.penalties
        }),
        verdict_on(g, ip, false, now) matches VerdictV::Accept(_, t) ==> t is None,
{
}

/// Addresses nobody has proved hold at most half the handshake slots: after
/// one was given to such an address, no more than half of them are taken.
pub proof fn law_unproved_takes_half_at_most(g: GuardV, ip: Ip, now: u32)
    requires
        verdict_on(g, ip, false, now) is Accept,
        g.cfg.strikes != 0,
        g.cfg.max_handshakes != 0,
    ensures
        after_verdict(g, ip, false, now).handshakes * 2 <= g.cfg.max_handshakes,
{
}

/// A source serving a penalty is sent nothing at all, proved or not.
pub proof fn law_banned_is_ignored(g: GuardV, ip: Ip, validated: bool, now: u32)
    requires
        !exempts(g.cfg, ip),
        refused(g, source_of(g.cfg, ip), now),
    ensures
        verdict_on(g, ip, validated, now) is Ignore,
{
}

/// Only a proved address is told that it is turned away, and only one nobody
/// has proved is asked to retry.
pub proof fn law_refusals_go_to_proved_addresses(g: GuardV, ip: Ip, validated: bool, now: u32)
    ensures
        verdict_on(g, ip, validated, now) is Refuse ==> validated,
        verdict_on(g, ip, validated, now) is Retry ==> !validated,
{
}

/// The guard after a handshake slot was given back.
pub open spec fn slot_returned(g: GuardV, counted: bool) -> GuardV {
    if counted {
        GuardV { handshakes: (g.handshakes - 1) as nat, ..g }
    } else {
        g
    }
}

/// The guard after a ticket was given back.
pub open spec fn ticket_returned(g: GuardV, t: Option<(u8, u128)>) -> GuardV {
    match t {
        None => g,
        Some(key) => GuardV {
            live: if g.live[key] == 1 {
                g.live.remove(key)
            } else {
                g.live.insert(key, (g.live[key] - 1) as u32)
            },
            open: (g.open - 1) as nat,
            ..g
        },
    }
}

/// What becomes of an accepted connection once its handshake is over.
#[derive(Debug)]
pub enum Established {
    /// It is served for as long as it is open, holding its ticket.
    Serve(Ticket),
    /// A limit turned it away now that its address is proved: it is closed.
    CloseBusy,
    /// There is nothing to serve. A proved address may have earned a penalty.
    Nothing(Option<Penalty>),
}

/// Whether `after` is the guard once a failed handshake was held against a
/// proved address and its ticket given back.
pub open spec fn held_against_it(g: GuardV, after: GuardV, ip: Ip, t: Option<(u8, u128)>, now: u32, p: Option<Penalty>) -> bool {
    exists|mid: GuardV| #[trigger]
        charges(g, mid, ip, now, false) && told_of(p, g, mid, ip) && after == ticket_returned(mid, t)
}

/// An accepted connection whose handshake is over, completed or not.
///
/// The handshake slot is given back first. A handshake that failed counts
/// against its source only if the address had been proved beforehand. One
/// that completed has proved the address, and is charged its ticket now if it
/// has none yet.
pub fn establish(
    guard: &mut Guard,
    slot: HandshakeSlot,
    ticket: Option<Ticket>,
    ip: Ip,
    validated: bool,
    completed: bool,
    now: u32,
) -> (r: Established)
    requires
        old(guard).wf(),
        old(guard)@.open < u32::MAX,
        slot.holds() ==> old(guard)@.handshakes > 0,
        ticket matches Some(t) ==> (t.holds() matches Some(key) ==> old(guard)@.live.contains_key(key)),
        !validated ==> ticket is None,
    ensures
        final(guard).wf(),
        ({
            let g = slot_returned(old(guard)@, slot.holds());
            let key = source_of(g.cfg, ip);
            let t = match ticket {
                Some(t) => t.holds(),
                None => None,
            };
            if !completed {
                if validated {
                    r matches Established::Nothing(p) && held_against_it(g, final(guard)@, ip, t, now, p)
                } else {
                    r == Established::Nothing(None) && final(guard)@ == g
                }
            } else if ticket is Some {
                r == Established::Serve(ticket->0) && final(guard)@ == g
            } else if exempts(g.cfg, ip) {
                (r matches Established::Serve(x) && x.holds() is None) && final(guard)@ == g
            } else if refused(g, key, now) {
                r == Established::CloseBusy && final(guard)@ == (GuardV { refused_banned: up(g.refused_banned), ..g })
            } else if full(g, key) {
                r == Established::CloseBusy && final(guard)@ == busy(g, now)
            } else {
                (r matches Established::Serve(x) && x.holds() == Some(key)) && final(guard)@ == (GuardV {
                    live: g.live.insert(key, (held(g, key) + 1) as u32),
                    open: g.open + 1,
                    ..g
                })
            }
        }),
{
    guard.finish_handshake(slot);
    let ghost g = guard@;
    if !completed {
        if !validated {
            return Established::Nothing(None);
        }
        let p = guard.wasted(ip, now);
        let ghost mid = guard@;
        proof {
            lemma_charging_keeps_connections(g, mid, ip, now);
        }
        match ticket {
            Some(t) => {
                guard.release(t);
            },
            None => {},
        }
        assert(held_against_it(
            g,
            guard@,
            ip,
            match ticket {
                Some(t) => t.holds(),
                None => None,
            },
            now,
            p,
        )) by {
            assert(charges(g, mid, ip, now, false));
        }
        return Established::Nothing(p);
    }
    match ticket {
        Some(t) => Established::Serve(t),
        None => match guard.open(ip, now) {
            Ok(t) => Established::Serve(t),
            Err(_) => Established::CloseBusy,
        },
    }
}

proof fn lemma_charging_keeps_connections(a: GuardV, b: GuardV, ip: Ip, now: u32)
    requires
        charges(a, b, ip, now, false),
    ensures
        b.live == a.live,
        b.open == a.open,
{
}

} // verus!
