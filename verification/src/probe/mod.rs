//! Shutting out a source that connects and never asks anything.
//!
//! What separates a scanner from a busy client is that a real client asks
//! something. Only connections that asked nothing at all are counted, a single
//! answered query clears a source's record, and the count decays. A repeat
//! offender is refused for longer each time, and a penalty is served in full.
//! What may be open at once is bounded too, and reaching such a bound is being
//! busy: it is never held against a source.
//!
//! An IPv6 source is its /64, but for this host's own /64s, where each address
//! is its own source. A local address is never shut out.

pub mod sweep;
pub mod terms;

use vstd::prelude::*;

use crate::ip::Ip;
use crate::multi::{lemma_sum_part, lemma_sum_update, lemma_sum_vacated, sum};
use crate::probe::sweep::{kept_marks, next_sweep, sweep, swept, MAX_TRACKED, SWEEP_AT, SWEEP_EVERY};
use crate::probe::terms::{
    charge_mark, charged, clean_mark, exempt, exempts, held_against, is_banned, is_local, nth_penalty, on_this_network,
    since, source_of, source_under, spared, spares, terms_of, Config, Mark, Source, Terms,
};
use crate::table::ints::IntTable;

verus! {

/// How often a refusal at a limit may be logged, in seconds.
pub const WARN_EVERY: u32 = 60;

/// Why [`Guard::open`] turned a connection away.
#[derive(Clone, Copy, Debug, PartialEq, Eq, Structural)]
pub enum Refused {
    /// The source is serving a penalty.
    Banned,
    /// A limit on what may be open at once has been reached. This says
    /// nothing against the source.
    Busy,
}

/// What the guard has seen, for diagnostics.
#[derive(Clone, Copy, Debug, PartialEq, Eq, Structural)]
pub struct Stats {
    /// Sources with anything held against them: strikes, a penalty, or
    /// offences not yet forgiven.
    pub watched: usize,
    /// Of those, the ones being refused right now.
    pub banned: usize,
    /// Connections from judged sources open right now.
    pub open: usize,
    /// Sources with at least one of those open.
    pub sources: usize,
    /// Handshakes from judged sources in progress right now.
    pub handshakes: usize,
    /// Connections turned away since start because their source was being
    /// refused.
    pub refused_banned: u64,
    /// Connections and handshakes turned away since start because a limit
    /// was reached.
    pub refused_busy: u64,
    /// Penalties imposed since start, by strikes and by condemnation alike.
    pub penalties: u64,
    /// Of those, the ones imposed by condemnation.
    pub condemned: u64,
    /// QUIC connection attempts answered with a Retry since start.
    pub retried: u64,
}

/// One open connection, counted against the limits until it is released.
#[derive(Debug)]
pub struct Ticket {
    key: Option<(u8, u128)>,
}

impl Ticket {
    /// The source that the connection is counted for.
    pub closed spec fn holds(&self) -> Option<(u8, u128)> {
        self.key
    }

    /// Reports whether the connection is counted against the limits, which
    /// it is unless its source is exempt.
    pub fn is_counted(&self) -> (r: bool)
        ensures
            r == (self.holds() is Some),
    {
        self.key.is_some()
    }
}

/// One handshake in progress, counted against the limit until it is finished.
#[derive(Debug)]
pub struct HandshakeSlot {
    counted: bool,
}

impl HandshakeSlot {
    /// Whether the handshake is counted.
    pub closed spec fn holds(&self) -> bool {
        self.counted
    }

    /// Reports whether the handshake is counted against the limit, which it
    /// is unless its source is exempt.
    pub fn is_counted(&self) -> (r: bool)
        ensures
            r == self.holds(),
    {
        self.counted
    }
}

/// A penalty that was imposed.
#[derive(Clone, Copy, Debug, PartialEq, Eq, Structural)]
pub struct Penalty {
    /// Which offence it is for.
    pub offence: u32,
    /// How long it lasts, in seconds.
    pub seconds: u32,
}

/// The guard's state.
#[verifier::ext_equal]
pub ghost struct GuardV {
    pub cfg: Config,
    /// Everything held against each source.
    pub marks: Map<(u8, u128), Mark>,
    /// Connections open per source.
    pub live: Map<(u8, u128), u32>,
    /// Connections open across every source.
    pub open: nat,
    /// The table size at which it is next swept, and when it last was.
    pub sweep_at: nat,
    pub swept: u32,
    /// Handshakes in progress.
    pub handshakes: nat,
    /// When a refusal at a limit was last due for logging, plus one, or zero.
    pub warned: u32,
    /// Refusals at a limit since then.
    pub unwarned: u64,
    /// The count to log that nobody has taken yet.
    pub due: Option<u64>,
    pub refused_banned: u64,
    pub refused_busy: u64,
    pub penalties: u64,
    pub condemned: u64,
    pub retried: u64,
}

/// One more, beginning anew after the last.
pub open spec fn up(n: u64) -> u64 {
    ((n + 1) % 0x1_0000_0000_0000_0000) as u64
}

/// Whether a source is being refused.
pub open spec fn refused(g: GuardV, key: (u8, u128), now: u32) -> bool {
    g.marks.contains_key(key) && is_banned(g.marks[key], now)
}

/// Whether anything is still held against a source.
pub open spec fn holds_against(g: GuardV, key: (u8, u128), now: u32) -> bool {
    g.marks.contains_key(key) && held_against(g.marks[key], now, terms_of(g.cfg))
}

/// Whether a handshake slot is free. A guard that is switched off limits
/// nothing.
pub open spec fn slot_free(g: GuardV) -> bool {
    g.cfg.strikes == 0 || g.cfg.max_handshakes == 0 || g.handshakes < g.cfg.max_handshakes
}

/// Whether half the handshake slots are taken, counted in whole slots: one
/// more would be one of the other half.
pub open spec fn scarce(g: GuardV) -> bool {
    g.cfg.strikes != 0 && g.cfg.max_handshakes != 0 && g.handshakes >= g.cfg.max_handshakes / 2
}

/// How many connections a source has open.
pub open spec fn held(g: GuardV, key: (u8, u128)) -> int {
    if g.live.contains_key(key) {
        g.live[key] as int
    } else {
        0
    }
}

/// Whether a limit on what may be open at once leaves no room for one more
/// connection of a source.
pub open spec fn full(g: GuardV, key: (u8, u128)) -> bool {
    (g.cfg.max_connections != 0 && g.open >= g.cfg.max_connections) || (g.cfg.max_per_source != 0 && held(g, key)
        >= g.cfg.max_per_source)
}

/// The guard after a refusal at a limit: it is counted, and where none was
/// due for logging for a minute, the count since then is.
pub open spec fn busy(g: GuardV, now: u32) -> GuardV {
    let stamp: u32 = if now == u32::MAX { now } else { (now + 1) as u32 };
    let quiet = g.warned != 0 && stamp < crate::probe::terms::plus(g.warned, WARN_EVERY);
    let counted = GuardV { refused_busy: up(g.refused_busy), unwarned: up(g.unwarned), ..g };
    if quiet {
        counted
    } else {
        GuardV { warned: stamp, unwarned: 0, due: Some(up(g.unwarned)), ..counted }
    }
}

/// Whether the table is swept before `key` is charged.
pub open spec fn sweep_due(g: GuardV, key: (u8, u128), now: u32) -> bool {
    (g.marks.len() >= g.sweep_at && !g.marks.contains_key(key)) || since(now, g.swept) >= SWEEP_EVERY
}

/// A source's mark, or a clean one.
pub open spec fn mark_or_clean(m: Map<(u8, u128), Mark>, key: (u8, u128), now: u32) -> Mark {
    if m.contains_key(key) {
        m[key]
    } else {
        clean_mark(now)
    }
}

/// The guard after a source was charged, where `marks` is what a sweep left,
/// if one was due.
pub open spec fn after_charge(
    g: GuardV,
    marks: Map<(u8, u128), Mark>,
    key: (u8, u128),
    now: u32,
    condemned: bool,
) -> GuardV {
    let (m, penalised) = charged(mark_or_clean(marks, key, now), now, terms_of(g.cfg), condemned);
    GuardV {
        marks: marks.insert(key, m),
        sweep_at: if sweep_due(g, key, now) {
            next_sweep(marks.len() as int) as nat
        } else {
            g.sweep_at
        },
        swept: if sweep_due(g, key, now) {
            now
        } else {
            g.swept
        },
        penalties: if penalised {
            up(g.penalties)
        } else {
            g.penalties
        },
        condemned: if penalised && condemned {
            up(g.condemned)
        } else {
            g.condemned
        },
        ..g
    }
}

/// Whether `b` is `a` after `ip` was charged. An exempt address is not.
pub open spec fn charges(a: GuardV, b: GuardV, ip: Ip, now: u32, condemned: bool) -> bool {
    let key = source_of(a.cfg, ip);
    if exempts(a.cfg, ip) {
        b == a
    } else if sweep_due(a, key, now) {
        exists|marks: Map<(u8, u128), Mark>| #[trigger]
            swept(a.marks, marks, now, terms_of(a.cfg)) && b == after_charge(a, marks, key, now, condemned)
    } else {
        b == after_charge(a, a.marks, key, now, condemned)
    }
}

/// Whether `r` tells of the penalty that charging `ip` imposed, if it did:
/// which offence it is for, and how long it lasts.
pub open spec fn told_of(r: Option<Penalty>, a: GuardV, b: GuardV, ip: Ip) -> bool {
    let m = b.marks[source_of(a.cfg, ip)];
    match r {
        Some(p) => b.penalties == up(a.penalties) && p.offence == m.offences && p.seconds == nth_penalty(
            terms_of(a.cfg),
            m.offences,
        ),
        None => b.penalties == a.penalties,
    }
}

/// The guard after `ip` was answered a query: its record is cleared, unless
/// it is exempt or serving a penalty.
pub open spec fn cleared(g: GuardV, ip: Ip, now: u32) -> GuardV {
    let key = source_of(g.cfg, ip);
    if exempts(g.cfg, ip) || refused(g, key, now) {
        g
    } else {
        GuardV { marks: g.marks.remove(key), ..g }
    }
}

/// Refuses connections from a source that has proved it never asks anything,
/// and bounds what the internet may hold open at once.
///
/// Times are whole seconds on a clock that the caller keeps.
pub struct Guard {
    cfg: Config,
    marks: IntTable<Mark>,
    live: IntTable<u32>,
    open: usize,
    sweep_at: usize,
    swept: u32,
    handshakes: usize,
    warned: u32,
    unwarned: u64,
    due: Option<u64>,
    refused_banned: u64,
    refused_busy: u64,
    penalties: u64,
    condemned: u64,
    retried: u64,
}

impl Guard {
    /// The guard's state.
    pub closed spec fn view(&self) -> GuardV {
        GuardV {
            cfg: self.cfg,
            marks: self.marks@,
            live: self.live@,
            open: self.open as nat,
            sweep_at: self.sweep_at as nat,
            swept: self.swept,
            handshakes: self.handshakes as nat,
            warned: self.warned,
            unwarned: self.unwarned,
            due: self.due,
            refused_banned: self.refused_banned,
            refused_busy: self.refused_busy,
            penalties: self.penalties,
            condemned: self.condemned,
            retried: self.retried,
        }
    }

    /// What every operation keeps: the tables are sound, the connections of
    /// the sources make up what is open, a source without one is not listed,
    /// and the table of marks is no larger than it may be.
    pub closed spec fn wf(&self) -> bool {
        &&& self.marks.wf()
        &&& self.live.wf()
        &&& self.open == sum(self.live.values(), |n: u32| n as int)
        &&& forall|k: (u8, u128)| #[trigger] self.live@.contains_key(k) ==> self.live@[k] > 0
        &&& self.sweep_at <= MAX_TRACKED
        &&& self.marks@.len() <= MAX_TRACKED
        &&& forall|k: (u8, u128)| #[trigger] self.marks@.contains_key(k) ==> self.marks@[k].strikes < u32::MAX
    }

    /// Whatever is scanning, the table holds a bounded number of sources.
    pub proof fn law_bounded(&self)
        requires
            self.wf(),
        ensures
            self@.marks.len() <= MAX_TRACKED,
    {
    }

    /// A source that is counted has a connection open, and no more than are
    /// open at all.
    pub proof fn law_counted(&self, key: (u8, u128))
        requires
            self.wf(),
        ensures
            self@.live.contains_key(key) ==> 0 < self@.live[key] <= self@.open,
    {
        if self@.live.contains_key(key) {
            self.live.lemma_positions();
            let i = self.live.keys().index_of(key);
            assert(self.live.keys()[i] == key);
            crate::multi::lemma_sum_part(self.live.values(), |n: u32| n as int, i);
        }
    }

    /// Builds a guard.
    pub fn new(cfg: Config) -> (r: Self)
        ensures
            r.wf(),
            r@ == (GuardV {
                cfg,
                marks: Map::empty(),
                live: Map::empty(),
                open: 0,
                sweep_at: SWEEP_AT as nat,
                swept: 0,
                handshakes: 0,
                warned: 0,
                unwarned: 0,
                due: None,
                refused_banned: 0,
                refused_busy: 0,
                penalties: 0,
                condemned: 0,
                retried: 0,
            }),
    {
        let r = Guard {
            cfg,
            marks: IntTable::new(),
            live: IntTable::new(),
            open: 0,
            sweep_at: SWEEP_AT,
            swept: 0,
            handshakes: 0,
            warned: 0,
            unwarned: 0,
            due: None,
            refused_banned: 0,
            refused_busy: 0,
            penalties: 0,
            condemned: 0,
            retried: 0,
        };
        proof {
            r.live.lemma_positions();
            r.marks.lemma_positions();
        }
        r
    }

    /// Replaces the configuration on a running guard.
    ///
    /// The marks are kept, and lowering a limit leaves what is already open
    /// alone.
    pub fn set_config(&mut self, cfg: Config)
        requires
            old(self).wf(),
        ensures
            final(self).wf(),
            final(self)@ == (GuardV { cfg, ..old(self)@ }),
    {
        self.cfg = cfg;
    }

    /// Whether a source is being refused.
    fn serving(&self, s: Source, now: u32) -> (r: bool)
        requires
            self.wf(),
        ensures
            r == refused(self@, s@, now),
    {
        match self.marks.get(s.key()) {
            Some(m) => m.banned(now),
            None => false,
        }
    }

    /// The source `ip` is judged as, or `None` when it is outside the guard's
    /// remit altogether.
    fn judged(&self, ip: Ip) -> (r: Option<Source>)
        ensures
            match r {
                Some(s) => !exempts(self@.cfg, ip) && s@ == source_of(self@.cfg, ip),
                None => exempts(self@.cfg, ip),
            },
    {
        if exempt(&self.cfg, ip) {
            None
        } else {
            Some(source_under(&self.cfg, ip))
        }
    }

    /// Reports whether a connection from `ip` should be accepted, as far as
    /// penalties go, and counts a refusal.
    pub fn admits(&mut self, ip: Ip, now: u32) -> (r: bool)
        requires
            old(self).wf(),
        ensures
            final(self).wf(),
            r == (exempts(old(self)@.cfg, ip) || !refused(old(self)@, source_of(old(self)@.cfg, ip), now)),
            final(self)@ == if r {
                old(self)@
            } else {
                GuardV { refused_banned: up(old(self)@.refused_banned), ..old(self)@ }
            },
    {
        match self.judged(ip) {
            None => true,
            Some(s) => {
                if self.serving(s, now) {
                    self.refused_banned = self.refused_banned.wrapping_add(1);
                    false
                } else {
                    true
                }
            },
        }
    }

    /// Reports whether `ip` is serving a penalty, without counting anything.
    pub fn is_banned(&self, ip: Ip, now: u32) -> (r: bool)
        requires
            self.wf(),
        ensures
            r == (!exempts(self@.cfg, ip) && refused(self@, source_of(self@.cfg, ip), now)),
    {
        match self.judged(ip) {
            None => false,
            Some(s) => self.serving(s, now),
        }
    }

    /// How many connections a source has open.
    fn held_by(&self, s: Source) -> (r: u32)
        requires
            self.wf(),
        ensures
            r == held(self@, s@),
    {
        match self.live.get(s.key()) {
            Some(n) => *n,
            None => 0,
        }
    }

    /// Whether a limit leaves no room for one more connection of a source.
    fn at_limit(&self, s: Source) -> (r: bool)
        requires
            self.wf(),
        ensures
            r == full(self@, s@),
    {
        (self.cfg.max_connections != 0 && self.open >= self.cfg.max_connections) || (self.cfg.max_per_source != 0
            && self.held_by(s) as usize >= self.cfg.max_per_source)
    }

    /// Admits a connection from `ip` and counts it as open until the ticket
    /// is released.
    ///
    /// It refuses a source serving a penalty, one that already has as many
    /// connections open as it may, and anyone at all once as many are open as
    /// may be. An exempt source is given a ticket that counts nothing.
    pub fn open(&mut self, ip: Ip, now: u32) -> (r: Result<Ticket, Refused>)
        requires
            old(self).wf(),
            old(self)@.open < u32::MAX,
        ensures
            final(self).wf(),
            ({
                let g = old(self)@;
                let key = source_of(g.cfg, ip);
                if exempts(g.cfg, ip) {
                    (r matches Ok(t) && t.holds() is None) && final(self)@ == g
                } else if refused(g, key, now) {
                    r == Err::<Ticket, Refused>(Refused::Banned) && final(self)@ == (GuardV {
                        refused_banned: up(g.refused_banned),
                        ..g
                    })
                } else if full(g, key) {
                    r == Err::<Ticket, Refused>(Refused::Busy) && final(self)@ == busy(g, now)
                } else {
                    (r matches Ok(t) && t.holds() == Some(key)) && final(self)@ == (GuardV {
                        live: g.live.insert(key, (held(g, key) + 1) as u32),
                        open: g.open + 1,
                        ..g
                    })
                }
            }),
    {
        let s = match self.judged(ip) {
            None => {
                return Ok(Ticket { key: None });
            },
            Some(s) => s,
        };
        if self.serving(s, now) {
            self.refused_banned = self.refused_banned.wrapping_add(1);
            return Err(Refused::Banned);
        }
        if self.at_limit(s) {
            self.refuse_busy(now);
            return Err(Refused::Busy);
        }
        self.take(s);
        Ok(Ticket { key: Some(s.key()) })
    }

    /// Counts one more connection of a source.
    fn take(&mut self, s: Source)
        requires
            old(self).wf(),
            old(self)@.open < u32::MAX,
        ensures
            final(self).wf(),
            final(self)@ == (GuardV {
                live: old(self)@.live.insert(s@, (held(old(self)@, s@) + 1) as u32),
                open: old(self)@.open + 1,
                ..old(self)@
            }),
    {
        let ghost f = |n: u32| n as int;
        let ghost before = self.live;
        proof {
            before.lemma_positions();
        }
        match self.live.position(s.key()) {
            Some(i) => {
                proof {
                    crate::multi::lemma_sum_part(before.values(), f, i as int);
                }
                let mut n: u32 = *self.live.value_at(i) + 1;
                let ghost put = n;
                self.live.swap_at(i, &mut n);
                proof {
                    lemma_sum_update(before.values(), f, i as int, put);
                }
            },
            None => {
                self.live.insert(s.key(), 1);
                proof {
                    assert(self.live.values().drop_last() =~= before.values());
                }
            },
        }
        self.open = self.open + 1;
    }

    /// Gives back one connection.
    pub fn release(&mut self, t: Ticket)
        requires
            old(self).wf(),
            t.holds() matches Some(key) ==> old(self)@.live.contains_key(key),
        ensures
            final(self).wf(),
            match t.holds() {
                None => final(self)@ == old(self)@,
                Some(key) => final(self)@ == (GuardV {
                    live: if old(self)@.live[key] == 1 {
                        old(self)@.live.remove(key)
                    } else {
                        old(self)@.live.insert(key, (old(self)@.live[key] - 1) as u32)
                    },
                    open: (old(self)@.open - 1) as nat,
                    ..old(self)@
                }),
            },
    {
        let key = match t.key {
            None => {
                return;
            },
            Some(key) => key,
        };
        let ghost f = |n: u32| n as int;
        let ghost before = self.live;
        proof {
            before.lemma_positions();
        }
        if let Some(i) = self.live.position(key) {
            proof {
                crate::multi::lemma_sum_part(before.values(), f, i as int);
            }
            let n: u32 = *self.live.value_at(i);
            if n == 1 {
                self.live.remove(key);
                proof {
                    lemma_sum_vacated(before.values(), f, i as int);
                    assert(self.live.values() == crate::multi::vacated(before.values(), i as int));
                }
            } else {
                let mut less: u32 = n - 1;
                self.live.swap_at(i, &mut less);
                proof {
                    lemma_sum_update(before.values(), f, i as int, (n - 1) as u32);
                }
            }
            self.open = self.open - 1;
        }
    }

    /// Claims the right to log a refusal at a limit: one a minute.
    fn due_warning(&mut self, now: u32)
        requires
            old(self).wf(),
        ensures
            final(self).wf(),
            ({
                let g = old(self)@;
                let stamp: u32 = if now == u32::MAX { now } else { (now + 1) as u32 };
                final(self)@ == if g.warned != 0 && stamp < crate::probe::terms::plus(g.warned, WARN_EVERY) {
                    g
                } else {
                    GuardV { warned: stamp, unwarned: 0, due: Some(g.unwarned), ..g }
                }
            }),
    {
        let stamp: u32 = now.saturating_add(1);
        if self.warned != 0 && stamp < self.warned.saturating_add(WARN_EVERY) {
            return;
        }
        self.warned = stamp;
        self.due = Some(self.unwarned);
        self.unwarned = 0;
    }

    /// Counts a refusal at a limit.
    fn refuse_busy(&mut self, now: u32)
        requires
            old(self).wf(),
        ensures
            final(self).wf(),
            final(self)@ == busy(old(self)@, now),
    {
        self.refused_busy = self.refused_busy.wrapping_add(1);
        self.unwarned = self.unwarned.wrapping_add(1);
        self.due_warning(now);
    }

    /// Takes the count of refusals at a limit that is due for logging.
    pub fn take_warning(&mut self) -> (r: Option<u64>)
        requires
            old(self).wf(),
        ensures
            final(self).wf(),
            r == old(self)@.due,
            final(self)@ == (GuardV { due: None, ..old(self)@ }),
    {
        let r = self.due;
        self.due = None;
        r
    }

    /// Takes a handshake slot against `max`, counting it whoever it is for.
    fn take_handshake(&mut self, max: usize) -> (r: Option<HandshakeSlot>)
        requires
            old(self).wf(),
            old(self)@.handshakes < usize::MAX,
        ensures
            final(self).wf(),
            if max == 0 || old(self)@.handshakes < max {
                (r matches Some(s) && s.holds()) && final(self)@ == (GuardV {
                    handshakes: old(self)@.handshakes + 1,
                    ..old(self)@
                })
            } else {
                r is None && final(self)@ == old(self)@
            },
    {
        if max == 0 || self.handshakes < max {
            self.handshakes = self.handshakes + 1;
            Some(HandshakeSlot { counted: true })
        } else {
            None
        }
    }

    /// Takes one of the handshake slots for a handshake from `ip`, held until
    /// it is finished. An exempt source is given a slot that counts nothing.
    pub fn handshake(&mut self, ip: Ip, now: u32) -> (r: Option<HandshakeSlot>)
        requires
            old(self).wf(),
            old(self)@.handshakes < usize::MAX,
        ensures
            final(self).wf(),
            ({
                let g = old(self)@;
                if exempts(g.cfg, ip) {
                    (r matches Some(s) && !s.holds()) && final(self)@ == g
                } else if slot_free(g) {
                    (r matches Some(s) && s.holds()) && final(self)@ == (GuardV { handshakes: g.handshakes + 1, ..g })
                } else {
                    r is None && final(self)@ == busy(g, now)
                }
            }),
    {
        if exempt(&self.cfg, ip) {
            return Some(HandshakeSlot { counted: false });
        }
        let max = self.cfg.max_handshakes;
        let slot = self.take_handshake(max);
        if slot.is_none() {
            self.refuse_busy(now);
        }
        slot
    }

    /// Takes a handshake slot for an address nobody has proved yet. It is
    /// counted even when the address claims to be exempt.
    pub fn unproven_handshake(&mut self) -> (r: Option<HandshakeSlot>)
        requires
            old(self).wf(),
            old(self)@.handshakes < usize::MAX,
        ensures
            final(self).wf(),
            ({
                let g = old(self)@;
                if slot_free(g) {
                    (r matches Some(s) && s.holds()) && final(self)@ == (GuardV { handshakes: g.handshakes + 1, ..g })
                } else {
                    r is None && final(self)@ == g
                }
            }),
    {
        let max = if self.cfg.strikes == 0 {
            0
        } else {
            self.cfg.max_handshakes
        };
        self.take_handshake(max)
    }

    /// Gives back a handshake slot.
    pub fn finish_handshake(&mut self, slot: HandshakeSlot)
        requires
            old(self).wf(),
            slot.holds() ==> old(self)@.handshakes > 0,
        ensures
            final(self).wf(),
            final(self)@ == if slot.holds() {
                GuardV { handshakes: (old(self)@.handshakes - 1) as nat, ..old(self)@ }
            } else {
                old(self)@
            },
    {
        if slot.counted {
            self.handshakes = self.handshakes - 1;
        }
    }

    /// Reports whether half the handshake slots are taken: past that point an
    /// address nobody has proved is asked to prove itself first.
    pub fn handshakes_scarce(&self) -> (r: bool)
        requires
            self.wf(),
        ensures
            r == scarce(self@),
    {
        let max = self.cfg.max_handshakes;
        self.cfg.strikes != 0 && max != 0 && self.handshakes >= max / 2
    }

    /// Records how one finished connection from `ip` behaved, where `served`
    /// is the number of queries it was answered.
    pub fn record(&mut self, ip: Ip, served: u32, now: u32) -> (r: Option<Penalty>)
        requires
            old(self).wf(),
        ensures
            final(self).wf(),
            if served == 0 {
                charges(old(self)@, final(self)@, ip, now, false) && told_of(r, old(self)@, final(self)@, ip)
            } else {
                r is None && final(self)@ == cleared(old(self)@, ip, now)
            },
    {
        if served == 0 {
            self.wasted(ip, now)
        } else {
            self.served(ip, now);
            None
        }
    }

    /// Records that a connection from `ip` answered at least one query.
    ///
    /// That clears everything held against the source, except a penalty being
    /// served, which only runs out.
    pub fn served(&mut self, ip: Ip, now: u32)
        requires
            old(self).wf(),
        ensures
            final(self).wf(),
            final(self)@ == cleared(old(self)@, ip, now),
    {
        let s = match self.judged(ip) {
            None => {
                return;
            },
            Some(s) => s,
        };
        if self.serving(s, now) {
            return;
        }
        proof {
            self.marks.lemma_positions();
        }
        self.marks.remove(s.key());
        proof {
            self.marks.lemma_positions();
        }
    }

    /// Records that a connection from `ip` closed without asking anything.
    ///
    /// The caller must only report an address the transport has proved.
    pub fn wasted(&mut self, ip: Ip, now: u32) -> (r: Option<Penalty>)
        requires
            old(self).wf(),
        ensures
            final(self).wf(),
            charges(old(self)@, final(self)@, ip, now, false),
            told_of(r, old(self)@, final(self)@, ip),
    {
        self.charge(ip, now, false)
    }

    /// Holds one strike against `ip` for something short of a query, worth
    /// exactly one wasted connection.
    pub fn strike(&mut self, ip: Ip, now: u32) -> (r: Option<Penalty>)
        requires
            old(self).wf(),
        ensures
            final(self).wf(),
            charges(old(self)@, final(self)@, ip, now, false),
            told_of(r, old(self)@, final(self)@, ip),
    {
        self.charge(ip, now, false)
    }

    /// Refuses `ip` at once, for something only a hostile client does.
    pub fn condemn(&mut self, ip: Ip, now: u32) -> (r: Option<Penalty>)
        requires
            old(self).wf(),
        ensures
            final(self).wf(),
            charges(old(self)@, final(self)@, ip, now, true),
            told_of(r, old(self)@, final(self)@, ip),
    {
        self.charge(ip, now, true)
    }

    /// Sweeps the table.
    fn clean_up(&mut self, now: u32, t: &Terms)
        requires
            old(self).wf(),
            *t == terms_of(old(self)@.cfg),
        ensures
            final(self).wf(),
            swept(old(self)@.marks, final(self)@.marks, now, *t),
            final(self)@.marks.len() < MAX_TRACKED,
            final(self)@ == (GuardV {
                marks: final(self)@.marks,
                sweep_at: next_sweep(final(self)@.marks.len() as int) as nat,
                swept: now,
                ..old(self)@
            }),
    {
        let ghost before = self.marks@;
        sweep(&mut self.marks, now, t);
        proof {
            crate::probe::sweep::law_sweep_is_fair(before, self.marks@, now, *t);
            assert forall|k: (u8, u128)| #[trigger] self.marks@.contains_key(k) implies self.marks@[k].strikes
                < u32::MAX by {
                assert(before.dom().contains(k) && before[k] == self.marks@[k]);
                assert(before.contains_key(k));
            }
        }
        let len: usize = self.marks.len();
        self.sweep_at = if 2 * len < SWEEP_AT {
            SWEEP_AT
        } else if 2 * len > MAX_TRACKED {
            MAX_TRACKED
        } else {
            2 * len
        };
        self.swept = now;
    }

    /// Holds a strike, or a condemnation, against `ip`.
    fn charge(&mut self, ip: Ip, now: u32, condemned: bool) -> (r: Option<Penalty>)
        requires
            old(self).wf(),
        ensures
            final(self).wf(),
            charges(old(self)@, final(self)@, ip, now, condemned),
            told_of(r, old(self)@, final(self)@, ip),
    {
        let s = match self.judged(ip) {
            None => {
                return None;
            },
            Some(s) => s,
        };
        let t = Terms::of(&self.cfg);
        let ghost g = self@;
        let key = s.key();
        if (self.marks.len() >= self.sweep_at && !self.marks.contains(key)) || now.saturating_sub(self.swept)
            >= SWEEP_EVERY {
            self.clean_up(now, &t);
        }
        let ghost marks = self.marks@;
        let mut m: Mark = match self.marks.get(key) {
            Some(m) => *m,
            None => Mark::new(now),
        };
        assert(m == mark_or_clean(marks, key, now));
        let penalised = charge_mark(&mut m, now, &t, condemned);
        proof {
            self.marks.lemma_positions();
        }
        self.marks.insert(key, m);
        proof {
            self.marks.lemma_positions();
            assert(self@.marks == marks.insert(key, m));
        }
        if penalised {
            self.penalties = self.penalties.wrapping_add(1);
            if condemned {
                self.condemned = self.condemned.wrapping_add(1);
            }
        }
        proof {
            assert(self@ =~= after_charge(g, marks, key, now, condemned));
        }
        if penalised {
            Some(Penalty { offence: m.offences, seconds: t.penalty_for(m.offences) })
        } else {
            None
        }
    }

    /// Reports whether `ip` is one the guard leaves alone for what it is,
    /// whether or not the guard is switched on.
    pub fn exempts(&self, ip: Ip) -> (r: bool)
        ensures
            r == spares(self@.cfg, ip),
    {
        spared(&self.cfg, ip)
    }

    /// The source `ip` is judged as, for another defence to key its own
    /// per-source state by.
    pub fn source(&self, ip: Ip) -> (r: Source)
        ensures
            r@ == source_of(self@.cfg, ip),
    {
        source_under(&self.cfg, ip)
    }

    /// Reports how a connection from `ip` would fare in [`Guard::open`],
    /// without charging it anything.
    pub fn standing(&mut self, ip: Ip, now: u32) -> (r: Result<(), Refused>)
        requires
            old(self).wf(),
        ensures
            final(self).wf(),
            ({
                let g = old(self)@;
                let key = source_of(g.cfg, ip);
                if exempts(g.cfg, ip) {
                    r == Ok::<(), Refused>(()) && final(self)@ == g
                } else if refused(g, key, now) {
                    r == Err::<(), Refused>(Refused::Banned) && final(self)@ == (GuardV {
                        refused_banned: up(g.refused_banned),
                        ..g
                    })
                } else if full(g, key) {
                    r == Err::<(), Refused>(Refused::Busy) && final(self)@ == g
                } else {
                    r == Ok::<(), Refused>(()) && final(self)@ == g
                }
            }),
    {
        let s = match self.judged(ip) {
            None => {
                return Ok(());
            },
            Some(s) => s,
        };
        if self.serving(s, now) {
            self.refused_banned = self.refused_banned.wrapping_add(1);
            return Err(Refused::Banned);
        }
        if self.at_limit(s) {
            return Err(Refused::Busy);
        }
        Ok(())
    }

    /// Counts a QUIC Retry sent.
    pub fn retried(&mut self)
        requires
            old(self).wf(),
        ensures
            final(self).wf(),
            final(self)@ == (GuardV { retried: up(old(self)@.retried), ..old(self)@ }),
    {
        self.retried = self.retried.wrapping_add(1);
    }

    /// The number of sources in the table.
    pub fn watched(&self) -> (r: usize)
        requires
            self.wf(),
        ensures
            r == self@.marks.len(),
    {
        self.marks.len()
    }

    /// What the guard has seen.
    pub fn stats(&self, now: u32) -> (r: Stats)
        requires
            self.wf(),
        ensures
            r.watched == self@.marks.dom().filter(|k: (u8, u128)| holds_against(self@, k, now)).len(),
            r.banned == self@.marks.dom().filter(|k: (u8, u128)| refused(self@, k, now)).len(),
            r.open == self@.open,
            r.sources == self@.live.len(),
            r.handshakes == self@.handshakes,
            r.refused_banned == self@.refused_banned,
            r.refused_busy == self@.refused_busy,
            r.penalties == self@.penalties,
            r.condemned == self@.condemned,
            r.retried == self@.retried,
    {
        let ghost ks = self.marks.keys();
        let ghost bad = |k: (u8, u128)| refused(self@, k, now);
        let ghost known = |k: (u8, u128)| holds_against(self@, k, now);
        let t = Terms::of(&self.cfg);
        let n: usize = self.marks.len();
        let mut watched: usize = 0;
        let mut banned: usize = 0;
        let mut i: usize = 0;
        proof {
            self.marks.lemma_positions();
            assert(ks.take(0).to_set().filter(bad) =~= Set::<(u8, u128)>::empty());
            assert(ks.take(0).to_set().filter(known) =~= Set::<(u8, u128)>::empty());
        }
        while i < n
            invariant
                self.wf(),
                self.marks.wf(),
                ks == self.marks.keys(),
                ks.no_duplicates(),
                n == ks.len(),
                i <= n,
                bad == (|k: (u8, u128)| refused(self@, k, now)),
                known == (|k: (u8, u128)| holds_against(self@, k, now)),
                t == terms_of(self@.cfg),
                watched <= i,
                watched == ks.take(i as int).to_set().filter(known).len(),
                banned <= i,
                banned == ks.take(i as int).to_set().filter(bad).len(),
            decreases n - i,
        {
            proof {
                self.marks.lemma_positions();
                let k = ks[i as int];
                let before = ks.take(i as int);
                let after = ks.take(i + 1);
                before.unique_seq_to_set();
                assert(after =~= before.push(k));
                assert(after.to_set() =~= before.to_set().insert(k)) by {
                    before.lemma_push_to_set_commute(k);
                }
                assert(!before.contains(k)) by {
                    if before.contains(k) {
                        let j = before.index_of(k);
                        assert(ks[j] == ks[i as int]);
                    }
                }
                if bad(k) {
                    assert(after.to_set().filter(bad) =~= before.to_set().filter(bad).insert(k));
                } else {
                    assert(after.to_set().filter(bad) =~= before.to_set().filter(bad));
                }
                if known(k) {
                    assert(after.to_set().filter(known) =~= before.to_set().filter(known).insert(k));
                } else {
                    assert(after.to_set().filter(known) =~= before.to_set().filter(known));
                }
                assert(self@.marks.contains_key(k));
            }
            if self.marks.value_at(i).worth_keeping(now, &t) {
                watched = watched + 1;
            }
            if self.marks.value_at(i).banned(now) {
                banned = banned + 1;
            }
            i = i + 1;
        }
        proof {
            assert(ks.take(n as int) =~= ks);
        }
        Stats {
            watched,
            banned,
            open: self.open,
            sources: self.live.len(),
            handshakes: self.handshakes,
            refused_banned: self.refused_banned,
            refused_busy: self.refused_busy,
            penalties: self.penalties,
            condemned: self.condemned,
            retried: self.retried,
        }
    }

    /// Forgets every source. The connections open now stay counted.
    pub fn clear(&mut self)
        requires
            old(self).wf(),
        ensures
            final(self).wf(),
            final(self)@ == (GuardV { marks: Map::empty(), sweep_at: SWEEP_AT as nat, ..old(self)@ }),
    {
        self.marks = IntTable::new();
        self.sweep_at = SWEEP_AT;
        proof {
            self.marks.lemma_positions();
        }
    }
}

/// Being turned away because the server is busy is never held against a
/// source, and charges nothing.
pub proof fn law_busy_is_no_offence(g: GuardV, now: u32)
    ensures
        busy(g, now).marks == g.marks,
        busy(g, now).live == g.live,
        busy(g, now).open == g.open,
        busy(g, now).penalties == g.penalties,
{
}

/// A query answered while a penalty is being served lifts nothing.
pub proof fn law_answer_lifts_no_penalty(g: GuardV, ip: Ip, now: u32)
    requires
        refused(g, source_of(g.cfg, ip), now),
    ensures
        cleared(g, ip, now) == g,
{
}

/// An answered query clears everything held against a source that is not
/// serving a penalty, and nothing else.
pub proof fn law_answer_clears(g: GuardV, ip: Ip, now: u32)
    requires
        !exempts(g.cfg, ip),
        !refused(g, source_of(g.cfg, ip), now),
    ensures
        !cleared(g, ip, now).marks.contains_key(source_of(g.cfg, ip)),
        forall|k: (u8, u128)|
            k != source_of(g.cfg, ip) ==> cleared(g, ip, now).marks.contains_key(k) == #[trigger] g.marks.contains_key(k),
{
}

/// An exempt address is never charged.
pub proof fn law_exempt_is_left_alone(a: GuardV, b: GuardV, ip: Ip, now: u32, condemned: bool)
    requires
        exempts(a.cfg, ip),
        charges(a, b, ip, now, condemned),
    ensures
        b == a,
{
}

/// A source that is being refused is not charged again, whatever it does,
/// and stays refused. At most the table is swept on the way, which changes
/// nothing of this source unless the table is too large to keep every source
/// that something is held against.
pub proof fn law_refused_is_not_charged(a: GuardV, b: GuardV, ip: Ip, now: u32, condemned: bool)
    requires
        !exempts(a.cfg, ip),
        refused(a, source_of(a.cfg, ip), now),
        since(now, a.swept) < SWEEP_EVERY || kept_marks(a.marks, now, terms_of(a.cfg)).len() < MAX_TRACKED,
        charges(a, b, ip, now, condemned),
    ensures
        refused(b, source_of(a.cfg, ip), now),
        b.marks[source_of(a.cfg, ip)] == a.marks[source_of(a.cfg, ip)],
        since(now, a.swept) < SWEEP_EVERY ==> b == a,
        b == (GuardV { marks: b.marks, sweep_at: b.sweep_at, swept: b.swept, ..a }),
        b.marks == a.marks || b.marks == kept_marks(a.marks, now, terms_of(a.cfg)),
{
    let key = source_of(a.cfg, ip);
    let t = terms_of(a.cfg);
    if sweep_due(a, key, now) {
        let marks = choose|marks: Map<(u8, u128), Mark>| #[trigger]
            swept(a.marks, marks, now, t) && b == after_charge(a, marks, key, now, condemned);
        assert(marks == kept_marks(a.marks, now, t));
        assert(marks.contains_key(key) && marks[key] == a.marks[key]);
        assert(b.marks =~= marks);
    } else {
        assert(b.marks =~= a.marks);
    }
}

/// Condemning a source that is not being refused refuses it at once.
pub proof fn law_condemned_is_refused(a: GuardV, b: GuardV, ip: Ip, now: u32)
    requires
        !exempts(a.cfg, ip),
        charges(a, b, ip, now, true),
        terms_of(a.cfg).penalty > 0,
        now < u32::MAX,
    ensures
        refused(b, source_of(a.cfg, ip), now),
{
    let key = source_of(a.cfg, ip);
    let t = terms_of(a.cfg);
    let marks = if sweep_due(a, key, now) {
        choose|marks: Map<(u8, u128), Mark>| #[trigger]
            swept(a.marks, marks, now, t) && b == after_charge(a, marks, key, now, true)
    } else {
        a.marks
    };
    let m = mark_or_clean(marks, key, now);
    if !is_banned(m, now) {
        crate::probe::terms::law_penalty_refuses(m, now, t, true);
    }
}

/// What a ticket took, releasing it gives back: the guard is as it was before
/// the connection was opened, whatever its configuration has become.
pub proof fn law_release_gives_back(g: GuardV, key: (u8, u128))
    requires
        g.live.contains_key(key) ==> g.live[key] > 0,
        held(g, key) < u32::MAX,
    ensures
        ({
            let taken = g.live.insert(key, (held(g, key) + 1) as u32);
            g.live == if taken[key] == 1 {
                taken.remove(key)
            } else {
                taken.insert(key, (taken[key] - 1) as u32)
            }
        }),
{
    let taken = g.live.insert(key, (held(g, key) + 1) as u32);
    let back = if taken[key] == 1 {
        taken.remove(key)
    } else {
        taken.insert(key, (taken[key] - 1) as u32)
    };
    assert(back =~= g.live);
}

/// A global IPv6 address that has a /64 of its own kind: not multicast, not
/// mapped from IPv4, not local and not a relay's.
pub open spec fn has_own_64(ip: Ip) -> bool {
    match ip {
        Ip::V4(_) => false,
        Ip::V6(a) => {
            &&& a / 0x0100_0000_0000_0000_0000_0000_0000_0000 != 0xff
            &&& a / 0x1_0000_0000 != 0xffff
            &&& !on_this_network(ip)
            &&& a / 0x0001_0000_0000_0000_0000_0000_0000 != 0x2001_0000
        },
    }
}

/// The /64 of an address.
pub open spec fn net_64(ip: Ip) -> (Ip, u8) {
    match ip {
        Ip::V4(a) => (ip, 64),
        Ip::V6(a) => (Ip::V6((a - a % 0x1_0000_0000_0000_0000) as u128), 64),
    }
}

/// The /64 of each global IPv6 address among `addrs`, once each, in the order
/// first seen.
pub open spec fn own_networks(addrs: Seq<Ip>) -> Seq<(Ip, u8)>
    decreases addrs.len(),
{
    if addrs.len() == 0 {
        Seq::empty()
    } else {
        let before = own_networks(addrs.drop_last());
        let ip = addrs.last();
        if has_own_64(ip) && !before.contains(net_64(ip)) {
            before.push(net_64(ip))
        } else {
            before
        }
    }
}

fn has_net(nets: &Vec<(Ip, u8)>, net: (Ip, u8)) -> (r: bool)
    ensures
        r == nets@.contains(net),
{
    let mut i: usize = 0;
    while i < nets.len()
        invariant
            i <= nets@.len(),
            forall|k: int| 0 <= k < i ==> nets@[k] != net,
        decreases nets@.len() - i,
    {
        if nets[i].0 == net.0 && nets[i].1 == net.1 {
            assert(nets@[i as int] == net);
            return true;
        }
        i = i + 1;
    }
    false
}

/// This host's own IPv6 /64s: the /64 of each global IPv6 address among
/// `addrs`, once each, in the order first seen.
pub fn host_networks(addrs: &Vec<Ip>) -> (r: Vec<(Ip, u8)>)
    ensures
        r@ == own_networks(addrs@),
{
    let mut out: Vec<(Ip, u8)> = Vec::new();
    let mut i: usize = 0;
    assert(addrs@.take(0) =~= Seq::<Ip>::empty());
    while i < addrs.len()
        invariant
            i <= addrs@.len(),
            out@ == own_networks(addrs@.take(i as int)),
        decreases addrs@.len() - i,
    {
        let ip = addrs[i];
        proof {
            assert(addrs@.take(i + 1).drop_last() =~= addrs@.take(i as int));
            assert(addrs@.take(i + 1).last() == ip);
        }
        if let Ip::V6(a) = ip {
            let teredo = a / 0x0001_0000_0000_0000_0000_0000_0000 == 0x2001_0000;
            let multicast = a / 0x0100_0000_0000_0000_0000_0000_0000_0000 == 0xff;
            let mapped = a / 0x1_0000_0000 == 0xffff;
            if !multicast && !mapped && !is_local(ip) && !teredo {
                let net = (Ip::V6(a - a % 0x1_0000_0000_0000_0000), 64u8);
                if !has_net(&out, net) {
                    out.push(net);
                }
            }
        }
        i = i + 1;
    }
    assert(addrs@.take(i as int) =~= addrs@);
    out
}

} // verus!
