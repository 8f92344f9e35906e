//! Each source's share of the queries being answered at once.

use vstd::prelude::*;

use crate::ip::Ip;
use crate::probe::Guard;
use crate::probe::terms::{Source, source_of, spares};
use crate::table::ints::IntTable;

verus! {

/// Queries one source may have being answered at once on the stream
/// transports.
pub const IN_FLIGHT_PER_SOURCE: u32 = 32;

/// What one source holds.
#[derive(Clone, Copy, Debug, PartialEq, Eq, Structural)]
pub struct Share {
    /// Queries in hand: being answered, or waiting to be.
    pub holders: u64,
    /// Those of them that hold a slot.
    pub taken: u32,
}

/// Whether a share is in bounds: somebody holds it, and no more slots are
/// taken than there are.
pub open spec fn in_bounds(s: Share) -> bool {
    s.holders > 0 && s.taken <= s.holders && s.taken <= IN_FLIGHT_PER_SOURCE
}

/// The queries in flight, by source. The table holds the sources with a query
/// in hand, not every source ever seen.
pub struct InFlight {
    sources: IntTable<Share>,
}

impl InFlight {
    /// What each source holds.
    pub closed spec fn view(&self) -> Map<(u8, u128), Share> {
        self.sources@
    }

    /// Every source in the table holds something, within its bounds.
    pub closed spec fn wf(&self) -> bool {
        &&& self.sources.wf()
        &&& forall|k: (u8, u128)| #[trigger] self@.contains_key(k) ==> in_bounds(self@[k])
    }

    /// Every share in the table is in bounds.
    pub proof fn law_shares_are_bounded(&self, k: (u8, u128))
        requires
            self.wf(),
            self@.contains_key(k),
        ensures
            in_bounds(self@[k]),
    {
    }

    /// A table with no query in flight.
    pub fn new() -> (r: Self)
        ensures
            r.wf(),
            r@ == Map::<(u8, u128), Share>::empty(),
    {
        let r = InFlight { sources: IntTable::new() };
        assert(r@ =~= Map::<(u8, u128), Share>::empty());
        r
    }

    /// The number of sources with something in hand.
    pub fn sources(&self) -> (r: usize)
        requires
            self.wf(),
        ensures
            r == self@.dom().len(),
            self@.dom().finite(),
    {
        proof {
            self.sources.lemma_positions();
        }
        self.sources.len()
    }

    /// Takes a query of `s` in hand, before it waits for a slot.
    pub fn join(&mut self, s: Source)
        requires
            old(self).wf(),
            old(self)@.contains_key(s@) ==> old(self)@[s@].holders < u64::MAX,
        ensures
            final(self).wf(),
            final(self)@ == old(self)@.insert(
                s@,
                if old(self)@.contains_key(s@) {
                    Share { holders: (old(self)@[s@].holders + 1) as u64, ..old(self)@[s@] }
                } else {
                    Share { holders: 1, taken: 0 }
                },
            ),
    {
        let sh = match self.sources.get(s.key()) {
            Some(sh) => Share { holders: sh.holders + 1, taken: sh.taken },
            None => Share { holders: 1, taken: 0 },
        };
        self.sources.insert(s.key(), sh);
    }

    /// Takes a query from `ip` in hand: the source whose slot it is to wait
    /// for, or `None` where the guard exempts `ip` and it counts against
    /// nothing. Who is exempt and what counts as one source mean here exactly
    /// what they mean to the guard.
    pub fn enter(&mut self, guard: &Guard, ip: Ip) -> (r: Option<Source>)
        requires
            old(self).wf(),
            forall|k: (u8, u128)| #[trigger] old(self)@.contains_key(k) ==> old(self)@[k].holders < u64::MAX,
        ensures
            final(self).wf(),
            r is None == spares(guard@.cfg, ip),
            r is None ==> final(self)@ == old(self)@,
            r matches Some(s) ==> {
                let k = source_of(guard@.cfg, ip);
                &&& s@ == k
                &&& final(self)@ == old(self)@.insert(
                    k,
                    if old(self)@.contains_key(k) {
                        Share { holders: (old(self)@[k].holders + 1) as u64, ..old(self)@[k] }
                    } else {
                        Share { holders: 1, taken: 0 }
                    },
                )
            },
    {
        if guard.exempts(ip) {
            return None;
        }
        let s = guard.source(ip);
        self.join(s);
        Some(s)
    }

    /// Takes one of the slots of `s` for a query in hand that has none, if
    /// one is free.
    pub fn take(&mut self, s: Source) -> (r: bool)
        requires
            old(self).wf(),
            old(self)@.contains_key(s@),
            old(self)@[s@].taken < old(self)@[s@].holders,
        ensures
            final(self).wf(),
            r == (old(self)@[s@].taken < IN_FLIGHT_PER_SOURCE),
            final(self)@ == if r {
                old(self)@.insert(s@, Share { taken: (old(self)@[s@].taken + 1) as u32, ..old(self)@[s@] })
            } else {
                old(self)@
            },
    {
        match self.sources.get(s.key()) {
            None => false,
            Some(sh) => {
                let sh: Share = *sh;
                if sh.taken < IN_FLIGHT_PER_SOURCE {
                    self.sources.insert(s.key(), Share { holders: sh.holders, taken: sh.taken + 1 });
                    true
                } else {
                    false
                }
            },
        }
    }

    /// Gives back a query of `s`, with its slot where it has one. The last
    /// one takes its source out of the table.
    pub fn leave(&mut self, s: Source, slot: bool)
        requires
            old(self).wf(),
            old(self)@.contains_key(s@),
            slot ==> old(self)@[s@].taken > 0,
            !slot ==> old(self)@[s@].taken < old(self)@[s@].holders,
        ensures
            final(self).wf(),
            final(self)@ == if old(self)@[s@].holders == 1 {
                old(self)@.remove(s@)
            } else {
                old(self)@.insert(
                    s@,
                    Share {
                        holders: (old(self)@[s@].holders - 1) as u64,
                        taken: (old(self)@[s@].taken - if slot {
                            1int
                        } else {
                            0int
                        }) as u32,
                    },
                )
            },
    {
        match self.sources.get(s.key()) {
            None => {},
            Some(sh) => {
                let sh: Share = *sh;
                if sh.holders == 1 {
                    self.sources.remove(s.key());
                } else {
                    let taken: u32 = if slot {
                        sh.taken - 1
                    } else {
                        sh.taken
                    };
                    self.sources.insert(s.key(), Share { holders: sh.holders - 1, taken });
                }
            },
        }
    }
}

/// A query that came and went leaves the table as it was.
pub proof fn law_leaving_undoes_joining(m: Map<(u8, u128), Share>, k: (u8, u128))
    requires
        m.contains_key(k) ==> 0 < m[k].holders < u64::MAX,
    ensures
        ({
            let sh = if m.contains_key(k) {
                Share { holders: (m[k].holders + 1) as u64, ..m[k] }
            } else {
                Share { holders: 1, taken: 0 }
            };
            let joined = m.insert(k, sh);
            m == if joined[k].holders == 1 {
                joined.remove(k)
            } else {
                joined.insert(k, Share { holders: (joined[k].holders - 1) as u64, taken: joined[k].taken })
            }
        }),
{
    let sh = if m.contains_key(k) {
        Share { holders: (m[k].holders + 1) as u64, ..m[k] }
    } else {
        Share { holders: 1, taken: 0 }
    };
    let joined = m.insert(k, sh);
    if m.contains_key(k) {
        assert(joined.insert(k, m[k]) =~= m);
    } else {
        assert(joined.remove(k) =~= m);
    }
}

} // verus!
