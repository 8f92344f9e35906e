//! One shard of the cache.

use std::collections::VecDeque;

use vstd::prelude::*;

use crate::cache::key::{Key, key_bytes};
use crate::cache::model::{
    COMPACT_SLACK, Config, ENTRY_SLOTS, EntryV, Freshness, HitV, NAME_COUNTS, REFRESH_MIN_HITS, ShardV, age_of, aged,
    aged_records, aged_ttl, compacted, dropped, evicted, hits_after, in_order, is_expired, is_live, law_dropping,
    law_eviction_fits, law_looking_up, law_releasing, law_storing, lemma_pop, lemma_total_part, looked_up,
    records_with_ttl, released, secs_of, servable, served, shard_ok, stored, wants_refresh, with_ttl,
};
use crate::message::{Message, Record, RecordV, copy_bytes, records_of};
use crate::packed::{Packed, no_response, packed};
use crate::probe::terms::Span;
use crate::table::bytes::ByteTable;

verus! {

/// A cached response.
#[derive(Debug)]
pub struct Entry {
    msg: Packed,
    stored: u64,
    ttl: u32,
    weight: usize,
    hits: u8,
    refreshing: bool,
    seq: u64,
}

impl Entry {
    /// The entry, with its parts as plain values.
    pub closed spec fn view(&self) -> EntryV {
        EntryV {
            msg: self.msg@,
            stored: self.stored,
            ttl: self.ttl,
            weight: self.weight as nat,
            hits: self.hits,
            refreshing: self.refreshing,
            seq: self.seq,
        }
    }

    /// How long ago the entry was stored, in milliseconds.
    fn age(&self, now: u64) -> (r: u64)
        ensures
            r == age_of(self@, now),
    {
        now.wrapping_sub(self.stored)
    }

    /// Whether the entry has outlived its TTL.
    fn expired(&self, now: u64) -> (r: bool)
        ensures
            r == is_expired(self@, now),
    {
        self.age(now) >= self.ttl as u64 * 1000
    }

    /// Whether the entry may be served.
    fn may_serve(&self, cfg: &Config, now: u64) -> (r: bool)
        ensures
            r == servable(*cfg, self@, now),
    {
        if !self.expired(now) {
            return true;
        }
        let over: u128 = (self.age(now) - self.ttl as u64 * 1000) as u128 * 1_000_000;
        let most: u128 = cfg.optimistic_max_age.secs as u128 * 1_000_000_000 + cfg.optimistic_max_age.nanos as u128;
        cfg.optimistic && over <= most
    }

    /// Whether a lookup should start a refresh, where the hits are those
    /// after it.
    fn to_refresh(&self, cfg: &Config, now: u64, hits: u8) -> (r: bool)
        requires
            hits == hits_after(self@),
        ensures
            r == wants_refresh(*cfg, self@, now),
    {
        if self.refreshing {
            return false;
        }
        if self.expired(now) {
            return true;
        }
        let left: u64 = self.ttl as u64 * 1000 - self.age(now);
        cfg.optimistic && hits >= REFRESH_MIN_HITS && (left <= 1000 || left <= self.ttl as u64 * 100)
    }
}

/// What a lookup found.
#[derive(Debug)]
pub struct Hit {
    /// The stored response, with its TTLs adjusted for this caller, and
    /// addressed to the request where a cache was asked.
    pub msg: Message,
    /// Whether the entry is still inside its TTL.
    pub freshness: Freshness,
    /// Whether this caller should start a background refresh of the entry.
    /// Whoever is told to must release the claim once it is done.
    pub refresh: bool,
}

impl Hit {
    /// The hit, with its message as plain values.
    pub open spec fn view(&self) -> HitV {
        HitV { msg: self.msg@, freshness: self.freshness, refresh: self.refresh }
    }
}

/// A span in whole seconds, saturating rather than wrapping.
pub fn secs_u32(d: Span) -> (r: u32)
    ensures
        r == secs_of(d),
{
    if d.secs > u32::MAX as u64 {
        u32::MAX
    } else {
        d.secs as u32
    }
}

/// Reduces the TTL of every record in a section.
fn age_section(s: &mut Vec<Record>, secs: u32)
    ensures
        records_of(final(s)@) == aged_records(records_of(old(s)@), secs as int),
{
    let ghost was = records_of(s@);
    let n: usize = s.len();
    let mut i: usize = 0;
    while i < n
        invariant
            i <= n,
            n == s@.len(),
            was.len() == n,
            forall|k: int| 0 <= k < i ==> (#[trigger] s@[k])@ == (RecordV { ttl: aged_ttl(was[k].ttl, secs as int), ..was[k] }),
            forall|k: int| i <= k < n ==> (#[trigger] s@[k])@ == was[k],
        decreases n - i,
    {
        assert(s@[i as int]@ == was[i as int]);
        let ttl: u32 = s[i].ttl;
        s[i].ttl = if ttl > secs {
            ttl - secs
        } else {
            1
        };
        i = i + 1;
    }
    assert(records_of(s@) =~= aged_records(was, secs as int)) by {
        assert forall|k: int| 0 <= k < n implies records_of(s@)[k] == aged_records(was, secs as int)[k] by {
            assert(s@[k]@ == (RecordV { ttl: aged_ttl(was[k].ttl, secs as int), ..was[k] }));
        }
    }
}

/// Replaces the TTL of every record in a section.
fn set_section(s: &mut Vec<Record>, secs: u32)
    ensures
        records_of(final(s)@) == records_with_ttl(records_of(old(s)@), secs),
{
    let ghost was = records_of(s@);
    let n: usize = s.len();
    let mut i: usize = 0;
    while i < n
        invariant
            i <= n,
            n == s@.len(),
            was.len() == n,
            forall|k: int| 0 <= k < i ==> (#[trigger] s@[k])@ == (RecordV { ttl: secs, ..was[k] }),
            forall|k: int| i <= k < n ==> (#[trigger] s@[k])@ == was[k],
        decreases n - i,
    {
        assert(s@[i as int]@ == was[i as int]);
        s[i].ttl = secs;
        i = i + 1;
    }
    assert(records_of(s@) =~= records_with_ttl(was, secs)) by {
        assert forall|k: int| 0 <= k < n implies records_of(s@)[k] == records_with_ttl(was, secs)[k] by {
            assert(s@[k]@ == (RecordV { ttl: secs, ..was[k] }));
        }
    }
}

/// Reduces every record's TTL by `secs`, flooring at one second so that a
/// cached answer never claims to be already expired.
pub fn decrement_ttls(m: &mut Message, secs: u32)
    ensures
        final(m)@ == aged(old(m)@, secs as int),
{
    age_section(&mut m.answers, secs);
    age_section(&mut m.authorities, secs);
    age_section(&mut m.additionals, secs);
    assert(m@ =~= aged(old(m)@, secs as int));
}

/// Replaces every record's TTL with `secs`.
pub fn set_ttls(m: &mut Message, secs: u32)
    ensures
        final(m)@ == with_ttl(old(m)@, secs),
{
    set_section(&mut m.answers, secs);
    set_section(&mut m.authorities, secs);
    set_section(&mut m.additionals, secs);
    assert(m@ =~= with_ttl(old(m)@, secs));
}

/// What an entry occupies: its slot in the map, its slot in the eviction
/// order, the packed response, and the key's name, as far as a word holds.
pub open spec fn weight_of(name_len: nat, heap_len: nat) -> int {
    let w = ENTRY_SLOTS + heap_len + name_len + NAME_COUNTS;
    if w > usize::MAX {
        usize::MAX as int
    } else {
        w
    }
}

/// What an entry occupies.
pub fn charge(k: &Key, msg: &Packed) -> (r: usize)
    ensures
        r == weight_of(k@.name.len(), msg@.bytes.len()),
{
    msg.heap_len().saturating_add(k.name.len()).saturating_add(ENTRY_SLOTS + NAME_COUNTS)
}

/// One shard's state.
pub struct Shard {
    map: ByteTable<Entry>,
    order: VecDeque<(u64, Vec<u8>)>,
    bytes: usize,
    budget: usize,
    next_seq: u64,
}

/// Slots, with their keys as sequences.
spec fn slots(s: Seq<(u64, Vec<u8>)>) -> Seq<(u64, Seq<u8>)> {
    s.map_values(|x: (u64, Vec<u8>)| (x.0, x.1@))
}

/// Entries, with their parts as plain values.
spec fn entries(m: Map<Seq<u8>, Entry>) -> Map<Seq<u8>, EntryV> {
    m.map_values(|e: Entry| e@)
}

impl Shard {
    /// The shard's state.
    pub closed spec fn view(&self) -> ShardV {
        ShardV {
            map: entries(self.map@),
            order: slots(self.order@),
            bytes: self.bytes as int,
            budget: self.budget as int,
            next: self.next_seq as int,
        }
    }

    /// Whether the table behind the shard is sound.
    spec fn sound(&self) -> bool {
        self.map.wf()
    }

    /// Whether the shard is in order and within its budget.
    pub closed spec fn wf(&self) -> bool {
        self.sound() && shard_ok(self@)
    }

    /// A shard that holds nothing.
    pub fn new(budget: usize) -> (r: Self)
        ensures
            r.wf(),
            r@ == (ShardV {
                map: Map::empty(),
                order: Seq::empty(),
                bytes: 0,
                budget: budget as int,
                next: 0,
            }),
    {
        let r = Shard { map: ByteTable::new(), order: VecDeque::new(), bytes: 0, budget, next_seq: 0 };
        assert(r@.map =~= Map::<Seq<u8>, EntryV>::empty());
        assert(r@.order =~= Seq::<(u64, Seq<u8>)>::empty());
        assert(crate::cache::model::total(r@.map) == 0);
        r
    }

    /// A shard in order is within its budget.
    pub proof fn law_within_budget(&self)
        requires
            self.wf(),
        ensures
            shard_ok(self@),
            0 <= self@.bytes <= self@.budget <= usize::MAX,
            0 <= self@.next <= u64::MAX,
    {
    }

    /// Whether there is a sequence number left for another entry.
    pub fn has_number(&self) -> (r: bool)
        ensures
            r == (self@.next < u64::MAX),
    {
        self.next_seq < u64::MAX
    }

    /// Whether a slot names a live entry.
    fn live(&self, seq: u64, k: &[u8]) -> (r: bool)
        requires
            self.sound(),
        ensures
            r == is_live(self@.map, (seq, k@)),
    {
        match self.map.get(k) {
            Some(e) => e.seq == seq,
            None => false,
        }
    }

    /// Takes an entry out of the map.
    fn take(&mut self, k: &[u8])
        requires
            old(self).sound(),
            old(self)@.map.contains_key(k@) ==> old(self)@.map[k@].weight <= old(self)@.bytes,
        ensures
            final(self).sound(),
            final(self)@ == (if old(self)@.map.contains_key(k@) {
                ShardV {
                    map: old(self)@.map.remove(k@),
                    bytes: old(self)@.bytes - old(self)@.map[k@].weight,
                    ..old(self)@
                }
            } else {
                old(self)@
            }),
    {
        let ghost was = self@;
        let ghost m = self.map@;
        match self.map.remove(k) {
            Some(e) => {
                assert(e@ == was.map[k@]);
                self.bytes = self.bytes - e.weight;
            },
            None => {},
        }
        assert(entries(m.remove(k@)) =~= entries(m).remove(k@));
        assert(self@ =~= if was.map.contains_key(k@) {
            ShardV { map: was.map.remove(k@), bytes: was.bytes - was.map[k@].weight, ..was }
        } else {
            was
        });
    }

    /// Evicts oldest entries until the shard fits its budget.
    fn evict_to_fit(&mut self)
        requires
            old(self).sound(),
            in_order(old(self)@),
        ensures
            final(self).sound(),
            final(self)@ == evicted(old(self)@),
    {
        let ghost want = evicted(self@);
        loop
            invariant
                self.sound(),
                in_order(self@),
                evicted(self@) == want,
            ensures
                self.sound(),
                self@ == want,
            decreases self.order@.len(),
        {
            if self.bytes <= self.budget {
                break;
            }
            let ghost was = self@;
            let ghost q = self.order@;
            match self.order.pop_front() {
                None => {
                    assert(self.order@.len() == 0);
                    assert(self@.order.len() == 0);
                    break;
                },
                Some((seq, k)) => {
                    proof {
                        assert(was.order[0] == (seq, k@));
                        lemma_pop(was);
                        assert(slots(q.drop_first()) =~= slots(q).drop_first());
                        assert(self@ =~= (ShardV { order: was.order.drop_first(), ..was }));
                    }
                    if self.live(seq, k.as_slice()) {
                        proof {
                            lemma_total_part(was.map, k@);
                        }
                        self.take(k.as_slice());
                    }
                },
            }
        }
    }

    /// Drops the eviction slots that no longer name a live entry, once there
    /// are many of them.
    fn compact_order(&mut self)
        requires
            old(self).sound(),
        ensures
            final(self).sound(),
            final(self)@ == compacted(old(self)@),
    {
        let entries_held: usize = self.map.len();
        let slots_held: usize = self.order.len();
        let ghost was = self@;
        proof {
            self.map.lemma_positions();
            assert(was.map.dom() =~= self.map@.dom());
        }
        let few = entries_held > (usize::MAX - COMPACT_SLACK) / 2 || slots_held <= entries_held * 2 + COMPACT_SLACK;
        if few {
            return;
        }
        let f = Ghost(|slot: (u64, Seq<u8>)| is_live(was.map, slot));
        let ghost o = was.order;
        let mut kept: VecDeque<(u64, Vec<u8>)> = VecDeque::new();
        assert(o.take(0).filter(f@) =~= Seq::empty()) by {
            reveal(Seq::filter);
        }
        assert(slots(kept@) =~= o.take(0).filter(f@));
        let ghost mut i: int = 0;
        loop
            invariant
                self.sound(),
                self@.map == was.map,
                self@.bytes == was.bytes,
                self@.budget == was.budget,
                self@.next == was.next,
                o == was.order,
                0 <= i <= o.len(),
                self@.order == o.skip(i),
                slots(kept@) == o.take(i).filter(f@),
                f@ == (|slot: (u64, Seq<u8>)| is_live(was.map, slot)),
            ensures
                i == o.len(),
            decreases o.len() - i,
        {
            let ghost q = self.order@;
            assert(slots(q) == o.skip(i));
            assert(slots(q).len() == q.len());
            match self.order.pop_front() {
                None => {
                    assert(self@.order.len() == 0);
                    break;
                },
                Some((seq, k)) => {
                    proof {
                        assert(q.len() > 0);
                        assert(slots(q)[0] == (seq, k@));
                        assert(i < o.len());
                        assert(o[i] == o.skip(i)[0]);
                        assert(slots(q.drop_first()) =~= slots(q).drop_first());
                        assert(o.skip(i).drop_first() =~= o.skip(i + 1));
                        let t = o.take(i + 1);
                        assert(t.drop_last() =~= o.take(i));
                        reveal(Seq::filter);
                    }
                    let ghost before = kept@;
                    if self.live(seq, k.as_slice()) {
                        kept.push_back((seq, k));
                        assert(slots(kept@) =~= slots(before).push((seq, k@)));
                    }
                    proof {
                        i = i + 1;
                    }
                },
            }
        }
        assert(o.take(o.len() as int) =~= o);
        self.order = kept;
        assert(self@ =~= compacted(was));
    }

    /// Drops one entry outside of eviction.
    pub fn remove(&mut self, k: &Key)
        requires
            old(self).wf(),
        ensures
            final(self).wf(),
            final(self)@ == dropped(old(self)@, key_bytes(k@)),
    {
        let b = k.bytes();
        self.remove_bytes(b.as_slice());
    }

    fn remove_bytes(&mut self, k: &[u8])
        requires
            old(self).wf(),
        ensures
            final(self).wf(),
            final(self)@ == dropped(old(self)@, k@),
    {
        proof {
            law_dropping(self@, k@);
            if self@.map.contains_key(k@) {
                lemma_total_part(self@.map, k@);
            }
        }
        self.take(k);
        self.compact_order();
    }

    /// An entry that stands in while another is out of the table: it says
    /// nothing, weighs nothing, and was never served.
    fn blank() -> (r: Entry)
        ensures
            r@ == (EntryV {
                msg: packed(no_response()),
                stored: 0,
                ttl: 0,
                weight: 0,
                hits: 0,
                refreshing: false,
                seq: 0,
            }),
    {
        Entry {
            msg: Packed::empty(),
            stored: 0,
            ttl: 0,
            weight: 0,
            hits: 0,
            refreshing: false,
            seq: 0,
        }
    }

    /// Looks an entry up, adjusting its TTLs to the time already elapsed.
    ///
    /// Returns `None` on a miss, or when the entry has expired and may not be
    /// served.
    pub fn get(&mut self, cfg: &Config, k: &Key, now: u64) -> (r: Option<Hit>)
        requires
            old(self).wf(),
        ensures
            final(self).wf(),
            final(self)@ == looked_up(*cfg, old(self)@, key_bytes(k@), now).0,
            match (r, looked_up(*cfg, old(self)@, key_bytes(k@), now).1) {
                (Some(h), Some(v)) => h@ == v,
                (None, None) => true,
                _ => false,
            },
    {
        if cfg.size_bytes == 0 {
            return None;
        }
        let b = k.bytes();
        let ghost was = self@;
        let ghost m = self.map@;
        proof {
            law_looking_up(*cfg, self@, b@, now);
            self.map.lemma_positions();
        }
        let i = match self.map.position(b.as_slice()) {
            None => {
                return None;
            },
            Some(i) => i,
        };
        let e = self.map.value_at(i);
        assert(e@ == was.map[b@]);
        let ghost v = e@;
        if !e.may_serve(cfg, now) {
            self.remove_bytes(b.as_slice());
            return None;
        }
        let mut msg = match e.msg.unpack() {
            Some(x) => x,
            None => {
                self.remove_bytes(b.as_slice());
                return None;
            },
        };
        let expired = e.expired(now);
        let age: u64 = e.age(now);
        let hits: u8 = if e.hits >= REFRESH_MIN_HITS {
            REFRESH_MIN_HITS
        } else {
            e.hits + 1
        };
        let refresh = e.to_refresh(cfg, now, hits);
        let mut out = Self::blank();
        self.map.swap_at(i, &mut out);
        out.hits = hits;
        if refresh {
            out.refreshing = true;
        }
        let ghost after = out;
        self.map.swap_at(i, &mut out);
        proof {
            assert(after@ == served(*cfg, v, now));
            assert(self.map@ =~= m.insert(b@, after));
            assert(entries(m.insert(b@, after)) =~= entries(m).insert(b@, after@));
            assert(self@ =~= looked_up(*cfg, was, b@, now).0);
        }
        if expired {
            set_ttls(&mut msg, secs_u32(cfg.optimistic_answer_ttl));
            Some(Hit { msg, freshness: Freshness::Stale, refresh })
        } else {
            let secs: u32 = (age / 1000) as u32;
            decrement_ttls(&mut msg, secs);
            Some(Hit { msg, freshness: Freshness::Fresh, refresh })
        }
    }

    /// Releases the refresh claim on an entry.
    pub fn end_refresh(&mut self, k: &Key)
        requires
            old(self).wf(),
        ensures
            final(self).wf(),
            final(self)@ == released(old(self)@, key_bytes(k@)),
    {
        let b = k.bytes();
        let ghost was = self@;
        let ghost m = self.map@;
        proof {
            law_releasing(self@, b@);
            self.map.lemma_positions();
        }
        match self.map.position(b.as_slice()) {
            None => {},
            Some(i) => {
                let mut out = Self::blank();
                self.map.swap_at(i, &mut out);
                assert(out@ == was.map[b@]);
                out.refreshing = false;
                let ghost after = out;
                self.map.swap_at(i, &mut out);
                proof {
                    assert(self.map@ =~= m.insert(b@, after));
                    assert(entries(m.insert(b@, after)) =~= entries(m).insert(b@, after@));
                    assert(self@ =~= released(was, b@));
                }
            },
        }
    }

    /// Stores a packed response. One too large for the shard is not stored.
    ///
    /// Returns whether it was.
    pub fn put(&mut self, k: &Key, msg: Packed, ttl: u32, now: u64) -> (r: bool)
        requires
            old(self).wf(),
            old(self)@.next < u64::MAX,
            old(self)@.budget <= usize::MAX / 2,
        ensures
            final(self).wf(),
            r == (weight_of(k@.name.len(), msg@.bytes.len()) <= old(self)@.budget),
            final(self)@ == stored(
                old(self)@,
                key_bytes(k@),
                msg@,
                weight_of(k@.name.len(), msg@.bytes.len()) as nat,
                ttl,
                now,
            ),
    {
        let weight = charge(k, &msg);
        let ghost was = self@;
        if weight > self.budget {
            return false;
        }
        let b = k.bytes();
        proof {
            law_storing(self@, b@, msg@, weight as nat, ttl, now);
            if was.map.contains_key(b@) {
                lemma_total_part(was.map, b@);
            }
        }
        let seq: u64 = self.next_seq;
        self.next_seq = seq + 1;
        let e = Entry { msg, stored: now, ttl, weight, hits: 0, refreshing: false, seq };
        let ghost ev = e@;
        let mut freed: usize = 0;
        match self.map.get(b.as_slice()) {
            Some(x) => {
                assert(x@ == was.map[b@]);
                freed = x.weight;
            },
            None => {},
        }
        let ghost m = self.map@;
        let ghost q = self.order@;
        let filed = copy_bytes(b.as_slice());
        self.map.insert(filed, e);
        self.order.push_back((seq, b));
        self.bytes = self.bytes - freed + weight;
        proof {
            assert(entries(m.insert(b@, e)) =~= entries(m).insert(b@, ev));
            assert(slots(self.order@) =~= slots(q).push((seq, b@)));
            let old_weight = if was.map.contains_key(b@) {
                was.map[b@].weight as int
            } else {
                0
            };
            assert(self@ =~= (ShardV {
                map: was.map.insert(b@, ev),
                order: was.order.push((seq, b@)),
                bytes: was.bytes - old_weight + weight,
                next: was.next + 1,
                ..was
            }));
            crate::cache::model::lemma_with_entry(was, b@, ev);
        }
        self.compact_order();
        self.evict_to_fit();
        true
    }

    /// Gives the shard another budget and trims it to fit.
    pub fn set_budget(&mut self, budget: usize)
        requires
            old(self).wf(),
        ensures
            final(self).wf(),
            final(self)@ == evicted(ShardV { budget: budget as int, ..old(self)@ }),
    {
        let ghost was = self@;
        self.budget = budget;
        proof {
            assert(self@ =~= (ShardV { budget: budget as int, ..was }));
            law_eviction_fits(self@);
        }
        self.evict_to_fit();
    }

    /// Removes every entry.
    pub fn clear(&mut self)
        requires
            old(self).wf(),
        ensures
            final(self).wf(),
            final(self)@ == (ShardV { map: Map::empty(), order: Seq::empty(), bytes: 0, ..old(self)@ }),
    {
        self.map = ByteTable::new();
        self.order = VecDeque::new();
        self.bytes = 0;
        assert(self@.map =~= Map::<Seq<u8>, EntryV>::empty());
        assert(self@.order =~= Seq::<(u64, Seq<u8>)>::empty());
        assert(crate::cache::model::total(self@.map) == 0);
    }

    /// The number of cached entries.
    pub fn len(&self) -> (r: usize)
        requires
            self.wf(),
        ensures
            r == self@.map.len(),
    {
        proof {
            self.map.lemma_positions();
            assert(self@.map.dom() =~= self.map@.dom());
        }
        self.map.len()
    }

    /// The bytes held.
    pub fn bytes(&self) -> (r: usize)
        ensures
            r == self@.bytes,
    {
        self.bytes
    }

    /// The number of eviction slots held.
    pub fn order_len(&self) -> (r: usize)
        ensures
            r == self@.order.len(),
    {
        self.order.len()
    }
}

} // verus!
