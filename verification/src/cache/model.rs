//! What the cache holds, and what becomes of it.

use vstd::prelude::*;

use crate::message::{MessageV, RecordV, least_in, names_valid, readdressed};
use crate::packed::{PackedV, all_records, packed, packs, unpacked};
use crate::probe::terms::Span;

verus! {

/// How many times an entry must be served before it is refreshed ahead of its
/// expiry.
pub const REFRESH_MIN_HITS: u8 = 2;

/// How many dead eviction slots a shard tolerates before compacting.
pub const COMPACT_SLACK: usize = 64;

/// What a key and an entry occupy, with the key's second place in the
/// eviction order, in bytes.
pub const ENTRY_SLOTS: usize = 160;

/// The two reference counts in front of a shared name, in bytes.
pub const NAME_COUNTS: usize = 16;

/// Cache tuning.
#[derive(Clone, Copy, Debug, PartialEq, Eq, Structural)]
pub struct Config {
    /// The total budget in bytes. Zero disables the cache.
    pub size_bytes: usize,
    /// Lower bound applied to a response's TTL, or zero for none.
    pub ttl_min: u32,
    /// Upper bound applied to a response's TTL, or zero for none.
    pub ttl_max: u32,
    /// Whether expired entries may still be served while a refresh runs.
    pub optimistic: bool,
    /// The TTL put on an optimistically served answer.
    pub optimistic_answer_ttl: Span,
    /// How long an expired entry may still be served.
    pub optimistic_max_age: Span,
}

/// How a cached entry stands against its TTL.
#[derive(Clone, Copy, Debug, PartialEq, Eq, Structural)]
pub enum Freshness {
    /// The entry is within its TTL.
    Fresh,
    /// The entry has expired but is being served optimistically.
    Stale,
}

/// A cached response.
pub ghost struct EntryV {
    pub msg: PackedV,
    /// When the entry was stored, in milliseconds since the cache's epoch.
    pub stored: u64,
    /// The TTL the entry was stored with, in seconds.
    pub ttl: u32,
    /// What the entry occupies, in bytes.
    pub weight: nat,
    /// How many times the entry has been served, as far as it matters.
    pub hits: u8,
    /// Whether a background refresh of this entry is already running.
    pub refreshing: bool,
    /// The eviction slot this entry owns.
    pub seq: u64,
}

/// One shard's state.
#[verifier::ext_equal]
pub ghost struct ShardV {
    pub map: Map<Seq<u8>, EntryV>,
    /// Keys in the order they were stored, each with the sequence number of
    /// the entry it was pushed for. A slot may outlive its entry.
    pub order: Seq<(u64, Seq<u8>)>,
    pub bytes: int,
    pub budget: int,
    /// The next sequence number to hand out.
    pub next: int,
}

/// What the entries of a map occupy together.
pub open spec fn total(m: Map<Seq<u8>, EntryV>) -> int
    decreases m.dom().len(),
{
    if m.dom().finite() && m.dom().len() > 0 {
        let k = m.dom().choose();
        m[k].weight + total(m.remove(k))
    } else {
        0
    }
}

/// Whether an eviction slot names a live entry.
pub open spec fn is_live(m: Map<Seq<u8>, EntryV>, slot: (u64, Seq<u8>)) -> bool {
    m.contains_key(slot.1) && m[slot.1].seq == slot.0
}

/// Whether a shard is in order, but for its budget: its bytes are those of
/// its entries, every entry has its slot, and slots are in the order of their
/// numbers, all of them handed out.
pub open spec fn in_order(s: ShardV) -> bool {
    &&& s.map.dom().finite()
    &&& s.bytes == total(s.map)
    &&& forall|k: Seq<u8>| #[trigger] s.map.contains_key(k) ==> s.order.contains((s.map[k].seq, k))
    &&& forall|i: int, j: int| 0 <= i < j < s.order.len() ==> (#[trigger] s.order[i]).0 < (#[trigger] s.order[j]).0
    &&& forall|i: int| 0 <= i < s.order.len() ==> (#[trigger] s.order[i]).0 < s.next
}

/// Whether a shard is in order and within its budget.
pub open spec fn shard_ok(s: ShardV) -> bool {
    &&& in_order(s)
    &&& s.bytes <= s.budget
}

/// Whether every entry is charged for its two slots at least.
pub open spec fn weighty(s: ShardV) -> bool {
    forall|k: Seq<u8>| #[trigger] s.map.contains_key(k) ==> s.map[k].weight >= ENTRY_SLOTS
}

/// Whether every entry unpacks.
pub open spec fn legible(s: ShardV) -> bool {
    forall|k: Seq<u8>| #[trigger] s.map.contains_key(k) ==> unpacked(s.map[k].msg) is Some
}

/// Evicts oldest entries until the shard fits its budget. A slot naming an
/// entry that is gone, or one stored again since, is simply dropped.
pub open spec fn evicted(s: ShardV) -> ShardV
    decreases s.order.len(),
{
    if s.bytes <= s.budget || s.order.len() == 0 {
        s
    } else {
        let slot = s.order[0];
        let rest = ShardV { order: s.order.drop_first(), ..s };
        if is_live(s.map, slot) {
            evicted(ShardV { map: s.map.remove(slot.1), bytes: s.bytes - s.map[slot.1].weight, ..rest })
        } else {
            evicted(rest)
        }
    }
}

/// Drops the eviction slots that no longer name a live entry, once there are
/// many of them.
pub open spec fn compacted(s: ShardV) -> ShardV {
    if s.order.len() <= s.map.len() * 2 + COMPACT_SLACK {
        s
    } else {
        ShardV { order: s.order.filter(|slot: (u64, Seq<u8>)| is_live(s.map, slot)), ..s }
    }
}

/// A shard without the entry under `k`.
pub open spec fn dropped(s: ShardV, k: Seq<u8>) -> ShardV {
    compacted(
        if s.map.contains_key(k) {
            ShardV { map: s.map.remove(k), bytes: s.bytes - s.map[k].weight, ..s }
        } else {
            s
        },
    )
}

/// A shard with an entry under `k`, in place of what was there, before it is
/// made to fit its budget. Storing takes a new slot, even when replacing.
pub open spec fn with_entry(s: ShardV, k: Seq<u8>, e: EntryV) -> ShardV {
    let old_weight = if s.map.contains_key(k) {
        s.map[k].weight as int
    } else {
        0
    };
    compacted(
        ShardV {
            map: s.map.insert(k, e),
            order: s.order.push((e.seq, k)),
            bytes: s.bytes - old_weight + e.weight,
            next: s.next + 1,
            ..s
        },
    )
}

/// What becomes of a shard when a packed response is stored in it. One too
/// large for the shard is not stored.
pub open spec fn stored(s: ShardV, k: Seq<u8>, msg: PackedV, weight: nat, ttl: u32, now: u64) -> ShardV {
    if weight > s.budget {
        s
    } else {
        evicted(
            with_entry(
                s,
                k,
                EntryV { msg, stored: now, ttl, weight, hits: 0, refreshing: false, seq: s.next as u64 },
            ),
        )
    }
}

/// How long ago an entry was stored, in milliseconds. The clock begins anew
/// after its last reading.
pub open spec fn age_of(e: EntryV, now: u64) -> int {
    if now >= e.stored {
        now - e.stored
    } else {
        now - e.stored + 0x1_0000_0000_0000_0000
    }
}

/// Whether an entry has outlived its TTL.
pub open spec fn is_expired(e: EntryV, now: u64) -> bool {
    age_of(e, now) >= e.ttl * 1000
}

/// A span in nanoseconds.
pub open spec fn nanos_of(d: Span) -> int {
    d.secs * 1_000_000_000 + d.nanos
}

/// How long ago an entry outlived its TTL, in milliseconds.
pub open spec fn expired_for(e: EntryV, now: u64) -> int {
    age_of(e, now) - e.ttl * 1000
}

/// Whether an entry may be served: it is within its TTL, or stale entries are
/// served and it has been expired for no longer than they may be.
pub open spec fn servable(cfg: Config, e: EntryV, now: u64) -> bool {
    !is_expired(e, now) || (cfg.optimistic && expired_for(e, now) * 1_000_000 <= nanos_of(cfg.optimistic_max_age))
}

/// The entry's hits with one more, as far as they matter.
pub open spec fn hits_after(e: EntryV) -> u8 {
    if e.hits >= REFRESH_MIN_HITS {
        REFRESH_MIN_HITS
    } else {
        (e.hits + 1) as u8
    }
}

/// Whether an entry is in the last tenth of its TTL, or its last second.
pub open spec fn runs_out(e: EntryV, now: u64) -> bool {
    let left = e.ttl * 1000 - age_of(e, now);
    left <= 1000 || left <= e.ttl * 100
}

/// Whether a lookup should start a background refresh of the entry: it has
/// expired, or it is popular and runs out, and none is running.
pub open spec fn wants_refresh(cfg: Config, e: EntryV, now: u64) -> bool {
    (is_expired(e, now) || (cfg.optimistic && hits_after(e) >= REFRESH_MIN_HITS && runs_out(e, now))) && !e.refreshing
}

/// A span in whole seconds, as far as 32 bits hold.
pub open spec fn secs_of(d: Span) -> u32 {
    if d.secs > u32::MAX {
        u32::MAX
    } else {
        d.secs as u32
    }
}

/// A TTL after some seconds, at least one.
pub open spec fn aged_ttl(ttl: u32, secs: int) -> u32 {
    if ttl - secs < 1 {
        1
    } else {
        (ttl - secs) as u32
    }
}

/// Records after some seconds.
pub open spec fn aged_records(s: Seq<RecordV>, secs: int) -> Seq<RecordV> {
    s.map_values(|r: RecordV| RecordV { ttl: aged_ttl(r.ttl, secs), ..r })
}

/// A message after some seconds.
pub open spec fn aged(m: MessageV, secs: int) -> MessageV {
    MessageV {
        answers: aged_records(m.answers, secs),
        authorities: aged_records(m.authorities, secs),
        additionals: aged_records(m.additionals, secs),
        ..m
    }
}

/// Records with another TTL.
pub open spec fn records_with_ttl(s: Seq<RecordV>, ttl: u32) -> Seq<RecordV> {
    s.map_values(|r: RecordV| RecordV { ttl, ..r })
}

/// A message with another TTL on every record.
pub open spec fn with_ttl(m: MessageV, ttl: u32) -> MessageV {
    MessageV {
        answers: records_with_ttl(m.answers, ttl),
        authorities: records_with_ttl(m.authorities, ttl),
        additionals: records_with_ttl(m.additionals, ttl),
        ..m
    }
}

/// What a lookup found.
pub ghost struct HitV {
    pub msg: MessageV,
    pub freshness: Freshness,
    pub refresh: bool,
}

/// What serving an entry tells.
pub open spec fn hit_of(cfg: Config, e: EntryV, m: MessageV, now: u64) -> HitV {
    HitV {
        msg: if is_expired(e, now) {
            with_ttl(m, secs_of(cfg.optimistic_answer_ttl))
        } else {
            aged(m, age_of(e, now) / 1000)
        },
        freshness: if is_expired(e, now) {
            Freshness::Stale
        } else {
            Freshness::Fresh
        },
        refresh: wants_refresh(cfg, e, now),
    }
}

/// An entry that has been served.
pub open spec fn served(cfg: Config, e: EntryV, now: u64) -> EntryV {
    EntryV { hits: hits_after(e), refreshing: e.refreshing || wants_refresh(cfg, e, now), ..e }
}

/// What a lookup finds, and what becomes of the shard: an entry that may not
/// be served, or does not unpack, is dropped.
pub open spec fn looked_up(cfg: Config, s: ShardV, k: Seq<u8>, now: u64) -> (ShardV, Option<HitV>) {
    if cfg.size_bytes == 0 || !s.map.contains_key(k) {
        (s, None)
    } else {
        let e = s.map[k];
        match unpacked(e.msg) {
            Some(m) if servable(cfg, e, now) => (
                ShardV { map: s.map.insert(k, served(cfg, e, now)), ..s },
                Some(hit_of(cfg, e, m, now)),
            ),
            _ => (dropped(s, k), None),
        }
    }
}

/// A shard after the refresh claim on `k` was released.
pub open spec fn released(s: ShardV, k: Seq<u8>) -> ShardV {
    if s.map.contains_key(k) {
        ShardV { map: s.map.insert(k, EntryV { refreshing: false, ..s.map[k] }), ..s }
    } else {
        s
    }
}

/// What a lookup found, as it is told to whoever asks `req`.
pub open spec fn told(req: MessageV, hit: Option<HitV>) -> Option<HitV> {
    match hit {
        Some(h) => Some(HitV { msg: readdressed(req, h.msg), ..h }),
        None => None,
    }
}

/// The TTL to cache a response for, or `None` if it must not be cached.
pub open spec fn ttl_of(cfg: Config, m: MessageV) -> Option<u32> {
    ttl_for(cfg, m.metadata.response_code, least_in(all_records(m)))
}

/// The TTL to cache a response of a code for, or `None` if it must not be
/// cached: only a successful or a negative answer with records is, for the
/// least of their TTLs within the configured bounds.
pub open spec fn ttl_for(cfg: Config, code: u16, least: Option<u32>) -> Option<u32> {
    match least {
        Some(base) if code == 0 || code == 3 => {
            let low = if cfg.ttl_min > base {
                cfg.ttl_min
            } else {
                base
            };
            let ttl = if cfg.ttl_max > 0 && cfg.ttl_max < low {
                cfg.ttl_max
            } else {
                low
            };
            if ttl == 0 {
                None
            } else {
                Some(ttl)
            }
        },
        _ => None,
    }
}

proof fn lemma_total_remove(m: Map<Seq<u8>, EntryV>, k: Seq<u8>)
    requires
        m.dom().finite(),
        m.contains_key(k),
    ensures
        total(m) == m[k].weight + total(m.remove(k)),
        m.remove(k).dom().finite(),
        m.remove(k).dom().len() == m.dom().len() - 1,
    decreases m.dom().len(),
{
    let c = m.dom().choose();
    assert(m.remove(k).dom() =~= m.dom().remove(k));
    assert(m.dom().len() > 0) by {
        if m.dom().len() == 0 {
            assert(m.dom() =~= Set::empty());
        }
    }
    if c != k {
        let mc = m.remove(c);
        assert(mc.dom() =~= m.dom().remove(c));
        lemma_total_remove(mc, k);
        let mk = m.remove(k);
        lemma_total_remove(mk, c);
        assert(mc.remove(k) =~= mk.remove(c));
    }
}

pub(crate) proof fn lemma_total_insert(m: Map<Seq<u8>, EntryV>, k: Seq<u8>, e: EntryV)
    requires
        m.dom().finite(),
    ensures
        m.insert(k, e).dom().finite(),
        total(m.insert(k, e)) == total(m) + e.weight - (if m.contains_key(k) {
            m[k].weight as int
        } else {
            0
        }),
        m.contains_key(k) ==> total(m.remove(k)) == total(m) - m[k].weight,
        m.contains_key(k) ==> m.remove(k).dom().finite(),
{
    let n = m.insert(k, e);
    assert(n.dom() =~= m.dom().insert(k));
    lemma_total_remove(n, k);
    if m.contains_key(k) {
        lemma_total_remove(m, k);
        assert(n.remove(k) =~= m.remove(k));
    } else {
        assert(n.remove(k) =~= m);
    }
}

pub(crate) proof fn lemma_total_positive(m: Map<Seq<u8>, EntryV>)
    ensures
        total(m) >= 0,
    decreases m.dom().len(),
{
    if m.dom().finite() && m.dom().len() > 0 {
        let k = m.dom().choose();
        assert(m.contains_key(k));
        assert(m.remove(k).dom() =~= m.dom().remove(k));
        lemma_total_positive(m.remove(k));
    }
}

pub(crate) proof fn lemma_total_part(m: Map<Seq<u8>, EntryV>, k: Seq<u8>)
    requires
        m.dom().finite(),
        m.contains_key(k),
    ensures
        m[k].weight <= total(m),
{
    lemma_total_remove(m, k);
    lemma_total_positive(m.remove(k));
}

/// A shard too small for any entry holds none.
pub(crate) proof fn lemma_holds_nothing(s: ShardV)
    requires
        shard_ok(s),
        weighty(s),
        s.budget < ENTRY_SLOTS,
    ensures
        s.bytes == 0,
{
    if s.map.dom().len() > 0 {
        let k = s.map.dom().choose();
        assert(s.map.contains_key(k));
        lemma_total_part(s.map, k);
    }
}

/// Eviction leaves each entry its charge and what it says.
pub(crate) proof fn lemma_evicted_weighty(s: ShardV)
    requires
        weighty(s),
        legible(s),
    ensures
        weighty(evicted(s)),
        legible(evicted(s)),
{
    assert forall|k: Seq<u8>| #[trigger] evicted(s).map.contains_key(k) implies evicted(s).map[k].weight
        >= ENTRY_SLOTS && unpacked(evicted(s).map[k].msg) is Some by {
        law_eviction_only_removes(s, k);
    }
}

/// One step of eviction keeps a shard in order.
pub(crate) proof fn lemma_pop(s: ShardV)
    requires
        in_order(s),
        s.order.len() > 0,
    ensures
        ({
            let slot = s.order[0];
            let rest = ShardV { order: s.order.drop_first(), ..s };
            if is_live(s.map, slot) {
                in_order(ShardV { map: s.map.remove(slot.1), bytes: s.bytes - s.map[slot.1].weight, ..rest })
            } else {
                in_order(rest)
            }
        }),
{
    let slot = s.order[0];
    let live = is_live(s.map, slot);
    if live {
        lemma_total_insert(s.map, slot.1, s.map[slot.1]);
    }
    let m = if live {
        s.map.remove(slot.1)
    } else {
        s.map
    };
    let o = s.order.drop_first();
    assert forall|k: Seq<u8>| #[trigger] m.contains_key(k) implies o.contains((m[k].seq, k)) by {
        assert(s.map.contains_key(k));
        let i = s.order.index_of((s.map[k].seq, k));
        assert(s.order.contains((s.map[k].seq, k)));
        assert(s.order[i] == (s.map[k].seq, k));
        assert(i != 0);
        assert(o[i - 1] == s.order[i]);
    }
    assert forall|i: int, j: int| 0 <= i < j < o.len() implies (#[trigger] o[i]).0 < (#[trigger] o[j]).0 by {
        assert(o[i] == s.order[i + 1] && o[j] == s.order[j + 1]);
    }
    assert forall|i: int| 0 <= i < o.len() implies (#[trigger] o[i]).0 < s.next by {
        assert(o[i] == s.order[i + 1]);
    }
}

/// Eviction brings a shard that is in order within its budget, and keeps it
/// in order.
pub proof fn law_eviction_fits(s: ShardV)
    requires
        in_order(s),
        s.budget >= 0,
    ensures
        shard_ok(evicted(s)),
        evicted(s).budget == s.budget,
        evicted(s).next == s.next,
    decreases s.order.len(),
{
    if s.bytes <= s.budget {
    } else if s.order.len() == 0 {
        assert(s.map.dom() =~= Set::<Seq<u8>>::empty()) by {
            assert forall|k: Seq<u8>| !s.map.dom().contains(k) by {
                if s.map.contains_key(k) {
                    assert(s.order.contains((s.map[k].seq, k)));
                }
            }
        }
        assert(total(s.map) == 0);
    } else {
        lemma_pop(s);
        let slot = s.order[0];
        let rest = ShardV { order: s.order.drop_first(), ..s };
        if is_live(s.map, slot) {
            law_eviction_fits(ShardV { map: s.map.remove(slot.1), bytes: s.bytes - s.map[slot.1].weight, ..rest });
        } else {
            law_eviction_fits(rest);
        }
    }
}

/// Eviction only takes entries out: what stays is as it was.
pub proof fn law_eviction_only_removes(s: ShardV, k: Seq<u8>)
    ensures
        evicted(s).map.contains_key(k) ==> s.map.contains_key(k) && evicted(s).map[k] == s.map[k],
    decreases s.order.len(),
{
    if s.bytes > s.budget && s.order.len() > 0 {
        let slot = s.order[0];
        let rest = ShardV { order: s.order.drop_first(), ..s };
        if is_live(s.map, slot) {
            law_eviction_only_removes(
                ShardV { map: s.map.remove(slot.1), bytes: s.bytes - s.map[slot.1].weight, ..rest },
                k,
            );
        } else {
            law_eviction_only_removes(rest, k);
        }
    }
}

/// Eviction takes the oldest first: an entry goes only once every entry
/// stored before it is gone. A dead slot takes no live entry with it.
pub proof fn law_oldest_goes_first(s: ShardV, k: Seq<u8>, older: Seq<u8>)
    requires
        in_order(s),
        s.map.contains_key(k),
        s.map.contains_key(older),
        s.map[older].seq < s.map[k].seq,
        !evicted(s).map.contains_key(k),
    ensures
        !evicted(s).map.contains_key(older),
    decreases s.order.len(),
{
    if s.bytes > s.budget && s.order.len() > 0 {
        lemma_pop(s);
        let slot = s.order[0];
        let rest = ShardV { order: s.order.drop_first(), ..s };
        if is_live(s.map, slot) {
            let next = ShardV { map: s.map.remove(slot.1), bytes: s.bytes - s.map[slot.1].weight, ..rest };
            if slot.1 == older {
                law_eviction_only_removes(next, older);
            } else {
                assert(slot.1 != k) by {
                    if slot.1 == k {
                        let i = s.order.index_of((s.map[older].seq, older));
                        assert(s.order.contains((s.map[older].seq, older)));
                        assert(s.order[i].0 == s.map[older].seq);
                        assert(i != 0);
                        assert(s.order[0].0 < s.order[i].0);
                    }
                }
                law_oldest_goes_first(next, k, older);
            }
        } else {
            law_oldest_goes_first(rest, k, older);
        }
    }
}

/// The entry whose slot is the last stays, if it fits the budget by itself.
proof fn lemma_last_stays(s: ShardV, k: Seq<u8>)
    requires
        in_order(s),
        s.map.contains_key(k),
        s.order.len() > 0,
        s.order.last() == (s.map[k].seq, k),
        s.map[k].weight <= s.budget,
    ensures
        evicted(s).map.contains_key(k),
        evicted(s).map[k] == s.map[k],
    decreases s.order.len(),
{
    if s.bytes > s.budget {
        lemma_pop(s);
        let slot = s.order[0];
        let rest = ShardV { order: s.order.drop_first(), ..s };
        if s.order.len() == 1 {
            assert(s.map.dom() =~= Set::<Seq<u8>>::empty().insert(k)) by {
                assert forall|x: Seq<u8>| s.map.dom().contains(x) implies x == k by {
                    assert(s.map.contains_key(x));
                    assert(s.order.contains((s.map[x].seq, x)));
                }
            }
            lemma_total_insert(s.map, k, s.map[k]);
            assert(s.map.remove(k).dom() =~= Set::<Seq<u8>>::empty());
            assert(total(s.map.remove(k)) == 0);
        } else {
            assert(rest.order.last() == s.order.last());
            if is_live(s.map, slot) {
                assert(slot.1 != k) by {
                    if slot.1 == k {
                        assert(s.order[0].0 < s.order[s.order.len() - 1].0);
                    }
                }
                lemma_last_stays(
                    ShardV { map: s.map.remove(slot.1), bytes: s.bytes - s.map[slot.1].weight, ..rest },
                    k,
                );
            } else {
                lemma_last_stays(rest, k);
            }
        }
    }
}

/// A filtered sequence holds what the sequence holds and passes, in order.
proof fn lemma_filter(o: Seq<(u64, Seq<u8>)>, f: spec_fn((u64, Seq<u8>)) -> bool)
    requires
        forall|i: int, j: int| 0 <= i < j < o.len() ==> (#[trigger] o[i]).0 < (#[trigger] o[j]).0,
    ensures
        forall|x: (u64, Seq<u8>)| #[trigger] o.filter(f).contains(x) <==> o.contains(x) && f(x),
        forall|i: int, j: int|
            0 <= i < j < o.filter(f).len() ==> (#[trigger] o.filter(f)[i]).0 < (#[trigger] o.filter(f)[j]).0,
        o.len() > 0 && f(o.last()) ==> o.filter(f).len() > 0 && o.filter(f).last() == o.last(),
    decreases o.len(),
{
    reveal(Seq::filter);
    if o.len() > 0 {
        let d = o.drop_last();
        assert forall|i: int, j: int| 0 <= i < j < d.len() implies (#[trigger] d[i]).0 < (#[trigger] d[j]).0 by {
            assert(d[i] == o[i] && d[j] == o[j]);
        }
        lemma_filter(d, f);
        let g = d.filter(f);
        let h = o.filter(f);
        assert(h == if f(o.last()) {
            g.push(o.last())
        } else {
            g
        });
        assert forall|x: (u64, Seq<u8>)| #[trigger] h.contains(x) <==> o.contains(x) && f(x) by {
            if h.contains(x) {
                let i = h.index_of(x);
                if i < g.len() {
                    assert(g[i] == x);
                    assert(g.contains(x));
                    let j = d.index_of(x);
                    assert(o[j] == x);
                } else {
                    assert(o[o.len() - 1] == x);
                }
            }
            if o.contains(x) && f(x) {
                let j = o.index_of(x);
                if j < d.len() {
                    assert(d[j] == x);
                    assert(d.contains(x));
                    assert(g.contains(x));
                    let i = g.index_of(x);
                    assert(h[i] == x);
                } else {
                    assert(h[g.len() as int] == x);
                }
            }
        }
        assert forall|i: int, j: int| 0 <= i < j < h.len() implies (#[trigger] h[i]).0 < (#[trigger] h[j]).0 by {
            if j < g.len() {
                assert(h[i] == g[i] && h[j] == g[j]);
            } else {
                assert(h[i] == g[i]);
                assert(g.contains(g[i]));
                let a = d.index_of(g[i]);
                assert(o[a] == g[i]);
                assert(o[a].0 < o[o.len() - 1].0);
            }
        }
    }
}

/// Compacting keeps a shard in order, and leaves no more than twice as many
/// slots as entries, and a few.
pub proof fn law_order_is_bounded(s: ShardV)
    requires
        in_order(s),
    ensures
        in_order(compacted(s)),
        compacted(s).order.len() <= s.map.len() * 2 + COMPACT_SLACK,
        compacted(s).map == s.map,
        compacted(s).bytes == s.bytes,
        compacted(s).next == s.next,
        s.order.len() > 0 && is_live(s.map, s.order.last()) ==> compacted(s).order.len() > 0
            && compacted(s).order.last() == s.order.last(),
{
    if s.order.len() > s.map.len() * 2 + COMPACT_SLACK {
        let f = |slot: (u64, Seq<u8>)| is_live(s.map, slot);
        let o = s.order.filter(f);
        lemma_filter(s.order, f);
        assert forall|k: Seq<u8>| #[trigger] s.map.contains_key(k) implies o.contains((s.map[k].seq, k)) by {
            assert(s.order.contains((s.map[k].seq, k)));
        }
        assert forall|i: int| 0 <= i < o.len() implies (#[trigger] o[i]).0 < s.next by {
            assert(o.contains(o[i]));
            let j = s.order.index_of(o[i]);
            assert(s.order[j] == o[i]);
        }
        let ks = o.map_values(|x: (u64, Seq<u8>)| x.1);
        assert(ks.no_duplicates()) by {
            assert forall|i: int, j: int| 0 <= i < ks.len() && 0 <= j < ks.len() && i != j implies ks[i] != ks[j] by {
                assert(o.contains(o[i]) && o.contains(o[j]));
                if ks[i] == ks[j] {
                    assert(o[i].0 == o[j].0);
                    if i < j {
                        assert(o[i].0 < o[j].0);
                    } else {
                        assert(o[j].0 < o[i].0);
                    }
                }
            }
        }
        ks.unique_seq_to_set();
        assert(ks.to_set().subset_of(s.map.dom())) by {
            assert forall|k: Seq<u8>| ks.to_set().contains(k) implies s.map.dom().contains(k) by {
                let i = ks.index_of(k);
                assert(o.contains(o[i]));
            }
        }
        vstd::set_lib::lemma_len_subset(ks.to_set(), s.map.dom());
    }
}

/// Dropping an entry keeps a shard in order and within its budget, and its
/// slots bounded by its entries.
pub proof fn law_dropping(s: ShardV, k: Seq<u8>)
    requires
        shard_ok(s),
    ensures
        shard_ok(dropped(s, k)),
        dropped(s, k).map == s.map.remove(k),
        dropped(s, k).order.len() <= dropped(s, k).map.len() * 2 + COMPACT_SLACK,
        dropped(s, k).budget == s.budget,
        dropped(s, k).next == s.next,
{
    let t = if s.map.contains_key(k) {
        ShardV { map: s.map.remove(k), bytes: s.bytes - s.map[k].weight, ..s }
    } else {
        s
    };
    if s.map.contains_key(k) {
        lemma_total_insert(s.map, k, s.map[k]);
        assert(in_order(t)) by {
            assert forall|q: Seq<u8>| #[trigger] t.map.contains_key(q) implies t.order.contains((t.map[q].seq, q)) by {
                assert(s.map.contains_key(q));
            }
        }
    } else {
        assert(s.map.remove(k) =~= s.map);
    }
    law_order_is_bounded(t);
}

/// Putting an entry in keeps a shard in order.
pub(crate) proof fn lemma_with_entry(s: ShardV, k: Seq<u8>, e: EntryV)
    requires
        in_order(s),
        e.seq == s.next,
    ensures
        in_order(with_entry(s, k, e)),
        with_entry(s, k, e).map == s.map.insert(k, e),
        with_entry(s, k, e).order.len() > 0,
        with_entry(s, k, e).order.last() == (e.seq, k),
        with_entry(s, k, e).next == s.next + 1,
{
    let old_weight = if s.map.contains_key(k) {
        s.map[k].weight as int
    } else {
        0
    };
    let t = ShardV {
        map: s.map.insert(k, e),
        order: s.order.push((e.seq, k)),
        bytes: s.bytes - old_weight + e.weight,
        next: s.next + 1,
        ..s
    };
    lemma_total_insert(s.map, k, e);
    assert forall|q: Seq<u8>| #[trigger] t.map.contains_key(q) implies t.order.contains((t.map[q].seq, q)) by {
        if q == k {
            assert(t.order[s.order.len() as int] == (e.seq, k));
        } else {
            assert(s.map.contains_key(q));
            let i = s.order.index_of((s.map[q].seq, q));
            assert(s.order.contains((s.map[q].seq, q)));
            assert(t.order[i] == (t.map[q].seq, q));
        }
    }
    assert forall|i: int, j: int| 0 <= i < j < t.order.len() implies (#[trigger] t.order[i]).0 < (#[trigger] t.order[j]).0 by {
        assert(t.order[i] == s.order[i]);
        if j < s.order.len() {
            assert(t.order[j] == s.order[j]);
        }
    }
    assert forall|i: int| 0 <= i < t.order.len() implies (#[trigger] t.order[i]).0 < t.next by {
        if i < s.order.len() {
            assert(t.order[i] == s.order[i]);
        }
    }
    law_order_is_bounded(t);
}

/// Storing keeps a shard in order and within its budget, and what was stored
/// is there: it is never evicted for its own sake.
pub proof fn law_storing(s: ShardV, k: Seq<u8>, msg: PackedV, weight: nat, ttl: u32, now: u64)
    requires
        shard_ok(s),
        s.budget >= 0,
        0 <= s.next <= u64::MAX,
    ensures
        shard_ok(stored(s, k, msg, weight, ttl, now)),
        weighty(s) && weight >= ENTRY_SLOTS ==> weighty(stored(s, k, msg, weight, ttl, now)),
        legible(s) && unpacked(msg) is Some ==> legible(stored(s, k, msg, weight, ttl, now)),
        weight <= s.budget ==> ({
            let t = stored(s, k, msg, weight, ttl, now);
            &&& t.map.contains_key(k)
            &&& t.map[k] == (EntryV { msg, stored: now, ttl, weight, hits: 0, refreshing: false, seq: s.next as u64 })
            &&& t.next == s.next + 1
            &&& forall|q: Seq<u8>| q != k && #[trigger] t.map.contains_key(q) ==> s.map.contains_key(q) && t.map[q] == s.map[q]
        }),
        weight > s.budget ==> stored(s, k, msg, weight, ttl, now) == s,
        stored(s, k, msg, weight, ttl, now).budget == s.budget,
{
    if weight <= s.budget {
        let e = EntryV { msg, stored: now, ttl, weight, hits: 0, refreshing: false, seq: s.next as u64 };
        let t = with_entry(s, k, e);
        lemma_with_entry(s, k, e);
        law_eviction_fits(t);
        lemma_last_stays(t, k);
        assert forall|q: Seq<u8>| q != k && #[trigger] evicted(t).map.contains_key(q) implies s.map.contains_key(q)
            && evicted(t).map[q] == s.map[q] by {
            law_eviction_only_removes(t, q);
        }
    }
}

/// The weights of a map do not change with what else an entry says.
proof fn lemma_same_weight(m: Map<Seq<u8>, EntryV>, k: Seq<u8>, e: EntryV)
    requires
        m.dom().finite(),
        m.contains_key(k),
        e.weight == m[k].weight,
    ensures
        total(m.insert(k, e)) == total(m),
        m.insert(k, e).dom() == m.dom(),
{
    lemma_total_insert(m, k, e);
    assert(m.insert(k, e).dom() =~= m.dom());
}

/// A lookup keeps a shard in order and within its budget.
pub proof fn law_looking_up(cfg: Config, s: ShardV, k: Seq<u8>, now: u64)
    requires
        shard_ok(s),
    ensures
        shard_ok(looked_up(cfg, s, k, now).0),
        looked_up(cfg, s, k, now).0.budget == s.budget,
        looked_up(cfg, s, k, now).0.next == s.next,
        weighty(s) ==> weighty(looked_up(cfg, s, k, now).0),
        legible(s) ==> legible(looked_up(cfg, s, k, now).0),
{
    if cfg.size_bytes != 0 && s.map.contains_key(k) {
        law_dropping(s, k);
        let e = served(cfg, s.map[k], now);
        lemma_same_weight(s.map, k, e);
        let m = s.map.insert(k, e);
        assert forall|q: Seq<u8>| #[trigger] m.contains_key(q) implies s.order.contains((m[q].seq, q)) by {
            assert(s.map.contains_key(q));
        }
    }
}

/// Releasing a claim keeps a shard in order and within its budget.
pub proof fn law_releasing(s: ShardV, k: Seq<u8>)
    requires
        shard_ok(s),
    ensures
        shard_ok(released(s, k)),
        released(s, k).budget == s.budget,
        released(s, k).next == s.next,
        weighty(s) ==> weighty(released(s, k)),
        legible(s) ==> legible(released(s, k)),
{
    if s.map.contains_key(k) {
        let e = EntryV { refreshing: false, ..s.map[k] };
        lemma_same_weight(s.map, k, e);
        let m = s.map.insert(k, e);
        assert forall|q: Seq<u8>| #[trigger] m.contains_key(q) implies s.order.contains((m[q].seq, q)) by {
            assert(s.map.contains_key(q));
        }
    }
}

/// What is stored is found: until its TTL has run out, a lookup gives back
/// the message that was stored, its TTLs counted down.
pub proof fn law_found_as_stored(cfg: Config, s: ShardV, k: Seq<u8>, m: MessageV, weight: nat, ttl: u32, now: u64, later: u64)
    requires
        shard_ok(s),
        s.budget >= 0,
        0 <= s.next <= u64::MAX,
        cfg.size_bytes != 0,
        weight <= s.budget,
        packs(m),
        names_valid(m),
        now <= later,
        later - now < ttl * 1000,
    ensures
        ({
            let hit = looked_up(cfg, stored(s, k, packed(m), weight, ttl, now), k, later).1;
            hit is Some && hit->0.freshness is Fresh && hit->0.msg == aged(m, (later - now) / 1000)
        }),
{
    law_storing(s, k, packed(m), weight, ttl, now);
    crate::packed::law_lossless(m);
}

/// One caller at a time is told to refresh: after one was, no lookup is until
/// the claim is released or the entry stored anew.
pub proof fn law_one_refresh_at_a_time(cfg: Config, s: ShardV, k: Seq<u8>, now: u64, later: u64)
    requires
        looked_up(cfg, s, k, now).1 matches Some(h) && h.refresh,
    ensures
        ({
            let t = looked_up(cfg, s, k, now).0;
            looked_up(cfg, t, k, later).1 matches Some(h) ==> !h.refresh
        }),
        looked_up(cfg, s, k, now).0.map[k].refreshing,
{
}

/// A released claim can be taken again: an expired entry that is served once
/// more tells its caller to refresh it.
pub proof fn law_claim_can_be_taken_again(cfg: Config, s: ShardV, k: Seq<u8>, now: u64)
    requires
        s.map.contains_key(k),
        is_expired(s.map[k], now),
        looked_up(cfg, released(s, k), k, now).1 is Some,
    ensures
        looked_up(cfg, released(s, k), k, now).1->0.refresh,
{
}

/// Refreshing ahead of expiry is gated on optimistic serving, and on the
/// entry's having been asked for before.
pub proof fn law_refresh_ahead_is_gated(cfg: Config, s: ShardV, k: Seq<u8>, now: u64)
    requires
        looked_up(cfg, s, k, now).1 matches Some(h) && h.refresh && h.freshness is Fresh,
    ensures
        cfg.optimistic,
        s.map[k].hits >= 1,
        runs_out(s.map[k], now),
{
}

/// A stale answer is served only where stale entries are, and only as long
/// after its TTL as they may be.
pub proof fn law_stale_is_optimistic(cfg: Config, s: ShardV, k: Seq<u8>, now: u64)
    requires
        looked_up(cfg, s, k, now).1 matches Some(h) && h.freshness is Stale,
    ensures
        cfg.optimistic,
        expired_for(s.map[k], now) * 1_000_000 <= nanos_of(cfg.optimistic_max_age),
        looked_up(cfg, s, k, now).1->0.msg == with_ttl(
            unpacked(s.map[k].msg)->0,
            secs_of(cfg.optimistic_answer_ttl),
        ),
{
}

/// A fresh answer never claims to be already expired, nor to last longer than
/// when it was stored.
pub proof fn law_aged_ttl(ttl: u32, secs: int)
    requires
        secs >= 0,
    ensures
        aged_ttl(ttl, secs) >= 1,
        ttl >= 1 ==> aged_ttl(ttl, secs) <= ttl,
{
}

/// The TTL an entry is held for lies within the configured bounds, the upper
/// one first, and is never zero.
pub proof fn law_ttl_in_bounds(cfg: Config, code: u16, least: Option<u32>)
    ensures
        ttl_for(cfg, code, least) matches Some(ttl) ==> ttl > 0 && (cfg.ttl_max > 0 ==> ttl <= cfg.ttl_max) && (
        cfg.ttl_max == 0 || cfg.ttl_min <= cfg.ttl_max ==> ttl >= cfg.ttl_min),
{
}

} // verus!
