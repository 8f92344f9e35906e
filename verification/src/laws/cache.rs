//! What the cache keeps, for how long, and what it tells.

use vstd::prelude::*;

use ahash::RandomState;

use crate::cache::key::{asks_dnssec, lower_bytes, KeyV};
use crate::cache::model::{
    age_of, evicted, hit_of, is_expired, looked_up, released, secs_of, servable, stored, ttl_of, Config, EntryV,
    Freshness, ShardV,
};
use crate::cache::{answered_from, per_shard, put_among, put_in_shard};
use crate::message::{law_least_ttl, least_in, readdressed, MessageV, RecordV};
use crate::packed::{all_records, packed, packs, unpacked};

verus! {

/// Whether `t` is the least TTL of a message's records.
pub open spec fn least_of(m: MessageV, t: u32) -> bool {
    let rs = all_records(m);
    &&& exists|i: int| 0 <= i < rs.len() && (#[trigger] rs[i]).ttl == t
    &&& forall|i: int| 0 <= i < rs.len() ==> t <= (#[trigger] rs[i]).ttl
}

/// Which responses are cached, and for how long. Those with records that are a
/// success or say that there is no such name, and no other; for the least of
/// their TTLs, raised to the lower bound and cut to the upper one where those
/// are set; and never for nothing.
pub proof fn law_cacheable(cfg: Config, m: MessageV, t: u32)
    requires
        least_of(m, t),
    ensures
        m.metadata.response_code != 0 && m.metadata.response_code != 3 ==> ttl_of(cfg, m) is None,
        m.metadata.response_code == 0 || m.metadata.response_code == 3 ==> {
            &&& cfg.ttl_min == 0 && cfg.ttl_max == 0 && t > 0 ==> ttl_of(cfg, m) == Some(t)
            &&& cfg.ttl_min == 0 && cfg.ttl_max == 0 && t == 0 ==> ttl_of(cfg, m) is None
            &&& cfg.ttl_min > 0 && t <= cfg.ttl_min && cfg.ttl_max == 0 ==> ttl_of(cfg, m) == Some(cfg.ttl_min)
            &&& t >= cfg.ttl_min && t > 0 && cfg.ttl_max == 0 ==> ttl_of(cfg, m) == Some(t)
            &&& cfg.ttl_max > 0 && t >= cfg.ttl_max ==> ttl_of(cfg, m) == Some(cfg.ttl_max)
            &&& cfg.ttl_max > 0 && cfg.ttl_min >= cfg.ttl_max ==> ttl_of(cfg, m) == Some(cfg.ttl_max)
            &&& cfg.ttl_min <= t <= cfg.ttl_max && t > 0 ==> ttl_of(cfg, m) == Some(t)
            &&& t <= cfg.ttl_min <= cfg.ttl_max && cfg.ttl_min > 0 ==> ttl_of(cfg, m) == Some(cfg.ttl_min)
        },
{
    let rs = all_records(m);
    law_least_ttl(rs);
    let i = choose|i: int| 0 <= i < rs.len() && (#[trigger] rs[i]).ttl == t;
    assert(rs.len() > 0);
    let l = least_in(rs)->0;
    let j = choose|j: int| 0 <= j < rs.len() && (#[trigger] rs[j]).ttl == l;
    assert(t <= rs[j].ttl);
    assert(l <= rs[i].ttl);
}

/// A response without records is never cached.
pub proof fn law_nothing_to_cache(cfg: Config, m: MessageV)
    requires
        m.answers.len() == 0,
        m.authorities.len() == 0,
        m.additionals.len() == 0,
    ensures
        ttl_of(cfg, m) is None,
{
    assert(all_records(m).len() == 0);
}

/// A response is stored where the cache is on, it is one to be cached, can be
/// packed and is not too large for its shard; and else nothing changes. What
/// is stored is stored for its TTL, from now on.
pub proof fn law_stored_for_its_ttl(cfg: Config, s: ShardV, k: KeyV, m: MessageV, now: u64)
    ensures
        ({
            let (t, done) = put_in_shard(cfg, s, k, m, now);
            &&& cfg.size_bytes == 0 ==> !done
            &&& ttl_of(cfg, m) is None ==> !done
            &&& !packs(m) ==> !done
            &&& !done ==> t == s
            &&& 176 + k.name.len() + packed(m).bytes.len() > s.budget && s.budget < usize::MAX ==> !done
            &&& cfg.size_bytes != 0 && ttl_of(cfg, m) is Some && packs(m) && 176 + k.name.len() + packed(m).bytes.len()
                <= s.budget ==> done
        }),
{
}

/// An entry is fresh until its TTL has run out and expired from then on; its
/// age is what the clock has moved on since it was stored.
pub proof fn law_expiry(e: EntryV, now: u64)
    requires
        now >= e.stored,
    ensures
        age_of(e, now) == now - e.stored,
        now < e.stored + e.ttl * 1000 ==> !is_expired(e, now),
        now >= e.stored + e.ttl * 1000 ==> is_expired(e, now),
{
}

/// What may be served: a fresh entry always; an expired one only where stale
/// entries are served, and only until it has been expired for as long as they
/// may be.
pub proof fn law_served(cfg: Config, e: EntryV, now: u64)
    requires
        now >= e.stored,
    ensures
        now < e.stored + e.ttl * 1000 ==> servable(cfg, e, now),
        now >= e.stored + e.ttl * 1000 && !cfg.optimistic ==> !servable(cfg, e, now),
        now >= e.stored + e.ttl * 1000 && cfg.optimistic ==> (servable(cfg, e, now) <==> (now - e.stored - e.ttl * 1000)
            * 1_000_000 <= cfg.optimistic_max_age.secs * 1_000_000_000 + cfg.optimistic_max_age.nanos),
{
}

/// What a lookup finds: nothing where the cache is off or the key is not
/// there; nothing, and the entry is gone, where it may not be served; and else
/// the message that was stored, under the same key afterwards.
pub proof fn law_lookup(cfg: Config, s: ShardV, k: Seq<u8>, now: u64, m: MessageV)
    ensures
        cfg.size_bytes == 0 ==> looked_up(cfg, s, k, now).1 is None && looked_up(cfg, s, k, now).0 == s,
        !s.map.contains_key(k) ==> looked_up(cfg, s, k, now).1 is None && looked_up(cfg, s, k, now).0 == s,
        cfg.size_bytes != 0 && s.map.contains_key(k) && !servable(cfg, s.map[k], now) ==> {
            let (t, hit) = looked_up(cfg, s, k, now);
            hit is None && !t.map.contains_key(k)
        },
        cfg.size_bytes != 0 && s.map.contains_key(k) && servable(cfg, s.map[k], now) && unpacked(s.map[k].msg) == Some(m)
            ==> {
            let (t, hit) = looked_up(cfg, s, k, now);
            &&& hit == Some(hit_of(cfg, s.map[k], m, now))
            &&& t.map.contains_key(k) && t.map[k].msg == s.map[k].msg && t.map[k].stored == s.map[k].stored && t.map[k].ttl
                == s.map[k].ttl
        },
        forall|x: Seq<u8>| x != k && s.map.contains_key(x) ==> #[trigger] looked_up(cfg, s, k, now).0.map.contains_key(x)
            && looked_up(cfg, s, k, now).0.map[x] == s.map[x],
{
}

/// What a hit says: it is fresh where the entry has not expired, with each TTL
/// counted down by the seconds since it was stored, to no less than one; it is
/// stale where it has, with the TTL for stale answers on every record. Nothing
/// else of the message changes.
pub proof fn law_hit(cfg: Config, e: EntryV, m: MessageV, now: u64, i: int)
    requires
        now >= e.stored,
    ensures
        ({
            let h = hit_of(cfg, e, m, now);
            let secs = (now - e.stored) / 1000;
            &&& h.freshness is Fresh <==> now < e.stored + e.ttl * 1000
            &&& h.msg.metadata == m.metadata && h.msg.queries == m.queries && h.msg.edns == m.edns && h.msg.signed
                == m.signed
            &&& h.msg.answers.len() == m.answers.len() && h.msg.authorities.len() == m.authorities.len()
                && h.msg.additionals.len() == m.additionals.len()
            &&& 0 <= i < m.answers.len() ==> told_as(cfg, h.freshness, m.answers[i], h.msg.answers[i], secs)
            &&& 0 <= i < m.authorities.len() ==> told_as(
                cfg,
                h.freshness,
                m.authorities[i],
                h.msg.authorities[i],
                secs,
            )
            &&& 0 <= i < m.additionals.len() ==> told_as(
                cfg,
                h.freshness,
                m.additionals[i],
                h.msg.additionals[i],
                secs,
            )
        }),
{
}

/// Whether a record is told as it was stored, but for its TTL.
pub open spec fn told_as(cfg: Config, f: Freshness, was: RecordV, is: RecordV, secs: int) -> bool {
    &&& is.name == was.name && is.rtype == was.rtype && is.class == was.class && is.data == was.data
    &&& f is Fresh && was.ttl > secs ==> is.ttl == was.ttl - secs
    &&& f is Fresh && was.ttl <= secs ==> is.ttl == 1
    &&& f is Stale ==> is.ttl == secs_of(cfg.optimistic_answer_ttl)
}

/// Who is told to refresh an entry: nobody while somebody is at it; else
/// whoever is served it once it has expired, and, where stale entries are
/// served, whoever asks for it not for the first time in the last tenth of its
/// TTL or in its last second.
pub proof fn law_refresh(cfg: Config, e: EntryV, m: MessageV, now: u64)
    requires
        now >= e.stored,
    ensures
        ({
            let r = hit_of(cfg, e, m, now).refresh;
            let left = e.stored + e.ttl * 1000 - now;
            &&& e.refreshing ==> !r
            &&& !e.refreshing && left <= 0 ==> r
            &&& !e.refreshing && left > 0 && cfg.optimistic && e.hits >= 1 && (left <= 1000 || 10 * left <= e.ttl * 1000) ==> r
            &&& left > 0 && !cfg.optimistic ==> !r
            &&& left > 0 && e.hits == 0 ==> !r
            &&& left > 1000 && 10 * left > e.ttl * 1000 ==> !r
        }),
{
}

/// A span in whole seconds: the part of a second goes, and what does not fit
/// is cut.
pub proof fn law_whole_seconds(cfg: Config)
    ensures
        cfg.optimistic_answer_ttl.secs <= u32::MAX ==> secs_of(cfg.optimistic_answer_ttl)
            == cfg.optimistic_answer_ttl.secs,
        cfg.optimistic_answer_ttl.secs > u32::MAX ==> secs_of(cfg.optimistic_answer_ttl) == u32::MAX,
{
}

/// What a response addressed to a request takes from it, and what it keeps.
pub proof fn law_addressed(req: MessageV, m: MessageV)
    ensures
        ({
            let r = readdressed(req, m);
            &&& r.metadata.id == req.metadata.id
            &&& r.metadata.recursion_desired == req.metadata.recursion_desired
            &&& r.metadata.checking_disabled == req.metadata.checking_disabled
            &&& r.queries == req.queries
            &&& req.edns is None ==> r.edns is None
            &&& req.edns is Some ==> r.edns == m.edns
            &&& r.answers == m.answers && r.authorities == m.authorities && r.additionals == m.additionals && r.signed
                == m.signed
            &&& r.metadata.response_code == m.metadata.response_code && r.metadata.response == m.metadata.response
            &&& r.metadata.authoritative == m.metadata.authoritative && r.metadata.truncation == m.metadata.truncation
            &&& r.metadata.recursion_available == m.metadata.recursion_available && r.metadata.authentic_data
                == m.metadata.authentic_data && r.metadata.op_code == m.metadata.op_code
        }),
{
}

/// Who asks for DNSSEC records: a request that sets the authentic-data bit, or
/// has an OPT record whose flags set the highest bit; and no other.
pub proof fn law_asks_dnssec(m: MessageV)
    ensures
        m.metadata.authentic_data ==> asks_dnssec(m),
        m.edns matches Some(e) ==> (e.head.flags >= 32768 ==> asks_dnssec(m)),
        !m.metadata.authentic_data && m.edns is None ==> !asks_dnssec(m),
        m.edns matches Some(e) ==> (!m.metadata.authentic_data && e.head.flags < 32768 ==> !asks_dnssec(m)),
{
}

/// Names that differ only in the case of ASCII letters are keyed alike, and
/// all others apart.
pub proof fn law_names_keyed_alike(a: Seq<u8>, b: Seq<u8>)
    ensures
        lower_bytes(a) == lower_bytes(b) <==> a.len() == b.len() && forall|i: int|
            0 <= i < a.len() ==> {
                ||| #[trigger] a[i] == b[i]
                ||| 65 <= a[i] <= 90 && b[i] == a[i] + 32
                ||| 65 <= b[i] <= 90 && a[i] == b[i] + 32
            },
{
    let x = lower_bytes(a);
    let y = lower_bytes(b);
    if x == y {
        assert(x.len() == y.len());
        assert forall|i: int| 0 <= i < a.len() implies {
            ||| #[trigger] a[i] == b[i]
            ||| 65 <= a[i] <= 90 && b[i] == a[i] + 32
            ||| 65 <= b[i] <= 90 && a[i] == b[i] + 32
        } by {
            assert(x[i] == y[i]);
        }
    } else if a.len() == b.len() && forall|i: int|
        0 <= i < a.len() ==> {
            ||| #[trigger] a[i] == b[i]
            ||| 65 <= a[i] <= 90 && b[i] == a[i] + 32
            ||| 65 <= b[i] <= 90 && a[i] == b[i] + 32
        } {
        assert(x =~= y);
    }
}

/// The parts of the size that the shards have use it up, but for what does not
/// divide evenly, and never more than it.
pub proof fn law_size_is_shared_out(size: usize)
    ensures
        size >= 16 ==> 16 * per_shard(size) <= size < 16 * per_shard(size) + 16,
        size < 16 ==> per_shard(size) == 1,
{
}

/// A key has one place, at which it is put and looked for; the other places
/// are left alone. A request that asks nothing is told nothing.
pub proof fn law_one_place(
    cfg: Config,
    h: RandomState,
    s: Seq<ShardV>,
    k: KeyV,
    req: MessageV,
    m: MessageV,
    now: u64,
    i: int,
    j: int,
)
    requires
        s.len() == 16,
        0 <= i < 16,
        0 <= j < 16,
        i != j,
    ensures
        put_among(cfg, h, s, k, m, now).0.len() == 16,
        put_among(cfg, h, s, k, m, now).0[i] != s[i] ==> put_among(cfg, h, s, k, m, now).0[j] == s[j],
        put_among(cfg, h, s, k, m, now).0[i] != s[i] ==> answered_from(cfg, h, s, k, req, now).0[j] == s[j],
        answered_from(cfg, h, s, k, req, now).0[i] != s[i] ==> answered_from(cfg, h, s, k, req, now).0[j] == s[j],
        req.queries.len() == 0 ==> answered_from(cfg, h, s, k, req, now) == (s, None::<crate::cache::model::HitV>),
{
}

/// Giving up a refresh leaves the entry as it was, free to be refreshed by
/// another, and every other entry alone.
pub proof fn law_released(s: ShardV, k: Seq<u8>, other: Seq<u8>)
    requires
        other != k,
    ensures
        released(s, k).map.contains_key(k) == s.map.contains_key(k),
        s.map.contains_key(k) ==> {
            &&& !released(s, k).map[k].refreshing
            &&& released(s, k).map[k].msg == s.map[k].msg
            &&& released(s, k).map[k].stored == s.map[k].stored
            &&& released(s, k).map[k].ttl == s.map[k].ttl
        },
        released(s, k).map.contains_key(other) == s.map.contains_key(other),
        s.map.contains_key(other) ==> released(s, k).map[other] == s.map[other],
        released(s, k).order == s.order && released(s, k).bytes == s.bytes && released(s, k).budget == s.budget,
{
}

/// Nothing is given up while what is held fits, to the last byte; over it the
/// oldest goes first.
pub proof fn law_giving_up(s: ShardV)
    ensures
        s.bytes <= s.budget ==> evicted(s) == s,
        s.bytes > s.budget && s.order.len() > 0 && s.map.contains_key(s.order[0].1) && s.map[s.order[0].1].seq
            == s.order[0].0 ==> {
            let oldest = s.order[0].1;
            evicted(s) == evicted(
                ShardV {
                    map: s.map.remove(oldest),
                    bytes: s.bytes - s.map[oldest].weight,
                    order: s.order.drop_first(),
                    ..s
                },
            )
        },
{
}

} // verus!
