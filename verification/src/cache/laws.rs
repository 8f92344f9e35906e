//! What holds of a cache over several calls.

use ahash::RandomState;
use vstd::prelude::*;

use crate::cache::key::{KeyV, key_bytes};
use crate::cache::model::{
    Config, EntryV, Freshness, HitV, ShardV, aged, is_expired, law_found_as_stored, law_looking_up, law_releasing,
    law_storing, lemma_holds_nothing, lemma_total_positive, released, servable, ttl_of,
};
use crate::cache::shard::weight_of;
use crate::cache::{
    SHARDS, answered_from, bytes_held, per_shard, put_among, shard_for, sound_shard, sound_shards,
};
use crate::message::{MessageV, names_valid, readdressed};
use crate::multi::sum;
use crate::packed::{law_lossless, packed};

verus! {

proof fn lemma_bounded_sum(s: Seq<ShardV>, f: spec_fn(ShardV) -> int, b: int)
    requires
        forall|i: int| 0 <= i < s.len() ==> 0 <= f(#[trigger] s[i]) <= b,
    ensures
        0 <= sum(s, f) <= s.len() * b,
    decreases s.len(),
{
    if s.len() > 0 {
        let d = s.drop_last();
        assert forall|i: int| 0 <= i < d.len() implies 0 <= f(#[trigger] d[i]) <= b by {
            assert(d[i] == s[i]);
        }
        lemma_bounded_sum(d, f, b);
        assert(0 <= f(s[s.len() - 1]) <= b);
        assert((s.len() - 1) * b + b == s.len() * b) by (nonlinear_arith);
    }
}

/// A cache in order never holds more than its size, whatever that size is.
pub proof fn law_size_is_kept(cfg: Config, s: Seq<ShardV>)
    requires
        sound_shards(cfg, s),
    ensures
        0 <= bytes_held(s) <= cfg.size_bytes,
{
    let size = cfg.size_bytes;
    let b = if size < SHARDS {
        0
    } else {
        per_shard(size)
    };
    assert forall|i: int| 0 <= i < s.len() implies 0 <= (#[trigger] s[i]).bytes <= b by {
        assert(sound_shard(cfg, s[i]));
        lemma_total_positive(s[i].map);
        if size < SHARDS {
            lemma_holds_nothing(s[i]);
        }
    }
    lemma_bounded_sum(s, |x: ShardV| x.bytes, b);
}

/// A response that is stored is found: until its TTL has run out, with that
/// TTL counted down, and addressed to whoever asks.
pub proof fn law_put_is_found(
    cfg: Config,
    h: RandomState,
    s: Seq<ShardV>,
    k: KeyV,
    m: MessageV,
    req: MessageV,
    now: u64,
    later: u64,
)
    requires
        sound_shards(cfg, s),
        names_valid(m),
        put_among(cfg, h, s, k, m, now).1,
        req.queries.len() > 0,
        now <= later,
        later - now < ttl_of(cfg, m)->0 * 1000,
    ensures
        ({
            let hit = answered_from(cfg, h, put_among(cfg, h, s, k, m, now).0, k, req, later).1;
            hit is Some && hit->0.freshness is Fresh && hit->0.msg == readdressed(
                req,
                aged(m, (later - now) / 1000),
            )
        }),
{
    let at = shard_for(h, k);
    assert(sound_shard(cfg, s[at]));
    let weight = weight_of(k.name.len(), packed(m).bytes.len());
    law_found_as_stored(
        cfg,
        s[at],
        key_bytes(k),
        m,
        weight as nat,
        ttl_of(cfg, m)->0,
        now,
        later,
    );
}

/// Storing a response does one of two things. One that is not stored leaves
/// every shard as it was. One that is stored was a successful or a negative
/// answer, held for a TTL within the bounds, and whoever asks for it at once
/// is told it, fresh. Either way the cache stays in order and within its size.
pub proof fn law_put_stores_or_leaves(
    cfg: Config,
    h: RandomState,
    s: Seq<ShardV>,
    k: KeyV,
    m: MessageV,
    req: MessageV,
    now: u64,
)
    requires
        sound_shards(cfg, s),
        s[shard_for(h, k)].next < u64::MAX,
        names_valid(m),
        req.queries.len() > 0,
    ensures
        ({
            let (t, done) = put_among(cfg, h, s, k, m, now);
            &&& sound_shards(cfg, t)
            &&& bytes_held(t) <= cfg.size_bytes
            &&& !done ==> t == s
            &&& done ==> {
                &&& m.metadata.response_code == 0 || m.metadata.response_code == 3
                &&& ttl_of(cfg, m) matches Some(ttl) && ttl > 0 && (cfg.ttl_max > 0 ==> ttl <= cfg.ttl_max)
                &&& answered_from(cfg, h, t, k, req, now).1 == Some(
                    HitV { msg: readdressed(req, aged(m, 0)), freshness: Freshness::Fresh, refresh: false },
                )
            }
        }),
{
    let at = shard_for(h, k);
    let (t, done) = put_among(cfg, h, s, k, m, now);
    assert(sound_shard(cfg, s[at]));
    if done {
        let weight = weight_of(k.name.len(), packed(m).bytes.len());
        law_lossless(m);
        law_storing(s[at], key_bytes(k), packed(m), weight as nat, ttl_of(cfg, m)->0, now);
        law_put_is_found(cfg, h, s, k, m, req, now, now);
        assert(t[at].map.contains_key(key_bytes(k)));
    } else {
        assert(t =~= s);
    }
    assert forall|i: int| 0 <= i < SHARDS implies sound_shard(cfg, #[trigger] t[i]) by {
        assert(sound_shard(cfg, s[i]));
    }
    law_size_is_kept(cfg, t);
}

/// What becomes of the shards when `req` is answered at one time after
/// another, and what it is told each time.
pub open spec fn asked_again(cfg: Config, h: RandomState, s: Seq<ShardV>, k: KeyV, req: MessageV, times: Seq<u64>) -> (
    Seq<ShardV>,
    Seq<Option<HitV>>,
)
    decreases times.len(),
{
    if times.len() == 0 {
        (s, Seq::empty())
    } else {
        let (t, told) = asked_again(cfg, h, s, k, req, times.drop_last());
        let (u, hit) = answered_from(cfg, h, t, k, req, times.last());
        (u, told.push(hit))
    }
}

/// Whether an entry is one of the same response, served any number of times.
pub open spec fn same_response(a: EntryV, b: EntryV) -> bool {
    a.msg == b.msg && a.stored == b.stored && a.ttl == b.ttl
}

proof fn lemma_asked_again(
    cfg: Config,
    h: RandomState,
    s: Seq<ShardV>,
    k: KeyV,
    req: MessageV,
    times: Seq<u64>,
)
    requires
        sound_shards(cfg, s),
        cfg.size_bytes != 0,
        req.queries.len() > 0,
        s[shard_for(h, k)].map.contains_key(key_bytes(k)),
        !s[shard_for(h, k)].map[key_bytes(k)].refreshing,
        forall|i: int|
            0 <= i < times.len() ==> {
                let e = s[shard_for(h, k)].map[key_bytes(k)];
                is_expired(e, #[trigger] times[i]) && servable(cfg, e, times[i])
            },
    ensures
        ({
            let at = shard_for(h, k);
            let (t, told) = asked_again(cfg, h, s, k, req, times);
            &&& sound_shards(cfg, t)
            &&& t[at].map.contains_key(key_bytes(k))
            &&& same_response(t[at].map[key_bytes(k)], s[at].map[key_bytes(k)])
            &&& t[at].map[key_bytes(k)].refreshing == (times.len() > 0)
            &&& told.len() == times.len()
            &&& forall|i: int|
                0 <= i < told.len() ==> ((#[trigger] told[i]) matches Some(hit) && hit.freshness is Stale && hit.refresh
                    == (i == 0))
        }),
    decreases times.len(),
{
    let at = shard_for(h, k);
    let b = key_bytes(k);
    if times.len() > 0 {
        let d = times.drop_last();
        assert forall|i: int| 0 <= i < d.len() implies ({
            let e = s[at].map[b];
            is_expired(e, #[trigger] d[i]) && servable(cfg, e, d[i])
        }) by {
            assert(d[i] == times[i]);
        }
        lemma_asked_again(cfg, h, s, k, req, d);
        let (t, before) = asked_again(cfg, h, s, k, req, d);
        let now = times.last();
        assert(now == times[times.len() - 1]);
        assert(sound_shard(cfg, t[at]));
        law_looking_up(cfg, t[at], b, now);
        let (u, told) = asked_again(cfg, h, s, k, req, times);
        assert forall|i: int| 0 <= i < SHARDS implies sound_shard(cfg, #[trigger] u[i]) by {
            assert(sound_shard(cfg, t[i]));
        }
        assert forall|i: int| 0 <= i < told.len() implies ((#[trigger] told[i]) matches Some(hit) && hit.freshness is Stale
            && hit.refresh == (i == 0)) by {
            if i < before.len() {
                assert(told[i] == before[i]);
            }
        }
    }
}

/// An expired entry that may still be served is served stale to everyone who
/// asks, and the first of them alone is told to refresh it. Once that claim is
/// released, whoever asks next is told to.
pub proof fn law_one_refresh_until_released(
    cfg: Config,
    h: RandomState,
    s: Seq<ShardV>,
    k: KeyV,
    req: MessageV,
    times: Seq<u64>,
    next: u64,
)
    requires
        sound_shards(cfg, s),
        cfg.size_bytes != 0,
        req.queries.len() > 0,
        s[shard_for(h, k)].map.contains_key(key_bytes(k)),
        !s[shard_for(h, k)].map[key_bytes(k)].refreshing,
        forall|i: int|
            0 <= i < times.len() ==> {
                let e = s[shard_for(h, k)].map[key_bytes(k)];
                is_expired(e, #[trigger] times[i]) && servable(cfg, e, times[i])
            },
        is_expired(s[shard_for(h, k)].map[key_bytes(k)], next),
        servable(cfg, s[shard_for(h, k)].map[key_bytes(k)], next),
    ensures
        ({
            let (t, told) = asked_again(cfg, h, s, k, req, times);
            let at = shard_for(h, k);
            let freed = t.update(at, released(t[at], key_bytes(k)));
            &&& told.len() == times.len()
            &&& forall|i: int|
                0 <= i < told.len() ==> ((#[trigger] told[i]) matches Some(hit) && hit.freshness is Stale && hit.refresh
                    == (i == 0))
            &&& answered_from(cfg, h, freed, k, req, next).1 matches Some(hit) && hit.freshness is Stale && hit.refresh
        }),
{
    lemma_asked_again(cfg, h, s, k, req, times);
    let at = shard_for(h, k);
    let t = asked_again(cfg, h, s, k, req, times).0;
    assert(sound_shard(cfg, t[at]));
    law_releasing(t[at], key_bytes(k));
}

} // verus!
