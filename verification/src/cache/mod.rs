//! A TTL-aware DNS response cache, sized in bytes and split into shards.
//!
//! Responses are held packed, and each entry is charged what it occupies.

use ahash::RandomState;
use vstd::prelude::*;

use crate::cache::key::{Key, KeyV, key_bytes};
use crate::cache::laws::law_size_is_kept;
use crate::cache::model::{
    Config, HitV, ShardV, evicted, law_looking_up, law_releasing, law_storing, lemma_evicted_weighty,
    legible, looked_up, released, shard_ok, stored, told, ttl_of, weighty,
};
use crate::cache::shard::{Hit, Shard, weight_of};
use crate::message::{Message, MessageV, least_ttl, readdress};
use crate::multi::{capped, sum};
use crate::packed::{Packed, packed, packs};
use crate::probe::terms::Span;

pub mod key;
pub mod laws;
pub mod model;
pub mod shard;

verus! {

/// The number of shards.
pub const SHARDS: usize = 16;

impl Default for Config {
    fn default() -> (r: Self)
        ensures
            r == (Config {
                size_bytes: 4_194_304,
                ttl_min: 0,
                ttl_max: 0,
                optimistic: false,
                optimistic_answer_ttl: Span { secs: 30, nanos: 0 },
                optimistic_max_age: Span { secs: 43_200, nanos: 0 },
            }),
    {
        Config {
            size_bytes: 4_194_304,
            ttl_min: 0,
            ttl_max: 0,
            optimistic: false,
            optimistic_answer_ttl: Span { secs: 30, nanos: 0 },
            optimistic_max_age: Span { secs: 43_200, nanos: 0 },
        }
    }
}

/// `RandomState::new` of ahash: a hasher keyed at random. Nothing is said of
/// it: its key is drawn by chance.
#[verifier::external_body]
fn new_hasher() -> RandomState {
    RandomState::new()
}

/// The number that a hasher gives bytes: it rests on the hasher's own keys
/// and the bytes.
pub uninterp spec fn hashed(h: RandomState, b: Seq<u8>) -> u64;

/// `RandomState::hash_one` of ahash: the same number for the same bytes,
/// whenever this hasher is asked. Which number is left unsaid: the hasher's
/// keys were drawn by chance.
#[verifier::external_body]
fn hash_one(h: &RandomState, k: &[u8]) -> (r: u64)
    ensures
        r == hashed(*h, k@),
{
    h.hash_one(k)
}

/// The shard in which a hasher puts a key.
pub open spec fn shard_for(h: RandomState, k: KeyV) -> int {
    (hashed(h, key_bytes(k)) % 16) as int
}

/// What becomes of the shards when a response is to be stored, and whether it
/// was.
pub open spec fn put_among(
    cfg: Config,
    h: RandomState,
    s: Seq<ShardV>,
    k: KeyV,
    m: MessageV,
    now: u64,
) -> (Seq<ShardV>, bool) {
    let at = shard_for(h, k);
    let (after, done) = put_in_shard(cfg, s[at], k, m, now);
    (s.update(at, after), done)
}

/// What becomes of the shards when a key is looked up, and what is found.
pub open spec fn got_among(cfg: Config, h: RandomState, s: Seq<ShardV>, k: KeyV, now: u64) -> (
    Seq<ShardV>,
    Option<HitV>,
) {
    let at = shard_for(h, k);
    let (after, hit) = looked_up(cfg, s[at], key_bytes(k), now);
    (s.update(at, after), hit)
}

/// What becomes of the shards when `req` is answered from the entry of a key,
/// and what it is told. A request without a question finds nothing.
pub open spec fn answered_from(cfg: Config, h: RandomState, s: Seq<ShardV>, k: KeyV, req: MessageV, now: u64) -> (
    Seq<ShardV>,
    Option<HitV>,
) {
    if req.queries.len() == 0 {
        (s, None)
    } else {
        let (after, hit) = got_among(cfg, h, s, k, now);
        (after, told(req, hit))
    }
}

/// What one shard may hold, in bytes, where the whole cache may hold `size`.
pub open spec fn per_shard(size: usize) -> int {
    if size < SHARDS {
        1
    } else {
        (size / SHARDS) as int
    }
}

/// What becomes of a shard when a response is to be stored, and whether it
/// was: one that must not be cached, cannot be packed or is too large is not.
pub open spec fn put_in_shard(cfg: Config, s: ShardV, k: KeyV, m: MessageV, now: u64) -> (
    ShardV,
    bool,
) {
    let weight = weight_of(k.name.len(), packed(m).bytes.len());
    match ttl_of(cfg, m) {
        Some(ttl) if cfg.size_bytes != 0 && packs(m) && weight <= s.budget => (
            stored(s, key_bytes(k), packed(m), weight as nat, ttl, now),
            true,
        ),
        _ => (s, false),
    }
}

/// Whether these are the shards of a cache in order: each within its part of
/// the size, every entry charged and legible, and its numbers fit in a word.
pub open spec fn sound_shards(cfg: Config, s: Seq<ShardV>) -> bool {
    &&& s.len() == SHARDS
    &&& forall|i: int| 0 <= i < SHARDS ==> sound_shard(cfg, #[trigger] s[i])
}

/// Whether one of them is.
pub open spec fn sound_shard(cfg: Config, s: ShardV) -> bool {
    shard_ok(s) && s.budget == per_shard(cfg.size_bytes) && 0 <= s.next <= u64::MAX && weighty(s) && legible(s)
}

/// A sharded, size-bounded DNS cache.
pub struct Cache {
    shards: Vec<Shard>,
    /// What picks a key's shard.
    shard_hasher: RandomState,
    cfg: Config,
}

/// The entries of every shard.
pub open spec fn entries_held(s: Seq<ShardV>) -> int {
    sum(s, |x: ShardV| x.map.len() as int)
}

/// The bytes of every shard.
pub open spec fn bytes_held(s: Seq<ShardV>) -> int {
    sum(s, |x: ShardV| x.bytes)
}

/// The eviction slots of every shard.
pub open spec fn slots_held(s: Seq<ShardV>) -> int {
    sum(s, |x: ShardV| x.order.len() as int)
}

impl Cache {
    /// The state of each shard.
    pub closed spec fn view(&self) -> Seq<ShardV> {
        self.shards@.map_values(|s: Shard| s@)
    }

    /// The configuration.
    pub closed spec fn cfg(&self) -> Config {
        self.cfg
    }

    /// What picks a key's shard.
    pub closed spec fn hasher(&self) -> RandomState {
        self.shard_hasher
    }

    /// Whether every shard is in order, within the budget that the
    /// configuration gives it.
    pub closed spec fn wf(&self) -> bool {
        &&& self.shards@.len() == SHARDS
        &&& forall|i: int| 0 <= i < SHARDS ==> (#[trigger] self.shards@[i]).wf() && self.shards@[i]@.budget == per_shard(
            self.cfg.size_bytes,
        ) && weighty(self.shards@[i]@) && legible(self.shards@[i]@)
    }

    /// Whether no shard has run out of sequence numbers.
    pub open spec fn can_number(&self) -> bool {
        forall|i: int| 0 <= i < SHARDS ==> (#[trigger] self@[i]).next < u64::MAX
    }

    /// Whether no shard has run out of sequence numbers.
    pub fn has_numbers(&self) -> (r: bool)
        requires
            self.wf(),
        ensures
            r == self.can_number(),
    {
        let mut i: usize = 0;
        while i < SHARDS
            invariant
                i <= SHARDS,
                self.wf(),
                forall|k: int| 0 <= k < i ==> (#[trigger] self@[k]).next < u64::MAX,
            decreases SHARDS - i,
        {
            assert(self@[i as int] == self.shards@[i as int]@);
            if !self.shards[i].has_number() {
                return false;
            }
            i = i + 1;
        }
        true
    }

    /// A cache that is in order never holds more than its size, whatever that
    /// size is, and so does each shard with its part of it. The numbers that
    /// the shards hand out fit in a word.
    pub proof fn law_within_size(&self)
        requires
            self.wf(),
        ensures
            sound_shards(self.cfg(), self@),
            0 <= bytes_held(self@) <= self.cfg().size_bytes,
    {
        assert forall|i: int| 0 <= i < SHARDS implies sound_shard(self.cfg(), #[trigger] self@[i]) by {
            assert(self.shards@[i].wf());
            self.shards@[i].law_within_budget();
        }
        law_size_is_kept(self.cfg(), self@);
    }

    /// Builds a cache with the given configuration.
    pub fn new(cfg: Config) -> (r: Self)
        ensures
            r.wf(),
            r.cfg() == cfg,
            r@ == Seq::new(
                SHARDS as nat,
                |i: int|
                    ShardV {
                        map: Map::empty(),
                        order: Seq::empty(),
                        bytes: 0,
                        budget: per_shard(cfg.size_bytes),
                        next: 0,
                    },
            ),
    {
        let budget = Self::budget_of(cfg.size_bytes);
        let mut shards: Vec<Shard> = Vec::new();
        let ghost empty = ShardV {
            map: Map::empty(),
            order: Seq::empty(),
            bytes: 0,
            budget: budget as int,
            next: 0,
        };
        while shards.len() < SHARDS
            invariant
                shards@.len() <= SHARDS,
                empty == (ShardV {
                    map: Map::empty(),
                    order: Seq::empty(),
                    bytes: 0,
                    budget: budget as int,
                    next: 0,
                }),
                forall|i: int| 0 <= i < shards@.len() ==> (#[trigger] shards@[i]).wf() && shards@[i]@ == empty,
            decreases SHARDS - shards@.len(),
        {
            shards.push(Shard::new(budget));
        }
        let r = Cache { shards, shard_hasher: new_hasher(), cfg };
        assert(r@ =~= Seq::new(SHARDS as nat, |i: int| empty));
        r
    }

    /// What one shard may hold.
    fn budget_of(size: usize) -> (r: usize)
        ensures
            r == per_shard(size),
            r <= usize::MAX / 2,
    {
        if size < SHARDS {
            1
        } else {
            size / SHARDS
        }
    }

    /// Replaces the configuration on a running cache. Each shard is trimmed to
    /// its new budget, and a cache that is switched off is emptied.
    pub fn set_config(&mut self, cfg: Config)
        requires
            old(self).wf(),
        ensures
            final(self).wf(),
            final(self).cfg() == cfg,
            final(self).hasher() == old(self).hasher(),
            final(self)@ == Seq::new(
                SHARDS as nat,
                |i: int|
                    {
                        let s = evicted(ShardV { budget: per_shard(cfg.size_bytes), ..old(self)@[i] });
                        if cfg.size_bytes == 0 {
                            ShardV { map: Map::empty(), order: Seq::empty(), bytes: 0, ..s }
                        } else {
                            s
                        }
                    },
            ),
    {
        let budget = Self::budget_of(cfg.size_bytes);
        let ghost was = self@;
        assert forall|k: int| 0 <= k < SHARDS implies weighty(#[trigger] was[k]) && legible(was[k]) by {
            assert(was[k] == self.shards@[k]@);
        }
        let mut i: usize = 0;
        while i < SHARDS
            invariant
                i <= SHARDS,
                self.shards@.len() == SHARDS,
                self.shard_hasher == old(self).shard_hasher,
                was.len() == SHARDS,
                forall|k: int| 0 <= k < SHARDS ==> (#[trigger] self.shards@[k]).wf(),
                forall|k: int| 0 <= k < SHARDS ==> weighty(#[trigger] was[k]) && legible(was[k]),
                forall|k: int|
                    0 <= k < i ==> (#[trigger] self.shards@[k])@ == evicted(ShardV { budget: budget as int, ..was[k] }),
                forall|k: int| i <= k < SHARDS ==> (#[trigger] self.shards@[k])@ == was[k],
            decreases SHARDS - i,
        {
            assert(self.shards@[i as int].wf() && self.shards@[i as int]@ == was[i as int]);
            self.shards[i].set_budget(budget);
            i = i + 1;
        }
        self.cfg = cfg;
        proof {
            assert forall|k: int| 0 <= k < SHARDS implies (#[trigger] self.shards@[k])@.budget == budget by {
                assert(self.shards@[k]@ == evicted(ShardV { budget: budget as int, ..was[k] }));
                lemma_evicted_budget(ShardV { budget: budget as int, ..was[k] });
            }
            assert forall|k: int| 0 <= k < SHARDS implies weighty((#[trigger] self.shards@[k])@) && legible(
                self.shards@[k]@,
            ) by {
                assert(self.shards@[k]@ == evicted(ShardV { budget: budget as int, ..was[k] }));
                lemma_evicted_weighty(ShardV { budget: budget as int, ..was[k] });
            }
        }
        let ghost trimmed = self@;
        if cfg.size_bytes == 0 {
            self.clear();
        }
        assert(self@ =~= Seq::new(
            SHARDS as nat,
            |k: int|
                {
                    let s = evicted(ShardV { budget: per_shard(cfg.size_bytes), ..was[k] });
                    if cfg.size_bytes == 0 {
                        ShardV { map: Map::empty(), order: Seq::empty(), bytes: 0, ..s }
                    } else {
                        s
                    }
                },
        )) by {
            assert forall|k: int| 0 <= k < SHARDS implies trimmed[k] == evicted(
                ShardV { budget: budget as int, ..was[k] },
            ) by {}
        }
    }

    /// Reports whether caching is switched off.
    pub fn is_disabled(&self) -> (r: bool)
        ensures
            r == (self.cfg().size_bytes == 0),
    {
        self.cfg.size_bytes == 0
    }

    /// Picks the shard for a key, the same one every time.
    pub fn shard_of(&self, k: &Key) -> (r: usize)
        ensures
            r == shard_for(self.hasher(), k@),
            r < SHARDS,
    {
        let b = k.bytes();
        (hash_one(&self.shard_hasher, b.as_slice()) % 16) as usize
    }

    /// Looks up the answer to `req`, stored under `k`, at `now` milliseconds
    /// since the cache's epoch: with its TTLs adjusted to the time already
    /// elapsed, and addressed to `req`.
    pub fn get(&mut self, k: &Key, req: &Message, now: u64) -> (r: Option<Hit>)
        requires
            old(self).wf(),
        ensures
            final(self).wf(),
            final(self).cfg() == old(self).cfg(),
            final(self).hasher() == old(self).hasher(),
            final(self)@ == answered_from(old(self).cfg(), old(self).hasher(), old(self)@, k@, req@, now).0,
            same_hit(r, answered_from(old(self).cfg(), old(self).hasher(), old(self)@, k@, req@, now).1),
    {
        if req.queries.len() == 0 {
            return None;
        }
        let at = self.shard_of(k);
        match self.get_in(at, k, now) {
            None => None,
            Some(mut hit) => {
                readdress(req, &mut hit.msg);
                Some(hit)
            },
        }
    }

    /// Looks up the answer stored under `k` in one shard, adjusting its TTLs
    /// to the time already elapsed.
    fn get_in(&mut self, at: usize, k: &Key, now: u64) -> (r: Option<Hit>)
        requires
            old(self).wf(),
            at < SHARDS,
        ensures
            final(self).wf(),
            final(self).cfg() == old(self).cfg(),
            final(self).hasher() == old(self).hasher(),
            final(self)@ == old(self)@.update(
                at as int,
                looked_up(old(self).cfg(), old(self)@[at as int], key_bytes(k@), now).0,
            ),
            same_hit(r, looked_up(old(self).cfg(), old(self)@[at as int], key_bytes(k@), now).1),
    {
        let ghost was = self@;
        let cfg = self.cfg;
        proof {
            assert(self.shards@[at as int].wf());
            self.shards@[at as int].law_within_budget();
            law_looking_up(cfg, was[at as int], key_bytes(k@), now);
        }
        let r = self.shards[at].get(&cfg, k, now);
        assert(self@ =~= was.update(at as int, looked_up(cfg, was[at as int], key_bytes(k@), now).0));
        r
    }

    /// Releases the refresh claim on an entry, so that a refresh that failed
    /// does not leave the key marked for ever.
    pub fn end_refresh(&mut self, k: &Key)
        requires
            old(self).wf(),
        ensures
            final(self).wf(),
            final(self).cfg() == old(self).cfg(),
            final(self).hasher() == old(self).hasher(),
            final(self)@ == old(self)@.update(
                shard_for(old(self).hasher(), k@),
                released(old(self)@[shard_for(old(self).hasher(), k@)], key_bytes(k@)),
            ),
    {
        let at = self.shard_of(k);
        self.end_refresh_in(at, k);
    }

    /// Releases the refresh claim on an entry of one shard.
    fn end_refresh_in(&mut self, at: usize, k: &Key)
        requires
            old(self).wf(),
            at < SHARDS,
        ensures
            final(self).wf(),
            final(self).cfg() == old(self).cfg(),
            final(self).hasher() == old(self).hasher(),
            final(self)@ == old(self)@.update(at as int, released(old(self)@[at as int], key_bytes(k@))),
    {
        let ghost was = self@;
        proof {
            assert(self.shards@[at as int].wf());
            self.shards@[at as int].law_within_budget();
            law_releasing(was[at as int], key_bytes(k@));
        }
        self.shards[at].end_refresh(k);
        assert(self@ =~= was.update(at as int, released(was[at as int], key_bytes(k@))));
    }

    /// Stores a response, if it is cacheable, in whichever shard the key
    /// falls.
    ///
    /// Returns whether the response was stored.
    pub fn put(&mut self, k: &Key, msg: &Message, now: u64) -> (r: bool)
        requires
            old(self).wf(),
            old(self).can_number(),
        ensures
            final(self).wf(),
            final(self).cfg() == old(self).cfg(),
            final(self).hasher() == old(self).hasher(),
            (final(self)@, r) == put_among(old(self).cfg(), old(self).hasher(), old(self)@, k@, msg@, now),
    {
        let at = self.shard_of(k);
        self.put_in(at, k, msg, now)
    }

    /// Stores a response, if it is cacheable, in one shard.
    fn put_in(&mut self, at: usize, k: &Key, msg: &Message, now: u64) -> (r: bool)
        requires
            old(self).wf(),
            at < SHARDS,
            old(self)@[at as int].next < u64::MAX,
        ensures
            final(self).wf(),
            final(self).cfg() == old(self).cfg(),
            final(self).hasher() == old(self).hasher(),
            final(self)@ == old(self)@.update(
                at as int,
                put_in_shard(old(self).cfg(), old(self)@[at as int], k@, msg@, now).0,
            ),
            r == put_in_shard(old(self).cfg(), old(self)@[at as int], k@, msg@, now).1,
    {
        let ghost was = self@;
        let ghost s = was[at as int];
        assert(was.update(at as int, s) =~= was);
        if self.is_disabled() {
            return false;
        }
        let ttl = match self.cache_ttl_for(msg) {
            None => {
                return false;
            },
            Some(t) => t,
        };
        let p = match Packed::pack(msg) {
            None => {
                return false;
            },
            Some(p) => p,
        };
        proof {
            assert(self.shards@[at as int].wf());
            self.shards@[at as int].law_within_budget();
            law_storing(s, key_bytes(k@), p@, weight_of(k@.name.len(), p@.bytes.len()) as nat, ttl, now);
        }
        let r = self.shards[at].put(k, p, ttl, now);
        assert(self@ =~= was.update(at as int, put_in_shard(self.cfg, s, k@, msg@, now).0));
        r
    }

    /// Decides the TTL to cache a response for, in seconds, or `None` if it
    /// must not be cached. A response with no records at all carries no TTL to
    /// honour.
    pub fn cache_ttl_for(&self, msg: &Message) -> (r: Option<u32>)
        ensures
            r == ttl_of(self.cfg(), msg@),
    {
        let code: u16 = msg.metadata.response_code;
        if code != 0 && code != 3 {
            return None;
        }
        let mut ttl: u32 = match least_ttl(msg) {
            None => {
                return None;
            },
            Some(t) => t,
        };
        if self.cfg.ttl_min > ttl {
            ttl = self.cfg.ttl_min;
        }
        if self.cfg.ttl_max > 0 && self.cfg.ttl_max < ttl {
            ttl = self.cfg.ttl_max;
        }
        if ttl == 0 {
            None
        } else {
            Some(ttl)
        }
    }

    /// Removes every entry.
    pub fn clear(&mut self)
        requires
            old(self).wf(),
        ensures
            final(self).wf(),
            final(self).cfg() == old(self).cfg(),
            final(self).hasher() == old(self).hasher(),
            final(self)@ == Seq::new(
                SHARDS as nat,
                |i: int| ShardV { map: Map::empty(), order: Seq::empty(), bytes: 0, ..old(self)@[i] },
            ),
    {
        let ghost was = self@;
        let ghost size = self.cfg.size_bytes;
        let mut i: usize = 0;
        while i < SHARDS
            invariant
                i <= SHARDS,
                self.shards@.len() == SHARDS,
                was.len() == SHARDS,
                self.cfg.size_bytes == size,
                self.cfg == old(self).cfg,
                self.shard_hasher == old(self).shard_hasher,
                forall|k: int| 0 <= k < SHARDS ==> (#[trigger] self.shards@[k]).wf() && self.shards@[k]@.budget == per_shard(size)
                    && weighty(self.shards@[k]@) && legible(self.shards@[k]@),
                forall|k: int|
                    0 <= k < i ==> (#[trigger] self.shards@[k])@ == (ShardV {
                        map: Map::empty(),
                        order: Seq::empty(),
                        bytes: 0,
                        ..was[k]
                    }),
                forall|k: int| i <= k < SHARDS ==> (#[trigger] self.shards@[k])@ == was[k],
            decreases SHARDS - i,
        {
            assert(self.shards@[i as int].wf() && self.shards@[i as int]@ == was[i as int]);
            self.shards[i].clear();
            i = i + 1;
        }
        assert(self@ =~= Seq::new(
            SHARDS as nat,
            |k: int| ShardV { map: Map::empty(), order: Seq::empty(), bytes: 0, ..was[k] },
        ));
    }

    /// The number of cached entries.
    pub fn len(&self) -> (r: usize)
        requires
            self.wf(),
        ensures
            r == capped(entries_held(self@)),
    {
        let ghost f = |x: ShardV| x.map.len() as int;
        let mut n: usize = 0;
        let mut i: usize = 0;
        assert(self@.take(0) =~= Seq::<ShardV>::empty());
        while i < SHARDS
            invariant
                i <= SHARDS,
                self.wf(),
                f == (|x: ShardV| x.map.len() as int),
                n == capped(sum(self@.take(i as int), f)),
                sum(self@.take(i as int), f) >= 0,
            decreases SHARDS - i,
        {
            assert(self.shards@[i as int].wf());
            assert(self@.take(i + 1).drop_last() =~= self@.take(i as int));
            assert(self@.take(i + 1).last() == self.shards@[i as int]@);
            n = n.saturating_add(self.shards[i].len());
            i = i + 1;
        }
        assert(self@.take(SHARDS as int) =~= self@);
        n
    }

    /// Reports whether the cache holds no entries.
    pub fn is_empty(&self) -> (r: bool)
        requires
            self.wf(),
        ensures
            r == (entries_held(self@) == 0),
    {
        self.len() == 0
    }

    /// The number of bytes held.
    pub fn bytes(&self) -> (r: usize)
        requires
            self.wf(),
        ensures
            r == capped(bytes_held(self@)),
    {
        let ghost f = |x: ShardV| x.bytes;
        let mut n: usize = 0;
        let mut i: usize = 0;
        assert(self@.take(0) =~= Seq::<ShardV>::empty());
        while i < SHARDS
            invariant
                i <= SHARDS,
                self.wf(),
                f == (|x: ShardV| x.bytes),
                n == capped(sum(self@.take(i as int), f)),
                sum(self@.take(i as int), f) >= 0,
            decreases SHARDS - i,
        {
            assert(self@.take(i + 1).drop_last() =~= self@.take(i as int));
            assert(self@.take(i + 1).last() == self.shards@[i as int]@);
            n = n.saturating_add(self.shards[i].bytes());
            i = i + 1;
        }
        assert(self@.take(SHARDS as int) =~= self@);
        n
    }

    /// The number of eviction slots held across every shard.
    pub fn order_len(&self) -> (r: usize)
        requires
            self.wf(),
        ensures
            r == capped(slots_held(self@)),
    {
        let ghost f = |x: ShardV| x.order.len() as int;
        let mut n: usize = 0;
        let mut i: usize = 0;
        assert(self@.take(0) =~= Seq::<ShardV>::empty());
        while i < SHARDS
            invariant
                i <= SHARDS,
                self.wf(),
                f == (|x: ShardV| x.order.len() as int),
                n == capped(sum(self@.take(i as int), f)),
                sum(self@.take(i as int), f) >= 0,
            decreases SHARDS - i,
        {
            assert(self@.take(i + 1).drop_last() =~= self@.take(i as int));
            assert(self@.take(i + 1).last() == self.shards@[i as int]@);
            n = n.saturating_add(self.shards[i].order_len());
            i = i + 1;
        }
        assert(self@.take(SHARDS as int) =~= self@);
        n
    }
}

/// Whether a hit is the one that a spec gives.
pub open spec fn same_hit(r: Option<Hit>, v: Option<HitV>) -> bool {
    match (r, v) {
        (Some(h), Some(x)) => h@ == x,
        (None, None) => true,
        _ => false,
    }
}

proof fn lemma_evicted_budget(s: ShardV)
    ensures
        evicted(s).budget == s.budget,
    decreases s.order.len(),
{
    if s.bytes > s.budget && s.order.len() > 0 {
        let slot = s.order[0];
        let rest = ShardV { order: s.order.drop_first(), ..s };
        if crate::cache::model::is_live(s.map, slot) {
            lemma_evicted_budget(ShardV { map: s.map.remove(slot.1), bytes: s.bytes - s.map[slot.1].weight, ..rest });
        } else {
            lemma_evicted_budget(rest);
        }
    }
}

/// Reports whether a query type may be cached at all: a zone transfer and a
/// query for everything may not.
pub fn is_cacheable_type(qt: u16) -> (r: bool)
    ensures
        r == (qt != 252 && qt != 251 && qt != 255),
{
    qt != 252 && qt != 251 && qt != 255
}

/// Builds a cache of some size, with the other settings at their defaults.
pub fn with_size(bytes: usize) -> (r: Cache)
    requires
        bytes > 0,
    ensures
        r.wf(),
        r.cfg() == (Config {
            size_bytes: bytes,
            ttl_min: 0,
            ttl_max: 0,
            optimistic: false,
            optimistic_answer_ttl: Span { secs: 30, nanos: 0 },
            optimistic_max_age: Span { secs: 43_200, nanos: 0 },
        }),
        entries_held(r@) == 0,
{
    let cfg = Config::default();
    let r = Cache::new(
        Config {
            size_bytes: bytes,
            ttl_min: cfg.ttl_min,
            ttl_max: cfg.ttl_max,
            optimistic: cfg.optimistic,
            optimistic_answer_ttl: cfg.optimistic_answer_ttl,
            optimistic_max_age: cfg.optimistic_max_age,
        },
    );
    proof {
        lemma_no_entries(r@);
    }
    r
}

proof fn lemma_no_entries(s: Seq<ShardV>)
    requires
        forall|i: int| 0 <= i < s.len() ==> (#[trigger] s[i]).map == Map::<Seq<u8>, crate::cache::model::EntryV>::empty(),
    ensures
        entries_held(s) == 0,
    decreases s.len(),
{
    if s.len() > 0 {
        let d = s.drop_last();
        assert forall|i: int| 0 <= i < d.len() implies (#[trigger] d[i]).map
            == Map::<Seq<u8>, crate::cache::model::EntryV>::empty() by {
            assert(d[i] == s[i]);
        }
        lemma_no_entries(d);
        assert(s[s.len() - 1].map.len() == 0);
    }
}

} // verus!
