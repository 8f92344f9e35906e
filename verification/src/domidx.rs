//! A compact index from domain to the rules filed under it.
//!
//! Two parallel arrays, a 64-bit hash and a 32-bit value per slot, in open
//! addressing with linear probing. No key text is stored: a caller that looks
//! a domain up says whether the first rule found really is filed under it,
//! which is what keeps a hash collision from passing for a match.

use vstd::prelude::*;
use vstd::slice::slice_subrange;
use vstd::string::*;

use crate::multi::{capped, word};

verus! {

/// Marks a value as an offset into the spill list rather than a rule index.
pub const SPILL: u32 = 0x8000_0000;

/// An empty slot.
pub const EMPTY: u32 = 0xffff_ffff;

/// The smallest table.
pub const MIN_SLOTS: usize = 1024;

/// How many pairs an index takes: beyond this a spill offset would no longer
/// fit beside its mark.
pub const MAX_PAIRS: usize = 0x5555_5550;

/// The multiplier of the key hash.
pub const HASH_K: u64 = 0x517c_c1b7_2722_0a95;

/// The start value of the key hash.
pub const HASH_SEED: u64 = 0xcbf2_9ce4_8422_2325;

/// The running hash after `key`, before the final mix.
pub open spec fn hash_run(key: Seq<u8>) -> u64
    decreases key.len(),
{
    if key.len() == 0 {
        HASH_SEED
    } else {
        (((hash_run(key.drop_last()) ^ (key.last() as u64)) * HASH_K) % 0x1_0000_0000_0000_0000) as u64
    }
}

/// The hash a key is filed under: the running hash folded onto itself, with
/// the lowest bit set.
pub open spec fn key_hash(key: Seq<u8>) -> u64 {
    let h = hash_run(key);
    (h ^ (h >> 32)) | 1
}

/// The rule indices that `pairs` files under `h`, in the order they arrive.
pub open spec fn filed(pairs: Seq<(u64, u32)>, h: u64) -> Seq<u32>
    decreases pairs.len(),
{
    if pairs.len() == 0 {
        Seq::empty()
    } else if pairs.last().0 == h {
        filed(pairs.drop_last(), h).push(pairs.last().1)
    } else {
        filed(pairs.drop_last(), h)
    }
}

/// The distinct hashes of `pairs`.
pub open spec fn hashes_of(pairs: Seq<(u64, u32)>) -> Set<u64> {
    pairs.map_values(|p: (u64, u32)| p.0).to_set()
}

/// What one more index under a hash adds to the spill list, where `before`
/// arrived under it: a lone index stays in its slot, and two or more take
/// their number and one entry each.
pub open spec fn spill_step(before: int) -> int {
    if before == 0 {
        0
    } else if before == 1 {
        3
    } else {
        1
    }
}

/// How many entries the spill list for `pairs` has.
pub open spec fn spill_of(pairs: Seq<(u64, u32)>) -> int
    decreases pairs.len(),
{
    if pairs.len() == 0 {
        0
    } else {
        spill_of(pairs.drop_last()) + spill_step(filed(pairs.drop_last(), pairs.last().0).len() as int)
    }
}

/// The number of slots for `len` domains: the first doubling of
/// [`MIN_SLOTS`], from `cap` on, that keeps the table at most seven tenths
/// full with one domain to spare.
pub open spec fn table_size(cap: int, len: int) -> int
    decreases
            if (len + 1) * 10 > cap * 7 {
                (len + 1) * 10 - cap * 7
            } else {
                0
            },
{
    if cap <= 0 || (len + 1) * 10 <= cap * 7 {
        cap
    } else {
        table_size(cap * 2, len)
    }
}

/// The number of slots for `pairs`.
pub open spec fn slots_for(pairs: Seq<(u64, u32)>) -> int {
    if pairs.len() == 0 {
        0
    } else {
        table_size(MIN_SLOTS as int, hashes_of(pairs).len() as int)
    }
}

/// The slot that a probe starting at `home` reaches after `n` steps.
pub open spec fn probe_at(home: int, n: int, cap: int) -> int {
    if home + n < cap {
        home + n
    } else {
        home + n - cap
    }
}

/// How many steps a probe starting at `home` takes to reach `slot`.
pub open spec fn steps(home: int, slot: int, cap: int) -> int {
    if slot >= home {
        slot - home
    } else {
        slot - home + cap
    }
}

/// How many of `vals` are taken.
pub open spec fn taken(vals: Seq<u32>) -> int
    decreases vals.len(),
{
    if vals.len() == 0 {
        0
    } else {
        taken(vals.drop_last()) + (if vals.last() == EMPTY { 0int } else { 1int })
    }
}

/// How many runs of one hash begin before `i`.
spec fn runs(pairs: Seq<(u64, u32)>, i: int) -> int
    decreases i,
{
    if i <= 0 {
        0
    } else {
        runs(pairs, i - 1) + (if i == 1 || pairs[i - 2].0 != pairs[i - 1].0 { 1int } else { 0int })
    }
}

/// Whether `pairs` is in ascending order of hash.
pub open spec fn by_hash(pairs: Seq<(u64, u32)>) -> bool {
    forall|i: int, j: int| 0 <= i <= j < pairs.len() ==> pairs[i].0 <= pairs[j].0
}

/// Orders pairs by hash with the standard library's stable
/// `slice::sort_by_key`: the result is ascending in the hash, and the values
/// under each hash are the ones that were there, in the order they were in.
#[verifier::external_body]
fn sort_by_hash(pairs: &mut Vec<(u64, u32)>)
    ensures
        by_hash(final(pairs)@),
        final(pairs)@.len() == old(pairs)@.len(),
        forall|h: u64| #[trigger] filed(final(pairs)@, h) == filed(old(pairs)@, h),
{
    pairs.sort_by_key(|p| p.0);
}

/// Domain to rule indices, in open addressing.
#[derive(Debug)]
pub struct DomainIndex {
    /// Each slot's key hash; meaningless where `vals` says the slot is empty.
    hashes: Vec<u64>,
    /// Each slot's rule index, or a spill offset, or [`EMPTY`].
    vals: Vec<u32>,
    /// Runs of rule indices for domains named by more than one rule, each a
    /// length followed by that many indices.
    spill: Vec<u32>,
    /// How many domains are indexed.
    len: usize,
}

/// Where the probe for `h` begins.
spec fn home(h: u64, cap: int) -> int {
    h as int % cap
}

/// The run that a slot's value stands for.
spec fn decoded(v: u32, spill: Seq<u32>) -> Seq<u32> {
    if v < SPILL {
        seq![v]
    } else {
        let off = v - SPILL;
        spill.subrange(off + 1, off + 1 + spill[off])
    }
}

/// Whether a slot's value stands for a run of one or more rules.
spec fn decodable(v: u32, spill: Seq<u32>) -> bool {
    v >= SPILL ==> {
        let off = v - SPILL;
        &&& off < spill.len()
        &&& spill[off] >= 1
        &&& off + 1 + spill[off] <= spill.len()
    }
}

/// Whether every slot before `slot` on the probe for `h` is taken.
spec fn reachable(vals: Seq<u32>, h: u64, slot: int) -> bool {
    let cap = vals.len() as int;
    forall|k: int|
        0 <= k < steps(home(h, cap), slot, cap) ==> vals[#[trigger] probe_at(home(h, cap), k, cap)] != EMPTY
}

/// The table's shape: slots in step, every taken slot reachable from its
/// home, no hash twice, and a slot to spare.
spec fn shaped(hashes: Seq<u64>, vals: Seq<u32>, spill: Seq<u32>) -> bool {
    &&& hashes.len() == vals.len()
    &&& taken(vals) < vals.len()
    &&& forall|s: int| 0 <= s < vals.len() && #[trigger] vals[s] != EMPTY ==> decodable(vals[s], spill)
    &&& forall|s: int| 0 <= s < vals.len() && #[trigger] vals[s] != EMPTY ==> reachable(vals, hashes[s], s)
    &&& forall|s: int, t: int|
        0 <= s < vals.len() && 0 <= t < vals.len() && #[trigger] vals[s] != EMPTY && #[trigger] vals[t] != EMPTY
            && hashes[s] == hashes[t] ==> s == t
}

/// Whether slot `s` holds hash `h`.
spec fn holds(hashes: Seq<u64>, vals: Seq<u32>, s: int, h: u64) -> bool {
    0 <= s < vals.len() && vals[s] != EMPTY && hashes[s] == h
}

/// Whether some slot holds hash `h`.
spec fn placed(hashes: Seq<u64>, vals: Seq<u32>, h: u64) -> bool {
    exists|s: int| holds(hashes, vals, s, h)
}

impl DomainIndex {
    /// Whether the index is one that [`DomainIndex::build`] makes.
    pub closed spec fn wf(&self) -> bool {
        &&& self.len == 0 ==> self.hashes@.len() == 0 && self.vals@.len() == 0
        &&& self.len > 0 ==> shaped(self.hashes@, self.vals@, self.spill@)
        &&& self.hashes@.len() == self.vals@.len()
    }

    /// The rules filed under hash `h`, none where it is not indexed.
    pub closed spec fn run(&self, h: u64) -> Seq<u32> {
        if placed(self.hashes@, self.vals@, h) {
            decoded(self.vals@[choose|s: int| holds(self.hashes@, self.vals@, s, h)], self.spill@)
        } else {
            Seq::empty()
        }
    }

    /// How many domains are indexed.
    pub closed spec fn count(&self) -> nat {
        self.len as nat
    }

    /// The number of slots.
    pub closed spec fn slots(&self) -> nat {
        self.hashes@.len()
    }

    /// The number of entries in the spill list.
    pub closed spec fn spilled(&self) -> nat {
        self.spill@.len()
    }

    /// Hashes a key the way the index does.
    ///
    /// A multiply-xor over the bytes: the keys are short ASCII domain names.
    pub fn hash(key: &str) -> (r: u64)
        ensures
            r == key_hash(key.spec_bytes()),
    {
        let bytes = key.as_bytes();
        let mut h: u64 = HASH_SEED;
        let mut i: usize = 0;
        assert(bytes@.take(0) =~= Seq::<u8>::empty());
        while i < bytes.len()
            invariant
                i <= bytes@.len(),
                h == hash_run(bytes@.take(i as int)),
            decreases bytes@.len() - i,
        {
            assert(bytes@.take(i + 1).drop_last() =~= bytes@.take(i as int));
            assert(bytes@.take(i + 1).last() == bytes@[i as int]);
            h = (h ^ (bytes[i] as u64)).wrapping_mul(HASH_K);
            i = i + 1;
        }
        assert(bytes@.take(i as int) =~= bytes@);
        h = h ^ (h >> 32);
        h | 1
    }

    /// How many domains are indexed.
    pub fn len(&self) -> (r: usize)
        ensures
            r == self.count(),
    {
        self.len
    }

    /// Reports whether nothing is indexed.
    pub fn is_empty(&self) -> (r: bool)
        ensures
            r == (self.count() == 0),
    {
        self.len == 0
    }

    /// The number of slots, for reporting.
    pub fn capacity(&self) -> (r: usize)
        ensures
            r == self.slots(),
    {
        self.hashes.len()
    }

    /// The bytes the index occupies, for reporting.
    pub fn footprint(&self) -> (r: usize)
        requires
            self.wf(),
        ensures
            r == capped((self.slots() * 12 + self.spilled() * 4) as int),
    {
        let hashes: u128 = self.hashes.len() as u128;
        let vals: u128 = self.vals.len() as u128;
        let spill: u128 = self.spill.len() as u128;
        word(hashes * 8 + vals * 4 + spill * 4)
    }

    /// Builds the index from `(domain hash, rule index)` pairs.
    ///
    /// Pairs may repeat a domain; the rule indices for one domain keep the
    /// order they arrive in.
    pub fn build(pairs: Vec<(u64, u32)>) -> (r: Self)
        requires
            pairs@.len() <= MAX_PAIRS,
            forall|i: int| 0 <= i < pairs@.len() ==> (#[trigger] pairs@[i]).1 < SPILL,
        ensures
            r.wf(),
            forall|h: u64| #[trigger] r.run(h) == filed(pairs@, h),
            r.count() == hashes_of(pairs@).len(),
            r.slots() == slots_for(pairs@),
            r.spilled() == spill_of(pairs@),
    {
        let ghost arrived = pairs@;
        if pairs.len() == 0 {
            proof {
                assert(hashes_of(arrived) =~= Set::<u64>::empty());
            }
            return DomainIndex { hashes: Vec::new(), vals: Vec::new(), spill: Vec::new(), len: 0 };
        }
        let mut pairs = pairs;
        sort_by_hash(&mut pairs);
        proof {
            lemma_filed_bound(arrived, pairs@, SPILL);
        }
        let n: usize = pairs.len();

        let mut len: usize = 0;
        let mut i: usize = 0;
        while i < n
            invariant
                n == pairs@.len(),
                n <= MAX_PAIRS,
                by_hash(pairs@),
                i <= n,
                i < n ==> (i == 0 || pairs@[i - 1].0 != pairs@[i as int].0),
                len == runs(pairs@, i as int),
                len <= i,
            decreases n - i,
        {
            let j = run_end(&pairs, i);
            proof {
                lemma_runs_step(pairs@, i as int, j as int);
            }
            len = len + 1;
            i = j;
        }
        proof {
            lemma_runs_positive(pairs@, n as int);
            lemma_runs_distinct(pairs@, n as int);
            assert(pairs@.take(n as int) =~= pairs@);
            lemma_same_hashes(arrived, pairs@);
        }

        let mut cap: usize = MIN_SLOTS;
        while (len as u64 + 1) * 10 > cap as u64 * 7
            invariant
                0 < len <= MAX_PAIRS,
                1024 <= cap <= 0xf400_0000,
                table_size(MIN_SLOTS as int, len as int) == table_size(cap as int, len as int),
            decreases
                    if (len + 1) * 10 > cap * 7 {
                        (len + 1) * 10 - cap * 7
                    } else {
                        0
                    },
        {
            cap = cap * 2;
        }

        let mut hashes: Vec<u64> = vec![0u64; cap];
        let mut vals: Vec<u32> = vec![EMPTY; cap];
        let mut spill: Vec<u32> = Vec::new();
        proof {
            lemma_none_taken(vals@);
            assert(pairs@.take(0).len() == 0);
        }

        let mut i: usize = 0;
        while i < n
            invariant
                n == pairs@.len(),
                n <= MAX_PAIRS,
                by_hash(pairs@),
                forall|m: int| 0 <= m < n ==> (#[trigger] pairs@[m]).1 < SPILL,
                i <= n,
                i < n ==> (i == 0 || pairs@[i - 1].0 != pairs@[i as int].0),
                0 < len < cap <= 0xf400_0000,
                len == runs(pairs@, n as int),
                vals@.len() == cap,
                shaped(hashes@, vals@, spill@),
                taken(vals@) == runs(pairs@, i as int),
                spill@.len() * 2 <= 3 * i,
                spill@.len() == spill_of(pairs@.take(i as int)),
                forall|s: int, m: int| 0 <= s < cap && vals@[s] != EMPTY && i <= m < n ==> #[trigger] hashes@[s]
                    < (#[trigger] pairs@[m]).0,
                forall|s: int| 0 <= s < cap && #[trigger] vals@[s] != EMPTY ==> decoded(vals@[s], spill@) == filed(
                    pairs@,
                    hashes@[s],
                ),
                forall|m: int| 0 <= m < i ==> placed(hashes@, vals@, (#[trigger] pairs@[m]).0),
            decreases n - i,
        {
            let h = pairs[i].0;
            let j = run_end(&pairs, i);
            proof {
                lemma_runs_step(pairs@, i as int, j as int);
                lemma_runs_monotone(pairs@, j as int, n as int);
                lemma_filed_run(pairs@, i as int, j as int, h);
                lemma_spill_run(pairs@, i as int, j as int);
                lemma_has_empty(vals@);
            }
            let slot = free_slot(&vals, h);
            let ghost old_spill = spill@;
            let v: u32 = if j - i == 1 {
                pairs[i].1
            } else {
                let off: u32 = spill.len() as u32;
                spill.push((j - i) as u32);
                let mut k: usize = i;
                while k < j
                    invariant
                        i <= k <= j <= n,
                        n == pairs@.len(),
                        n <= MAX_PAIRS,
                        spill@.len() == old_spill.len() + 1 + (k - i),
                        forall|x: int| 0 <= x < old_spill.len() ==> spill@[x] == old_spill[x],
                        spill@[old_spill.len() as int] == j - i,
                        spill@.subrange((old_spill.len() + 1) as int, spill@.len() as int) =~= Seq::new(
                            (k - i) as nat,
                            |x: int| pairs@[i + x].1,
                        ),
                    decreases j - k,
                {
                    let ghost before = spill@;
                    spill.push(pairs[k].1);
                    assert(spill@.subrange((old_spill.len() + 1) as int, spill@.len() as int) =~= before.subrange(
                        (old_spill.len() + 1) as int,
                        before.len() as int,
                    ).push(pairs@[k as int].1));
                    k = k + 1;
                }
                SPILL + off
            };
            let ghost old_vals = vals@;
            let ghost old_hashes = hashes@;
            hashes.set(slot, h);
            vals.set(slot, v);
            proof {
                assert(decodable(v, spill@));
                assert(decoded(v, spill@) =~= filed(pairs@, h));
                lemma_taken_update(old_vals, slot as int, v);
                assert forall|s: int| 0 <= s < cap && #[trigger] vals@[s] != EMPTY implies decodable(vals@[s], spill@)
                    && decoded(vals@[s], spill@) == filed(pairs@, hashes@[s]) by {
                    if s != slot {
                        assert(decodable(old_vals[s], old_spill));
                        assert(decoded(old_vals[s], spill@) =~= decoded(old_vals[s], old_spill));
                    }
                }
                assert forall|s: int| 0 <= s < cap && #[trigger] vals@[s] != EMPTY implies reachable(
                    vals@,
                    hashes@[s],
                    s,
                ) by {
                    if s != slot {
                        assert(old_vals[s] != EMPTY);
                        assert(reachable(old_vals, old_hashes[s], s));
                        let hm = home(hashes@[s], cap as int);
                        assert forall|k: int|
                            0 <= k < steps(hm, s, cap as int) implies vals@[#[trigger] probe_at(hm, k, cap as int)]
                            != EMPTY by {
                            assert(old_vals[probe_at(hm, k, cap as int)] != EMPTY);
                        }
                    } else {
                        let hm = home(h, cap as int);
                        assert forall|k: int|
                            0 <= k < steps(hm, s, cap as int) implies vals@[#[trigger] probe_at(hm, k, cap as int)]
                            != EMPTY by {
                            assert(old_vals[probe_at(hm, k, cap as int)] != EMPTY);
                        }
                    }
                }
                assert forall|m: int| 0 <= m < j implies placed(
                    hashes@,
                    vals@,
                    (#[trigger] pairs@[m]).0,
                ) by {
                    if m < i {
                        let s = choose|s: int| holds(old_hashes, old_vals, s, pairs@[m].0);
                        assert(s != slot);
                        assert(holds(hashes@, vals@, s, pairs@[m].0));
                    } else {
                        assert(holds(hashes@, vals@, slot as int, pairs@[m].0));
                    }
                }
                assert forall|s: int, m: int|
                    0 <= s < cap && vals@[s] != EMPTY && j <= m < n implies #[trigger] hashes@[s] < (
                #[trigger] pairs@[m]).0 by {
                    if s == slot {
                        assert(pairs@[j as int].0 <= pairs@[m].0);
                        assert(pairs@[j - 1].0 <= pairs@[j as int].0);
                    }
                }
            }
            i = j;
        }

        let r = DomainIndex { hashes, vals, spill, len };
        proof {
            assert(pairs@.take(n as int) =~= pairs@);
            lemma_spill_same(arrived, pairs@);
            assert forall|h: u64| #[trigger] r.run(h) == filed(arrived, h) by {
                assert(filed(pairs@, h) == filed(arrived, h));
                if placed(r.hashes@, r.vals@, h) {
                    let s = choose|s: int| holds(r.hashes@, r.vals@, s, h);
                    assert(r.vals@[s] != EMPTY);
                } else {
                    assert forall|m: int| 0 <= m < n implies (#[trigger] pairs@[m]).0 != h by {
                        if pairs@[m].0 == h {
                            let s = choose|s: int| holds(r.hashes@, r.vals@, s, pairs@[m].0);
                            assert(holds(r.hashes@, r.vals@, s, h));
                        }
                    }
                    lemma_filed_none(pairs@, h);
                }
            }
        }
        r
    }

    /// The rule indices filed under `key`, or nothing.
    ///
    /// `verify` is handed the first rule found and says whether that rule
    /// really is filed under `key`. It is called on a hash hit only, and one
    /// call is enough: every rule of a run was filed under the same key.
    pub fn get<'a, F: Fn(u32) -> bool>(&'a self, key: &str, verify: F) -> (r: &'a [u32])
        requires
            self.wf(),
            forall|x: u32| #[trigger] call_requires(verify, (x,)),
        ensures
            gives(self.run(key_hash(key.spec_bytes())), verify, r@),
    {
        let none: &'a [u32] = slice_subrange(self.spill.as_slice(), 0, 0);
        assert(none@ =~= Seq::<u32>::empty());
        if self.len == 0 {
            return none;
        }
        let h = Self::hash(key);
        let cap: usize = self.vals.len();
        let ghost gcap = cap as int;
        let ghost hm = home(h, gcap);
        proof {
            lemma_has_empty(self.vals@);
        }
        let ghost e = choose|e: int| 0 <= e < gcap && self.vals@[e] == EMPTY;
        let mut i: usize = (h % (cap as u64)) as usize;
        let ghost mut n: int = 0;
        loop
            invariant
                shaped(self.hashes@, self.vals@, self.spill@),
                self.wf(),
                none@ == Seq::<u32>::empty(),
                cap == self.vals@.len(),
                gcap == cap,
                hm == home(h, gcap),
                0 <= hm < gcap,
                0 <= n < gcap,
                i == probe_at(hm, n, gcap),
                i < cap,
                0 <= e < gcap,
                self.vals@[e] == EMPTY,
                n <= steps(hm, e, gcap),
                forall|k: int| 0 <= k < n ==> self.vals@[#[trigger] probe_at(hm, k, gcap)] != EMPTY,
                forall|k: int| 0 <= k < n ==> self.hashes@[#[trigger] probe_at(hm, k, gcap)] != h,
                h == key_hash(key.spec_bytes()),
                forall|x: u32| #[trigger] call_requires(verify, (x,)),
            decreases gcap - n,
        {
            let v = self.vals[i];
            if v == EMPTY {
                proof {
                    if placed(self.hashes@, self.vals@, h) {
                        let s = choose|s: int| holds(self.hashes@, self.vals@, s, h);
                        assert(self.vals@[s] != EMPTY);
                        assert(reachable(self.vals@, h, s));
                        let d = steps(hm, s, gcap);
                        assert(probe_at(hm, d, gcap) == s);
                        if d > n {
                            assert(self.vals@[probe_at(hm, n, gcap)] != EMPTY);
                        } else if d < n {
                            assert(self.hashes@[probe_at(hm, d, gcap)] != h);
                        }
                    }
                }
                return none;
            }
            if self.hashes[i] == h {
                proof {
                    assert(holds(self.hashes@, self.vals@, i as int, h));
                    let s = choose|s: int| holds(self.hashes@, self.vals@, s, h);
                    assert(self.vals@[s] != EMPTY);
                    assert(s == i);
                }
                let ghost run = self.run(h);
                let found: &'a [u32] = if v < SPILL {
                    slice_subrange(self.vals.as_slice(), i, i + 1)
                } else {
                    let off: usize = (v - SPILL) as usize;
                    assert(decodable(self.vals@[i as int], self.spill@));
                    assert(self.spill.len() <= usize::MAX);
                    let m: usize = self.spill[off] as usize;
                    slice_subrange(self.spill.as_slice(), off + 1, off + 1 + m)
                };
                assert(found@ =~= run);
                if verify(found[0]) {
                    return found;
                }
                return none;
            }
            i = if i + 1 == cap { 0 } else { i + 1 };
            proof {
                assert(e != probe_at(hm, n, gcap));
                assert(probe_at(hm, steps(hm, e, gcap), gcap) == e);
                n = n + 1;
            }
        }
    }
}

/// Whether `found` is what a run of rule indices gives, once `verify` was
/// asked about the first: all of it, or nothing.
pub open spec fn gives<F: Fn(u32) -> bool>(run: Seq<u32>, verify: F, found: Seq<u32>) -> bool {
    ||| run.len() == 0 && found == Seq::<u32>::empty()
    ||| run.len() > 0 && call_ensures(verify, (run[0],), true) && found == run
    ||| run.len() > 0 && call_ensures(verify, (run[0],), false) && found == Seq::<u32>::empty()
}

/// A look-up gives back every rule index that was filed under the key's hash,
/// in the order they arrived, where the first of them is accepted, and nothing
/// otherwise.
pub proof fn law_found_as_filed<F: Fn(u32) -> bool>(
    pairs: Seq<(u64, u32)>,
    index: &DomainIndex,
    key: Seq<u8>,
    verify: F,
    accept: spec_fn(u32) -> bool,
    found: Seq<u32>,
)
    requires
        forall|h: u64| #[trigger] index.run(h) == filed(pairs, h),
        forall|x: u32, b: bool| #[trigger] call_ensures(verify, (x,), b) ==> b == accept(x),
        gives(index.run(key_hash(key)), verify, found),
    ensures
        ({
            let run = filed(pairs, key_hash(key));
            found == (if run.len() > 0 && accept(run[0]) {
                run
            } else {
                Seq::<u32>::empty()
            })
        }),
{
}

/// What was filed under a hash, and nothing else, is in its run.
pub proof fn law_run_is_what_was_filed(pairs: Seq<(u64, u32)>, h: u64, i: u32)
    ensures
        filed(pairs, h).contains(i) <==> pairs.contains((h, i)),
    decreases pairs.len(),
{
    let run = filed(pairs, h);
    if pairs.len() > 0 {
        let d = pairs.drop_last();
        law_run_is_what_was_filed(d, h, i);
        let less = filed(d, h);
        if pairs.contains((h, i)) {
            let k = pairs.index_of((h, i));
            if k < d.len() {
                assert(d[k] == (h, i));
                assert(less.contains(i));
                assert(run[less.index_of(i)] == i);
            } else {
                assert(run[run.len() - 1] == i);
            }
        }
        if run.contains(i) {
            let k = run.index_of(i);
            if k < less.len() {
                assert(less[k] == i);
                assert(d.contains((h, i)));
                assert(pairs[d.index_of((h, i))] == (h, i));
            } else {
                assert(pairs[pairs.len() - 1] == (h, i));
            }
        }
    }
}

/// The end of the run of one hash that starts at `i`.
fn run_end(pairs: &Vec<(u64, u32)>, i: usize) -> (j: usize)
    requires
        by_hash(pairs@),
        i < pairs@.len(),
    ensures
        i < j <= pairs@.len(),
        forall|m: int| i <= m < j ==> (#[trigger] pairs@[m]).0 == pairs@[i as int].0,
        j < pairs@.len() ==> pairs@[j as int].0 != pairs@[i as int].0,
        j < pairs@.len() ==> pairs@[j as int].0 != pairs@[j - 1].0,
{
    let n: usize = pairs.len();
    let mut j: usize = i + 1;
    while j < n && pairs[j].0 == pairs[i].0
        invariant
            i < j <= n,
            n == pairs@.len(),
            forall|m: int| i <= m < j ==> (#[trigger] pairs@[m]).0 == pairs@[i as int].0,
        decreases pairs@.len() - j,
    {
        j = j + 1;
    }
    j
}

/// The first empty slot on the probe for `h`.
fn free_slot(vals: &Vec<u32>, h: u64) -> (slot: usize)
    requires
        0 < vals@.len() <= 0xf400_0000,
        exists|e: int| 0 <= e < vals@.len() && vals@[e] == EMPTY,
    ensures
        slot < vals@.len(),
        vals@[slot as int] == EMPTY,
        reachable(vals@, h, slot as int),
{
    let cap: usize = vals.len();
    let ghost gcap = cap as int;
    let ghost hm = home(h, gcap);
    let ghost e = choose|e: int| 0 <= e < gcap && vals@[e] == EMPTY;
    let mut slot: usize = (h % (cap as u64)) as usize;
    let ghost mut n: int = 0;
    while vals[slot] != EMPTY
        invariant
            cap == vals@.len(),
            cap <= 0xf400_0000,
            gcap == cap,
            hm == home(h, gcap),
            0 <= hm < gcap,
            0 <= n < gcap,
            slot == probe_at(hm, n, gcap),
            slot < cap,
            0 <= e < gcap,
            vals@[e] == EMPTY,
            n <= steps(hm, e, gcap),
            forall|k: int| 0 <= k < n ==> vals@[#[trigger] probe_at(hm, k, gcap)] != EMPTY,
        decreases gcap - n,
    {
        proof {
            assert(probe_at(hm, steps(hm, e, gcap), gcap) == e);
            n = n + 1;
        }
        slot = if slot + 1 == cap { 0 } else { slot + 1 };
    }
    slot
}

proof fn lemma_none_taken(vals: Seq<u32>)
    requires
        forall|i: int| 0 <= i < vals.len() ==> vals[i] == EMPTY,
    ensures
        taken(vals) == 0,
    decreases vals.len(),
{
    if vals.len() > 0 {
        lemma_none_taken(vals.drop_last());
    }
}

proof fn lemma_has_empty(vals: Seq<u32>)
    requires
        taken(vals) < vals.len(),
    ensures
        exists|e: int| 0 <= e < vals.len() && vals[e] == EMPTY,
    decreases vals.len(),
{
    if vals.last() == EMPTY {
        assert(vals[vals.len() - 1] == EMPTY);
    } else {
        lemma_has_empty(vals.drop_last());
        let e = choose|e: int| 0 <= e < vals.len() - 1 && vals.drop_last()[e] == EMPTY;
        assert(vals[e] == EMPTY);
    }
}

proof fn lemma_taken_update(vals: Seq<u32>, i: int, v: u32)
    requires
        0 <= i < vals.len(),
        vals[i] == EMPTY,
        v != EMPTY,
    ensures
        taken(vals.update(i, v)) == taken(vals) + 1,
    decreases vals.len(),
{
    let u = vals.update(i, v);
    if i == vals.len() - 1 {
        assert(u.drop_last() =~= vals.drop_last());
    } else {
        lemma_taken_update(vals.drop_last(), i, v);
        assert(u.drop_last() =~= vals.drop_last().update(i, v));
    }
}

proof fn lemma_runs_step(pairs: Seq<(u64, u32)>, i: int, j: int)
    requires
        0 <= i < j <= pairs.len(),
        i == 0 || pairs[i - 1].0 != pairs[i].0,
        forall|m: int| i <= m < j ==> (#[trigger] pairs[m]).0 == pairs[i].0,
    ensures
        runs(pairs, j) == runs(pairs, i) + 1,
    decreases j - i,
{
    if j > i + 1 {
        lemma_runs_step(pairs, i, j - 1);
        assert(pairs[j - 2].0 == pairs[j - 1].0);
    }
}

proof fn lemma_runs_monotone(pairs: Seq<(u64, u32)>, i: int, j: int)
    requires
        0 <= i <= j,
    ensures
        runs(pairs, i) <= runs(pairs, j),
    decreases j - i,
{
    if i < j {
        lemma_runs_monotone(pairs, i, j - 1);
    }
}

proof fn lemma_runs_positive(pairs: Seq<(u64, u32)>, i: int)
    requires
        i > 0,
    ensures
        runs(pairs, i) > 0,
{
    lemma_runs_monotone(pairs, 1, i);
    assert(runs(pairs, 1) == runs(pairs, 0) + 1);
}

proof fn lemma_runs_distinct(pairs: Seq<(u64, u32)>, i: int)
    requires
        by_hash(pairs),
        0 <= i <= pairs.len(),
    ensures
        hashes_of(pairs.take(i)).finite(),
        hashes_of(pairs.take(i)).len() == runs(pairs, i),
    decreases i,
{
    let first = |p: (u64, u32)| p.0;
    if i == 0 {
        assert(hashes_of(pairs.take(0)) =~= Set::<u64>::empty());
    } else {
        lemma_runs_distinct(pairs, i - 1);
        let before = pairs.take(i - 1).map_values(first);
        let after = pairs.take(i).map_values(first);
        assert(after =~= before.push(pairs[i - 1].0));
        assert(after.to_set() =~= before.to_set().insert(pairs[i - 1].0)) by {
            assert forall|x: u64| after.to_set().contains(x) == before.to_set().insert(pairs[i - 1].0).contains(x) by {
                if before.contains(x) {
                    let k = before.index_of(x);
                    assert(after[k] == x);
                }
                if x == pairs[i - 1].0 {
                    assert(after[i - 1] == x);
                }
            }
        }
        if i > 1 && pairs[i - 2].0 == pairs[i - 1].0 {
            assert(before[i - 2] == pairs[i - 1].0);
            assert(before.to_set().contains(pairs[i - 1].0));
        } else {
            if before.contains(pairs[i - 1].0) {
                let k = before.index_of(pairs[i - 1].0);
                assert(pairs[k].0 <= pairs[i - 2].0 <= pairs[i - 1].0);
            }
            assert(!before.to_set().contains(pairs[i - 1].0));
        }
    }
}

proof fn lemma_filed_none(pairs: Seq<(u64, u32)>, h: u64)
    requires
        forall|m: int| 0 <= m < pairs.len() ==> (#[trigger] pairs[m]).0 != h,
    ensures
        filed(pairs, h) == Seq::<u32>::empty(),
    decreases pairs.len(),
{
    if pairs.len() > 0 {
        assert(pairs[pairs.len() - 1].0 != h);
        assert forall|m: int| 0 <= m < pairs.len() - 1 implies (#[trigger] pairs.drop_last()[m]).0 != h by {
            assert(pairs[m].0 != h);
        }
        lemma_filed_none(pairs.drop_last(), h);
    }
}

proof fn lemma_filed_some(pairs: Seq<(u64, u32)>, m: int)
    requires
        0 <= m < pairs.len(),
    ensures
        filed(pairs, pairs[m].0).contains(pairs[m].1),
    decreases pairs.len(),
{
    let h = pairs[m].0;
    let f = filed(pairs, h);
    if m == pairs.len() - 1 {
        assert(f.last() == pairs[m].1);
    } else {
        lemma_filed_some(pairs.drop_last(), m);
        let g = filed(pairs.drop_last(), h);
        let k = g.index_of(pairs[m].1);
        assert(f[k] == pairs[m].1);
    }
}

proof fn lemma_filed_from(pairs: Seq<(u64, u32)>, h: u64, k: int)
    requires
        0 <= k < filed(pairs, h).len(),
    ensures
        pairs.contains((h, filed(pairs, h)[k])),
    decreases pairs.len(),
{
    let f = filed(pairs, h);
    if pairs.last().0 == h && k == f.len() - 1 {
        assert(pairs.last() == (h, f[k]));
        assert(pairs[pairs.len() - 1] == (h, f[k]));
    } else {
        lemma_filed_from(pairs.drop_last(), h, k);
        let m = pairs.drop_last().index_of((h, f[k]));
        assert(pairs[m] == (h, f[k]));
    }
}

proof fn lemma_filed_run(pairs: Seq<(u64, u32)>, i: int, j: int, h: u64)
    requires
        by_hash(pairs),
        0 <= i < j <= pairs.len(),
        i == 0 || pairs[i - 1].0 != pairs[i].0,
        forall|m: int| i <= m < j ==> (#[trigger] pairs[m]).0 == h,
        j < pairs.len() ==> pairs[j].0 != h,
    ensures
        filed(pairs, h) == Seq::new((j - i) as nat, |k: int| pairs[i + k].1),
    decreases pairs.len(),
{
    let p = pairs.drop_last();
    let want = Seq::new((j - i) as nat, |k: int| pairs[i + k].1);
    if j < pairs.len() {
        assert(pairs[j - 1].0 <= pairs[j].0 <= pairs[pairs.len() - 1].0);
        assert(by_hash(p));
        assert forall|m: int| i <= m < j implies (#[trigger] p[m]).0 == h by {
            assert(pairs[m].0 == h);
        }
        lemma_filed_run(p, i, j, h);
        assert(want =~= Seq::new((j - i) as nat, |k: int| p[i + k].1));
    } else if j == i + 1 {
        assert forall|m: int| 0 <= m < p.len() implies (#[trigger] p[m]).0 != h by {
            assert(pairs[m].0 <= pairs[i - 1].0 <= pairs[i].0);
        }
        lemma_filed_none(p, h);
        assert(pairs[i].0 == h);
        assert(filed(pairs, h) =~= want);
    } else {
        assert(by_hash(p));
        assert forall|m: int| i <= m < j - 1 implies (#[trigger] p[m]).0 == h by {
            assert(pairs[m].0 == h);
        }
        lemma_filed_run(p, i, j - 1, h);
        assert(pairs[j - 1].0 == h);
        assert(filed(pairs, h) =~= want);
    }
}

proof fn lemma_filed_bound(a: Seq<(u64, u32)>, b: Seq<(u64, u32)>, bound: u32)
    requires
        forall|h: u64| #[trigger] filed(b, h) == filed(a, h),
        forall|i: int| 0 <= i < a.len() ==> (#[trigger] a[i]).1 < bound,
    ensures
        forall|i: int| 0 <= i < b.len() ==> (#[trigger] b[i]).1 < bound,
{
    assert forall|i: int| 0 <= i < b.len() implies (#[trigger] b[i]).1 < bound by {
        let h = b[i].0;
        lemma_filed_some(b, i);
        assert(filed(b, h) == filed(a, h));
        let k = filed(b, h).index_of(b[i].1);
        lemma_filed_from(a, h, k);
        let m = a.index_of((h, b[i].1));
        assert(a[m].1 < bound);
    }
}

proof fn lemma_same_hashes(a: Seq<(u64, u32)>, b: Seq<(u64, u32)>)
    requires
        forall|h: u64| #[trigger] filed(b, h) == filed(a, h),
    ensures
        hashes_of(a) == hashes_of(b),
{
    assert forall|x: u64| hashes_of(a).contains(x) == hashes_of(b).contains(x) by {
        lemma_hash_filed(a, x);
        lemma_hash_filed(b, x);
        assert(filed(b, x) == filed(a, x));
    }
    assert(hashes_of(a) =~= hashes_of(b));
}

proof fn lemma_hash_filed(a: Seq<(u64, u32)>, h: u64)
    ensures
        hashes_of(a).contains(h) == (filed(a, h).len() > 0),
{
    let m = a.map_values(|p: (u64, u32)| p.0);
    if hashes_of(a).contains(h) {
        let k = m.index_of(h);
        lemma_filed_some(a, k);
    }
    if filed(a, h).len() > 0 {
        lemma_filed_from(a, h, 0);
        let k = a.index_of((h, filed(a, h)[0]));
        assert(m[k] == h);
    }
}

proof fn lemma_spill_run(pairs: Seq<(u64, u32)>, i: int, j: int)
    requires
        by_hash(pairs),
        0 <= i < j <= pairs.len(),
        i == 0 || pairs[i - 1].0 != pairs[i].0,
        forall|m: int| i <= m < j ==> (#[trigger] pairs[m]).0 == pairs[i].0,
    ensures
        filed(pairs.take(j), pairs[i].0).len() == j - i,
        spill_of(pairs.take(j)) == spill_of(pairs.take(i)) + if j - i > 1 {
            1 + (j - i)
        } else {
            0
        },
    decreases j,
{
    let h = pairs[i].0;
    assert(pairs.take(j).drop_last() =~= pairs.take(j - 1));
    assert(pairs.take(j).last() == pairs[j - 1]);
    if j == i + 1 {
        assert forall|m: int| 0 <= m < i implies (#[trigger] pairs.take(i)[m]).0 != h by {
            assert(pairs[m].0 <= pairs[i - 1].0 <= pairs[i].0);
        }
        lemma_filed_none(pairs.take(i), h);
    } else {
        lemma_spill_run(pairs, i, j - 1);
    }
}

proof fn lemma_spill_remove(b: Seq<(u64, u32)>, p: int)
    requires
        0 <= p < b.len(),
        forall|m: int| p < m < b.len() ==> (#[trigger] b[m]).0 != b[p].0,
    ensures
        spill_of(b) == spill_of(b.remove(p)) + spill_step(filed(b.remove(p), b[p].0).len() as int),
        forall|x: u64| #[trigger]
            filed(b, x) == if x == b[p].0 {
                filed(b.remove(p), x).push(b[p].1)
            } else {
                filed(b.remove(p), x)
            },
    decreases b.len(),
{
    let d = b.drop_last();
    if p == b.len() - 1 {
        assert(b.remove(p) =~= d);
    } else {
        assert(d[p] == b[p]);
        assert forall|m: int| p < m < d.len() implies (#[trigger] d[m]).0 != d[p].0 by {
            assert(d[m] == b[m]);
        }
        lemma_spill_remove(d, p);
        let c = b.remove(p);
        assert(c.drop_last() =~= d.remove(p));
        assert(c.last() == b.last());
        assert(b.last() == b[b.len() - 1]);
        assert(filed(d, b.last().0) == filed(d.remove(p), b.last().0));
        assert forall|x: u64| #[trigger]
            filed(b, x) == if x == b[p].0 {
                filed(c, x).push(b[p].1)
            } else {
                filed(c, x)
            } by {
            assert(filed(d, x) == if x == d[p].0 {
                filed(d.remove(p), x).push(d[p].1)
            } else {
                filed(d.remove(p), x)
            });
        }
    }
}

proof fn lemma_last_with(b: Seq<(u64, u32)>, h: u64) -> (p: int)
    requires
        filed(b, h).len() > 0,
    ensures
        0 <= p < b.len(),
        b[p].0 == h,
        forall|m: int| p < m < b.len() ==> (#[trigger] b[m]).0 != h,
    decreases b.len(),
{
    if b.last().0 == h {
        b.len() - 1
    } else {
        let p = lemma_last_with(b.drop_last(), h);
        assert forall|m: int| p < m < b.len() implies (#[trigger] b[m]).0 != h by {
            if m < b.len() - 1 {
                assert(b.drop_last()[m] == b[m]);
            }
        }
        p
    }
}

proof fn lemma_spill_same(a: Seq<(u64, u32)>, b: Seq<(u64, u32)>)
    requires
        forall|h: u64| #[trigger] filed(b, h) == filed(a, h),
        a.len() == b.len(),
    ensures
        spill_of(a) == spill_of(b),
    decreases a.len(),
{
    if a.len() > 0 {
        let (d, h, v) = (a.drop_last(), a.last().0, a.last().1);
        assert(filed(b, h) == filed(a, h));
        let p = lemma_last_with(b, h);
        lemma_spill_remove(b, p);
        let c = b.remove(p);
        assert forall|x: u64| #[trigger] filed(c, x) == filed(d, x) by {
            assert(filed(b, x) == filed(a, x));
            if x == h {
                assert(filed(b, x).drop_last() =~= filed(c, x));
                assert(filed(a, x).drop_last() =~= filed(d, x));
            }
        }
        lemma_spill_same(d, c);
    }
}

} // verus!
