//! Tables keyed by a string of bytes.

use ahash::AHashMap;
use vstd::prelude::*;

use crate::multi::vacated;

verus! {

/// Where each key's entry stands, as the map holds it.
pub uninterp spec fn byte_places(m: AHashMap<Vec<u8>, usize>) -> Map<Seq<u8>, usize>;

/// `AHashMap::new`: a map that holds nothing.
#[verifier::external_body]
fn new_map() -> (m: AHashMap<Vec<u8>, usize>)
    ensures
        byte_places(m).dom() == Set::<Seq<u8>>::empty(),
{
    AHashMap::new()
}

/// `AHashMap::get`: the position filed under `k`, if there is one.
#[verifier::external_body]
fn map_get(m: &AHashMap<Vec<u8>, usize>, k: &[u8]) -> (r: Option<usize>)
    ensures
        r == if byte_places(*m).contains_key(k@) { Some(byte_places(*m)[k@]) } else { None::<usize> },
{
    m.get(k).copied()
}

/// `AHashMap::insert`: files `pos` under `k`, in place of what was there.
#[verifier::external_body]
fn map_insert(m: &mut AHashMap<Vec<u8>, usize>, k: Vec<u8>, pos: usize)
    ensures
        byte_places(*final(m)) == byte_places(*old(m)).insert(k@, pos),
{
    m.insert(k, pos);
}

/// `AHashMap::remove`: takes what is filed under `k` out of the map.
#[verifier::external_body]
fn map_remove(m: &mut AHashMap<Vec<u8>, usize>, k: &[u8])
    ensures
        byte_places(*final(m)) == byte_places(*old(m)).remove(k@),
{
    m.remove(k);
}

/// Entries under a string of bytes.
pub struct ByteTable<V> {
    /// Where each key's entry stands.
    index: AHashMap<Vec<u8>, usize>,
    /// Each entry's key.
    keys: Vec<Vec<u8>>,
    /// Each entry's value, in step with `keys`.
    vals: Vec<V>,
}

impl<V> ByteTable<V> {
    /// The keys, by position.
    pub closed spec fn keys(&self) -> Seq<Seq<u8>> {
        Seq::new(self.keys@.len(), |i: int| self.keys@[i]@)
    }

    /// The values, by position.
    pub closed spec fn values(&self) -> Seq<V> {
        self.vals@
    }

    /// Whether the hash map and the entries agree.
    pub closed spec fn wf(&self) -> bool {
        let at = byte_places(self.index);
        &&& self.keys@.len() == self.vals@.len()
        &&& forall|i: int| 0 <= i < self.keys@.len() ==> at.contains_key(#[trigger] self.keys()[i]) && at[self.keys()[i]] == i
        &&& forall|k: Seq<u8>| #[trigger]
            at.contains_key(k) ==> 0 <= at[k] < self.keys@.len() && self.keys()[at[k] as int] == k
    }

    /// What the table holds.
    pub open spec fn view(&self) -> Map<Seq<u8>, V> {
        Map::new(
            |k: Seq<u8>| self.keys().contains(k),
            |k: Seq<u8>| self.values()[self.keys().index_of(k)],
        )
    }

    /// Every entry has a position and every position an entry.
    pub proof fn lemma_positions(&self)
        requires
            self.wf(),
        ensures
            self.keys().len() == self.values().len(),
            self.keys().no_duplicates(),
            self@.dom().finite(),
            self@.dom() == self.keys().to_set(),
            self@.len() == self.keys().len(),
            forall|i: int| 0 <= i < self.keys().len() ==> self@.contains_key(#[trigger] self.keys()[i]),
            forall|i: int| 0 <= i < self.keys().len() ==> self@[#[trigger] self.keys()[i]] == self.values()[i],
    {
        let ks = self.keys();
        let at = byte_places(self.index);
        assert forall|i: int, j: int| 0 <= i < ks.len() && 0 <= j < ks.len() && i != j implies ks[i] != ks[j] by {
            assert(at[ks[i]] == i);
            assert(at[ks[j]] == j);
        }
        ks.unique_seq_to_set();
        assert(self@.dom() =~= ks.to_set());
        assert forall|i: int| 0 <= i < ks.len() implies self@.contains_key(#[trigger] ks[i]) && self@[ks[i]]
            == self.values()[i] by {
            let j = ks.index_of(ks[i]);
            assert(ks.contains(ks[i]));
            assert(ks[j] == ks[i]);
        }
    }

    /// A table that holds nothing.
    pub fn new() -> (r: Self)
        ensures
            r.wf(),
            r@ == Map::<Seq<u8>, V>::empty(),
            r.keys().len() == 0,
    {
        let r = ByteTable { index: new_map(), keys: Vec::new(), vals: Vec::new() };
        assert(r@ =~= Map::<Seq<u8>, V>::empty());
        r
    }

    /// How many entries there are.
    pub fn len(&self) -> (r: usize)
        requires
            self.wf(),
        ensures
            r == self@.len(),
            r == self.keys().len(),
    {
        proof {
            self.lemma_positions();
        }
        self.keys.len()
    }

    /// Where the entry under `k` stands, if there is one.
    pub fn position(&self, k: &[u8]) -> (r: Option<usize>)
        requires
            self.wf(),
        ensures
            match r {
                Some(i) => i < self.keys().len() && self.keys()[i as int] == k@ && self@.contains_key(k@)
                    && self@[k@] == self.values()[i as int],
                None => !self@.contains_key(k@),
            },
    {
        proof {
            self.lemma_positions();
        }
        let r = map_get(&self.index, k);
        proof {
            let at = byte_places(self.index);
            if at.contains_key(k@) {
                assert(self.keys()[at[k@] as int] == k@);
            } else if self.keys().contains(k@) {
                let i = self.keys().index_of(k@);
                assert(at.contains_key(self.keys()[i]));
            }
        }
        r
    }

    /// The value under `k`, if there is one.
    pub fn get(&self, k: &[u8]) -> (r: Option<&V>)
        requires
            self.wf(),
        ensures
            match r {
                Some(v) => self@.contains_key(k@) && *v == self@[k@],
                None => !self@.contains_key(k@),
            },
    {
        match self.position(k) {
            Some(i) => Some(&self.vals[i]),
            None => None,
        }
    }

    /// Whether there is an entry under `k`.
    pub fn contains(&self, k: &[u8]) -> (r: bool)
        requires
            self.wf(),
        ensures
            r == self@.contains_key(k@),
    {
        self.position(k).is_some()
    }

    /// The key at a position.
    pub fn key_at(&self, i: usize) -> (r: &[u8])
        requires
            self.wf(),
            i < self.keys().len(),
        ensures
            r@ == self.keys()[i as int],
    {
        self.keys[i].as_slice()
    }

    /// The value at a position.
    pub fn value_at(&self, i: usize) -> (r: &V)
        requires
            self.wf(),
            i < self.keys().len(),
        ensures
            *r == self.values()[i as int],
            *r == self@[self.keys()[i as int]],
    {
        proof {
            self.lemma_positions();
        }
        &self.vals[i]
    }

    /// Files `v` under `k`, in place of what was there. A new entry takes the
    /// position after the last.
    pub fn insert(&mut self, k: Vec<u8>, v: V)
        requires
            old(self).wf(),
        ensures
            final(self).wf(),
            final(self)@ == old(self)@.insert(k@, v),
            old(self)@.contains_key(k@) ==> final(self).keys() == old(self).keys(),
            !old(self)@.contains_key(k@) ==> final(self).keys() == old(self).keys().push(k@),
            !old(self)@.contains_key(k@) ==> final(self).values() == old(self).values().push(v),
    {
        let ghost before = *self;
        proof {
            self.lemma_positions();
        }
        match self.position(k.as_slice()) {
            Some(i) => {
                self.vals.set(i, v);
                proof {
                    assert(self.keys() == before.keys());
                    self.lemma_positions();
                    assert(self@ =~= before@.insert(k@, v)) by {
                        assert forall|q: Seq<u8>| #[trigger] self@.contains_key(q) implies self@[q]
                            == before@.insert(k@, v)[q] by {
                            let j = self.keys().index_of(q);
                            assert(self.keys()[j] == q);
                        }
                    }
                }
            },
            None => {
                let pos: usize = self.keys.len();
                let filed = k.clone();
                assert(filed@ =~= k@);
                map_insert(&mut self.index, filed, pos);
                self.keys.push(k);
                self.vals.push(v);
                proof {
                    let ks = self.keys();
                    let at = byte_places(self.index);
                    assert(ks =~= before.keys().push(k@));
                    assert forall|i: int| 0 <= i < ks.len() implies at.contains_key(#[trigger] ks[i]) && at[ks[i]]
                        == i by {
                        if i < pos {
                            assert(byte_places(before.index).contains_key(before.keys()[i]));
                            assert(before.keys().contains(before.keys()[i]));
                        }
                    }
                    assert forall|q: Seq<u8>| #[trigger] at.contains_key(q) implies 0 <= at[q] < ks.len() && ks[at[q] as int]
                        == q by {
                        if q != k@ {
                            assert(byte_places(before.index).contains_key(q));
                        }
                    }
                    self.lemma_positions();
                    assert(self@ =~= before@.insert(k@, v)) by {
                        assert forall|q: Seq<u8>| self@.contains_key(q) == before@.insert(k@, v).contains_key(q) by {
                            if before.keys().contains(q) {
                                let j = before.keys().index_of(q);
                                assert(ks[j] == q);
                            }
                            if ks.contains(q) && q != k@ {
                                let j = ks.index_of(q);
                                assert(before.keys()[j] == q);
                            }
                            assert(ks[pos as int] == k@);
                        }
                        assert forall|q: Seq<u8>| #[trigger] self@.contains_key(q) implies self@[q]
                            == before@.insert(k@, v)[q] by {
                            let j = ks.index_of(q);
                            assert(ks[j] == q);
                            if j < pos {
                                assert(before.keys()[j] == q);
                                assert(before@[before.keys()[j]] == before.values()[j]);
                            }
                        }
                    }
                }
            },
        }
    }

    /// Exchanges the value at a position for `v`.
    pub fn swap_at(&mut self, i: usize, v: &mut V)
        requires
            old(self).wf(),
            i < old(self).keys().len(),
        ensures
            final(self).wf(),
            final(self).keys() == old(self).keys(),
            final(self).values() == old(self).values().update(i as int, *old(v)),
            *final(v) == old(self).values()[i as int],
            final(self)@ == old(self)@.insert(old(self).keys()[i as int], *old(v)),
    {
        let ghost before = *self;
        proof {
            self.lemma_positions();
        }
        std::mem::swap(&mut self.vals[i], v);
        proof {
            assert(self.keys() == before.keys());
            self.lemma_positions();
            let k = before.keys()[i as int];
            let want = before@.insert(k, *old(v));
            assert forall|q: Seq<u8>| #[trigger] self@.contains_key(q) implies self@[q] == want[q] by {
                let j = self.keys().index_of(q);
                assert(self.keys()[j] == q);
                assert(before@[before.keys()[j]] == before.values()[j]);
            }
            assert(self@ =~= want);
        }
    }

    /// The values, by position.
    pub fn into_values(self) -> (r: Vec<V>)
        ensures
            r@ == self.values(),
    {
        self.vals
    }

    /// Takes the entry under `k` out. The last entry takes its position.
    pub fn remove(&mut self, k: &[u8]) -> (r: Option<V>)
        requires
            old(self).wf(),
        ensures
            final(self).wf(),
            final(self)@ == old(self)@.remove(k@),
            match r {
                Some(v) => old(self)@.contains_key(k@) && v == old(self)@[k@],
                None => !old(self)@.contains_key(k@),
            },
            old(self)@.contains_key(k@) ==> final(self).keys().len() == old(self).keys().len() - 1,
            !old(self)@.contains_key(k@) ==> *final(self) == *old(self),
            forall|i: int|
                0 <= i < old(self).keys().len() && old(self).keys()[i] == k@ ==> final(self).keys() == #[trigger] vacated(
                    old(self).keys(),
                    i,
                ),
            forall|i: int|
                0 <= i < old(self).keys().len() && old(self).keys()[i] == k@ ==> final(self).values()
                    == #[trigger] vacated(old(self).values(), i),
    {
        let ghost before = *self;
        proof {
            self.lemma_positions();
        }
        match self.position(k) {
            None => {
                assert(self@ =~= before@.remove(k@));
                assert forall|i: int| 0 <= i < before.keys().len() implies before.keys()[i] != k@ by {
                    assert(before@.contains_key(before.keys()[i]));
                }
                None
            },
            Some(i) => {
                let last: usize = self.keys.len() - 1;
                map_remove(&mut self.index, k);
                if i != last {
                    let moved = self.keys[last].clone();
                    map_insert(&mut self.index, moved, i);
                }
                let _ = self.keys.swap_remove(i);
                let v = self.vals.swap_remove(i);
                proof {
                    let ks = self.keys();
                    let at = byte_places(self.index);
                    assert(ks =~= vacated(before.keys(), i as int));
                    assert(self.values() =~= vacated(before.values(), i as int));
                    assert forall|q: Seq<u8>| #[trigger] at.contains_key(q) implies 0 <= at[q] < ks.len() && ks[at[q] as int]
                        == q by {
                        if i == last || q != before.keys()[last as int] {
                            assert(byte_places(before.index).contains_key(q));
                        }
                    }
                    assert forall|j: int| 0 <= j < ks.len() implies at.contains_key(#[trigger] ks[j]) && at[ks[j]]
                        == j by {
                        if j != i {
                            assert(byte_places(before.index).contains_key(before.keys()[j]));
                        } else {
                            assert(byte_places(before.index).contains_key(before.keys()[last as int]));
                        }
                    }
                    self.lemma_positions();
                    assert forall|q: Seq<u8>| self@.contains_key(q) == before@.remove(k@).contains_key(q) by {
                        if before.keys().contains(q) && q != k@ {
                            let j = before.keys().index_of(q);
                            if j == last {
                                assert(ks[i as int] == q);
                            } else {
                                assert(ks[j] == q);
                            }
                        }
                        if ks.contains(q) {
                            let j = ks.index_of(q);
                            if j == i {
                                assert(before.keys()[last as int] == q);
                            } else {
                                assert(before.keys()[j] == q);
                            }
                        }
                    }
                    assert forall|q: Seq<u8>| #[trigger] self@.contains_key(q) implies self@[q] == before@.remove(
                        k@,
                    )[q] by {
                        let j = ks.index_of(q);
                        assert(ks[j] == q);
                        let b = if j == i { last as int } else { j };
                        assert(before.keys()[b] == q);
                        assert(before@[before.keys()[b]] == before.values()[b]);
                        assert(self.values()[j] == before.values()[b]);
                    }
                    assert(self@ =~= before@.remove(k@));
                }
                Some(v)
            },
        }
    }
}

} // verus!
