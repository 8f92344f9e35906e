//! A bitset that says where a table is worth probing.

use vstd::prelude::*;

verus! {

/// A set of bit numbers.
#[derive(Debug)]
pub struct Gate {
    words: Vec<u64>,
}

/// Whether bit `b` of `words` is set.
spec fn bit_set(words: Seq<u64>, b: int) -> bool {
    words[b / 64] & (1u64 << ((b % 64) as u64)) != 0
}

proof fn lemma_or_sets(w: u64, i: u64)
    by (bit_vector)
    requires
        i < 64,
    ensures
        (w | (1u64 << i)) & (1u64 << i) != 0,
{
}

proof fn lemma_or_keeps(w: u64, i: u64, j: u64)
    by (bit_vector)
    requires
        i < 64,
        j < 64,
        i != j,
    ensures
        ((w | (1u64 << i)) & (1u64 << j) != 0) == (w & (1u64 << j) != 0),
{
}

proof fn lemma_zero_holds_none(i: u64)
    by (bit_vector)
    requires
        i < 64,
    ensures
        0u64 & (1u64 << i) == 0,
{
}

impl Gate {
    /// Whether bit `b` is in the set.
    pub closed spec fn has_bit(&self, b: int) -> bool {
        0 <= b < self.words@.len() * 64 && bit_set(self.words@, b)
    }

    /// How many words the set occupies.
    pub closed spec fn size(&self) -> nat {
        self.words@.len()
    }

    /// A set with room for `n` words of bits, none of them set.
    pub fn new(n: usize) -> (r: Self)
        ensures
            r.size() == n,
            forall|b: int| !#[trigger] r.has_bit(b),
    {
        let r = Gate { words: vec![0u64; n] };
        proof {
            assert forall|b: int| !#[trigger] r.has_bit(b) by {
                if 0 <= b < n * 64 {
                    lemma_zero_holds_none((b % 64) as u64);
                }
            }
        }
        r
    }

    /// Puts bit `b` in the set.
    pub fn set(&mut self, b: usize)
        requires
            b < old(self).size() * 64,
        ensures
            final(self).size() == old(self).size(),
            forall|c: int| #[trigger] final(self).has_bit(c) == (c == b || old(self).has_bit(c)),
    {
        let ghost before = self.words@;
        let w = self.words[b / 64];
        let i: u64 = (b % 64) as u64;
        self.words.set(b / 64, w | (1u64 << i));
        proof {
            lemma_or_sets(w, i);
            assert forall|c: int| #[trigger] self.has_bit(c) == (c == b || old(self).has_bit(c)) by {
                if 0 <= c < before.len() * 64 && c != b && c / 64 == (b as int) / 64 {
                    lemma_or_keeps(w, i, (c % 64) as u64);
                }
            }
        }
    }

    /// Whether bit `b` is in the set.
    pub fn has(&self, b: usize) -> (r: bool)
        requires
            b < self.size() * 64,
        ensures
            r == self.has_bit(b as int),
    {
        let i: u64 = (b % 64) as u64;
        self.words[b / 64] & (1u64 << i) != 0
    }

    /// The number of words.
    pub fn len(&self) -> (r: usize)
        ensures
            r == self.size(),
    {
        self.words.len()
    }
}

} // verus!
