//! An open-addressing table that reads its keys a line at a time.

use vstd::prelude::*;

use crate::domidx::{probe_at, steps};

verus! {

/// Slots per line.
pub const LINE: usize = 8;

/// An empty slot's value.
pub const VACANT: u32 = 0xffff_ffff;

/// The multiplier that spreads keys over the lines.
pub const SPREAD: u64 = 0x9E37_79B9_7F4A_7C15;

/// The line a key belongs to, of `lines` lines: the top bits of the product,
/// which every bit of the key reaches.
pub open spec fn line_of(key: u64, lines: int) -> int {
    (((key * SPREAD) % 0x1_0000_0000_0000_0000) * lines) / 0x1_0000_0000_0000_0000
}

/// The number of lines for `want` lines: the first doubling of two, from
/// `lines` on, that is enough.
pub open spec fn doubled(lines: int, want: int) -> int
    decreases
            if want > lines {
                want - lines
            } else {
                0
            },
{
    if lines <= 0 || lines >= want {
        lines
    } else {
        doubled(lines * 2, want)
    }
}

/// How many of `vals` are taken.
pub open spec fn filled(vals: Seq<u32>) -> int
    decreases vals.len(),
{
    if vals.len() == 0 {
        0
    } else {
        filled(vals.drop_last()) + (if vals.last() == VACANT { 0int } else { 1int })
    }
}

/// Whether every slot of line `l` is taken.
pub open spec fn full(vals: Seq<u32>, l: int) -> bool {
    forall|i: int| 0 <= i < 8 ==> #[trigger] vals[8 * l + i] != VACANT
}

/// How many lines are read from line `l` on, until one with an empty slot:
/// that line counts.
pub open spec fn lines_read(vals: Seq<u32>, l: int, left: int) -> int
    decreases left,
{
    if left <= 0 || !full(vals, l) {
        1
    } else {
        1 + lines_read(vals, if l + 1 == vals.len() / 8 { 0 } else { l + 1 }, left - 1)
    }
}

/// A table's slots, by line: each with its key, and its value or [`VACANT`].
#[verifier::ext_equal]
pub ghost struct TableV {
    pub keys: Seq<u64>,
    pub vals: Seq<u32>,
}

/// The number of lines of a table.
pub open spec fn line_count(t: TableV) -> int {
    t.vals.len() as int / 8
}

/// A table of `n` empty slots.
pub open spec fn blank(n: nat) -> TableV {
    TableV { keys: Seq::new(n, |i: int| 0u64), vals: Seq::new(n, |i: int| VACANT) }
}

/// The first empty slot of line `l` from its `i`th on.
pub open spec fn first_vacant(vals: Seq<u32>, l: int, i: int) -> int
    decreases 8 - i,
{
    if i >= 8 || vals[8 * l + i] == VACANT {
        8 * l + i
    } else {
        first_vacant(vals, l, i + 1)
    }
}

/// The first empty slot from line `l` on.
pub open spec fn slot_for(vals: Seq<u32>, l: int, left: int) -> int
    decreases left,
{
    if left <= 0 || !full(vals, l) {
        first_vacant(vals, l, 0)
    } else {
        slot_for(vals, if l + 1 == vals.len() / 8 { 0 } else { l + 1 }, left - 1)
    }
}

/// A table with one entry more: it takes the first empty slot from its key's
/// line onwards.
pub open spec fn filing(t: TableV, key: u64, val: u32) -> TableV {
    let s = slot_for(t.vals, line_of(key, line_count(t)), line_count(t));
    TableV { keys: t.keys.update(s, key), vals: t.vals.update(s, val) }
}

/// The values under `key` in the first `i` slots of line `l`.
pub open spec fn line_under(t: TableV, key: u64, l: int, i: int) -> Seq<u32>
    decreases i,
{
    if i <= 0 {
        Seq::empty()
    } else {
        let s = 8 * l + (i - 1);
        let before = line_under(t, key, l, i - 1);
        if t.vals[s] != VACANT && t.keys[s] == key {
            before.push(t.vals[s])
        } else {
            before
        }
    }
}

/// The values under `key` in the first `n` lines from its own on.
pub open spec fn lines_under(t: TableV, key: u64, n: int) -> Seq<u32>
    decreases n,
{
    if n <= 0 {
        Seq::empty()
    } else {
        let l = probe_at(line_of(key, line_count(t)), n - 1, line_count(t));
        lines_under(t, key, n - 1) + line_under(t, key, l, 8)
    }
}

/// The values under `key`, in the order in which a look-up meets them.
pub open spec fn under(t: TableV, key: u64) -> Seq<u32> {
    lines_under(t, key, line_count(t))
}

/// A table from a 64-bit key to a 32-bit value. A key may be present several
/// times.
///
/// A key belongs to a line. An entry takes the first empty slot from its line
/// onwards, so a look-up has seen every entry under its key once it has read
/// a line with an empty slot.
#[derive(Debug)]
pub struct Table {
    /// Every slot's key, by line.
    keys: Vec<u64>,
    /// Every slot's value, or [`VACANT`], in the same layout.
    vals: Vec<u32>,
    /// The number of lines.
    lines: usize,
}

/// Whether the lines before slot `s` on the way from `key`'s line are full.
spec fn arrives(vals: Seq<u32>, key: u64, s: int) -> bool {
    let lines = vals.len() as int / 8;
    let home = line_of(key, lines);
    forall|k: int| 0 <= k < steps(home, s / 8, lines) ==> full(vals, #[trigger] probe_at(home, k, lines))
}

/// Whether line `l` is filled from its front.
spec fn from_front(vals: Seq<u32>, l: int) -> bool {
    forall|i: int, j: int|
        0 <= i < j < 8 && #[trigger] vals[8 * l + i] == VACANT ==> #[trigger] vals[8 * l + j] == VACANT
}

impl Table {
    /// The table's slots.
    pub closed spec fn view(&self) -> TableV {
        TableV { keys: self.keys@, vals: self.vals@ }
    }

    /// The table's shape: whole lines, a slot to spare, every line filled
    /// from its front, and every entry to be met on the way from its key's
    /// line.
    pub closed spec fn wf(&self) -> bool {
        &&& self.keys@.len() == self.lines * 8
        &&& self.vals@.len() == self.lines * 8
        &&& self.lines > 0 ==> filled(self.vals@) < self.vals@.len()
        &&& forall|l: int| 0 <= l < self.lines ==> #[trigger] from_front(self.vals@, l)
        &&& forall|s: int|
            0 <= s < self.vals@.len() && #[trigger] self.vals@[s] != VACANT ==> arrives(self.vals@, self.keys@[s], s)
    }

    /// The number of entries.
    pub open spec fn entries(&self) -> int {
        filled(self@.vals)
    }

    /// The number of slots.
    pub open spec fn slots(&self) -> nat {
        self@.vals.len()
    }

    /// How many lines a look-up of `key` reads.
    pub open spec fn reads_of(&self, key: u64) -> int {
        lines_read(self@.vals, line_of(key, line_count(self@)), line_count(self@))
    }

    /// The slots come in whole lines.
    pub proof fn lemma_whole_lines(&self)
        requires
            self.wf(),
        ensures
            self.slots() % 8 == 0,
    {
    }

    /// A table with no slots.
    pub fn none() -> (r: Self)
        ensures
            r.wf(),
            r@ == blank(0),
            forall|k: u64| #[trigger] under(r@, k) == Seq::<u32>::empty(),
    {
        let r = Table { keys: Vec::new(), vals: Vec::new(), lines: 0 };
        assert(r@ =~= blank(0));
        r
    }

    /// A table for `n` entries: a power of two of lines holding them at most
    /// two-thirds full, and never fewer than two.
    pub fn with_capacity(n: usize) -> (r: Self)
        requires
            n <= 0x2000_0000,
        ensures
            r.wf(),
            r.entries() == 0,
            r@ == blank((8 * doubled(2, (3 * n + 15) / 16)) as nat),
            r.slots() == 8 * doubled(2, (3 * n + 15) / 16),
            3 * n <= 2 * r.slots(),
            r.slots() > n,
            forall|k: u64| #[trigger] under(r@, k) == Seq::<u32>::empty(),
    {
        let want: usize = (3 * n + 15) / (2 * LINE);
        let mut lines: usize = 2;
        while lines < want
            invariant
                2 <= lines <= 0x1800_0000,
                want <= 0x0600_0000,
                want == (3 * n + 15) / 16,
                doubled(2, want as int) == doubled(lines as int, want as int),
            decreases
                    if want > lines {
                        want - lines
                    } else {
                        0
                    },
        {
            lines = lines * 2;
        }
        let keys: Vec<u64> = vec![0u64; lines * LINE];
        let vals: Vec<u32> = vec![VACANT; lines * LINE];
        proof {
            lemma_none_filled(vals@);
        }
        let r = Table { keys, vals, lines };
        proof {
            assert(r@ =~= blank((8 * lines) as nat));
            assert forall|k: u64| #[trigger] under(r@, k) == Seq::<u32>::empty() by {
                lemma_spread((k * SPREAD) % 0x1_0000_0000_0000_0000, line_count(r@));
                lemma_none_under(r@, k, 0, line_count(r@));
            }
        }
        r
    }

    /// Whether the table has no slots at all.
    pub fn is_empty(&self) -> (r: bool)
        requires
            self.wf(),
        ensures
            r == (self.slots() == 0),
    {
        self.lines == 0
    }

    /// The number of slots.
    pub fn len(&self) -> (r: usize)
        requires
            self.wf(),
        ensures
            r == self.slots(),
    {
        self.vals.len()
    }

    /// The line a key belongs to.
    fn line(&self, key: u64) -> (r: usize)
        requires
            self.lines > 0,
        ensures
            r == line_of(key, self.lines as int),
            r < self.lines,
    {
        let x: u64 = key.wrapping_mul(SPREAD);
        let n: u64 = self.lines as u64;
        proof {
            lemma_spread(x as int, self.lines as int);
            assert(x as int * self.lines as int <= 0xffff_ffff_ffff_ffff * 0xffff_ffff_ffff_ffff) by (nonlinear_arith)
                requires
                    x as int <= 0xffff_ffff_ffff_ffff,
                    0 <= x as int,
                    0 <= self.lines as int <= 0xffff_ffff_ffff_ffff,
            ;
        }
        ((x as u128 * n as u128) / 0x1_0000_0000_0000_0000u128) as usize
    }

    /// Whether every slot of line `l` is taken.
    fn is_full(&self, l: usize) -> (r: bool)
        requires
            self.wf(),
            l < self.lines,
        ensures
            r == full(self.vals@, l as int),
    {
        let total: usize = self.vals.len();
        let mut i: usize = 0;
        while i < LINE
            invariant
                i <= 8,
                l < self.lines,
                self.vals@.len() == self.lines * 8,
                total == self.vals@.len(),
                forall|j: int| 0 <= j < i ==> #[trigger] self.vals@[8 * l + j] != VACANT,
            decreases 8 - i,
        {
            if self.vals[l * LINE + i] == VACANT {
                assert(self.vals@[8 * l + i] == VACANT);
                return false;
            }
            i = i + 1;
        }
        true
    }

    /// Files `val` under `key`.
    pub fn insert(&mut self, key: u64, val: u32)
        requires
            old(self).wf(),
            val != VACANT,
            old(self).entries() + 1 < old(self).slots(),
        ensures
            final(self).wf(),
            final(self).slots() == old(self).slots(),
            final(self).entries() == old(self).entries() + 1,
            final(self)@ == filing(old(self)@, key, val),
            forall|k: u64| #[trigger]
                under(final(self)@, k) == (if k == key {
                    under(old(self)@, k).push(val)
                } else {
                    under(old(self)@, k)
                }),
    {
        let ghost lines = self.lines as int;
        proof {
            lemma_some_not_full(self.vals@);
        }
        let ghost e = choose|e: int| 0 <= e < lines && !full(self.vals@, e);
        let home = self.line(key);
        let ghost hm = home as int;
        let ghost mut n: int = 0;
        let mut l: usize = home;
        while self.is_full(l)
            invariant
                self.wf(),
                *self == *old(self),
                lines == self.lines,
                hm == line_of(key, lines),
                0 <= hm < lines,
                0 <= n < lines,
                l == probe_at(hm, n, lines),
                l < lines,
                0 <= e < lines,
                !full(self.vals@, e),
                n <= steps(hm, e, lines),
                forall|k: int| 0 <= k < n ==> full(self.vals@, #[trigger] probe_at(hm, k, lines)),
                slot_for(self.vals@, hm, lines) == slot_for(self.vals@, l as int, lines - n),
            decreases lines - n,
        {
            proof {
                assert(probe_at(hm, steps(hm, e, lines), lines) == e);
                n = n + 1;
            }
            l = if l + 1 == self.lines { 0 } else { l + 1 };
        }
        let total: usize = self.vals.len();
        let mut i: usize = 0;
        while self.vals[l * LINE + i] != VACANT
            invariant
                i < 8,
                l < self.lines,
                total == self.vals@.len(),
                self.vals@.len() == self.lines * 8,
                !full(self.vals@, l as int),
                forall|j: int| 0 <= j < i ==> #[trigger] self.vals@[8 * l + j] != VACANT,
                first_vacant(self.vals@, l as int, 0) == first_vacant(self.vals@, l as int, i as int),
            decreases 8 - i,
        {
            proof {
                if i == 7 {
                    assert(full(self.vals@, l as int)) by {
                        assert forall|j: int| 0 <= j < 8 implies #[trigger] self.vals@[8 * l + j] != VACANT by {
                            if j == 7 {
                                assert(self.vals@[8 * l + 7] != VACANT);
                            }
                        }
                    }
                }
            }
            i = i + 1;
        }
        let s: usize = l * LINE + i;
        let ghost before = *self;
        self.keys.set(s, key);
        self.vals.set(s, val);
        proof {
            lemma_filled_update(before.vals@, s as int, val);
            assert forall|t: int| 0 <= t < self.vals@.len() && #[trigger] self.vals@[t] != VACANT implies arrives(
                self.vals@,
                self.keys@[t],
                t,
            ) by {
                let hk = line_of(self.keys@[t], lines);
                if t != s {
                    assert(before.vals@[t] != VACANT);
                    assert(arrives(before.vals@, before.keys@[t], t));
                }
                assert forall|k: int| 0 <= k < steps(hk, t / 8, lines) implies full(
                    self.vals@,
                    #[trigger] probe_at(hk, k, lines),
                ) by {
                    assert(full(before.vals@, probe_at(hk, k, lines)));
                }
            }
            assert(s == slot_for(before.vals@, hm, lines));
            assert(self@ =~= filing(before@, key, val));
            assert forall|m: int| 0 <= m < lines implies #[trigger] from_front(self.vals@, m) by {
                assert(from_front(before.vals@, m));
                assert forall|a: int, b: int|
                    0 <= a < b < 8 && #[trigger] self.vals@[8 * m + a] == VACANT implies #[trigger] self.vals@[8 * m + b]
                    == VACANT by {
                    assert(before.vals@[8 * m + a] == VACANT);
                    assert(before.vals@[8 * m + b] == VACANT);
                    if 8 * m + b == s {
                        assert(m == l && b == i);
                        assert(before.vals@[8 * l + a] != VACANT);
                    }
                }
            }
            assert forall|t: int| 0 <= t < before.vals@.len() && #[trigger] before.vals@[t] != VACANT && before.keys@[t]
                == key implies steps(hm, t / 8, lines) <= n by {
                assert(arrives(before.vals@, before.keys@[t], t));
                if steps(hm, t / 8, lines) > n {
                    assert(full(before.vals@, probe_at(hm, n, lines)));
                }
            }
            assert(from_front(before.vals@, l as int));
            assert(before.vals@[8 * l + i] == VACANT);
            assert forall|j: int| i < j < 8 implies #[trigger] before.vals@[8 * l + j] == VACANT by {}
            assert forall|k: u64| #[trigger]
                under(self@, k) == (if k == key {
                    under(before@, k).push(val)
                } else {
                    under(before@, k)
                }) by {
                lemma_filing(before@, key, val, l as int, i as int, n, k);
            }
        }
    }

    /// Every value filed under `key`, in the order in which they were filed.
    pub fn collect(&self, key: u64) -> (r: Vec<u32>)
        requires
            self.wf(),
        ensures
            r@ == under(self@, key),
    {
        let mut out: Vec<u32> = Vec::new();
        if self.lines == 0 {
            return out;
        }
        let total: usize = self.vals.len();
        let ghost lines = self.lines as int;
        proof {
            lemma_some_not_full(self.vals@);
        }
        let ghost e = choose|e: int| 0 <= e < lines && !full(self.vals@, e);
        let home = self.line(key);
        let ghost hm = home as int;
        let ghost mut n: int = 0;
        let mut l: usize = home;
        loop
            invariant
                self.wf(),
                lines == self.lines,
                lines == line_count(self@),
                total == self.vals@.len(),
                hm == line_of(key, lines),
                0 <= hm < lines,
                0 <= n < lines,
                l == probe_at(hm, n, lines),
                l < lines,
                0 <= e < lines,
                !full(self.vals@, e),
                n <= steps(hm, e, lines),
                out@ == lines_under(self@, key, n),
            decreases lines - n,
        {
            let mut i: usize = 0;
            let mut empty = false;
            while i < LINE
                invariant
                    i <= 8,
                    l < self.lines,
                    self.wf(),
                    total == self.vals@.len(),
                    empty == exists|j: int| 0 <= j < i && #[trigger] self.vals@[8 * l + j] == VACANT,
                    out@ =~= lines_under(self@, key, n) + line_under(self@, key, l as int, i as int),
                decreases 8 - i,
            {
                let s: usize = l * LINE + i;
                let v = self.vals[s];
                if v == VACANT {
                    assert(self.vals@[8 * l + i] == VACANT);
                    empty = true;
                } else if self.keys[s] == key {
                    out.push(v);
                }
                i = i + 1;
            }
            assert(out@ == lines_under(self@, key, n + 1));
            if empty {
                proof {
                    assert(!full(self.vals@, l as int));
                    assert forall|t: int| 0 <= t < self.vals@.len() && #[trigger] self.vals@[t] != VACANT && self.keys@[t]
                        == key implies steps(hm, t / 8, lines) < n + 1 by {
                        assert(arrives(self.vals@, self.keys@[t], t));
                        if steps(hm, t / 8, lines) > n {
                            assert(full(self.vals@, probe_at(hm, n, lines)));
                        }
                    }
                    lemma_none_under(self@, key, n + 1, lines);
                }
                return out;
            }
            proof {
                assert(full(self.vals@, l as int));
                assert(probe_at(hm, steps(hm, e, lines), lines) == e);
                n = n + 1;
            }
            l = if l + 1 == self.lines { 0 } else { l + 1 };
        }
    }

    /// How many lines a look-up of `key` reads.
    pub fn reads(&self, key: u64) -> (r: usize)
        requires
            self.wf(),
            self.slots() > 0,
        ensures
            r == self.reads_of(key),
            r <= self.slots(),
    {
        let ghost lines = self.lines as int;
        proof {
            lemma_some_not_full(self.vals@);
        }
        let ghost e = choose|e: int| 0 <= e < lines && !full(self.vals@, e);
        let home = self.line(key);
        let ghost hm = home as int;
        let mut n: usize = 0;
        let mut l: usize = home;
        while self.is_full(l)
            invariant
                self.wf(),
                lines == self.lines,
                hm == line_of(key, lines),
                0 <= hm < lines,
                0 <= n < lines,
                l == probe_at(hm, n as int, lines),
                l < lines,
                0 <= e < lines,
                !full(self.vals@, e),
                n <= steps(hm, e, lines),
                forall|k: int| 0 <= k < n ==> full(self.vals@, #[trigger] probe_at(hm, k, lines)),
                lines_read(self.vals@, hm, lines) == n + lines_read(self.vals@, l as int, lines - n),
            decreases lines - n,
        {
            proof {
                assert(probe_at(hm, steps(hm, e, lines), lines) == e);
            }
            n = n + 1;
            l = if l + 1 == self.lines { 0 } else { l + 1 };
        }
        n + 1
    }
}

proof fn lemma_spread(x: int, lines: int)
    requires
        0 <= x <= 0xffff_ffff_ffff_ffff,
        0 < lines,
    ensures
        0 <= (x * lines) / 0x1_0000_0000_0000_0000 < lines,
{
    assert(0 <= x * lines < 0x1_0000_0000_0000_0000 * lines) by (nonlinear_arith)
        requires
            0 <= x <= 0xffff_ffff_ffff_ffff,
            0 < lines,
    ;
}

/// Lines without an entry under `key` add nothing.
proof fn lemma_none_under(t: TableV, key: u64, n: int, m: int)
    requires
        t.vals.len() == t.keys.len(),
        t.vals.len() == 8 * line_count(t),
        0 <= n <= m <= line_count(t),
        line_count(t) > 0 ==> 0 <= line_of(key, line_count(t)) < line_count(t),
        forall|s: int|
            0 <= s < t.vals.len() && #[trigger] t.vals[s] != VACANT && t.keys[s] == key ==> steps(
                line_of(key, line_count(t)),
                s / 8,
                line_count(t),
            ) < n,
    ensures
        lines_under(t, key, m) == lines_under(t, key, n),
    decreases m - n,
{
    if n < m {
        lemma_none_under(t, key, n, m - 1);
        let lines = line_count(t);
        let home = line_of(key, lines);
        let l = probe_at(home, m - 1, lines);
        assert(steps(home, l, lines) == m - 1);
        lemma_line_under_none(t, key, l, 8);
        assert(lines_under(t, key, m) =~= lines_under(t, key, m - 1));
    }
}

proof fn lemma_line_under_none(t: TableV, key: u64, l: int, i: int)
    requires
        0 <= i <= 8,
        forall|j: int| 0 <= j < 8 ==> #[trigger] t.vals[8 * l + j] == VACANT || t.keys[8 * l + j] != key,
    ensures
        line_under(t, key, l, i) == Seq::<u32>::empty(),
    decreases i,
{
    if i > 0 {
        lemma_line_under_none(t, key, l, i - 1);
        assert(t.vals[8 * l + (i - 1)] == VACANT || t.keys[8 * l + (i - 1)] != key);
    }
}

/// What filing changes in the first `m` slots of line `x`.
proof fn lemma_line_filing(t: TableV, u: TableV, key: u64, val: u32, l: int, i: int, k: u64, x: int, m: int)
    requires
        t.vals.len() == t.keys.len(),
        t.vals.len() == 8 * line_count(t),
        0 <= l < line_count(t),
        0 <= i < 8,
        t.vals[8 * l + i] == VACANT,
        val != VACANT,
        u == (TableV { keys: t.keys.update(8 * l + i, key), vals: t.vals.update(8 * l + i, val) }),
        forall|j: int| i < j < 8 ==> #[trigger] t.vals[8 * l + j] == VACANT,
        0 <= x < line_count(t),
        0 <= m <= 8,
    ensures
        line_under(u, k, x, m) == (if k == key && x == l && m > i {
            line_under(t, k, x, m).push(val)
        } else {
            line_under(t, k, x, m)
        }),
    decreases m,
{
    if m > 0 {
        lemma_line_filing(t, u, key, val, l, i, k, x, m - 1);
        let s = 8 * x + (m - 1);
        if x == l && m - 1 > i {
            assert(t.vals[8 * l + (m - 1)] == VACANT);
        }
        if x != l || m - 1 != i {
            assert(s != 8 * l + i);
        }
    }
}

/// What filing changes in the first `m` lines from a key's own on.
proof fn lemma_lines_filing(t: TableV, u: TableV, key: u64, val: u32, l: int, i: int, n: int, k: u64, m: int)
    requires
        t.vals.len() == t.keys.len(),
        t.vals.len() == 8 * line_count(t),
        0 <= l < line_count(t),
        0 <= i < 8,
        t.vals[8 * l + i] == VACANT,
        val != VACANT,
        u == (TableV { keys: t.keys.update(8 * l + i, key), vals: t.vals.update(8 * l + i, val) }),
        forall|j: int| i < j < 8 ==> #[trigger] t.vals[8 * l + j] == VACANT,
        0 <= n < line_count(t),
        0 <= line_of(key, line_count(t)) < line_count(t),
        0 <= line_of(k, line_count(t)) < line_count(t),
        l == probe_at(line_of(key, line_count(t)), n, line_count(t)),
        forall|s: int|
            0 <= s < t.vals.len() && #[trigger] t.vals[s] != VACANT && t.keys[s] == key ==> steps(
                line_of(key, line_count(t)),
                s / 8,
                line_count(t),
            ) <= n,
        0 <= m <= line_count(t),
    ensures
        lines_under(u, k, m) == (if k == key && m > n {
            lines_under(t, k, m).push(val)
        } else {
            lines_under(t, k, m)
        }),
    decreases m,
{
    if m > 0 {
        lemma_lines_filing(t, u, key, val, l, i, n, k, m - 1);
        let lines = line_count(t);
        let home = line_of(k, lines);
        let x = probe_at(home, m - 1, lines);
        lemma_line_filing(t, u, key, val, l, i, k, x, 8);
        assert(line_count(u) == lines);
        if k == key && m - 1 > n {
            assert(steps(home, x, lines) == m - 1);
            lemma_line_under_none(t, key, x, 8);
            assert(lines_under(u, k, m) =~= lines_under(t, k, m).push(val));
        } else if k == key && m - 1 == n {
            assert(x == l);
            assert(lines_under(u, k, m) =~= lines_under(t, k, m).push(val));
        } else {
            assert(k == key ==> x != l);
        }
    }
}

proof fn lemma_filing(t: TableV, key: u64, val: u32, l: int, i: int, n: int, k: u64)
    requires
        t.vals.len() == t.keys.len(),
        t.vals.len() == 8 * line_count(t),
        0 <= l < line_count(t),
        0 <= i < 8,
        t.vals[8 * l + i] == VACANT,
        val != VACANT,
        8 * l + i == slot_for(t.vals, line_of(key, line_count(t)), line_count(t)),
        forall|j: int| i < j < 8 ==> #[trigger] t.vals[8 * l + j] == VACANT,
        0 <= n < line_count(t),
        l == probe_at(line_of(key, line_count(t)), n, line_count(t)),
        forall|s: int|
            0 <= s < t.vals.len() && #[trigger] t.vals[s] != VACANT && t.keys[s] == key ==> steps(
                line_of(key, line_count(t)),
                s / 8,
                line_count(t),
            ) <= n,
    ensures
        under(filing(t, key, val), k) == (if k == key {
            under(t, k).push(val)
        } else {
            under(t, k)
        }),
{
    let lines = line_count(t);
    lemma_spread((key * SPREAD) % 0x1_0000_0000_0000_0000, lines);
    lemma_spread((k * SPREAD) % 0x1_0000_0000_0000_0000, lines);
    lemma_lines_filing(t, filing(t, key, val), key, val, l, i, n, k, lines);
}

proof fn lemma_none_filled(vals: Seq<u32>)
    requires
        forall|i: int| 0 <= i < vals.len() ==> vals[i] == VACANT,
    ensures
        filled(vals) == 0,
    decreases vals.len(),
{
    if vals.len() > 0 {
        lemma_none_filled(vals.drop_last());
    }
}

proof fn lemma_has_vacant(vals: Seq<u32>)
    requires
        filled(vals) < vals.len(),
    ensures
        exists|e: int| 0 <= e < vals.len() && vals[e] == VACANT,
    decreases vals.len(),
{
    if vals.last() == VACANT {
        assert(vals[vals.len() - 1] == VACANT);
    } else {
        lemma_has_vacant(vals.drop_last());
        let e = choose|e: int| 0 <= e < vals.len() - 1 && vals.drop_last()[e] == VACANT;
        assert(vals[e] == VACANT);
    }
}

proof fn lemma_some_not_full(vals: Seq<u32>)
    requires
        filled(vals) < vals.len(),
        vals.len() % 8 == 0,
    ensures
        exists|e: int| 0 <= e < vals.len() as int / 8 && !full(vals, e),
{
    lemma_has_vacant(vals);
    let s = choose|e: int| 0 <= e < vals.len() && vals[e] == VACANT;
    let e = s / 8;
    assert(vals[8 * e + s % 8] == VACANT);
    assert(!full(vals, e));
}

proof fn lemma_filled_update(vals: Seq<u32>, i: int, v: u32)
    requires
        0 <= i < vals.len(),
        vals[i] == VACANT,
        v != VACANT,
    ensures
        filled(vals.update(i, v)) == filled(vals) + 1,
    decreases vals.len(),
{
    let u = vals.update(i, v);
    if i == vals.len() - 1 {
        assert(u.drop_last() =~= vals.drop_last());
    } else {
        lemma_filled_update(vals.drop_last(), i, v);
        assert(u.drop_last() =~= vals.drop_last().update(i, v));
    }
}

} // verus!
