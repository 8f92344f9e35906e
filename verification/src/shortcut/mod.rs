//! An index from literal shortcuts to the rules that carry them.
//!
//! A rule that is not anchored to a domain is a candidate only where its
//! shortcut, the longest literal run of its pattern, occurs in the query.
//! This answers which shortcuts occur in a hostname.
//!
//! Each shortcut is filed under one eight-byte window of itself, the one that
//! is rarest across the whole set. A query hashes each of its own windows,
//! passes a bitset that says whether any shortcut is filed there at all, and
//! confirms what it finds by comparing the whole shortcut. The few shortcuts
//! shorter than a window are filed under their first three bytes in a second
//! table, behind a bitset of its own.

pub mod gate;
pub mod lines;
pub mod naive;

use vstd::bytes::*;
use vstd::prelude::*;
use vstd::slice::slice_subrange;
use vstd::utf8::*;

use crate::multi::{
    capped, gathered, lemma_picked_order, lemma_sum_order, lemma_sum_part, lemma_sum_remove, picked, sum, word,
};
use crate::shortcut::gate::Gate;
use crate::shortcut::lines::{
    Table, TableV, SPREAD, blank, doubled, filing, line_count, line_of, lines_read, under,
};
use crate::table::ints::IntTable;

verus! {

/// The shortest literal worth filing: one below it occurs in nearly every
/// name.
pub const MIN_SHORTCUT_LEN: usize = 3;

/// The window a shortcut is filed under.
pub const WINDOW: usize = 8;

/// Words of the bits kept over the long shortcuts' windows: two megabits.
pub const LONG_GATE_WORDS: usize = 32768;

/// Words of the bits kept over the short shortcuts' leading bytes: 64 kilobits.
pub const GATE_WORDS: usize = 1024;

/// Marks a rule reference as an offset into the spill list.
pub const SPILL: u32 = 0x8000_0000;

/// A shortcut's header in the arena: the rule reference, its length, and
/// where its window sits.
pub const HEADER: usize = 6;

/// The longest text kept for a shortcut. A longer one is filed by its first
/// bytes, which still have to occur for the rule to match.
pub const MAX_TEXT: usize = 255;

/// The most the arena holds, so that an offset fits in 32 bits.
pub const MAX_ARENA: u32 = 0xffff_fff0;

/// The letters before every hostname in the form a pattern is matched
/// against.
pub open spec fn http() -> Seq<u8> {
    seq![104u8, 116, 116, 112]
}

/// Whether `text` stands in `host` at position `at`.
pub open spec fn occurs_at(text: Seq<u8>, host: Seq<u8>, at: int) -> bool {
    0 <= at && at + text.len() <= host.len() && host.subrange(at, at + text.len()) == text
}

/// Whether `text` occurs in `host`.
pub open spec fn occurs_in(text: Seq<u8>, host: Seq<u8>) -> bool {
    exists|at: int| occurs_at(text, host, at)
}

/// What is kept of a shortcut's text.
pub open spec fn cut(text: Seq<u8>) -> Seq<u8> {
    if text.len() > MAX_TEXT {
        text.take(MAX_TEXT as int)
    } else {
        text
    }
}

/// A shortcut's text and rules, where it is worth filing.
pub open spec fn worth(p: (String, Vec<u32>)) -> Option<(Seq<u8>, Seq<u32>)> {
    if encode_utf8(p.0@).len() >= MIN_SHORTCUT_LEN && p.1@.len() > 0 {
        Some((encode_utf8(p.0@), p.1@))
    } else {
        None
    }
}

/// The shortcuts worth filing.
pub open spec fn kept(patterns: Seq<(String, Vec<u32>)>) -> Seq<(Seq<u8>, Seq<u32>)> {
    picked(patterns, |p: (String, Vec<u32>)| worth(p))
}

/// The room a shortcut takes in the arena at most.
pub open spec fn arena_need(p: (String, Vec<u32>)) -> int {
    encode_utf8(p.0@).len() as int + HEADER as int
}

/// The room a shortcut's rules take in the spill list at most.
pub open spec fn spill_need(p: (String, Vec<u32>)) -> int {
    p.1@.len() as int + 1
}

/// Whether an index can hold `patterns`: offsets fit, and so do rule numbers.
pub open spec fn fits(patterns: Seq<(String, Vec<u32>)>) -> bool {
    &&& sum(patterns, |p: (String, Vec<u32>)| arena_need(p)) <= MAX_ARENA
    &&& sum(patterns, |p: (String, Vec<u32>)| spill_need(p)) < SPILL
    &&& forall|i: int, j: int|
        0 <= i < patterns.len() && 0 <= j < patterns[i].1@.len() ==> #[trigger] patterns[i].1@[j] < SPILL
}

/// Whether byte string `a` comes no later than `b`.
pub open spec fn text_le(a: Seq<u8>, b: Seq<u8>) -> bool
    decreases a.len(),
{
    if a.len() == 0 {
        true
    } else if b.len() == 0 {
        false
    } else if a[0] != b[0] {
        a[0] < b[0]
    } else {
        text_le(a.drop_first(), b.drop_first())
    }
}

/// Whether a rule with shortcut `text` is a candidate for `host`.
pub open spec fn reports(text: Seq<u8>, host: Seq<u8>) -> bool {
    occurs_in(text, http()) || occurs_in(cut(text), host)
}

/// The rules of each shortcut.
pub open spec fn rules_of(patterns: Seq<(Seq<u8>, Seq<u32>)>) -> Seq<Seq<u32>> {
    patterns.map_values(|p: (Seq<u8>, Seq<u32>)| p.1)
}

/// Whether `hits` names every shortcut that is a candidate for `host`, each
/// once.
pub open spec fn exactly(patterns: Seq<(Seq<u8>, Seq<u32>)>, host: Seq<u8>, hits: Seq<int>) -> bool {
    &&& hits.no_duplicates()
    &&& forall|p: int| #[trigger]
        hits.contains(p) <==> 0 <= p < patterns.len() && reports(patterns[p].0, host)
}

/// The key of an eight-byte window.
pub open spec fn window_key(text: Seq<u8>, at: int) -> u64 {
    spec_u64_from_le_bytes(text.subrange(at, at + 8))
}

/// Where a window sits in the long gate.
pub open spec fn long_gate_bit_of(key: u64) -> u64 {
    ((((key * SPREAD) % 0x1_0000_0000_0000_0000) as u64) >> 40) & 0x1f_ffff
}

/// The key of the first three bytes at a position.
pub open spec fn short_key_of(text: Seq<u8>, at: int) -> u64 {
    (text[at] as int + text[at + 1] as int * 256 + text[at + 2] as int * 65536) as u64
}

/// Where the first three bytes at a position sit in the short gate.
pub open spec fn gate_bit_of(text: Seq<u8>, at: int) -> u32 {
    let k = ((text[at] as int * 31 + text[at + 1]) * 31 + text[at + 2]) as u32;
    ((((k * 0x9E37_79B1) % 0x1_0000_0000) as u32) >> 13) & 0xffff
}

/// The shortcuts that occur in `http`, in order.
pub open spec fn unconditional(patterns: Seq<(Seq<u8>, Seq<u32>)>) -> Seq<int>
    decreases patterns.len(),
{
    if patterns.len() == 0 {
        Seq::empty()
    } else if occurs_in(patterns.last().0, http()) {
        unconditional(patterns.drop_last()).push(patterns.len() - 1)
    } else {
        unconditional(patterns.drop_last())
    }
}

/// Whether a shortcut is reported for some hosts only, and therefore filed.
pub open spec fn conditional(p: (Seq<u8>, Seq<u32>)) -> bool {
    !occurs_in(p.0, http())
}

/// Whether a shortcut is filed among the long ones, or among the short ones.
pub open spec fn filed_in(p: (Seq<u8>, Seq<u32>), long: bool) -> bool {
    conditional(p) && (p.0.len() >= WINDOW) == long
}

/// How many shortcuts are filed among the long ones, or among the short ones.
pub open spec fn how_many(ps: Seq<(Seq<u8>, Seq<u32>)>, long: bool) -> int {
    sum(ps, |p: (Seq<u8>, Seq<u32>)| if filed_in(p, long) { 1int } else { 0int })
}

/// What a shortcut takes in the arena.
pub open spec fn arena_part(p: (Seq<u8>, Seq<u32>)) -> int {
    if conditional(p) {
        HEADER as int + cut(p.0).len()
    } else {
        0
    }
}

/// What shortcuts take in the arena.
pub open spec fn arena_len(ps: Seq<(Seq<u8>, Seq<u32>)>) -> int {
    sum(ps, |p: (Seq<u8>, Seq<u32>)| arena_part(p))
}

/// What a shortcut takes in the spill list: one rule takes none of it.
pub open spec fn spill_part(p: (Seq<u8>, Seq<u32>)) -> int {
    if conditional(p) && p.1.len() != 1 {
        1 + p.1.len() as int
    } else {
        0
    }
}

/// What shortcuts take in the spill list.
pub open spec fn spill_len(ps: Seq<(Seq<u8>, Seq<u32>)>) -> int {
    sum(ps, |p: (Seq<u8>, Seq<u32>)| spill_part(p))
}

/// Where a shortcut stands in the arena.
pub open spec fn offset_of(ps: Seq<(Seq<u8>, Seq<u32>)>, p: int) -> int {
    arena_len(ps.take(p))
}

/// Every window of `text`, as a key.
pub open spec fn windows_of(text: Seq<u8>) -> Seq<u64> {
    Seq::new(
        (if text.len() >= 8 {
            text.len() - 7
        } else {
            0
        }) as nat,
        |i: int| window_key(text, i),
    )
}

/// Every window of every long shortcut.
pub open spec fn all_windows(ps: Seq<(Seq<u8>, Seq<u32>)>) -> Seq<u64>
    decreases ps.len(),
{
    if ps.len() == 0 {
        Seq::empty()
    } else if filed_in(ps.last(), true) {
        all_windows(ps.drop_last()) + windows_of(cut(ps.last().0))
    } else {
        all_windows(ps.drop_last())
    }
}

/// How often a window occurs across the whole set.
pub open spec fn frequency(ps: Seq<(Seq<u8>, Seq<u32>)>, w: u64) -> int {
    all_windows(ps).to_multiset().count(w) as int
}

/// How many of the first shortcuts, whose windows sit at `at`, are filed under
/// window `w`.
pub open spec fn load(ps: Seq<(Seq<u8>, Seq<u32>)>, at: Seq<int>, w: u64) -> int
    decreases at.len(),
{
    if at.len() == 0 {
        0
    } else {
        let p = ps[at.len() - 1];
        load(ps, at.drop_last(), w) + if filed_in(p, true) && window_key(cut(p.0), at.last()) == w {
            1int
        } else {
            0int
        }
    }
}

/// How rare the window of `text` at `i` is, and how loaded.
pub open spec fn standing(ps: Seq<(Seq<u8>, Seq<u32>)>, at: Seq<int>, text: Seq<u8>, i: int) -> (int, int) {
    (frequency(ps, window_key(text, i)), load(ps, at, window_key(text, i)))
}

/// Whether `a` is rarer than `b`, or as rare and less loaded.
pub open spec fn rarer(a: (int, int), b: (int, int)) -> bool {
    a.0 < b.0 || (a.0 == b.0 && a.1 < b.1)
}

/// The rarest window of `text` up to `i`, among equally rare ones the
/// emptiest, among those the first.
pub open spec fn rarest_of(ps: Seq<(Seq<u8>, Seq<u32>)>, at: Seq<int>, text: Seq<u8>, i: int) -> int
    decreases i,
{
    if i <= 0 {
        0
    } else {
        let best = rarest_of(ps, at, text, i - 1);
        if rarer(standing(ps, at, text, i), standing(ps, at, text, best)) {
            i
        } else {
            best
        }
    }
}

/// Where the windows of the first `n` shortcuts sit that they are filed
/// under. A short one is filed by its first bytes.
pub open spec fn windows_taken(ps: Seq<(Seq<u8>, Seq<u32>)>, n: int) -> Seq<int>
    decreases n,
{
    if n <= 0 {
        Seq::empty()
    } else {
        let at = windows_taken(ps, n - 1);
        let text = cut(ps[n - 1].0);
        at.push(
            if filed_in(ps[n - 1], true) {
                rarest_of(ps, at, text, text.len() - 8)
            } else {
                0
            },
        )
    }
}

/// Where the window sits that a shortcut is filed under.
pub open spec fn window_of(ps: Seq<(Seq<u8>, Seq<u32>)>, p: int) -> int {
    windows_taken(ps, p + 1)[p]
}

/// The key that a shortcut is filed under.
pub open spec fn key_of(ps: Seq<(Seq<u8>, Seq<u32>)>, p: int) -> u64 {
    let text = cut(ps[p].0);
    if filed_in(ps[p], true) {
        window_key(text, window_of(ps, p))
    } else {
        short_key_of(text, 0)
    }
}

/// The slots of a table for the long shortcuts, or for the short ones.
pub open spec fn slots_of(ps: Seq<(Seq<u8>, Seq<u32>)>, long: bool) -> nat {
    let n = how_many(ps, long);
    if n > 0 {
        (8 * doubled(2, (3 * n + 15) / 16)) as nat
    } else {
        0
    }
}

/// The table of the long shortcuts, or of the short ones, once the first `n`
/// of all are filed.
pub open spec fn table_of(ps: Seq<(Seq<u8>, Seq<u32>)>, n: int, long: bool) -> TableV
    decreases n,
{
    if n <= 0 {
        blank(slots_of(ps, long))
    } else if filed_in(ps[n - 1], long) {
        filing(table_of(ps, n - 1, long), key_of(ps, n - 1), offset_of(ps, n - 1) as u32)
    } else {
        table_of(ps, n - 1, long)
    }
}

/// Whether shortcut `p` occurs in `host` with its window at `at`.
pub open spec fn stands(ps: Seq<(Seq<u8>, Seq<u32>)>, p: int, host: Seq<u8>, at: int) -> bool {
    occurs_at(cut(ps[p].0), host, at - window_of(ps, p))
}

/// Whether a walk over `host` meets shortcut `p` at `at` first.
pub open spec fn first_at(ps: Seq<(Seq<u8>, Seq<u32>)>, p: int, host: Seq<u8>, at: int) -> bool {
    stands(ps, p, host, at) && forall|k: int| k < at ==> !#[trigger] stands(ps, p, host, k)
}

/// The long shortcuts, or the short ones, of the first `n` that a walk over
/// `host` meets at `at` first, in the order of their texts.
pub open spec fn first_met(ps: Seq<(Seq<u8>, Seq<u32>)>, n: int, host: Seq<u8>, at: int, long: bool) -> Seq<int>
    decreases n,
{
    if n <= 0 {
        Seq::empty()
    } else {
        let before = first_met(ps, n - 1, host, at, long);
        if filed_in(ps[n - 1], long) && first_at(ps, n - 1, host, at) {
            before.push(n - 1)
        } else {
            before
        }
    }
}

/// The shortcuts that a walk over the first `upto` positions of `host` meets:
/// by position, at each the long ones before the short ones, each shortcut
/// where it is met first.
pub open spec fn met(ps: Seq<(Seq<u8>, Seq<u32>)>, host: Seq<u8>, upto: int) -> Seq<int>
    decreases upto,
{
    if upto <= 0 {
        Seq::empty()
    } else {
        let n = ps.len() as int;
        met(ps, host, upto - 1) + first_met(ps, n, host, upto - 1, true) + first_met(ps, n, host, upto - 1, false)
    }
}

/// How many positions of `host` can begin a shortcut.
pub open spec fn positions(host: Seq<u8>) -> int {
    if host.len() >= 3 {
        host.len() - 2
    } else {
        0
    }
}

/// The shortcuts that are candidates for `host`, in the order in which they
/// are reported: those that are so for every host, then the others as a walk
/// over the host meets them.
pub open spec fn hits_in(ps: Seq<(Seq<u8>, Seq<u32>)>, host: Seq<u8>) -> Seq<int> {
    unconditional(ps) + met(ps, host, positions(host))
}

/// Whether `ps` is what an index of `patterns` holds: the shortcuts worth
/// filing, in the order of their texts.
pub open spec fn holds(ps: Seq<(Seq<u8>, Seq<u32>)>, patterns: Seq<(String, Vec<u32>)>) -> bool {
    &&& ps.to_multiset() == kept(patterns).to_multiset()
    &&& by_text(ps)
}

/// Whether shortcuts are in the order of their texts.
pub open spec fn by_text(ps: Seq<(Seq<u8>, Seq<u32>)>) -> bool {
    forall|i: int, j: int| 0 <= i <= j < ps.len() ==> #[trigger] text_le(ps[i].0, ps[j].0)
}

/// Words of the bits kept over the long shortcuts, or over the short ones.
pub open spec fn gate_words(ps: Seq<(Seq<u8>, Seq<u32>)>, long: bool) -> int {
    if how_many(ps, long) == 0 {
        0
    } else if long {
        LONG_GATE_WORDS as int
    } else {
        GATE_WORDS as int
    }
}

/// The bytes that an index of `ps` occupies: its gates, its tables' slots, its
/// arena, and the rules in its spill list and among the unconditional ones.
pub open spec fn bytes_of(ps: Seq<(Seq<u8>, Seq<u32>)>) -> int {
    (gate_words(ps, true) + gate_words(ps, false)) * 8 + (slots_of(ps, true) + slots_of(ps, false)) * 12 + arena_len(ps)
        + (spill_len(ps) + gathered(rules_of(ps), unconditional(ps)).len()) * 4
}

/// How many lines of a table a look-up of `key` reads.
pub open spec fn reads_in(t: TableV, key: u64) -> int {
    lines_read(t.vals, line_of(key, line_count(t)), line_count(t))
}

/// What probing both tables at the first `upto` positions of `host` comes to:
/// lines of the long table read, lines of the short one read, and positions
/// whose leading bytes some short shortcut has.
pub open spec fn probed(ps: Seq<(Seq<u8>, Seq<u32>)>, host: Seq<u8>, upto: int) -> (int, int, int)
    decreases upto,
{
    if upto <= 0 {
        (0, 0, 0)
    } else {
        let n = ps.len() as int;
        let (long, short, hits) = probed(ps, host, upto - 1);
        let at = upto - 1;
        let key = short_key_of(host, at);
        (
            long + if how_many(ps, true) > 0 && at + 8 <= host.len() {
                reads_in(table_of(ps, n, true), window_key(host, at))
            } else {
                0
            },
            short + if how_many(ps, false) > 0 {
                reads_in(table_of(ps, n, false), key)
            } else {
                0
            },
            hits + if exists|p: int| 0 <= p < n && filed_in(#[trigger] ps[p], false) && key_of(ps, p) == key {
                1int
            } else {
                0int
            },
        )
    }
}

/// Orders patterns by text with the standard library's
/// `slice::sort_unstable_by`: the same patterns, each text no later than the
/// next in the order of bytes, which is how strings compare.
#[verifier::external_body]
fn sort_by_text(patterns: &mut Vec<(String, Vec<u32>)>)
    ensures
        final(patterns)@.to_multiset() == old(patterns)@.to_multiset(),
        forall|i: int, j: int|
            0 <= i <= j < final(patterns)@.len() ==> #[trigger] text_le(
                encode_utf8(final(patterns)@[i].0@),
                encode_utf8(final(patterns)@[j].0@),
            ),
{
    patterns.sort_unstable_by(|a, b| a.0.cmp(&b.0));
}

/// Whether `text` stands in `host` at `at`.
fn stands_at(text: &[u8], host: &[u8], at: usize) -> (r: bool)
    ensures
        r == occurs_at(text@, host@, at as int),
{
    let m: usize = text.len();
    let n: usize = host.len();
    if m > n || at > n - m {
        return false;
    }
    let mut i: usize = 0;
    while i < m
        invariant
            m == text@.len(),
            n == host@.len(),
            i <= m <= n,
            at + m <= n,
            forall|j: int| 0 <= j < i ==> host@[at + j] == #[trigger] text@[j],
        decreases m - i,
    {
        if host[at + i] != text[i] {
            assert(host@.subrange(at as int, at + m)[i as int] != text@[i as int]);
            return false;
        }
        i = i + 1;
    }
    assert(host@.subrange(at as int, at + m) =~= text@);
    true
}

/// Whether `text` occurs in `host`.
fn stands_in(text: &[u8], host: &[u8]) -> (r: bool)
    ensures
        r == occurs_in(text@, host@),
{
    let n: usize = host.len();
    let mut at: usize = 0;
    loop
        invariant
            n == host@.len(),
            at <= n,
            forall|k: int| 0 <= k < at ==> !occurs_at(text@, host@, k),
        decreases n - at,
    {
        if stands_at(text, host, at) {
            return true;
        }
        if at == n {
            return false;
        }
        at = at + 1;
    }
}

/// The key of the window of `text` at `at`.
fn window(text: &[u8], at: usize) -> (r: u64)
    requires
        at + 8 <= text@.len(),
    ensures
        r == window_key(text@, at as int),
{
    assert(text.len() <= usize::MAX);
    u64_from_le_bytes(slice_subrange(text, at, at + WINDOW))
}

/// Every window of `text`, as a key.
pub fn windows(text: &[u8]) -> (r: Vec<u64>)
    ensures
        r@ == windows_of(text@),
{
    let mut out: Vec<u64> = Vec::new();
    let n: usize = text.len();
    let mut i: usize = 0;
    while n >= WINDOW && i <= n - WINDOW
        invariant
            n == text@.len(),
            n >= 8 ==> i <= n - 7,
            n < 8 ==> i == 0,
            out@ =~= Seq::new(i as nat, |k: int| window_key(text@, k)),
        decreases n - i,
    {
        out.push(window(text, i));
        i = i + 1;
    }
    out
}

/// Where a window sits in the long gate.
pub fn long_gate_bit(key: u64) -> (r: usize)
    ensures
        r == long_gate_bit_of(key),
        r < LONG_GATE_WORDS * 64,
{
    let x: u64 = key.wrapping_mul(SPREAD) >> 40;
    assert(x & 0x1f_ffff <= 0x1f_ffff) by (bit_vector);
    (x & 0x1f_ffff) as usize
}

/// Where a position's leading bytes sit in the short gate.
pub fn gate_bit(text: &[u8], at: usize) -> (r: usize)
    requires
        at + MIN_SHORTCUT_LEN <= text@.len(),
    ensures
        r == gate_bit_of(text@, at as int),
        r < GATE_WORDS * 64,
{
    assert(text.len() <= usize::MAX);
    let k: u32 = (text[at] as u32 * 31 + text[at + 1] as u32) * 31 + text[at + 2] as u32;
    let x: u32 = k.wrapping_mul(0x9E37_79B1) >> 13;
    assert(x & 0xffff <= 0xffff) by (bit_vector);
    (x & 0xffff) as usize
}

/// The key of a shortcut shorter than a window: its first three bytes.
pub fn short_key(text: &[u8], at: usize) -> (r: u64)
    requires
        at + MIN_SHORTCUT_LEN <= text@.len(),
    ensures
        r == short_key_of(text@, at as int),
{
    assert(text.len() <= usize::MAX);
    text[at] as u64 + text[at + 1] as u64 * 256 + text[at + 2] as u64 * 65536
}

/// How often each of `all` occurs, with a load of none.
fn frequencies(all: &Vec<u64>) -> (grams: IntTable<(u32, u32)>)
    requires
        all@.len() <= u32::MAX,
    ensures
        counts(grams, all@),
{
    let mut grams: IntTable<(u32, u32)> = IntTable::new();
    let mut i: usize = 0;
    assert(all@.take(0) =~= Seq::<u64>::empty());
    proof {
        all@.take(0).to_multiset_ensures();
    }
    while i < all.len()
        invariant
            i <= all@.len(),
            all@.len() <= u32::MAX,
            counts(grams, all@.take(i as int)),
            grams.wf(),
        decreases all@.len() - i,
    {
        let w = all[i];
        let key: (u8, u128) = (0, w as u128);
        let ghost before = all@.take(i as int);
        let ghost after = all@.take(i + 1);
        proof {
            before.to_multiset_ensures();
            after.to_multiset_ensures();
            assert(after =~= before.push(w));
            lemma_count_bound(before, w);
        }
        let n: u32 = match grams.get(key) {
            Some(g) => g.0,
            None => 0,
        };
        assert(key == gram(w));
        let ghost held = grams@;
        grams.insert(key, (n + 1, 0));
        proof {
            assert forall|x: u64| #[trigger] grams@.contains_key(gram(x)) == after.contains(x) by {
                lemma_count_bound(before, x);
                lemma_count_bound(after, x);
                assert(held.contains_key(gram(x)) == before.contains(x));
            }
            assert forall|x: u64| after.contains(x) implies #[trigger] grams@[gram(x)] == (
            after.to_multiset().count(x) as u32, 0u32) by {
                lemma_count_bound(before, x);
                lemma_count_bound(after, x);
                assert(before.contains(x) ==> held[gram(x)] == (before.to_multiset().count(x) as u32, 0u32));
                assert(held.contains_key(gram(x)) == before.contains(x));
            }
        }
        i = i + 1;
    }
    assert(all@.take(i as int) =~= all@);
    grams
}

/// The key under which a window is counted.
spec fn gram(w: u64) -> (u8, u128) {
    (0u8, w as u128)
}

/// Whether `grams` holds how often each window occurs in `all`.
spec fn counts(grams: IntTable<(u32, u32)>, all: Seq<u64>) -> bool {
    &&& grams.wf()
    &&& forall|w: u64|
        #![trigger grams@.contains_key(gram(w))]
        grams@.contains_key(gram(w)) == all.contains(w)
    &&& forall|w: u64|
        #![trigger grams@[gram(w)]]
        all.contains(w) ==> grams@[gram(w)] == (all.to_multiset().count(w) as u32, 0u32)
    &&& forall|k: (u8, u128)| #[trigger] grams@.contains_key(k) ==> grams@[k].1 == 0
}

proof fn lemma_count_bound(s: Seq<u64>, w: u64)
    ensures
        s.to_multiset().count(w) <= s.len(),
        s.contains(w) == (s.to_multiset().count(w) > 0),
{
    s.to_multiset_ensures();
    broadcast use vstd::multiset::group_multiset_axioms;
}

/// How often a window occurs, and how many shortcuts are filed under it.
spec fn stat_of(grams: IntTable<(u32, u32)>, w: u64) -> (u32, u32) {
    if grams@.contains_key(gram(w)) {
        grams@[gram(w)]
    } else {
        (0, 0)
    }
}

/// Whether `grams` holds how rare each window is, and how loaded once the
/// windows at `at` are taken.
spec fn agrees(grams: IntTable<(u32, u32)>, ps: Seq<(Seq<u8>, Seq<u32>)>, at: Seq<int>) -> bool {
    &&& grams.wf()
    &&& forall|w: u64|
        #![trigger stat_of(grams, w)]
        stat_of(grams, w).0 == frequency(ps, w) && stat_of(grams, w).1 == load(ps, at, w)
}

/// The window that `text` is filed under: its rarest, among equally rare ones
/// the emptiest, among those the first.
fn rarest(
    grams: &IntTable<(u32, u32)>,
    text: &[u8],
    ps: Ghost<Seq<(Seq<u8>, Seq<u32>)>>,
    at: Ghost<Seq<int>>,
) -> (r: usize)
    requires
        agrees(*grams, ps@, at@),
        text@.len() >= 8,
    ensures
        r == rarest_of(ps@, at@, text@, text@.len() - 8),
        r + 8 <= text@.len(),
{
    let n: usize = text.len();
    let mut best: usize = 0;
    let mut stat = look(grams, window(text, 0));
    let mut i: usize = 1;
    while i <= n - WINDOW
        invariant
            agrees(*grams, ps@, at@),
            n == text@.len(),
            8 <= n,
            1 <= i <= n - 7,
            best < i,
            stat == stat_of(*grams, window_key(text@, best as int)),
            best == rarest_of(ps@, at@, text@, i - 1),
        decreases n - i,
    {
        let s = look(grams, window(text, i));
        if s.0 < stat.0 || (s.0 == stat.0 && s.1 < stat.1) {
            stat = s;
            best = i;
        }
        i = i + 1;
    }
    best
}

fn look(grams: &IntTable<(u32, u32)>, w: u64) -> (r: (u32, u32))
    requires
        grams.wf(),
    ensures
        r == stat_of(*grams, w),
{
    match grams.get((0, w as u128)) {
        Some(g) => *g,
        None => (0, 0),
    }
}

/// Whether rule reference `r` stands for `rules`.
spec fn refers(r: u32, spill: Seq<u32>, rules: Seq<u32>) -> bool {
    if r < SPILL {
        rules == seq![r]
    } else {
        let at = r - SPILL;
        &&& at + 1 + rules.len() <= spill.len()
        &&& spill[at] == rules.len()
        &&& spill.subrange(at + 1, at + 1 + rules.len()) == rules
    }
}

/// Whether the arena holds shortcut `p` as it is filed.
spec fn written(arena: Seq<u8>, spill: Seq<u32>, ps: Seq<(Seq<u8>, Seq<u32>)>, p: int) -> bool {
    let text = cut(ps[p].0);
    let off = offset_of(ps, p);
    &&& 0 <= off
    &&& off + HEADER + text.len() <= arena.len()
    &&& arena[off + 4] == text.len()
    &&& arena[off + 5] == window_of(ps, p)
    &&& arena.subrange(off + HEADER, off + HEADER + text.len()) == text
    &&& refers(spec_u32_from_le_bytes(arena.subrange(off, off + 4)), spill, ps[p].1)
}

/// Whether the arena and the spill list hold those of the first `n` shortcuts
/// that are filed.
spec fn stored(arena: Seq<u8>, spill: Seq<u32>, ps: Seq<(Seq<u8>, Seq<u32>)>, n: int) -> bool {
    &&& arena.len() == arena_len(ps.take(n))
    &&& spill.len() == spill_len(ps.take(n))
    &&& arena.len() <= MAX_ARENA
    &&& forall|p: int| 0 <= p < n && conditional(#[trigger] ps[p]) ==> written(arena, spill, ps, p)
}

/// The long shortcuts, or the short ones, of the first `n` that are filed
/// under `key`.
spec fn under_key(ps: Seq<(Seq<u8>, Seq<u32>)>, n: int, long: bool, key: u64) -> Seq<int>
    decreases n,
{
    if n <= 0 {
        Seq::empty()
    } else if filed_in(ps[n - 1], long) && key_of(ps, n - 1) == key {
        under_key(ps, n - 1, long, key).push(n - 1)
    } else {
        under_key(ps, n - 1, long, key)
    }
}

/// Where shortcuts stand in the arena.
spec fn places(ps: Seq<(Seq<u8>, Seq<u32>)>, which: Seq<int>) -> Seq<u32> {
    which.map_values(|p: int| offset_of(ps, p) as u32)
}

/// Where a shortcut's key sits in its gate.
spec fn bit_of(ps: Seq<(Seq<u8>, Seq<u32>)>, p: int) -> int {
    if filed_in(ps[p], true) {
        long_gate_bit_of(key_of(ps, p)) as int
    } else {
        gate_bit_of(cut(ps[p].0), 0) as int
    }
}

/// Whether a table and a gate lead to the long shortcuts, or to the short
/// ones, of the first `n`.
spec fn leads(table: Table, gate: Gate, ps: Seq<(Seq<u8>, Seq<u32>)>, n: int, long: bool) -> bool {
    &&& table.wf()
    &&& table@ == table_of(ps, n, long)
    &&& table.slots() == slots_of(ps, long)
    &&& gate.size() == gate_words(ps, long)
    &&& how_many(ps, long) > 0 ==> table.entries() == how_many(ps.take(n), long) && table.slots() > how_many(ps, long)
    &&& forall|k: u64| #[trigger] under(table@, k) == places(ps, under_key(ps, n, long, k))
    &&& forall|p: int| 0 <= p < n && filed_in(#[trigger] ps[p], long) ==> gate.has_bit(bit_of(ps, p))
}

/// Shortcut to rule indices.
pub struct ShortcutIndex {
    /// Shortcuts at least a window long, under their chosen window.
    long: Table,
    /// Which windows any long shortcut is filed under.
    long_gate: Gate,
    /// Shortcuts shorter than a window, under their first three bytes.
    short: Table,
    /// Which leading bytes any short shortcut begins with.
    short_gate: Gate,
    /// Every filed shortcut's header and text, back to back.
    arena: Vec<u8>,
    /// Runs of rule indices for shortcuts carried by more than one rule, each
    /// a length followed by that many indices.
    spill: Vec<u32>,
    /// Rules whose shortcut occurs in `http`: reported for every host.
    always: Vec<u32>,
    /// How many shortcuts are filed.
    len: usize,
    /// The shortcuts worth filing, in the order of their texts.
    held: Ghost<Seq<(Seq<u8>, Seq<u32>)>>,
}

impl ShortcutIndex {
    /// The shortcuts worth filing and their rules, in the order of their
    /// texts.
    pub closed spec fn patterns(&self) -> Seq<(Seq<u8>, Seq<u32>)> {
        self.held@
    }

    /// Whether the index is one that [`ShortcutIndex::build`] makes.
    pub closed spec fn wf(&self) -> bool {
        let n = self.held@.len() as int;
        &&& worth_filing(self.held@)
        &&& self.len == how_many(self.held@, true) + how_many(self.held@, false)
        &&& self.always@ == gathered(rules_of(self.held@), unconditional(self.held@))
        &&& stored(self.arena@, self.spill@, self.held@, n)
        &&& leads(self.long, self.long_gate, self.held@, n, true)
        &&& leads(self.short, self.short_gate, self.held@, n, false)
    }

    /// Builds the index from `(shortcut, rule indices)` pairs.
    ///
    /// A shortcut's rules keep the order they arrive in. Shortcuts below
    /// [`MIN_SHORTCUT_LEN`] bytes and ones without rules are left out.
    #[verifier::rlimit(100)]
    pub fn build(patterns: Vec<(String, Vec<u32>)>) -> (r: Self)
        requires
            fits(patterns@),
        ensures
            r.wf(),
            holds(r.patterns(), patterns@),
    {
        let ghost arrived = patterns@;
        let mut patterns = patterns;
        sort_by_text(&mut patterns);
        let ghost need = |p: (String, Vec<u32>)| arena_need(p);
        let ghost room = |p: (String, Vec<u32>)| spill_need(p);
        let ghost ps = kept(patterns@);
        proof {
            lemma_sum_order(arrived, patterns@, need);
            lemma_sum_order(arrived, patterns@, room);
            lemma_picked_order(arrived, patterns@, |p: (String, Vec<u32>)| worth(p));
            lemma_same_bound(arrived, patterns@);
            lemma_kept_worth(patterns@);
        }
        let http_text: Vec<u8> = vec![104u8, 116, 116, 112];
        assert(http_text@ =~= http());
        let n: usize = patterns.len();

        let mut all: Vec<u64> = Vec::new();
        let mut n_long: usize = 0;
        let mut n_short: usize = 0;
        let mut i: usize = 0;
        assert(patterns@.take(0) =~= Seq::empty());
        while i < n
            invariant
                n == patterns@.len(),
                i <= n,
                http_text@ == http(),
                need == (|p: (String, Vec<u32>)| arena_need(p)),
                sum(patterns@, need) <= MAX_ARENA,
                n_long == how_many(kept(patterns@.take(i as int)), true),
                n_short == how_many(kept(patterns@.take(i as int)), false),
                all@ == all_windows(kept(patterns@.take(i as int))),
                all@.len() <= sum(patterns@.take(i as int), need),
                9 * (n_long + n_short) <= sum(patterns@.take(i as int), need),
            decreases n - i,
        {
            proof {
                lemma_sum_part(patterns@, need, i as int);
                assert(patterns@.take(i + 1).drop_last() =~= patterns@.take(i as int));
                assert(patterns@.take(i + 1).last() == patterns@[i as int]);
            }
            let text = patterns[i].0.as_str().as_bytes();
            let ghost before = kept(patterns@.take(i as int));
            let ghost after = kept(patterns@.take(i + 1));
            if text.len() >= MIN_SHORTCUT_LEN && patterns[i].1.len() > 0 {
                assert(after.drop_last() =~= before);
                if !stands_in(text, http_text.as_slice()) {
                    if text.len() >= WINDOW {
                        let mut here = windows(kept_text(text));
                        all.append(&mut here);
                        n_long = n_long + 1;
                    } else {
                        n_short = n_short + 1;
                    }
                }
            } else {
                assert(after == before);
            }
            i = i + 1;
        }
        proof {
            lemma_sum_part(patterns@, need, n as int);
            assert(patterns@.take(n as int) =~= patterns@);
        }
        let mut grams = frequencies(&all);
        proof {
            assert forall|w: u64|
                #![trigger stat_of(grams, w)]
                stat_of(grams, w).0 == frequency(ps, w) && stat_of(grams, w).1 == load(ps, Seq::empty(), w) by {
                lemma_count_bound(all@, w);
                assert(grams@.contains_key(gram(w)) == all@.contains(w));
                if all@.contains(w) {
                    assert(grams@[gram(w)] == (all@.to_multiset().count(w) as u32, 0u32));
                }
            }
        }

        let mut long = if n_long > 0 {
            Table::with_capacity(n_long)
        } else {
            Table::none()
        };
        let mut long_gate = Gate::new(if n_long > 0 { LONG_GATE_WORDS } else { 0 });
        let mut short = if n_short > 0 {
            Table::with_capacity(n_short)
        } else {
            Table::none()
        };
        let mut short_gate = Gate::new(if n_short > 0 { GATE_WORDS } else { 0 });
        let mut arena: Vec<u8> = Vec::new();
        let mut spill: Vec<u32> = Vec::new();
        let mut always: Vec<u32> = Vec::new();
        let mut len: usize = 0;
        let ghost mut m: int = 0;

        let mut i: usize = 0;
        proof {
            assert(patterns@.take(0) =~= Seq::empty());
            assert(ps.take(0) =~= Seq::empty());
            assert forall|k: u64| #[trigger] under(long@, k) == places(ps, under_key(ps, 0, true, k)) by {
                assert(places(ps, under_key(ps, 0, true, k)) =~= Seq::empty());
            }
            assert forall|k: u64| #[trigger] under(short@, k) == places(ps, under_key(ps, 0, false, k)) by {
                assert(places(ps, under_key(ps, 0, false, k)) =~= Seq::empty());
            }
        }
        while i < n
            invariant
                n == patterns@.len(),
                i <= n,
                http_text@ == http(),
                need == (|p: (String, Vec<u32>)| arena_need(p)),
                room == (|p: (String, Vec<u32>)| spill_need(p)),
                sum(patterns@, need) <= MAX_ARENA,
                sum(patterns@, room) < SPILL,
                forall|a: int, b: int|
                    0 <= a < patterns@.len() && 0 <= b < patterns@[a].1@.len() ==> #[trigger] patterns@[a].1@[b] < SPILL,
                ps == kept(patterns@),
                worth_filing(ps),
                0 <= m <= ps.len(),
                m <= i <= sum(patterns@.take(i as int), need),
                ps.take(m) == kept(patterns@.take(i as int)),
                len == how_many(ps.take(m), true) + how_many(ps.take(m), false),
                len <= i,
                arena@.len() <= sum(patterns@.take(i as int), need),
                spill@.len() <= sum(patterns@.take(i as int), room),
                always@ == gathered(rules_of(ps), unconditional(ps.take(m))),
                stored(arena@, spill@, ps, m),
                leads(long, long_gate, ps, m, true),
                leads(short, short_gate, ps, m, false),
                agrees(grams, ps, windows_taken(ps, m)),
            decreases n - i,
        {
            proof {
                lemma_sum_part(patterns@, need, i as int);
                lemma_sum_part(patterns@, room, i as int);
                assert(patterns@.take(i + 1).drop_last() =~= patterns@.take(i as int));
                assert(patterns@.take(i + 1).last() == patterns@[i as int]);
                lemma_kept_prefix(patterns@, i + 1);
            }
            let text = patterns[i].0.as_str().as_bytes();
            let rules = &patterns[i].1;
            if text.len() >= MIN_SHORTCUT_LEN && rules.len() > 0 {
                let ghost at = windows_taken(ps, m);
                proof {
                    assert(kept(patterns@.take(i + 1)) == ps.take(m).push((text@, rules@)));
                    assert(ps.take(m).push((text@, rules@))[m] == ps[m]);
                    assert(ps.take(m + 1) =~= ps.take(m).push((text@, rules@)));
                    assert(ps.take(m + 1).drop_last() =~= ps.take(m));
                    lemma_windows_taken(ps, m);
                    lemma_windows_taken(ps, m + 1);
                    lemma_load_bound(ps, at);
                    assert(windows_taken(ps, m + 1).drop_last() =~= at);
                }
                if stands_in(text, http_text.as_slice()) {
                    append_all(&mut always, rules);
                    proof {
                        assert(unconditional(ps.take(m + 1)).drop_last() =~= unconditional(ps.take(m)));
                        lemma_leads_other(long, long_gate, ps, m, true);
                        lemma_leads_other(short, short_gate, ps, m, false);
                    }
                } else {
                    let ghost old_arena = arena@;
                    let ghost old_spill = spill@;
                    let kept_bytes = kept_text(text);
                    let rref: u32 = if rules.len() == 1 {
                        rules[0]
                    } else {
                        let at: u32 = spill.len() as u32;
                        spill.push(rules.len() as u32);
                        append_all(&mut spill, rules);
                        SPILL + at
                    };
                    assert(refers(rref, spill@, rules@)) by {
                        if rules@.len() == 1 {
                            assert(rules@ =~= seq![rref]);
                            assert(patterns@[i as int].1@[0] < SPILL);
                        } else {
                            assert(spill@.subrange((old_spill.len() + 1) as int, spill@.len() as int) =~= rules@);
                        }
                    }
                    let off: u32 = arena.len() as u32;
                    let woff: usize = if kept_bytes.len() >= WINDOW {
                        rarest(&grams, kept_bytes, Ghost(ps), Ghost(at))
                    } else {
                        0
                    };
                    assert(woff == window_of(ps, m));
                    let mut head = u32_to_le_bytes(rref);
                    arena.append(&mut head);
                    arena.push(kept_bytes.len() as u8);
                    arena.push(woff as u8);
                    append_bytes(&mut arena, kept_bytes);
                    proof {
                        lemma_auto_spec_u32_to_from_le_bytes();
                        assert(arena@.subrange(off as int, off + 4) =~= spec_u32_to_le_bytes(rref));
                        assert(arena@.subrange(off + HEADER, off + HEADER + kept_bytes@.len()) =~= kept_bytes@);
                        assert(written(arena@, spill@, ps, m));
                        lemma_stored_grows(old_arena, arena@, old_spill, spill@, ps, m);
                    }
                    if kept_bytes.len() >= WINDOW {
                        let w = window(kept_bytes, woff);
                        let stat = look(&grams, w);
                        let ghost before_grams = grams;
                        assert(stat_of(grams, w).1 == load(ps, at, w));
                        grams.insert((0, w as u128), (stat.0, stat.1 + 1));
                        let ghost before = long;
                        let ghost gate_before = long_gate;
                        proof {
                            lemma_room(ps, m, true);
                        }
                        long.insert(w, off);
                        let bit = long_gate_bit(w);
                        long_gate.set(bit);
                        proof {
                            lemma_leads_push(before, gate_before, long, long_gate, ps, m, true);
                            lemma_leads_other(short, short_gate, ps, m, false);
                            assert forall|x: u64|
                                #![trigger stat_of(grams, x)]
                                stat_of(grams, x).0 == frequency(ps, x) && stat_of(grams, x).1 == load(
                                    ps,
                                    windows_taken(ps, m + 1),
                                    x,
                                ) by {
                                assert(stat_of(before_grams, x).0 == frequency(ps, x));
                                assert(gram(x) == gram(w) <==> x == w);
                            }
                        }
                    } else {
                        let key = short_key(kept_bytes, 0);
                        let ghost before = short;
                        let ghost gate_before = short_gate;
                        proof {
                            lemma_room(ps, m, false);
                        }
                        short.insert(key, off);
                        let bit = gate_bit(kept_bytes, 0);
                        short_gate.set(bit);
                        proof {
                            lemma_leads_push(before, gate_before, short, short_gate, ps, m, false);
                            lemma_leads_other(long, long_gate, ps, m, true);
                        }
                    }
                    len = len + 1;
                }
                proof {
                    m = m + 1;
                }
            } else {
                assert(kept(patterns@.take(i + 1)) == ps.take(m));
            }
            i = i + 1;
        }
        proof {
            assert(patterns@.take(n as int) =~= patterns@);
            lemma_kept_ordered(patterns@);
            assert(m == ps.len());
            assert(ps.take(m) =~= ps);
        }
        ShortcutIndex { long, long_gate, short, short_gate, arena, spill, always, len, held: Ghost(ps) }
    }

    /// How many shortcuts are filed, the unconditional ones aside.
    pub fn len(&self) -> (r: usize)
        requires
            self.wf(),
        ensures
            r == self.patterns().len() - unconditional(self.patterns()).len(),
    {
        proof {
            lemma_partition(self.held@);
        }
        self.len
    }

    /// Reports whether nothing is filed.
    pub fn is_empty(&self) -> (r: bool)
        requires
            self.wf(),
        ensures
            r == (self.patterns().len() == 0),
    {
        proof {
            lemma_partition(self.held@);
            lemma_unconditional(self.held@);
            let un = unconditional(self.held@);
            if un.len() > 0 {
                assert(0 <= un[un.len() - 1] < self.held@.len());
                assert(self.held@[un.last()].1.len() > 0);
            }
        }
        self.len == 0 && self.always.len() == 0
    }

    /// The bytes the index occupies, for reporting.
    pub fn footprint(&self) -> (r: usize)
        requires
            self.wf(),
        ensures
            r == capped(bytes_of(self.patterns())),
    {
        let gates: u128 = self.long_gate.len() as u128 + self.short_gate.len() as u128;
        let slots: u128 = self.long.len() as u128 + self.short.len() as u128;
        let arena: u128 = self.arena.len() as u128;
        let lists: u128 = self.spill.len() as u128 + self.always.len() as u128;
        proof {
            assert(self.held@.take(self.held@.len() as int) =~= self.held@);
        }
        word(gates * 8 + slots * 12 + arena + lists * 4)
    }

    /// What a query for `host` without the gates would cost: the lines of the
    /// long and of the short table, the lines of each that it would read, and
    /// how often the short one would have its key.
    pub fn debug_stats(&self, host: &[u8]) -> (r: (usize, usize, usize, usize, usize))
        requires
            self.wf(),
        ensures
            r.0 * 8 == slots_of(self.patterns(), true),
            r.1 * 8 == slots_of(self.patterns(), false),
            ({
                let (long, short, hits) = probed(self.patterns(), host@, positions(host@));
                r.2 == capped(long) && r.3 == capped(short) && r.4 == hits
            }),
    {
        let n: usize = host.len();
        let mut long_lines: usize = 0;
        let mut short_lines: usize = 0;
        let mut short_hits: usize = 0;
        let has_long = !self.long.is_empty();
        let has_short = !self.short.is_empty();
        let mut at: usize = 0;
        proof {
            lemma_slots(self.held@, true);
            lemma_slots(self.held@, false);
        }
        while n >= MIN_SHORTCUT_LEN && at <= n - MIN_SHORTCUT_LEN
            invariant
                self.wf(),
                n == host@.len(),
                n >= 3 ==> at <= n - 2,
                n < 3 ==> at == 0,
                has_long == (how_many(self.held@, true) > 0),
                has_short == (how_many(self.held@, false) > 0),
                has_long == (self.long.slots() > 0),
                has_short == (self.short.slots() > 0),
                short_hits <= at,
                long_lines == capped(probed(self.held@, host@, at as int).0),
                short_lines == capped(probed(self.held@, host@, at as int).1),
                short_hits == probed(self.held@, host@, at as int).2,
            decreases n - at,
        {
            let ghost ps = self.held@;
            let ghost key = short_key_of(host@, at as int);
            if has_short {
                let key = short_key(host, at);
                short_lines = short_lines.saturating_add(self.short.reads(key));
                let found = self.short.collect(key);
                proof {
                    assert(found@ == places(ps, under_key(ps, ps.len() as int, false, key)));
                    lemma_under_key(ps, ps.len() as int, false, key);
                    lemma_under_key_some(ps, ps.len() as int, false, key);
                }
                if found.len() > 0 {
                    short_hits = short_hits + 1;
                }
            } else {
                assert forall|p: int| 0 <= p < ps.len() implies !filed_in(#[trigger] ps[p], false) by {
                    if filed_in(ps[p], false) {
                        lemma_filed_counts(ps, p, false);
                    }
                }
            }
            if has_long && n >= WINDOW && at <= n - WINDOW {
                long_lines = long_lines.saturating_add(self.long.reads(window(host, at)));
            }
            at = at + 1;
        }
        proof {
            self.long.lemma_whole_lines();
            self.short.lemma_whole_lines();
        }
        (self.long.len() / 8, self.short.len() / 8, long_lines, short_lines, short_hits)
    }

    /// Whether the shortcut at `off` occurs in `host` with its window at
    /// `at`.
    fn occurs(&self, off: u32, host: &[u8], at: usize, p: Ghost<int>) -> (r: bool)
        requires
            self.wf(),
            0 <= p@ < self.held@.len(),
            conditional(self.held@[p@]),
            offset_of(self.held@, p@) as u32 == off,
        ensures
            r == stands(self.held@, p@, host@, at as int),
    {
        proof {
            self.lemma_offset(p@);
        }
        assert(written(self.arena@, self.spill@, self.held@, p@));
        assert(self.arena.len() <= usize::MAX);
        let off: usize = off as usize;
        let len: usize = self.arena[off + 4] as usize;
        let woff: usize = self.arena[off + 5] as usize;
        if at < woff {
            return false;
        }
        stands_at(slice_subrange(self.arena.as_slice(), off + HEADER, off + HEADER + len), host, at - woff)
    }

    /// Where a filed shortcut stands fits in 32 bits.
    proof fn lemma_offset(&self, p: int)
        requires
            self.wf(),
            0 <= p < self.held@.len(),
            conditional(self.held@[p]),
        ensures
            0 <= offset_of(self.held@, p) <= MAX_ARENA,
    {
        assert(written(self.arena@, self.spill@, self.held@, p));
    }

    /// Adds the rules of the shortcut at `off` to `out`.
    fn report(&self, off: u32, out: &mut Vec<u32>, p: Ghost<int>)
        requires
            self.wf(),
            0 <= p@ < self.held@.len(),
            conditional(self.held@[p@]),
            offset_of(self.held@, p@) as u32 == off,
        ensures
            final(out)@ == old(out)@ + self.held@[p@].1,
    {
        proof {
            self.lemma_offset(p@);
        }
        assert(written(self.arena@, self.spill@, self.held@, p@));
        assert(self.arena.len() <= usize::MAX);
        let off: usize = off as usize;
        let r: u32 = u32_from_le_bytes(slice_subrange(self.arena.as_slice(), off, off + 4));
        let ghost rules = self.held@[p@].1;
        let ghost before = out@;
        if r < SPILL {
            out.push(r);
            assert(out@ =~= before + rules);
            return;
        }
        let m: usize = self.spill.len();
        let at: usize = (r - SPILL) as usize;
        let k: usize = self.spill[at] as usize;
        let mut i: usize = 0;
        while i < k
            invariant
                i <= k,
                k == rules.len(),
                m == self.spill@.len(),
                at + 1 + k <= m,
                self.spill@.subrange(at + 1, at + 1 + k) == rules,
                out@ =~= before + rules.take(i as int),
            decreases k - i,
        {
            assert(self.spill@.subrange(at + 1, at + 1 + k)[i as int] == self.spill@[at + 1 + i]);
            out.push(self.spill[at + 1 + i]);
            i = i + 1;
        }
        assert(rules.take(k as int) =~= rules);
    }

    /// Whether `seen` and `out` record that exactly `found` was reported.
    spec fn recorded(&self, found: Seq<int>, seen: Seq<u32>, out: Seq<u32>) -> bool {
        &&& seen == places(self.held@, found)
        &&& forall|i: int|
            0 <= i < found.len() ==> 0 <= #[trigger] found[i] < self.held@.len() && conditional(self.held@[found[i]])
        &&& out == gathered(rules_of(self.held@), unconditional(self.held@) + found)
    }

    /// Reports every shortcut of `which` that occurs in `host` with its window
    /// at `at` and was not reported before.
    fn visit(
        &self,
        offs: &Vec<u32>,
        host: &[u8],
        at: usize,
        seen: &mut Vec<u32>,
        out: &mut Vec<u32>,
        which: Ghost<Seq<int>>,
        found: Ghost<Seq<int>>,
    ) -> (r: Ghost<Seq<int>>)
        requires
            self.wf(),
            self.recorded(found@, old(seen)@, old(out)@),
            offs@ == places(self.held@, which@),
            which@.no_duplicates(),
            forall|i: int|
                0 <= i < which@.len() ==> 0 <= #[trigger] which@[i] < self.held@.len() && conditional(
                    self.held@[which@[i]],
                ),
        ensures
            self.recorded(r@, final(seen)@, final(out)@),
            r@ == found@ + met_among(self.held@, which@, host@, at as int, found@),
    {
        let ghost mut got = found@;
        let ghost ps = self.held@;
        let mut i: usize = 0;
        assert(which@.take(0) =~= Seq::<int>::empty());
        while i < offs.len()
            invariant
                self.wf(),
                ps == self.held@,
                i <= offs@.len(),
                self.recorded(got, seen@, out@),
                offs@ == places(ps, which@),
                which@.no_duplicates(),
                forall|k: int|
                    0 <= k < which@.len() ==> 0 <= #[trigger] which@[k] < ps.len() && conditional(ps[which@[k]]),
                got =~= found@ + met_among(ps, which@.take(i as int), host@, at as int, found@),
            decreases offs@.len() - i,
        {
            let off = offs[i];
            let ghost p = which@[i as int];
            let ghost before = got;
            let ghost part = which@.take(i as int);
            proof {
                assert(which@.take(i + 1).drop_last() =~= part);
                assert(which@.take(i + 1).last() == p);
                lemma_met_among(ps, part, host@, at as int, found@);
                assert(!part.contains(p));
            }
            let again = has(seen, off);
            let hit = self.occurs(off, host, at, Ghost(p));
            proof {
                self.lemma_seen(before, seen@, p);
                assert(before.contains(p) == found@.contains(p)) by {
                    if before.contains(p) {
                        let k = before.index_of(p);
                        if k >= found@.len() {
                            let ma = met_among(ps, part, host@, at as int, found@);
                            assert(ma[k - found@.len()] == p);
                            assert(ma.contains(p));
                        } else {
                            assert(found@[k] == p);
                        }
                    }
                    if found@.contains(p) {
                        let k = found@.index_of(p);
                        assert(before[k] == p);
                    }
                }
            }
            if hit && !again {
                proof {
                    got = got.push(p);
                    let un = unconditional(ps);
                    assert((un + got).drop_last() =~= un + before);
                    assert(rules_of(ps)[p] == ps[p].1);
                }
                seen.push(off);
                self.report(off, out, Ghost(p));
                assert(seen@ =~= places(ps, got));
            }
            i = i + 1;
        }
        assert(which@.take(i as int) =~= which@);
        Ghost(got)
    }

    /// An offset was seen where its shortcut was reported.
    proof fn lemma_seen(&self, found: Seq<int>, seen: Seq<u32>, p: int)
        requires
            self.wf(),
            seen == places(self.held@, found),
            forall|i: int|
                0 <= i < found.len() ==> 0 <= #[trigger] found[i] < self.held@.len() && conditional(self.held@[found[i]]),
            0 <= p < self.held@.len(),
            conditional(self.held@[p]),
        ensures
            seen.contains(offset_of(self.held@, p) as u32) == found.contains(p),
    {
        let off = offset_of(self.held@, p) as u32;
        self.lemma_offset(p);
        if seen.contains(off) {
            let k = seen.index_of(off);
            let q = found[k];
            self.lemma_offset(q);
            if q < p {
                lemma_offsets_rise(self.held@, q, p);
            } else if p < q {
                lemma_offsets_rise(self.held@, p, q);
            }
            assert(found.contains(q));
        }
        if found.contains(p) {
            let k = found.index_of(p);
            assert(seen[k] == off);
        }
    }

    /// The rules of every shortcut that occurs in `host`, or in the `http`
    /// before it: first those of the latter, then the others as they are met.
    /// A shortcut's rules are given once, however often it occurs, and in
    /// load order.
    pub fn find(&self, host: &[u8]) -> (r: Vec<u32>)
        requires
            self.wf(),
        ensures
            r@ == gathered(rules_of(self.patterns()), hits_in(self.patterns(), host@)),
            exactly(self.patterns(), host@, hits_in(self.patterns(), host@)),
    {
        let mut out: Vec<u32> = Vec::new();
        append_all(&mut out, &self.always);
        let mut seen: Vec<u32> = Vec::new();
        let ghost mut found: Seq<int> = Seq::empty();
        let ghost ps = self.held@;
        let ghost all = ps.len() as int;
        let n: usize = host.len();
        proof {
            assert(out@ =~= self.always@);
            assert(unconditional(ps) + found =~= unconditional(ps));
            assert(seen@ =~= places(ps, found));
            lemma_slots(ps, true);
            lemma_slots(ps, false);
        }
        let mut at: usize = 0;
        while n >= MIN_SHORTCUT_LEN && at <= n - MIN_SHORTCUT_LEN
            invariant
                self.wf(),
                ps == self.held@,
                all == ps.len(),
                n == host@.len(),
                n >= 3 ==> at <= n - 2,
                n < 3 ==> at == 0,
                self.recorded(found, seen@, out@),
                found == met(ps, host@, at as int),
                (self.long.slots() > 0) == (how_many(ps, true) > 0),
                (self.short.slots() > 0) == (how_many(ps, false) > 0),
            decreases n - at,
        {
            let ghost start = found;
            proof {
                lemma_met(ps, host@, at as int);
            }
            let mut looked = false;
            if !self.long.is_empty() && n >= WINDOW && at <= n - WINDOW {
                let key = window(host, at);
                let bit = long_gate_bit(key);
                if self.long_gate.has(bit) {
                    looked = true;
                    let offs = self.long.collect(key);
                    let ghost which = under_key(ps, all, true, key);
                    proof {
                        lemma_under_key(ps, all, true, key);
                    }
                    let Ghost(f) = self.visit(&offs, host, at, &mut seen, &mut out, Ghost(which), Ghost(found));
                    proof {
                        found = f;
                        lemma_first_met(ps, all, host@, at as int, true, start);
                    }
                }
            }
            proof {
                if !looked {
                    assert forall|p: int| 0 <= p < all && filed_in(#[trigger] ps[p], true) implies !stands(
                        ps,
                        p,
                        host@,
                        at as int,
                    ) by {
                        if stands(ps, p, host@, at as int) {
                            lemma_stands(ps, p, host@, at as int);
                            lemma_filed_counts(ps, p, true);
                            assert(self.long_gate.has_bit(bit_of(ps, p)));
                        }
                    }
                    lemma_first_met_none(ps, all, host@, at as int, true);
                }
                assert(found =~= start + first_met(ps, all, host@, at as int, true));
            }
            let ghost middle = found;
            looked = false;
            if !self.short.is_empty() {
                let bit = gate_bit(host, at);
                if self.short_gate.has(bit) {
                    looked = true;
                    let key = short_key(host, at);
                    let offs = self.short.collect(key);
                    let ghost which = under_key(ps, all, false, key);
                    proof {
                        lemma_under_key(ps, all, false, key);
                    }
                    let Ghost(f) = self.visit(&offs, host, at, &mut seen, &mut out, Ghost(which), Ghost(found));
                    proof {
                        found = f;
                        lemma_first_met_kind(ps, all, host@, at as int, true);
                        assert forall|p: int| 0 <= p < all && filed_in(ps[p], false) implies #[trigger] middle.contains(p)
                            == start.contains(p) by {
                            let fm = first_met(ps, all, host@, at as int, true);
                            if middle.contains(p) {
                                let k = middle.index_of(p);
                                if k < start.len() {
                                    assert(start[k] == p);
                                } else {
                                    assert(fm[k - start.len()] == p);
                                    assert(fm.contains(p));
                                }
                            }
                            if start.contains(p) {
                                let k = start.index_of(p);
                                assert(middle[k] == p);
                            }
                        }
                        lemma_first_met(ps, all, host@, at as int, false, middle);
                    }
                }
            }
            proof {
                if !looked {
                    assert forall|p: int| 0 <= p < all && filed_in(#[trigger] ps[p], false) implies !stands(
                        ps,
                        p,
                        host@,
                        at as int,
                    ) by {
                        if stands(ps, p, host@, at as int) {
                            lemma_stands(ps, p, host@, at as int);
                            lemma_filed_counts(ps, p, false);
                            assert(self.short_gate.has_bit(bit_of(ps, p)));
                        }
                    }
                    lemma_first_met_none(ps, all, host@, at as int, false);
                }
                assert(found =~= middle + first_met(ps, all, host@, at as int, false));
                assert(found =~= met(ps, host@, at + 1));
            }
            at = at + 1;
        }
        proof {
            law_each_hit_once(ps, host@);
        }
        out
    }
}

/// Whether shortcuts are long enough to file, and have rules.
pub open spec fn worth_filing(ps: Seq<(Seq<u8>, Seq<u32>)>) -> bool {
    forall|p: int| 0 <= p < ps.len() ==> (#[trigger] ps[p]).0.len() >= MIN_SHORTCUT_LEN && ps[p].1.len() > 0
}

/// Those of `which` that occur in `host` with their window at `at` and are not
/// in `found`.
spec fn met_among(ps: Seq<(Seq<u8>, Seq<u32>)>, which: Seq<int>, host: Seq<u8>, at: int, found: Seq<int>) -> Seq<int>
    decreases which.len(),
{
    if which.len() == 0 {
        Seq::empty()
    } else {
        let before = met_among(ps, which.drop_last(), host, at, found);
        if stands(ps, which.last(), host, at) && !found.contains(which.last()) {
            before.push(which.last())
        } else {
            before
        }
    }
}

/// Whether `x` is in `s`.
fn has(s: &Vec<u32>, x: u32) -> (r: bool)
    ensures
        r == s@.contains(x),
{
    let mut i: usize = 0;
    while i < s.len()
        invariant
            i <= s@.len(),
            forall|k: int| 0 <= k < i ==> s@[k] != x,
        decreases s@.len() - i,
    {
        if s[i] == x {
            return true;
        }
        i = i + 1;
    }
    false
}

/// What is kept of a shortcut's text.
fn kept_text(text: &[u8]) -> (r: &[u8])
    ensures
        r@ == cut(text@),
{
    if text.len() > MAX_TEXT {
        slice_subrange(text, 0, MAX_TEXT)
    } else {
        text
    }
}

fn append_all(to: &mut Vec<u32>, from: &Vec<u32>)
    ensures
        final(to)@ == old(to)@ + from@,
{
    let ghost before = to@;
    let mut i: usize = 0;
    while i < from.len()
        invariant
            i <= from@.len(),
            to@ =~= before + from@.take(i as int),
        decreases from@.len() - i,
    {
        to.push(from[i]);
        i = i + 1;
    }
    assert(from@.take(i as int) =~= from@);
}

fn append_bytes(to: &mut Vec<u8>, from: &[u8])
    ensures
        final(to)@ == old(to)@ + from@,
{
    let ghost before = to@;
    let mut i: usize = 0;
    while i < from.len()
        invariant
            i <= from@.len(),
            to@ =~= before + from@.take(i as int),
        decreases from@.len() - i,
    {
        to.push(from[i]);
        i = i + 1;
    }
    assert(from@.take(i as int) =~= from@);
}

proof fn lemma_unconditional(patterns: Seq<(Seq<u8>, Seq<u32>)>)
    ensures
        forall|i: int|
            0 <= i < unconditional(patterns).len() ==> 0 <= #[trigger] unconditional(patterns)[i] < patterns.len(),
        forall|i: int, j: int|
            0 <= i < j < unconditional(patterns).len() ==> #[trigger] unconditional(patterns)[i]
                < #[trigger] unconditional(patterns)[j],
        unconditional(patterns).no_duplicates(),
        forall|p: int| #[trigger]
            unconditional(patterns).contains(p) <==> 0 <= p < patterns.len() && occurs_in(patterns[p].0, http()),
    decreases patterns.len(),
{
    let u = unconditional(patterns);
    if patterns.len() > 0 {
        let b = patterns.drop_last();
        lemma_unconditional(b);
        let v = unconditional(b);
        assert forall|p: int| #[trigger]
            u.contains(p) <==> 0 <= p < patterns.len() && occurs_in(patterns[p].0, http()) by {
            if v.contains(p) {
                let k = v.index_of(p);
                assert(u[k] == p);
            }
            if p == patterns.len() - 1 && occurs_in(patterns[p].0, http()) {
                assert(u[u.len() - 1] == p);
            }
            if u.contains(p) {
                let k = u.index_of(p);
                if k < v.len() {
                    assert(v[k] == p);
                    assert(v.contains(p));
                }
            }
        }
    } else {
        assert(u.len() == 0);
    }
}

proof fn lemma_met_among(ps: Seq<(Seq<u8>, Seq<u32>)>, which: Seq<int>, host: Seq<u8>, at: int, found: Seq<int>)
    ensures
        forall|p: int| #[trigger] met_among(ps, which, host, at, found).contains(p) ==> which.contains(p),
    decreases which.len(),
{
    let ma = met_among(ps, which, host, at, found);
    if which.len() > 0 {
        let d = which.drop_last();
        let mb = met_among(ps, d, host, at, found);
        lemma_met_among(ps, d, host, at, found);
        assert forall|p: int| #[trigger] ma.contains(p) implies which.contains(p) by {
            let k = ma.index_of(p);
            if k < mb.len() {
                assert(mb[k] == p);
                assert(mb.contains(p));
                let j = d.index_of(p);
                assert(which[j] == p);
            } else {
                assert(which[which.len() - 1] == p);
            }
        }
    }
}

/// The windows of the first shortcuts stay where they are.
proof fn lemma_windows_taken(ps: Seq<(Seq<u8>, Seq<u32>)>, n: int)
    requires
        0 <= n <= ps.len(),
    ensures
        windows_taken(ps, n).len() == n,
        forall|p: int| 0 <= p < n ==> #[trigger] windows_taken(ps, n)[p] == window_of(ps, p),
    decreases n,
{
    if n > 0 {
        lemma_windows_taken(ps, n - 1);
    }
}

proof fn lemma_rarest(ps: Seq<(Seq<u8>, Seq<u32>)>, at: Seq<int>, text: Seq<u8>, i: int)
    ensures
        0 <= rarest_of(ps, at, text, i),
        i >= 0 ==> rarest_of(ps, at, text, i) <= i,
    decreases i,
{
    if i > 0 {
        lemma_rarest(ps, at, text, i - 1);
    }
}

/// A window lies inside its shortcut.
proof fn lemma_window_of(ps: Seq<(Seq<u8>, Seq<u32>)>, p: int)
    requires
        0 <= p < ps.len(),
    ensures
        filed_in(ps[p], true) ==> 0 <= window_of(ps, p) && window_of(ps, p) + 8 <= cut(ps[p].0).len(),
        !filed_in(ps[p], true) ==> window_of(ps, p) == 0,
{
    lemma_windows_taken(ps, p);
    let text = cut(ps[p].0);
    lemma_rarest(ps, windows_taken(ps, p), text, text.len() - 8);
}

proof fn lemma_load_bound(ps: Seq<(Seq<u8>, Seq<u32>)>, at: Seq<int>)
    ensures
        forall|w: u64| 0 <= #[trigger] load(ps, at, w) <= at.len(),
    decreases at.len(),
{
    if at.len() > 0 {
        lemma_load_bound(ps, at.drop_last());
        assert forall|w: u64| 0 <= #[trigger] load(ps, at, w) <= at.len() by {
            assert(0 <= load(ps, at.drop_last(), w));
        }
    }
}

/// A filed shortcut counts.
proof fn lemma_filed_counts(ps: Seq<(Seq<u8>, Seq<u32>)>, p: int, long: bool)
    requires
        0 <= p < ps.len(),
        filed_in(ps[p], long),
    ensures
        how_many(ps, long) > 0,
{
    let f = |q: (Seq<u8>, Seq<u32>)| if filed_in(q, long) { 1int } else { 0int };
    lemma_sum_part(ps, f, p);
}

/// There is room for a shortcut that is still to be filed.
proof fn lemma_room(ps: Seq<(Seq<u8>, Seq<u32>)>, m: int, long: bool)
    requires
        0 <= m < ps.len(),
        filed_in(ps[m], long),
    ensures
        0 <= how_many(ps.take(m), long),
        how_many(ps.take(m), long) + 1 <= how_many(ps, long),
{
    let f = |q: (Seq<u8>, Seq<u32>)| if filed_in(q, long) { 1int } else { 0int };
    lemma_sum_part(ps, f, m);
}

proof fn lemma_doubled(lines: int, want: int)
    requires
        lines > 0,
    ensures
        doubled(lines, want) >= lines,
    decreases
            if want > lines {
                want - lines
            } else {
                0
            },
{
    if lines < want {
        lemma_doubled(lines * 2, want);
    }
}

/// A table has slots where something is filed in it.
proof fn lemma_slots(ps: Seq<(Seq<u8>, Seq<u32>)>, long: bool)
    ensures
        (slots_of(ps, long) > 0) == (how_many(ps, long) > 0),
        how_many(ps, long) >= 0,
{
    let f = |q: (Seq<u8>, Seq<u32>)| if filed_in(q, long) { 1int } else { 0int };
    lemma_sum_part(ps, f, 0);
    lemma_doubled(2, (3 * how_many(ps, long) + 15) / 16);
}

/// Later shortcuts stand later in the arena.
proof fn lemma_offsets_rise(ps: Seq<(Seq<u8>, Seq<u32>)>, p: int, q: int)
    requires
        0 <= p < q < ps.len(),
        conditional(ps[p]),
    ensures
        offset_of(ps, p) < offset_of(ps, q),
    decreases q - p,
{
    let f = |x: (Seq<u8>, Seq<u32>)| arena_part(x);
    lemma_sum_part(ps, f, p);
    lemma_sum_part(ps, f, q - 1);
    if p < q - 1 {
        lemma_offsets_rise(ps, p, q - 1);
    }
}

proof fn lemma_written_grows(
    arena: Seq<u8>,
    arena2: Seq<u8>,
    spill: Seq<u32>,
    spill2: Seq<u32>,
    ps: Seq<(Seq<u8>, Seq<u32>)>,
    p: int,
)
    requires
        written(arena, spill, ps, p),
        arena.is_prefix_of(arena2),
        spill.is_prefix_of(spill2),
    ensures
        written(arena2, spill2, ps, p),
{
    let text = cut(ps[p].0);
    let off = offset_of(ps, p);
    assert(arena2.subrange(off + HEADER, off + HEADER + text.len()) =~= arena.subrange(
        off + HEADER,
        off + HEADER + text.len(),
    ));
    assert(arena2.subrange(off, off + 4) =~= arena.subrange(off, off + 4));
    assert(arena2[off + 4] == arena[off + 4]);
    assert(arena2[off + 5] == arena[off + 5]);
    let r = spec_u32_from_le_bytes(arena.subrange(off, off + 4));
    if r >= SPILL {
        let at = r - SPILL;
        let rules = ps[p].1;
        assert(spill2.subrange(at + 1, at + 1 + rules.len()) =~= spill.subrange(at + 1, at + 1 + rules.len()));
    }
}

proof fn lemma_stored_grows(
    arena: Seq<u8>,
    arena2: Seq<u8>,
    spill: Seq<u32>,
    spill2: Seq<u32>,
    ps: Seq<(Seq<u8>, Seq<u32>)>,
    m: int,
)
    requires
        0 <= m < ps.len(),
        stored(arena, spill, ps, m),
        arena.is_prefix_of(arena2),
        spill.is_prefix_of(spill2),
        conditional(ps[m]),
        arena2.len() == arena.len() + arena_part(ps[m]),
        spill2.len() == spill.len() + spill_part(ps[m]),
        arena2.len() <= MAX_ARENA,
        written(arena2, spill2, ps, m),
    ensures
        stored(arena2, spill2, ps, m + 1),
{
    assert(ps.take(m + 1).drop_last() =~= ps.take(m));
    assert(ps.take(m + 1).last() == ps[m]);
    assert forall|p: int| 0 <= p < m + 1 && conditional(#[trigger] ps[p]) implies written(arena2, spill2, ps, p) by {
        if p < m {
            lemma_written_grows(arena, arena2, spill, spill2, ps, p);
        }
    }
}

/// A shortcut of the other kind changes nothing.
proof fn lemma_leads_other(table: Table, gate: Gate, ps: Seq<(Seq<u8>, Seq<u32>)>, m: int, long: bool)
    requires
        0 <= m < ps.len(),
        leads(table, gate, ps, m, long),
        !filed_in(ps[m], long),
    ensures
        leads(table, gate, ps, m + 1, long),
{
    assert(ps.take(m + 1).drop_last() =~= ps.take(m));
    assert(ps.take(m + 1).last() == ps[m]);
    assert forall|k: u64| #[trigger] under(table@, k) == places(ps, under_key(ps, m + 1, long, k)) by {
        assert(under_key(ps, m + 1, long, k) == under_key(ps, m, long, k));
    }
}

/// A shortcut that is filed is led to.
proof fn lemma_leads_push(
    before: Table,
    gate_before: Gate,
    table: Table,
    gate: Gate,
    ps: Seq<(Seq<u8>, Seq<u32>)>,
    m: int,
    long: bool,
)
    requires
        0 <= m < ps.len(),
        leads(before, gate_before, ps, m, long),
        filed_in(ps[m], long),
        table.wf(),
        table@ == filing(before@, key_of(ps, m), offset_of(ps, m) as u32),
        table.slots() == before.slots(),
        table.entries() == before.entries() + 1,
        forall|k: u64| #[trigger]
            under(table@, k) == (if k == key_of(ps, m) {
                under(before@, k).push(offset_of(ps, m) as u32)
            } else {
                under(before@, k)
            }),
        gate.size() == gate_before.size(),
        forall|c: int| #[trigger] gate.has_bit(c) == (c == bit_of(ps, m) || gate_before.has_bit(c)),
    ensures
        leads(table, gate, ps, m + 1, long),
{
    assert(ps.take(m + 1).drop_last() =~= ps.take(m));
    assert(ps.take(m + 1).last() == ps[m]);
    assert forall|k: u64| #[trigger] under(table@, k) == places(ps, under_key(ps, m + 1, long, k)) by {
        assert(under(before@, k) == places(ps, under_key(ps, m, long, k)));
        assert(places(ps, under_key(ps, m + 1, long, k)) =~= under(table@, k));
    }
}

/// What is filed under a key is filed in order.
proof fn lemma_under_key(ps: Seq<(Seq<u8>, Seq<u32>)>, n: int, long: bool, key: u64)
    requires
        0 <= n <= ps.len(),
    ensures
        forall|i: int|
            0 <= i < under_key(ps, n, long, key).len() ==> 0 <= #[trigger] under_key(ps, n, long, key)[i] < n && filed_in(
                ps[under_key(ps, n, long, key)[i]],
                long,
            ) && key_of(ps, under_key(ps, n, long, key)[i]) == key,
        forall|i: int, j: int|
            0 <= i < j < under_key(ps, n, long, key).len() ==> #[trigger] under_key(ps, n, long, key)[i]
                < #[trigger] under_key(ps, n, long, key)[j],
        under_key(ps, n, long, key).no_duplicates(),
    decreases n,
{
    if n > 0 {
        lemma_under_key(ps, n - 1, long, key);
    }
}

proof fn lemma_under_key_some(ps: Seq<(Seq<u8>, Seq<u32>)>, n: int, long: bool, key: u64)
    requires
        0 <= n <= ps.len(),
    ensures
        (under_key(ps, n, long, key).len() > 0) == (exists|p: int|
            0 <= p < n && filed_in(#[trigger] ps[p], long) && key_of(ps, p) == key),
    decreases n,
{
    if n > 0 {
        lemma_under_key_some(ps, n - 1, long, key);
        if under_key(ps, n, long, key).len() > 0 {
            if filed_in(ps[n - 1], long) && key_of(ps, n - 1) == key {
                assert(filed_in(ps[n - 1], long));
            } else {
                let p = choose|p: int| 0 <= p < n - 1 && filed_in(#[trigger] ps[p], long) && key_of(ps, p) == key;
                assert(filed_in(ps[p], long));
            }
        }
    }
}

/// Where a filed shortcut occurs, its key and its bit are those of the
/// position, and its window lies inside the host.
proof fn lemma_stands(ps: Seq<(Seq<u8>, Seq<u32>)>, p: int, host: Seq<u8>, at: int)
    requires
        0 <= p < ps.len(),
        conditional(ps[p]),
        ps[p].0.len() >= 3,
        stands(ps, p, host, at),
    ensures
        0 <= at,
        at + 3 <= host.len(),
        filed_in(ps[p], true) ==> at + 8 <= host.len() && key_of(ps, p) == window_key(host, at) && bit_of(ps, p)
            == long_gate_bit_of(window_key(host, at)),
        !filed_in(ps[p], true) ==> key_of(ps, p) == short_key_of(host, at) && bit_of(ps, p) == gate_bit_of(host, at),
{
    lemma_window_of(ps, p);
    let text = cut(ps[p].0);
    let w = window_of(ps, p);
    let s = at - w;
    let here = host.subrange(s, s + text.len());
    if filed_in(ps[p], true) {
        assert(host.subrange(at, at + 8) =~= here.subrange(w, w + 8));
    } else {
        assert(here[0] == host[at] && here[1] == host[at + 1] && here[2] == host[at + 2]);
    }
}

/// The shortcuts met first at a position are those under its key that occur
/// there and were not met before.
proof fn lemma_first_met(ps: Seq<(Seq<u8>, Seq<u32>)>, n: int, host: Seq<u8>, at: int, long: bool, found: Seq<int>)
    requires
        0 <= n <= ps.len(),
        worth_filing(ps),
        forall|p: int|
            0 <= p < n && filed_in(ps[p], long) ==> #[trigger] found.contains(p) == (exists|k: int|
                k < at && #[trigger] stands(ps, p, host, k)),
    ensures
        met_among(
            ps,
            under_key(
                ps,
                n,
                long,
                if long {
                    window_key(host, at)
                } else {
                    short_key_of(host, at)
                },
            ),
            host,
            at,
            found,
        ) == first_met(ps, n, host, at, long),
    decreases n,
{
    if n > 0 {
        lemma_first_met(ps, n - 1, host, at, long, found);
        let key = if long {
            window_key(host, at)
        } else {
            short_key_of(host, at)
        };
        let p = n - 1;
        let was = under_key(ps, n - 1, long, key);
        if filed_in(ps[p], long) {
            assert(found.contains(p) == (exists|k: int| k < at && #[trigger] stands(ps, p, host, k)));
            if stands(ps, p, host, at) {
                lemma_stands(ps, p, host, at);
            }
            if key_of(ps, p) == key {
                assert(was.push(p).drop_last() =~= was);
            }
        }
    }
}

proof fn lemma_first_met_none(ps: Seq<(Seq<u8>, Seq<u32>)>, n: int, host: Seq<u8>, at: int, long: bool)
    requires
        0 <= n <= ps.len(),
        forall|p: int| 0 <= p < n && filed_in(#[trigger] ps[p], long) ==> !stands(ps, p, host, at),
    ensures
        first_met(ps, n, host, at, long) == Seq::<int>::empty(),
    decreases n,
{
    if n > 0 {
        lemma_first_met_none(ps, n - 1, host, at, long);
    }
}

/// Which shortcuts are met first at a position.
proof fn lemma_first_met_kind(ps: Seq<(Seq<u8>, Seq<u32>)>, n: int, host: Seq<u8>, at: int, long: bool)
    requires
        0 <= n <= ps.len(),
    ensures
        forall|p: int| #[trigger]
            first_met(ps, n, host, at, long).contains(p) <==> 0 <= p < n && filed_in(ps[p], long) && first_at(
                ps,
                p,
                host,
                at,
            ),
        first_met(ps, n, host, at, long).no_duplicates(),
    decreases n,
{
    if n > 0 {
        lemma_first_met_kind(ps, n - 1, host, at, long);
        let a = first_met(ps, n - 1, host, at, long);
        let b = first_met(ps, n, host, at, long);
        assert forall|p: int| #[trigger]
            b.contains(p) <==> 0 <= p < n && filed_in(ps[p], long) && first_at(ps, p, host, at) by {
            if b.contains(p) {
                let k = b.index_of(p);
                if k < a.len() {
                    assert(a[k] == p);
                    assert(a.contains(p));
                }
            }
            if a.contains(p) {
                let k = a.index_of(p);
                assert(b[k] == p);
            }
            if p == n - 1 && filed_in(ps[p], long) && first_at(ps, p, host, at) {
                assert(b[b.len() - 1] == p);
            }
        }
        assert(!a.contains(n - 1));
    }
}

/// A walk meets a shortcut exactly where it occurs with its window among the
/// positions walked over, and each once.
proof fn lemma_met(ps: Seq<(Seq<u8>, Seq<u32>)>, host: Seq<u8>, upto: int)
    requires
        worth_filing(ps),
    ensures
        forall|p: int| #[trigger]
            met(ps, host, upto).contains(p) <==> 0 <= p < ps.len() && conditional(ps[p]) && (exists|k: int|
                k < upto && #[trigger] stands(ps, p, host, k)),
        met(ps, host, upto).no_duplicates(),
    decreases upto,
{
    if upto <= 0 {
        assert forall|p: int| 0 <= p < ps.len() && conditional(ps[p]) implies !(exists|k: int|
            k < upto && #[trigger] stands(ps, p, host, k)) by {
            if exists|k: int| k < upto && #[trigger] stands(ps, p, host, k) {
                let k = choose|k: int| k < upto && #[trigger] stands(ps, p, host, k);
                lemma_stands(ps, p, host, k);
            }
        }
    } else {
        let n = ps.len() as int;
        let at = upto - 1;
        lemma_met(ps, host, at);
        lemma_first_met_kind(ps, n, host, at, true);
        lemma_first_met_kind(ps, n, host, at, false);
        let a = met(ps, host, at);
        let l = first_met(ps, n, host, at, true);
        let s = first_met(ps, n, host, at, false);
        let all = a + l + s;
        assert forall|p: int| #[trigger] all.contains(p) <==> a.contains(p) || l.contains(p) || s.contains(p) by {
            if all.contains(p) {
                let k = all.index_of(p);
                if k < a.len() {
                    assert(a[k] == p);
                } else if k < a.len() + l.len() {
                    assert(l[k - a.len()] == p);
                } else {
                    assert(s[k - a.len() - l.len()] == p);
                }
            }
            if a.contains(p) {
                assert(all[a.index_of(p)] == p);
            }
            if l.contains(p) {
                assert(all[a.len() + l.index_of(p)] == p);
            }
            if s.contains(p) {
                assert(all[a.len() + l.len() + s.index_of(p)] == p);
            }
        }
        assert forall|p: int| #[trigger]
            all.contains(p) <==> 0 <= p < ps.len() && conditional(ps[p]) && (exists|k: int|
                k < upto && #[trigger] stands(ps, p, host, k)) by {
            if 0 <= p < ps.len() && conditional(ps[p]) {
                assert(a.contains(p) <==> exists|k: int| k < at && #[trigger] stands(ps, p, host, k));
                assert(filed_in(ps[p], true) || filed_in(ps[p], false));
                if exists|k: int| k < upto && #[trigger] stands(ps, p, host, k) {
                    let k = choose|k: int| k < upto && #[trigger] stands(ps, p, host, k);
                    if !a.contains(p) {
                        assert(k == at);
                        assert(first_at(ps, p, host, at));
                    }
                }
                if a.contains(p) {
                    let k = choose|k: int| k < at && #[trigger] stands(ps, p, host, k);
                    assert(k < upto && stands(ps, p, host, k));
                }
            }
        }
        assert forall|i: int, j: int| 0 <= i < all.len() && 0 <= j < all.len() && i != j implies all[i] != all[j] by {
            lemma_met_apart(a, l, s, i, j);
        }
    }
}

proof fn lemma_met_apart(a: Seq<int>, l: Seq<int>, s: Seq<int>, i: int, j: int)
    requires
        a.no_duplicates(),
        l.no_duplicates(),
        s.no_duplicates(),
        forall|p: int| #[trigger] a.contains(p) ==> !l.contains(p) && !s.contains(p),
        forall|p: int| #[trigger] l.contains(p) ==> !s.contains(p),
        0 <= i < (a + l + s).len(),
        0 <= j < (a + l + s).len(),
        i != j,
    ensures
        (a + l + s)[i] != (a + l + s)[j],
{
    let n = a.len() as int;
    let m = n + l.len();
    let x = (a + l + s)[i];
    let y = (a + l + s)[j];
    if i < n {
        assert(a[i] == x);
        assert(a.contains(x));
    } else if i < m {
        assert(l[i - n] == x);
        assert(l.contains(x));
    } else {
        assert(s[i - m] == x);
        assert(s.contains(x));
    }
    if j < n {
        assert(a[j] == y);
        assert(a.contains(y));
    } else if j < m {
        assert(l[j - n] == y);
        assert(l.contains(y));
    } else {
        assert(s[j - m] == y);
        assert(s.contains(y));
    }
}

/// What is reported for a host names every shortcut that is a candidate for
/// it, each once and no other: the order is all that the walk adds.
pub proof fn law_each_hit_once(ps: Seq<(Seq<u8>, Seq<u32>)>, host: Seq<u8>)
    requires
        worth_filing(ps),
    ensures
        exactly(ps, host, hits_in(ps, host)),
        unconditional(ps).is_prefix_of(hits_in(ps, host)),
{
    let un = unconditional(ps);
    let upto = positions(host);
    let me = met(ps, host, upto);
    let hits = hits_in(ps, host);
    lemma_unconditional(ps);
    lemma_met(ps, host, upto);
    assert forall|p: int| #[trigger] hits.contains(p) <==> un.contains(p) || me.contains(p) by {
        if hits.contains(p) {
            let k = hits.index_of(p);
            if k < un.len() {
                assert(un[k] == p);
            } else {
                assert(me[k - un.len()] == p);
            }
        }
        if un.contains(p) {
            assert(hits[un.index_of(p)] == p);
        }
        if me.contains(p) {
            assert(hits[un.len() + me.index_of(p)] == p);
        }
    }
    assert forall|p: int| #[trigger] hits.contains(p) <==> 0 <= p < ps.len() && reports(ps[p].0, host) by {
        if 0 <= p < ps.len() && conditional(ps[p]) {
            lemma_window_of(ps, p);
            if occurs_in(cut(ps[p].0), host) {
                let s = choose|s: int| occurs_at(cut(ps[p].0), host, s);
                let k = s + window_of(ps, p);
                assert(stands(ps, p, host, k));
                lemma_stands(ps, p, host, k);
                assert(k < upto);
            }
            if exists|k: int| k < upto && #[trigger] stands(ps, p, host, k) {
                let k = choose|k: int| k < upto && #[trigger] stands(ps, p, host, k);
                assert(occurs_at(cut(ps[p].0), host, k - window_of(ps, p)));
            }
        }
    }
    assert forall|i: int, j: int| 0 <= i < hits.len() && 0 <= j < hits.len() && i != j implies hits[i] != hits[j] by {
        if i < un.len() {
            assert(un[i] == hits[i]);
            assert(un.contains(hits[i]));
        } else {
            assert(me[i - un.len()] == hits[i]);
            assert(me.contains(hits[i]));
        }
        if j < un.len() {
            assert(un[j] == hits[j]);
            assert(un.contains(hits[j]));
        } else {
            assert(me[j - un.len()] == hits[j]);
            assert(me.contains(hits[j]));
        }
    }
}

/// How often `r` stands among the rules of the shortcuts that are candidates
/// for `host`.
pub open spec fn times_due(ps: Seq<(Seq<u8>, Seq<u32>)>, host: Seq<u8>, r: u32) -> int {
    sum(
        ps,
        |p: (Seq<u8>, Seq<u32>)|
            if reports(p.0, host) {
                p.1.to_multiset().count(r) as int
            } else {
                0int
            },
    )
}

/// A query reports what going through every pair would: each rule as often as
/// it stands in the pairs whose text occurs in the host or in `http`.
pub proof fn law_find_misses_nothing(
    patterns: Seq<(String, Vec<u32>)>,
    ps: Seq<(Seq<u8>, Seq<u32>)>,
    host: Seq<u8>,
    r: u32,
)
    requires
        holds(ps, patterns),
    ensures
        gathered(rules_of(ps), hits_in(ps, host)).to_multiset().count(r) == times_due(kept(patterns), host, r),
{
    let due = |p: (Seq<u8>, Seq<u32>)|
        if reports(p.0, host) {
            p.1.to_multiset().count(r) as int
        } else {
            0int
        };
    lemma_kept_worth(patterns);
    lemma_same_worth(kept(patterns), ps);
    lemma_sum_order(kept(patterns), ps, due);
    law_each_hit_once(ps, host);
    let hits = hits_in(ps, host);
    assert forall|i: int| 0 <= i < hits.len() implies 0 <= #[trigger] hits[i] < ps.len() by {
        assert(hits.contains(hits[i]));
    }
    lemma_gathered_count(rules_of(ps), hits, r);
    let part = |h: int| rules_of(ps)[h].to_multiset().count(r) as int;
    lemma_sum_named(ps, hits, due, part);
}

pub(crate) proof fn lemma_same_worth(a: Seq<(Seq<u8>, Seq<u32>)>, b: Seq<(Seq<u8>, Seq<u32>)>)
    requires
        a.to_multiset() == b.to_multiset(),
        worth_filing(a),
    ensures
        worth_filing(b),
{
    a.to_multiset_ensures();
    b.to_multiset_ensures();
    assert forall|p: int| 0 <= p < b.len() implies (#[trigger] b[p]).0.len() >= MIN_SHORTCUT_LEN && b[p].1.len() > 0 by {
        assert(b.contains(b[p]));
        assert(a.to_multiset().count(b[p]) > 0);
        assert(a.contains(b[p]));
        let k = a.index_of(b[p]);
        assert(a[k] == b[p]);
    }
}

proof fn lemma_gathered_count(of: Seq<Seq<u32>>, which: Seq<int>, r: u32)
    ensures
        gathered(of, which).to_multiset().count(r) == sum(which, |h: int| of[h].to_multiset().count(r) as int),
    decreases which.len(),
{
    if which.len() == 0 {
        gathered(of, which).to_multiset_ensures();
    } else {
        lemma_gathered_count(of, which.drop_last(), r);
        vstd::seq_lib::lemma_multiset_commutative(gathered(of, which.drop_last()), of[which.last()]);
    }
}

/// A sum over the places that `which` names, each once, is the sum over all
/// where the others add nothing.
proof fn lemma_sum_named<A>(s: Seq<A>, which: Seq<int>, f: spec_fn(A) -> int, g: spec_fn(int) -> int)
    requires
        which.no_duplicates(),
        forall|i: int| 0 <= i < which.len() ==> 0 <= #[trigger] which[i] < s.len(),
        forall|p: int| 0 <= p < s.len() && which.contains(p) ==> f(#[trigger] s[p]) == g(p),
        forall|p: int| 0 <= p < s.len() && !which.contains(p) ==> f(#[trigger] s[p]) == 0,
    ensures
        sum(which, g) == sum(s, f),
    decreases s.len(),
{
    if s.len() == 0 {
        if which.len() > 0 {
            assert(0 <= which[0] < s.len());
        }
    } else {
        let n = s.len() - 1;
        let d = s.drop_last();
        let rest = if which.contains(n) {
            which.remove(which.index_of(n))
        } else {
            which
        };
        if which.contains(n) {
            let k = which.index_of(n);
            lemma_sum_remove(which, g, k);
            assert forall|i: int| 0 <= i < rest.len() implies 0 <= #[trigger] rest[i] < n by {
                let j = if i < k { i } else { i + 1 };
                assert(rest[i] == which[j]);
                assert(0 <= which[j] < s.len());
                assert(which[j] != which[k]);
            }
        } else {
            assert forall|i: int| 0 <= i < rest.len() implies 0 <= #[trigger] rest[i] < n by {
                assert(which.contains(which[i]));
                assert(0 <= which[i] < s.len());
            }
        }
        assert forall|p: int| 0 <= p < n implies #[trigger] rest.contains(p) == which.contains(p) by {
            if rest.contains(p) && which.contains(n) {
                let k = which.index_of(n);
                let i = rest.index_of(p);
                let j = if i < k { i } else { i + 1 };
                assert(which[j] == p);
            }
            if which.contains(p) && which.contains(n) {
                let k = which.index_of(n);
                let j = which.index_of(p);
                assert(j != k);
                assert(rest[if j < k { j } else { j - 1 }] == p);
            }
        }
        assert forall|p: int| 0 <= p < d.len() && rest.contains(p) implies f(#[trigger] d[p]) == g(p) by {
            assert(d[p] == s[p]);
        }
        assert forall|p: int| 0 <= p < d.len() && !rest.contains(p) implies f(#[trigger] d[p]) == 0 by {
            assert(d[p] == s[p]);
        }
        lemma_sum_named(d, rest, f, g);
        assert(s[n] == s.last());
    }
}

/// Whether no two shortcuts have the same text.
pub open spec fn distinct_texts(ps: Seq<(Seq<u8>, Seq<u32>)>) -> bool {
    forall|i: int, j: int| 0 <= i < j < ps.len() ==> (#[trigger] ps[i]).0 != (#[trigger] ps[j]).0
}

/// The order in which pairs arrive changes nothing: with no text twice, an
/// index holds the same shortcuts in the same order, and what it reports, what
/// it occupies and what its tables are follow from them.
pub proof fn law_order_of_arrival(
    a: Seq<(String, Vec<u32>)>,
    b: Seq<(String, Vec<u32>)>,
    x: &ShortcutIndex,
    y: &ShortcutIndex,
)
    requires
        a.to_multiset() == b.to_multiset(),
        distinct_texts(kept(a)),
        holds(x.patterns(), a),
        holds(y.patterns(), b),
    ensures
        x.patterns() == y.patterns(),
        bytes_of(x.patterns()) == bytes_of(y.patterns()),
        forall|host: Seq<u8>| #[trigger]
            gathered(rules_of(x.patterns()), hits_in(x.patterns(), host)) == gathered(
                rules_of(y.patterns()),
                hits_in(y.patterns(), host),
            ),
{
    let ps = x.patterns();
    let qs = y.patterns();
    lemma_picked_order(a, b, |p: (String, Vec<u32>)| worth(p));
    lemma_same_distinct(kept(a), ps);
    lemma_same_distinct(kept(a), qs);
    ps.to_multiset_ensures();
    qs.to_multiset_ensures();
    assert forall|z: (Seq<u8>, Seq<u32>)| #[trigger] ps.contains(z) == qs.contains(z) by {
        assert(ps.to_multiset().count(z) == qs.to_multiset().count(z));
    }
    law_one_order(ps, qs);
}

pub(crate) proof fn lemma_same_distinct(a: Seq<(Seq<u8>, Seq<u32>)>, b: Seq<(Seq<u8>, Seq<u32>)>)
    requires
        a.to_multiset() == b.to_multiset(),
        distinct_texts(a),
    ensures
        distinct_texts(b),
    decreases b.len(),
{
    a.to_multiset_ensures();
    b.to_multiset_ensures();
    if b.len() > 0 {
        let z = b.last();
        assert(b[b.len() - 1] == z);
        assert(b.contains(z));
        assert(a.to_multiset().count(z) > 0);
        assert(a.contains(z));
        let k = a.index_of(z);
        let c = a.remove(k);
        let d = b.drop_last();
        assert(d =~= b.remove(b.len() - 1));
        assert forall|i: int, j: int| 0 <= i < j < c.len() implies (#[trigger] c[i]).0 != (#[trigger] c[j]).0 by {
            assert(a[if i < k { i } else { i + 1 }].0 != a[if j < k { j } else { j + 1 }].0);
        }
        lemma_same_distinct(c, d);
        assert forall|i: int, j: int| 0 <= i < j < b.len() implies (#[trigger] b[i]).0 != (#[trigger] b[j]).0 by {
            if j == b.len() - 1 {
                c.to_multiset_ensures();
                d.to_multiset_ensures();
                assert(d[i] == b[i]);
                assert(d.contains(b[i]));
                assert(c.to_multiset().count(b[i]) > 0);
                assert(c.contains(b[i]));
                let t = c.index_of(b[i]);
                assert(c[t] == a[if t < k { t } else { t + 1 }]);
                assert(a[if t < k { t } else { t + 1 }].0 != a[k].0);
            } else {
                assert(d[i] == b[i] && d[j] == b[j]);
            }
        }
    }
}

/// Shortcuts with distinct texts have one order by text.
pub proof fn law_one_order(ps: Seq<(Seq<u8>, Seq<u32>)>, qs: Seq<(Seq<u8>, Seq<u32>)>)
    requires
        by_text(ps),
        by_text(qs),
        distinct_texts(ps),
        distinct_texts(qs),
        forall|z: (Seq<u8>, Seq<u32>)| #[trigger] ps.contains(z) == qs.contains(z),
    ensures
        ps == qs,
    decreases ps.len(),
{
    if ps.len() == 0 {
        if qs.len() > 0 {
            assert(qs.contains(qs[0]));
            assert(ps.contains(qs[0]));
        }
        assert(ps =~= qs);
    } else {
        let x = ps.last();
        assert(ps.contains(ps[ps.len() - 1]));
        assert(qs.contains(x));
        let y = qs.last();
        assert(qs.contains(qs[qs.len() - 1]));
        assert(ps.contains(y));
        let i = ps.index_of(y);
        let j = qs.index_of(x);
        assert(text_le(ps[i].0, ps[ps.len() - 1].0));
        assert(text_le(qs[j].0, qs[qs.len() - 1].0));
        lemma_text_order(x.0, y.0);
        assert(i == ps.len() - 1) by {
            if i < ps.len() - 1 {
                assert(ps[i].0 != ps[ps.len() - 1].0);
            }
        }
        let c = ps.drop_last();
        let d = qs.drop_last();
        assert(by_text(c)) by {
            assert forall|a: int, b: int| 0 <= a <= b < c.len() implies #[trigger] text_le(c[a].0, c[b].0) by {
                assert(text_le(ps[a].0, ps[b].0));
            }
        }
        assert(by_text(d)) by {
            assert forall|a: int, b: int| 0 <= a <= b < d.len() implies #[trigger] text_le(d[a].0, d[b].0) by {
                assert(text_le(qs[a].0, qs[b].0));
            }
        }
        assert forall|a: int, b: int| 0 <= a < b < c.len() implies (#[trigger] c[a]).0 != (#[trigger] c[b]).0 by {
            assert(ps[a].0 != ps[b].0);
        }
        assert forall|a: int, b: int| 0 <= a < b < d.len() implies (#[trigger] d[a]).0 != (#[trigger] d[b]).0 by {
            assert(qs[a].0 != qs[b].0);
        }
        assert forall|z: (Seq<u8>, Seq<u32>)| #[trigger] c.contains(z) == d.contains(z) by {
            lemma_but_last(ps, z);
            lemma_but_last(qs, z);
            assert(ps.contains(z) == qs.contains(z));
        }
        law_one_order(c, d);
        assert(ps =~= c.push(x));
        assert(qs =~= d.push(x));
    }
}

proof fn lemma_but_last(ps: Seq<(Seq<u8>, Seq<u32>)>, z: (Seq<u8>, Seq<u32>))
    requires
        ps.len() > 0,
        distinct_texts(ps),
    ensures
        ps.drop_last().contains(z) == (ps.contains(z) && z != ps.last()),
{
    let c = ps.drop_last();
    if c.contains(z) {
        let k = c.index_of(z);
        assert(ps[k] == z);
        assert(ps[k].0 != ps[ps.len() - 1].0);
    }
    if ps.contains(z) && z != ps.last() {
        let k = ps.index_of(z);
        assert(c[k] == z);
    }
}

/// Texts that each come no later than the other are the same.
proof fn lemma_text_order(a: Seq<u8>, b: Seq<u8>)
    requires
        text_le(a, b),
        text_le(b, a),
    ensures
        a == b,
    decreases a.len(),
{
    if a.len() == 0 || b.len() == 0 {
        assert(a =~= b);
    } else {
        lemma_text_order(a.drop_first(), b.drop_first());
        assert(a =~= seq![a[0]] + a.drop_first());
        assert(b =~= seq![b[0]] + b.drop_first());
    }
}

/// Every shortcut is either unconditional or filed once.
proof fn lemma_partition(ps: Seq<(Seq<u8>, Seq<u32>)>)
    ensures
        how_many(ps, true) + how_many(ps, false) == ps.len() - unconditional(ps).len(),
    decreases ps.len(),
{
    if ps.len() > 0 {
        lemma_partition(ps.drop_last());
    }
}

/// The shortcuts worth filing are so.
pub(crate) proof fn lemma_kept_worth(patterns: Seq<(String, Vec<u32>)>)
    ensures
        worth_filing(kept(patterns)),
    decreases patterns.len(),
{
    if patterns.len() > 0 {
        lemma_kept_worth(patterns.drop_last());
    }
}

/// What the first patterns give stays in front.
proof fn lemma_kept_prefix(patterns: Seq<(String, Vec<u32>)>, i: int)
    requires
        0 <= i <= patterns.len(),
    ensures
        kept(patterns.take(i)).is_prefix_of(kept(patterns)),
    decreases patterns.len() - i,
{
    if i == patterns.len() {
        assert(patterns.take(i) =~= patterns);
    } else {
        lemma_kept_prefix(patterns, i + 1);
        assert(patterns.take(i + 1).drop_last() =~= patterns.take(i));
        assert(kept(patterns.take(i)).is_prefix_of(kept(patterns.take(i + 1))));
        let a = kept(patterns.take(i));
        let b = kept(patterns.take(i + 1));
        assert forall|k: int| 0 <= k < a.len() implies a[k] == kept(patterns)[k] by {
            assert(a[k] == b[k]);
        }
        assert(a =~= kept(patterns).take(a.len() as int));
    }
}

proof fn lemma_same_bound(a: Seq<(String, Vec<u32>)>, b: Seq<(String, Vec<u32>)>)
    requires
        a.to_multiset() == b.to_multiset(),
        forall|i: int, j: int| 0 <= i < a.len() && 0 <= j < a[i].1@.len() ==> #[trigger] a[i].1@[j] < SPILL,
    ensures
        forall|i: int, j: int| 0 <= i < b.len() && 0 <= j < b[i].1@.len() ==> #[trigger] b[i].1@[j] < SPILL,
{
    a.to_multiset_ensures();
    b.to_multiset_ensures();
    assert forall|i: int, j: int| 0 <= i < b.len() && 0 <= j < b[i].1@.len() implies #[trigger] b[i].1@[j] < SPILL by {
        assert(b.contains(b[i]));
        assert(b.to_multiset().count(b[i]) > 0);
        assert(a.to_multiset().count(b[i]) > 0);
        assert(a.contains(b[i]));
        let k = a.index_of(b[i]);
        assert(a[k].1@[j] < SPILL);
    }
}

/// Which of `patterns` the `k`th shortcut worth filing is.
proof fn lemma_kept_source(patterns: Seq<(String, Vec<u32>)>, k: int) -> (i: int)
    requires
        0 <= k < kept(patterns).len(),
    ensures
        0 <= i < patterns.len(),
        encode_utf8(patterns[i].0@) == kept(patterns)[k].0,
        kept(patterns.take(i)).len() == k,
    decreases patterns.len(),
{
    let b = patterns.drop_last();
    if k == kept(patterns).len() - 1 && worth(patterns.last()) is Some {
        assert(patterns.take(patterns.len() - 1) =~= b);
        patterns.len() - 1
    } else {
        let i = lemma_kept_source(b, k);
        assert(b.take(i) =~= patterns.take(i));
        i
    }
}

proof fn lemma_kept_len(patterns: Seq<(String, Vec<u32>)>, i: int, j: int)
    requires
        0 <= i <= j <= patterns.len(),
    ensures
        kept(patterns.take(i)).len() <= kept(patterns.take(j)).len(),
    decreases j - i,
{
    if i < j {
        lemma_kept_len(patterns, i, j - 1);
        assert(patterns.take(j).drop_last() =~= patterns.take(j - 1));
    }
}

proof fn lemma_kept_ordered(patterns: Seq<(String, Vec<u32>)>)
    requires
        forall|i: int, j: int|
            0 <= i <= j < patterns.len() ==> #[trigger] text_le(
                encode_utf8(patterns[i].0@),
                encode_utf8(patterns[j].0@),
            ),
    ensures
        forall|i: int, j: int|
            0 <= i <= j < kept(patterns).len() ==> #[trigger] text_le(kept(patterns)[i].0, kept(patterns)[j].0),
{
    let ks = kept(patterns);
    assert forall|i: int, j: int| 0 <= i <= j < ks.len() implies #[trigger] text_le(ks[i].0, ks[j].0) by {
        let a = lemma_kept_source(patterns, i);
        let b = lemma_kept_source(patterns, j);
        if a > b {
            lemma_kept_len(patterns, b, a);
        }
        assert(text_le(encode_utf8(patterns[a].0@), encode_utf8(patterns[b].0@)));
    }
}

} // verus!
