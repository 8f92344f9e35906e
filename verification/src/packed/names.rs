//! Names in a packed response: written once and pointed at afterwards, by the
//! compression a DNS message uses.

use vstd::prelude::*;
use vstd::slice::slice_subrange;

use crate::message::{MAX_LABEL, MAX_NAME, Name, copy_bytes, labels_ok, same_bytes, valid_name};

verus! {

/// The most places that are remembered.
pub const MAX_PLACES: usize = 64;

/// How far a name may reach for its places to be remembered.
pub const FAR: usize = 0x3fff;

/// What was written, and where the labels in it stand.
#[verifier::ext_equal]
pub ghost struct WrittenV {
    pub bytes: Seq<u8>,
    /// Where labels begin, and the labels from there to the end of their name.
    pub places: Seq<(int, Seq<u8>)>,
}

/// Nothing written yet.
pub open spec fn blank() -> WrittenV {
    WrittenV { bytes: Seq::empty(), places: Seq::empty() }
}

/// The first place at which the labels `w` end a name.
pub open spec fn place_of(places: Seq<(int, Seq<u8>)>, w: Seq<u8>) -> Option<int>
    decreases places.len(),
{
    if places.len() == 0 {
        None
    } else if places[0].1 == w {
        Some(places[0].0)
    } else {
        place_of(places.drop_first(), w)
    }
}

/// A pointer to a place: two bytes, of which the first has its two high bits
/// set.
pub open spec fn pointer(to: int) -> Seq<u8> {
    seq![(0xc0 + to / 256) as u8, (to % 256) as u8]
}

/// With the place of the labels of `w` from `i` on, for a name `w` that is
/// about to be written.
pub open spec fn noted(s: WrittenV, w: Seq<u8>, i: int) -> WrittenV {
    if s.bytes.len() + w.len() < FAR && s.places.len() < MAX_PLACES {
        WrittenV { places: s.places.push((s.bytes.len() + i, w.skip(i))), ..s }
    } else {
        s
    }
}

/// With a name `w` of which no label before `i` has its rest somewhere: the
/// labels up to the first whose rest has a place, and a pointer to it, or all
/// of them and the root's zero.
pub open spec fn spelled(s: WrittenV, w: Seq<u8>, i: int) -> WrittenV
    decreases
            if i < w.len() {
                w.len() - i
            } else {
                0
            },
{
    if i < 0 || i >= w.len() {
        WrittenV { bytes: s.bytes + w + seq![0u8], ..s }
    } else {
        match place_of(s.places, w.skip(i)) {
            Some(to) => WrittenV { bytes: s.bytes + w.take(i) + pointer(to), ..s },
            None => spelled(noted(s, w, i), w, i + w[i] + 1),
        }
    }
}

/// With a name.
pub open spec fn with_name(s: WrittenV, w: Seq<u8>) -> WrittenV {
    spelled(s, w, 0)
}

/// The labels that begin at `at`, and where what follows them begins. A
/// pointer leads to a place before `below`.
pub open spec fn labels_at(b: Seq<u8>, at: int, below: int) -> Option<(Seq<u8>, int)>
    decreases below, b.len() - at,
{
    if at < 0 || at >= b.len() {
        None
    } else if b[at] == 0 {
        Some((Seq::empty(), at + 1))
    } else if b[at] <= MAX_LABEL {
        let next = at + b[at] + 1;
        if next > b.len() {
            None
        } else {
            match labels_at(b, next, below) {
                Some((w, end)) => Some((b.subrange(at, next) + w, end)),
                None => None,
            }
        }
    } else if b[at] >= 0xc0 && at + 1 < b.len() {
        let to = (b[at] - 0xc0) * 256 + b[at + 1];
        if to < below {
            match labels_at(b, to, to) {
                Some((w, _)) => Some((w, at + 2)),
                None => None,
            }
        } else {
            None
        }
    } else {
        None
    }
}

/// The name that begins at `at`, and where what follows it begins. It points
/// to what comes before it, or nowhere where it is to be plain.
pub open spec fn name_at(b: Seq<u8>, at: int, plain: bool) -> Option<(Seq<u8>, int)> {
    match labels_at(
        b,
        at,
        if plain {
            0
        } else {
            at
        },
    ) {
        Some((w, end)) => if w.len() <= MAX_NAME {
            Some((w, end))
        } else {
            None
        },
        None => None,
    }
}

/// Whether every place that is remembered is one: what is written there reads
/// as the labels it stands for.
pub open spec fn sound(s: WrittenV) -> bool {
    forall|p: int| 0 <= p < s.places.len() ==> stands(s.bytes, #[trigger] s.places[p])
}

/// Whether a place is one of `b`.
pub open spec fn stands(b: Seq<u8>, place: (int, Seq<u8>)) -> bool {
    &&& 0 <= place.0 < b.len()
    &&& place.0 < FAR
    &&& place.1.len() > 0
    &&& labels_at(b, place.0, place.0) matches Some((w, _)) && w == place.1
}

/// What reads from some bytes reads from more that begin with them.
proof fn lemma_stable(b: Seq<u8>, more: Seq<u8>, at: int, below: int)
    requires
        labels_at(b, at, below) is Some,
    ensures
        labels_at(b + more, at, below) == labels_at(b, at, below),
    decreases below, b.len() - at,
{
    let c = b + more;
    assert(c[at] == b[at]);
    if b[at] == 0 {
    } else if b[at] <= MAX_LABEL {
        let next = at + b[at] + 1;
        lemma_stable(b, more, next, below);
        assert(c.subrange(at, next) =~= b.subrange(at, next));
    } else {
        assert(c[at + 1] == b[at + 1]);
        let to = (b[at] - 0xc0) * 256 + b[at + 1];
        lemma_stable(b, more, to, to);
    }
}

/// What is read is labels, and where it ends is inside.
pub proof fn lemma_read(b: Seq<u8>, at: int, below: int)
    ensures
        labels_at(b, at, below) matches Some((w, end)) ==> labels_ok(w) && at < end <= b.len(),
    decreases below, b.len() - at,
{
    if 0 <= at < b.len() {
        if b[at] == 0 {
        } else if b[at] <= MAX_LABEL {
            let next = at + b[at] + 1;
            if next <= b.len() {
                lemma_read(b, next, below);
                if let Some((w, end)) = labels_at(b, next, below) {
                    let x = b.subrange(at, next) + w;
                    assert(x[0] == b[at]);
                    assert(x.skip(x[0] + 1) =~= w);
                }
            }
        } else if b[at] >= 0xc0 && at + 1 < b.len() {
            let to = (b[at] - 0xc0) * 256 + b[at + 1];
            if to < below {
                lemma_read(b, to, to);
            }
        }
    }
}

/// Labels that point nowhere are what is written, without the root's zero.
pub proof fn lemma_plain(b: Seq<u8>, at: int)
    ensures
        labels_at(b, at, 0) matches Some((w, end)) ==> end == at + w.len() + 1 && b.subrange(at, end) == w.push(0),
    decreases b.len() - at,
{
    if 0 <= at < b.len() {
        if b[at] == 0 {
            assert(b.subrange(at, at + 1) =~= Seq::<u8>::empty().push(0));
        } else if b[at] <= MAX_LABEL {
            let next = at + b[at] + 1;
            if next <= b.len() {
                lemma_plain(b, next);
                lemma_read(b, next, 0);
                if let Some((w, end)) = labels_at(b, next, 0) {
                    assert(b.subrange(at, end) =~= b.subrange(at, next) + b.subrange(next, end));
                    assert((b.subrange(at, next) + w).push(0) =~= b.subrange(at, next) + w.push(0));
                }
            }
        }
    }
}

proof fn lemma_place(places: Seq<(int, Seq<u8>)>, w: Seq<u8>) -> (p: int)
    requires
        place_of(places, w) is Some,
    ensures
        0 <= p < places.len(),
        places[p] == (place_of(places, w)->0, w),
    decreases places.len(),
{
    if places[0].1 == w {
        0
    } else {
        lemma_place(places.drop_first(), w) + 1
    }
}

/// A name of which the labels from `i` on are still to be placed reads back
/// from there, and its new places stand.
proof fn lemma_spelled(s: WrittenV, w: Seq<u8>, i: int, k: int)
    requires
        0 <= i <= w.len(),
        labels_ok(w.skip(i)),
        0 <= k <= s.places.len(),
        forall|p: int| 0 <= p < k ==> stands(s.bytes, #[trigger] s.places[p]),
        forall|p: int| k <= p < s.places.len() ==> (#[trigger] s.places[p]).1.len() > w.len() - i,
    ensures
        ({
            let t = spelled(s, w, i);
            let n = s.bytes.len() as int;
            &&& n + i < t.bytes.len()
            &&& t.bytes.take(n) == s.bytes
            &&& t.bytes.subrange(n, n + i) == w.take(i)
            &&& t.bytes.len() <= n + w.len() + 1
            &&& forall|below: int|
                below >= n ==> #[trigger] labels_at(t.bytes, n + i, below) == Some((w.skip(i), t.bytes.len() as int))
            &&& s.places.is_prefix_of(t.places)
            &&& forall|p: int| s.places.len() <= p < t.places.len() ==> stands(t.bytes, #[trigger] t.places[p])
        }),
    decreases w.len() - i,
{
    let t = spelled(s, w, i);
    let n = s.bytes.len() as int;
    if i == w.len() {
        assert(w.skip(i) =~= Seq::<u8>::empty());
        assert(t.bytes.take(n) =~= s.bytes);
        assert(t.bytes.subrange(n, n + i) =~= w.take(i));
        assert(t.bytes[n + i] == 0);
    } else if let Some(to) = place_of(s.places, w.skip(i)) {
        let p = lemma_place(s.places, w.skip(i));
        assert(s.places[p].1.len() == w.len() - i);
        assert(stands(s.bytes, s.places[p]));
        let more = w.take(i) + pointer(to);
        assert(t.bytes =~= s.bytes + more);
        lemma_stable(s.bytes, more, to, to);
        assert(t.bytes.take(n) =~= s.bytes);
        assert(t.bytes.subrange(n, n + i) =~= w.take(i));
        assert(t.bytes[n + i] == (0xc0 + to / 256) as u8 && t.bytes[n + i + 1] == (to % 256) as u8);
        assert((t.bytes[n + i] - 0xc0) * 256 + t.bytes[n + i + 1] == to);
        assert(w.skip(i)[0] == w[i]);
    } else {
        let s2 = noted(s, w, i);
        let next = i + w[i] + 1;
        assert(w.skip(i)[0] == w[i]);
        assert(w.skip(i).skip(w[i] + 1) =~= w.skip(next));
        assert forall|p: int| 0 <= p < k implies stands(s2.bytes, #[trigger] s2.places[p]) by {
            assert(s2.places[p] == s.places[p]);
        }
        assert forall|p: int| k <= p < s2.places.len() implies (#[trigger] s2.places[p]).1.len() > w.len() - next by {
            if p < s.places.len() {
                assert(s2.places[p] == s.places[p]);
            }
        }
        lemma_spelled(s2, w, next, k);
        let label = w.subrange(i, next);
        assert(t.bytes.subrange(n, n + i) =~= t.bytes.subrange(n, n + next).take(i));
        assert(w.take(next).take(i) =~= w.take(i));
        assert(t.bytes.subrange(n + i, n + next) =~= t.bytes.subrange(n, n + next).skip(i));
        assert(w.take(next).skip(i) =~= label);
        assert(t.bytes[n + i] == t.bytes.subrange(n + i, n + next)[0]);
        assert(label + w.skip(next) =~= w.skip(i));
        assert forall|below: int| below >= n implies #[trigger] labels_at(t.bytes, n + i, below) == Some(
            (w.skip(i), t.bytes.len() as int),
        ) by {
            assert(labels_at(t.bytes, n + next, below) == Some((w.skip(next), t.bytes.len() as int)));
        }
        assert forall|p: int| s.places.len() <= p < t.places.len() implies stands(t.bytes, #[trigger] t.places[p]) by {
            if p < s2.places.len() {
                assert(t.places[p] == s2.places[p]);
                assert(labels_at(t.bytes, n + i, n + i) == Some((w.skip(i), t.bytes.len() as int)));
            }
        }
    }
}

/// A name reads back, and the places stay sound.
pub proof fn lemma_name(s: WrittenV, w: Seq<u8>)
    requires
        sound(s),
        labels_ok(w),
    ensures
        sound(with_name(s, w)),
        with_name(s, w).bytes.take(s.bytes.len() as int) == s.bytes,
        s.bytes.len() < with_name(s, w).bytes.len() <= s.bytes.len() + w.len() + 1,
        labels_at(with_name(s, w).bytes, s.bytes.len() as int, s.bytes.len() as int) == Some(
            (w, with_name(s, w).bytes.len() as int),
        ),
{
    let t = with_name(s, w);
    let n = s.bytes.len() as int;
    assert(w.skip(0) =~= w);
    lemma_spelled(s, w, 0, s.places.len() as int);
    assert(labels_at(t.bytes, n, n) == Some((w, t.bytes.len() as int)));
    let more = t.bytes.skip(n);
    assert(t.bytes =~= s.bytes + more);
    assert forall|p: int| 0 <= p < t.places.len() implies stands(t.bytes, #[trigger] t.places[p]) by {
        if p < s.places.len() {
            assert(t.places[p] == s.places[p]);
            assert(stands(s.bytes, s.places[p]));
            lemma_stable(s.bytes, more, s.places[p].0, s.places[p].0);
        }
    }
}

/// A name reads back whatever follows it.
pub proof fn lemma_name_then(s: WrittenV, w: Seq<u8>, more: Seq<u8>)
    requires
        sound(s),
        valid_name(w),
    ensures
        name_at(with_name(s, w).bytes + more, s.bytes.len() as int, false) == Some(
            (w, with_name(s, w).bytes.len() as int),
        ),
{
    lemma_name(s, w);
    lemma_stable(with_name(s, w).bytes, more, s.bytes.len() as int, s.bytes.len() as int);
}

/// Bytes that are no name leave the places sound.
pub proof fn lemma_bytes(s: WrittenV, x: Seq<u8>)
    requires
        sound(s),
    ensures
        sound(WrittenV { bytes: s.bytes + x, ..s }),
{
    let t = WrittenV { bytes: s.bytes + x, ..s };
    assert forall|p: int| 0 <= p < t.places.len() implies stands(t.bytes, #[trigger] t.places[p]) by {
        assert(stands(s.bytes, s.places[p]));
        lemma_stable(s.bytes, x, s.places[p].0, s.places[p].0);
    }
}

proof fn lemma_spelled_first(s: WrittenV, w: Seq<u8>, i: int)
    requires
        0 <= i,
        s.places.len() > 0,
    ensures
        s.places.is_prefix_of(spelled(s, w, i).places),
    decreases
            if i < w.len() {
                w.len() - i
            } else {
                0
            },
{
    if i < w.len() && place_of(s.places, w.skip(i)) is None {
        lemma_spelled_first(noted(s, w, i), w, i + w[i] + 1);
    }
}

proof fn lemma_place_kept(a: Seq<(int, Seq<u8>)>, b: Seq<(int, Seq<u8>)>, w: Seq<u8>)
    requires
        a.is_prefix_of(b),
        place_of(a, w) is Some,
    ensures
        place_of(b, w) == place_of(a, w),
    decreases a.len(),
{
    assert(a[0] == b[0]);
    if a[0].1 != w {
        assert(a.drop_first().is_prefix_of(b.drop_first()));
        lemma_place_kept(a.drop_first(), b.drop_first(), w);
    }
}

proof fn lemma_place_pushed(a: Seq<(int, Seq<u8>)>, at: int, w: Seq<u8>)
    ensures
        place_of(a.push((at, w)), w) is Some,
    decreases a.len(),
{
    if a.len() > 0 && a[0].1 != w {
        assert(a.push((at, w)).drop_first() =~= a.drop_first().push((at, w)));
        lemma_place_pushed(a.drop_first(), at, w);
    }
}

/// A name is written once and pointed at afterwards: after it, it takes two
/// bytes, as long as there is room to remember places.
pub proof fn law_written_once(s: WrittenV, w: Seq<u8>)
    requires
        w.len() > 0,
        s.bytes.len() + w.len() < FAR,
        s.places.len() < MAX_PLACES,
    ensures
        ({
            let t = with_name(s, w);
            with_name(t, w).bytes.len() == t.bytes.len() + 2
        }),
{
    let t = with_name(s, w);
    assert(w.skip(0) =~= w);
    if place_of(s.places, w) is None {
        let s2 = noted(s, w, 0);
        lemma_place_pushed(s.places, s.bytes.len() as int, w);
        lemma_spelled_first(s2, w, w[0] + 1);
        lemma_place_kept(s2.places, t.places, w);
    }
    assert(place_of(t.places, w) is Some);
    assert(w.take(0) =~= Seq::<u8>::empty());
}

/// Places, with their labels as sequences.
pub open spec fn places_of(p: Seq<(usize, Vec<u8>)>) -> Seq<(int, Seq<u8>)> {
    p.map_values(|x: (usize, Vec<u8>)| (x.0 as int, x.1@))
}

/// What is being written, and where the labels in it stand.
pub struct Writer {
    bytes: Vec<u8>,
    places: Vec<(usize, Vec<u8>)>,
}

impl Writer {
    /// What was written so far.
    pub closed spec fn view(&self) -> WrittenV {
        WrittenV { bytes: self.bytes@, places: places_of(self.places@) }
    }

    /// Whether every place can be pointed at.
    pub closed spec fn wf(&self) -> bool {
        forall|p: int| 0 <= p < self.places@.len() ==> (#[trigger] self.places@[p]).0 < FAR
    }

    /// A writer that has written nothing.
    pub fn new() -> (r: Self)
        ensures
            r.wf(),
            r@ == blank(),
    {
        let r = Writer { bytes: Vec::new(), places: Vec::new() };
        assert(r@ =~= blank());
        r
    }

    /// Writes one byte.
    pub fn push(&mut self, x: u8)
        requires
            old(self).wf(),
        ensures
            final(self).wf(),
            final(self)@ == (WrittenV { bytes: old(self)@.bytes + seq![x], ..old(self)@ }),
    {
        self.bytes.push(x);
        assert(self.bytes@ =~= old(self)@.bytes + seq![x]);
    }

    /// Writes some bytes.
    pub fn push_all(&mut self, x: &[u8])
        requires
            old(self).wf(),
        ensures
            final(self).wf(),
            final(self)@ == (WrittenV { bytes: old(self)@.bytes + x@, ..old(self)@ }),
    {
        self.bytes.extend_from_slice(x);
        assert(self.bytes@ =~= old(self)@.bytes + x@);
    }

    /// Finds the first place at which the labels `w` end a name.
    fn place(&self, w: &[u8]) -> (r: Option<usize>)
        requires
            self.wf(),
        ensures
            match r {
                Some(to) => place_of(self@.places, w@) == Some(to as int) && to < FAR,
                None => place_of(self@.places, w@) is None,
            },
    {
        let ghost all = places_of(self.places@);
        let mut i: usize = 0;
        assert(all.skip(0) =~= all);
        while i < self.places.len()
            invariant
                self.wf(),
                i <= self.places@.len(),
                all == places_of(self.places@),
                place_of(all, w@) == place_of(all.skip(i as int), w@),
            decreases self.places@.len() - i,
        {
            let ghost rest = all.skip(i as int);
            assert(rest[0] == (self.places@[i as int].0 as int, self.places@[i as int].1@));
            assert(rest.drop_first() =~= all.skip(i + 1));
            if same_bytes(self.places[i].1.as_slice(), w) {
                return Some(self.places[i].0);
            }
            i = i + 1;
        }
        None
    }

    /// Writes a name.
    pub fn push_name(&mut self, n: &Name)
        requires
            old(self).wf(),
        ensures
            final(self).wf(),
            final(self)@ == with_name(old(self)@, n@),
    {
        n.known();
        let ghost start = self@;
        let w = n.wire();
        let len: usize = w.len();
        let mut i: usize = 0;
        assert(w@.skip(0) =~= w@);
        while i < len
            invariant
                self.wf(),
                i <= len,
                len == w@.len(),
                len <= MAX_NAME,
                labels_ok(w@.skip(i as int)),
                w@ == n@,
                start == old(self)@,
                self@.bytes == start.bytes,
                with_name(start, w@) == spelled(self@, w@, i as int),
            decreases len - i,
        {
            let tail = slice_subrange(w, i, len);
            assert(tail@ =~= w@.skip(i as int));
            assert(tail@[0] == w@[i as int]);
            if let Some(to) = self.place(tail) {
                let ghost before = self.bytes@;
                self.bytes.extend_from_slice(slice_subrange(w, 0, i));
                self.bytes.push(0xc0 + (to / 256) as u8);
                self.bytes.push((to % 256) as u8);
                proof {
                    assert(w@.subrange(0, i as int) =~= w@.take(i as int));
                    assert(self.bytes@ =~= before + w@.take(i as int) + pointer(to as int));
                }
                return ;
            }
            if self.bytes.len() < FAR && len < FAR - self.bytes.len() && self.places.len() < MAX_PLACES {
                let ghost before = self.places@;
                let at: usize = self.bytes.len() + i;
                self.places.push((at, copy_bytes(tail)));
                assert(places_of(self.places@) =~= places_of(before).push((at as int, tail@)));
            }
            assert(tail@.skip(tail@[0] + 1) =~= w@.skip(i + w@[i as int] + 1));
            i = i + w[i] as usize + 1;
        }
        let ghost before = self.bytes@;
        self.bytes.extend_from_slice(w);
        self.bytes.push(0);
        assert(self.bytes@ =~= before + w@ + seq![0u8]);
    }

    /// How many bytes were written.
    pub fn len(&self) -> (r: usize)
        ensures
            r == self@.bytes.len(),
    {
        self.bytes.len()
    }

    /// What was written.
    pub fn into_bytes(self) -> (r: Vec<u8>)
        ensures
            r@ == self@.bytes,
    {
        self.bytes
    }
}

/// What labels read so far and those that follow come to. `end` is where what
/// follows the name begins, once a pointer has said so.
spec fn carried(w: Seq<u8>, end: Option<usize>, r: Option<(Seq<u8>, int)>) -> Option<(Seq<u8>, int)> {
    match r {
        Some((x, e)) => Some(
            (
                w + x,
                match end {
                    Some(p) => p as int,
                    None => e,
                },
            ),
        ),
        None => None,
    }
}

/// Reads the name at `at`.
pub fn read_name(b: &[u8], at: usize, plain: bool) -> (r: Option<(Name, usize)>)
    requires
        at <= b@.len(),
    ensures
        match r {
            Some((n, p)) => p <= b@.len() && name_at(b@, at as int, plain) == Some((n@, p as int)),
            None => name_at(b@, at as int, plain) is None,
        },
{
    let first: usize = if plain {
        0
    } else {
        at
    };
    let ghost want = labels_at(b@, at as int, first as int);
    let mut w: Vec<u8> = Vec::new();
    let mut end: Option<usize> = None;
    let mut below: usize = first;
    let mut i: usize = at;
    proof {
        lemma_read(b@, at as int, first as int);
        if let Some((x, _)) = want {
            assert(w@ + x =~= x);
        }
    }
    while i < b.len() && b[i] != 0
        invariant
            i <= b@.len(),
            first == if plain {
                0
            } else {
                at
            },
            want == labels_at(b@, at as int, first as int),
            want == carried(w@, end, labels_at(b@, i as int, below as int)),
            end matches Some(p) ==> p <= b@.len(),
        decreases below, b@.len() - i,
    {
        let k: usize = b[i] as usize;
        if k <= MAX_LABEL as usize {
            if b.len() - i <= k {
                return None;
            }
            let ghost before = w@;
            w.extend_from_slice(slice_subrange(b, i, i + k + 1));
            proof {
                assert(w@ =~= before + b@.subrange(i as int, i + k + 1));
                if let Some((x, _)) = labels_at(b@, i + k + 1, below as int) {
                    assert(w@ + x =~= before + (b@.subrange(i as int, i + k + 1) + x));
                }
            }
            i = i + k + 1;
        } else if k >= 0xc0 && b.len() - i > 1 {
            let to: usize = (k - 0xc0) * 256 + b[i + 1] as usize;
            if to >= below {
                return None;
            }
            if end.is_none() {
                end = Some(i + 2);
            }
            if to >= b.len() {
                assert(labels_at(b@, to as int, to as int) is None);
                return None;
            }
            below = to;
            i = to;
        } else {
            return None;
        }
    }
    if i >= b.len() {
        return None;
    }
    assert(w@ + Seq::<u8>::empty() =~= w@);
    let stop: usize = match end {
        Some(p) => p,
        None => i + 1,
    };
    match Name::from_wire(w.as_slice()) {
        Some(n) => Some((n, stop)),
        None => None,
    }
}

} // verus!
