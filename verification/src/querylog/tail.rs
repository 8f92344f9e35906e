//! Reading a log from its end, newest entry first.
//!
//! The file is read backwards in chunks, so that a large log does not have to
//! be loaded for its last few entries. The reading itself is the caller's:
//! [`Tail::next_chunk`] says which bytes, and [`Tail::feed`] takes them.

use vstd::prelude::*;
use vstd::slice::slice_subrange;
use vstd::string::*;
use vstd::utf8::*;

use crate::asked::{answer, ask, settled};
use crate::querylog::Entry;
use crate::text::{chars_of, string_of, trim, trimmed};

verus! {

/// How many bytes are read at a time.
pub const CHUNK: u64 = 65_536;

/// The byte between lines.
pub const NEWLINE: u8 = 10;

/// `std::str::from_utf8`: the text that bytes spell, where they are UTF-8.
#[verifier::external_body]
fn text_in(b: &[u8]) -> (r: Option<&str>)
    ensures
        match r {
            Some(s) => valid_utf8(b@) && s@ == decode_utf8(b@),
            None => !valid_utf8(b@),
        },
{
    std::str::from_utf8(b).ok()
}

/// The last newline in some bytes, or -1.
pub open spec fn last_newline(b: Seq<u8>) -> int
    decreases b.len(),
{
    if b.len() == 0 {
        -1
    } else if b.last() == NEWLINE {
        b.len() - 1
    } else {
        last_newline(b.drop_last())
    }
}

/// What `parse` says of a text.
pub open spec fn read_by<F: Fn(&str) -> Option<Entry>>(parse: F) -> spec_fn(Seq<char>) -> Option<Entry> {
    |t: Seq<char>| answer(parse, t)
}

/// The entry that a line holds, where `parse` says what a text is.
pub open spec fn entry_in(line: Seq<u8>, parse: spec_fn(Seq<char>) -> Option<Entry>) -> Option<Entry> {
    if line.len() > 0 && valid_utf8(line) {
        parse(trimmed(decode_utf8(line)))
    } else {
        None
    }
}

/// The entry of one line, in a sequence of its own.
pub open spec fn one(e: Option<Entry>) -> Seq<Entry> {
    match e {
        Some(x) => seq![x],
        None => Seq::empty(),
    }
}

/// The entries in some bytes, newest first: one to a line, and a line that
/// holds none is passed over.
pub open spec fn newest_first(b: Seq<u8>, parse: spec_fn(Seq<char>) -> Option<Entry>) -> Seq<Entry>
    decreases b.len(),
{
    if b.len() == 0 {
        Seq::empty()
    } else {
        let i = last_newline(b);
        let here = one(entry_in(b.skip(i + 1), parse));
        if 0 <= i < b.len() {
            here + newest_first(b.take(i), parse)
        } else {
            here
        }
    }
}

/// A page of a sequence: what is left after `offset` items, as far as `limit`.
pub open spec fn page<A>(s: Seq<A>, offset: int, limit: int) -> Seq<A> {
    let rest = if offset >= s.len() {
        Seq::empty()
    } else {
        s.skip(offset)
    };
    if limit >= rest.len() {
        rest
    } else {
        rest.take(limit)
    }
}

proof fn lemma_last_newline(b: Seq<u8>)
    ensures
        -1 <= last_newline(b) < b.len(),
        last_newline(b) >= 0 ==> b[last_newline(b)] == NEWLINE,
        forall|k: int| last_newline(b) < k < b.len() ==> b[k] != NEWLINE,
    decreases b.len(),
{
    if b.len() > 0 && b.last() != NEWLINE {
        let d = b.drop_last();
        lemma_last_newline(d);
        assert forall|k: int| last_newline(b) < k < b.len() implies b[k] != NEWLINE by {
            if k < d.len() {
                assert(d[k] == b[k]);
            }
        }
    }
}

proof fn lemma_is_last_newline(b: Seq<u8>, i: int)
    requires
        -1 <= i < b.len(),
        i >= 0 ==> b[i] == NEWLINE,
        forall|k: int| i < k < b.len() ==> b[k] != NEWLINE,
    ensures
        last_newline(b) == i,
{
    lemma_last_newline(b);
    let j = last_newline(b);
    if j < i {
        assert(b[i] != NEWLINE);
    } else if i < j {
        assert(b[j] != NEWLINE);
    }
}

/// Bytes that end in a newline, or are none, can be read apart from those
/// that follow.
pub proof fn law_lines_read_apart(a: Seq<u8>, b: Seq<u8>, parse: spec_fn(Seq<char>) -> Option<Entry>)
    requires
        a.len() == 0 || a.last() == NEWLINE,
    ensures
        newest_first(a + b, parse) == newest_first(b, parse) + newest_first(a, parse),
    decreases b.len(),
{
    let ab = a + b;
    if a.len() == 0 {
        assert(ab =~= b);
        assert(newest_first(b, parse) + newest_first(a, parse) =~= newest_first(b, parse));
    } else if b.len() == 0 {
        assert(ab =~= a);
        assert(newest_first(b, parse) + newest_first(a, parse) =~= newest_first(a, parse));
    } else {
        lemma_last_newline(b);
        let i = last_newline(b);
        if i >= 0 {
            lemma_is_last_newline(ab, a.len() + i);
            assert(ab.skip(a.len() + i + 1) =~= b.skip(i + 1));
            assert(ab.take(a.len() + i) =~= a + b.take(i));
            law_lines_read_apart(a, b.take(i), parse);
            assert(newest_first(ab, parse) =~= newest_first(b, parse) + newest_first(a, parse));
        } else {
            lemma_is_last_newline(ab, a.len() - 1);
            assert(ab.skip(a.len() as int) =~= b);
            assert(ab.take(a.len() - 1) =~= a.drop_last());
            lemma_is_last_newline(a, a.len() - 1);
            assert(a.skip(a.len() as int) =~= Seq::<u8>::empty());
            assert(a.take(a.len() - 1) =~= a.drop_last());
            assert(b.skip(0) =~= b);
            assert(newest_first(a, parse) =~= newest_first(a.drop_last(), parse));
            assert(newest_first(ab, parse) =~= newest_first(b, parse) + newest_first(a, parse));
        }
    }
}

/// A reading in progress.
pub ghost struct TailV {
    /// How many bytes of the file are still to be read.
    pub pos: int,
    /// What was read before the first whole line, and belongs to the bytes
    /// before it.
    pub carry: Seq<u8>,
    /// The entries found, newest first.
    pub out: Seq<Entry>,
    /// How many were passed over.
    pub skipped: int,
    pub offset: int,
    pub limit: int,
}

/// The first newline in some bytes, or their number.
pub open spec fn first_newline(b: Seq<u8>) -> int
    decreases b.len(),
{
    if b.len() == 0 || b[0] == NEWLINE {
        0
    } else {
        1 + first_newline(b.drop_first())
    }
}

/// Where the whole lines of some bytes begin, where more of the file stands
/// before them: after the first newline, or at the end where there is none.
pub open spec fn whole_lines(b: Seq<u8>, more: bool) -> int {
    if !more {
        0
    } else if first_newline(b) < b.len() {
        first_newline(b) + 1
    } else {
        b.len() as int
    }
}

/// A reading after the bytes before what was read so far. Everything before
/// their first newline belongs to the bytes before them, and is carried over.
pub open spec fn fed(t: TailV, chunk: Seq<u8>, parse: spec_fn(Seq<char>) -> Option<Entry>) -> TailV {
    let pos = t.pos - chunk.len();
    let b = chunk + t.carry;
    let start = whole_lines(b, pos > 0);
    let older = newest_first(b.skip(start), parse);
    let pass = t.offset - t.skipped;
    TailV {
        pos,
        carry: b.take(start),
        out: t.out + page(older, pass, t.limit - t.out.len()),
        skipped: if older.len() < pass {
            t.skipped + older.len()
        } else {
            t.offset
        },
        ..t
    }
}

/// Whether `t` has read the end of `file` and found what is to be found
/// there.
pub open spec fn has_read(t: TailV, file: Seq<u8>, parse: spec_fn(Seq<char>) -> Option<Entry>) -> bool {
    let rest = file.take(t.pos) + t.carry;
    let done = file.skip(rest.len() as int);
    let found = newest_first(done, parse);
    &&& 0 <= t.pos <= file.len()
    &&& rest.len() <= file.len()
    &&& t.carry == file.subrange(t.pos, rest.len() as int)
    &&& t.pos == 0 ==> t.carry.len() == 0
    &&& done.len() == 0 || rest.len() == 0 || rest.last() == NEWLINE
    &&& t.out == page(found, t.offset, t.limit)
    &&& t.skipped == if found.len() < t.offset {
        found.len() as int
    } else {
        t.offset
    }
    &&& t.offset >= 0
    &&& t.limit >= 0
}

/// How many of `n` entries are passed over where `offset` are to be.
pub open spec fn passed_over(n: nat, offset: int) -> int {
    if n < offset {
        n as int
    } else {
        offset
    }
}

/// Whether a reading is over: the file has been read, or the limit reached.
pub open spec fn is_over(t: TailV) -> bool {
    t.pos == 0 || t.out.len() >= t.limit
}

proof fn lemma_page_done<A>(s: Seq<A>, more: Seq<A>, offset: int, limit: int)
    requires
        offset >= 0,
        limit >= 0,
        page(s, offset, limit).len() >= limit,
    ensures
        page(s + more, offset, limit) == page(s, offset, limit),
{
    if limit > 0 {
        assert(page(s + more, offset, limit) =~= page(s, offset, limit));
    } else {
        assert(page(s + more, offset, limit) =~= Seq::<A>::empty());
        assert(page(s, offset, limit) =~= Seq::<A>::empty());
    }
}

/// However a file is cut into chunks, a reading that is over has found the
/// newest entries of the whole file: those after `offset`, as far as `limit`.
pub proof fn law_reads_the_whole_file(t: TailV, file: Seq<u8>, parse: spec_fn(Seq<char>) -> Option<Entry>)
    requires
        has_read(t, file, parse),
        is_over(t),
    ensures
        t.out == page(newest_first(file, parse), t.offset, t.limit),
        t.limit > 0 ==> t.skipped == passed_over(newest_first(file, parse).len(), t.offset),
{
    let rest = file.take(t.pos) + t.carry;
    let done = file.skip(rest.len() as int);
    if t.pos == 0 {
        assert(rest =~= Seq::<u8>::empty());
        assert(done =~= file);
    } else {
        assert(file =~= rest + done);
        if done.len() == 0 {
            assert(newest_first(done, parse) =~= Seq::<Entry>::empty());
            lemma_page_done(newest_first(done, parse), newest_first(file, parse), t.offset, t.limit);
            assert(newest_first(done, parse) + newest_first(file, parse) =~= newest_first(file, parse));
        } else {
            law_lines_read_apart(rest, done, parse);
            lemma_page_done(newest_first(done, parse), newest_first(rest, parse), t.offset, t.limit);
        }
    }
}

/// A reading of a log from its end.
pub struct Tail {
    pos: u64,
    carry: Vec<u8>,
    out: Vec<Entry>,
    skipped: usize,
    offset: usize,
    limit: usize,
}

proof fn lemma_first_newline(b: Seq<u8>)
    ensures
        0 <= first_newline(b) <= b.len(),
        forall|k: int| 0 <= k < first_newline(b) ==> b[k] != NEWLINE,
        first_newline(b) < b.len() ==> b[first_newline(b)] == NEWLINE,
    decreases b.len(),
{
    if b.len() > 0 && b[0] != NEWLINE {
        let d = b.drop_first();
        lemma_first_newline(d);
        assert forall|k: int| 0 <= k < first_newline(b) implies b[k] != NEWLINE by {
            if k > 0 {
                assert(d[k - 1] == b[k]);
            }
        }
        if first_newline(b) < b.len() {
            assert(d[first_newline(d)] == b[first_newline(b)]);
        }
    }
}

/// A reading that is fed the bytes that stand before what it has read has read
/// them too.
pub proof fn law_feeding(t: TailV, chunk: Seq<u8>, file: Seq<u8>, parse: spec_fn(Seq<char>) -> Option<Entry>)
    requires
        has_read(t, file, parse),
        !is_over(t),
        0 < chunk.len() <= t.pos,
        chunk == file.subrange(t.pos - chunk.len(), t.pos),
    ensures
        has_read(fed(t, chunk, parse), file, parse),
{
    let n = fed(t, chunk, parse);
    let b = chunk + t.carry;
    let start = whole_lines(b, n.pos > 0);
    lemma_first_newline(b);
    let rest = file.take(t.pos) + t.carry;
    let done = file.skip(rest.len() as int);
    let left = file.take(n.pos) + n.carry;
    let body = b.skip(start);
    assert(rest =~= file.take(rest.len() as int));
    assert(b =~= file.subrange(n.pos, rest.len() as int));
    assert(left =~= file.take(n.pos + start));
    assert(n.carry =~= file.subrange(n.pos, left.len() as int));
    let now = file.skip(left.len() as int);
    assert(now =~= body + done);
    if body.len() > 0 && left.len() > 0 {
        assert(n.pos > 0);
        assert(left.last() == n.carry.last());
    }
    if body.len() == 0 {
        assert(left =~= rest);
    }
    let older = newest_first(body, parse);
    let found = newest_first(done, parse);
    assert(newest_first(now, parse) == found + older) by {
        if done.len() == 0 {
            assert(now =~= body);
            assert(found + older =~= older);
        } else if body.len() == 0 {
            assert(now =~= done);
            assert(found + older =~= found);
        } else {
            assert(rest.last() == body.last());
            law_lines_read_apart(body, done, parse);
        }
    }
    lemma_more_pages(found, older, t.offset, t.limit);
}

impl Tail {
    /// The reading in progress.
    pub closed spec fn view(&self) -> TailV {
        TailV {
            pos: self.pos as int,
            carry: self.carry@,
            out: self.out@,
            skipped: self.skipped as int,
            offset: self.offset as int,
            limit: self.limit as int,
        }
    }

    /// Whether no more was passed over than is to be.
    pub closed spec fn wf(&self) -> bool {
        self.skipped <= self.offset
    }

    /// A reading of a file of `len` bytes that has not begun: entries after
    /// the newest `offset`, up to `limit`.
    pub fn new(len: u64, offset: usize, limit: usize) -> (r: Self)
        ensures
            r.wf(),
            r@ == (TailV {
                pos: len as int,
                carry: Seq::empty(),
                out: Seq::empty(),
                skipped: 0,
                offset: offset as int,
                limit: limit as int,
            }),
            forall|file: Seq<u8>, parse: spec_fn(Seq<char>) -> Option<Entry>|
                file.len() == len ==> #[trigger] has_read(r@, file, parse),
    {
        let r = Tail { pos: len, carry: Vec::new(), out: Vec::new(), skipped: 0, offset, limit };
        proof {
            assert(r@.carry =~= Seq::<u8>::empty());
            assert(r@.out =~= Seq::<Entry>::empty());
            assert forall|file: Seq<u8>, parse: spec_fn(Seq<char>) -> Option<Entry>| file.len() == len implies #[trigger] has_read(
                r@,
                file,
                parse,
            ) by {
                let rest = file.take(len as int) + r@.carry;
                assert(rest =~= file);
                assert(file.skip(file.len() as int) =~= Seq::<u8>::empty());
                assert(file.subrange(len as int, len as int) =~= Seq::<u8>::empty());
                let found = newest_first(Seq::<u8>::empty(), parse);
                assert(found =~= Seq::<Entry>::empty());
                assert(page(found, offset as int, limit as int) =~= Seq::<Entry>::empty());
            }
        }
        r
    }

    /// The bytes to read next, as where they begin and how many they are, or
    /// `None` when the reading is over.
    pub fn next_chunk(&self) -> (r: Option<(u64, u64)>)
        ensures
            match r {
                Some((start, len)) => {
                    &&& !is_over(self@)
                    &&& len == if self@.pos < CHUNK {
                        self@.pos
                    } else {
                        CHUNK as int
                    }
                    &&& start + len == self@.pos
                },
                None => is_over(self@),
            },
    {
        if self.pos == 0 || self.out.len() >= self.limit {
            return None;
        }
        let len: u64 = if self.pos < CHUNK {
            self.pos
        } else {
            CHUNK
        };
        Some((self.pos - len, len))
    }

    /// Takes the bytes that stand before what was read so far.
    pub fn feed<F: Fn(&str) -> Option<Entry>>(&mut self, chunk: Vec<u8>, parse: &F)
        requires
            settled(*parse),
            old(self).wf(),
            0 < chunk@.len() <= old(self)@.pos,
            !is_over(old(self)@),
        ensures
            final(self).wf(),
            final(self)@ == fed(old(self)@, chunk@, read_by(*parse)),
    {
        let ghost was = self@;
        let n: u64 = chunk.len() as u64;
        self.pos = self.pos - n;
        let mut buf = chunk;
        buf.extend_from_slice(self.carry.as_slice());
        let ghost b = buf@;
        assert(b =~= chunk@ + was.carry);
        let mut start: usize = 0;
        if self.pos > 0 {
            start = cut(buf.as_slice());
        }
        self.carry = crate::message::copy_bytes(slice_subrange(buf.as_slice(), 0, start));
        let body = slice_subrange(buf.as_slice(), start, buf.len());
        assert(body@ =~= b.skip(start as int));
        assert(self.carry@ =~= b.take(start as int));
        self.lines(body, parse);
    }

    /// Goes through whole lines from their end.
    fn lines<F: Fn(&str) -> Option<Entry>>(&mut self, body: &[u8], parse: &F)
        requires
            settled(*parse),
            old(self).wf(),
            old(self)@.out.len() < old(self)@.limit,
        ensures
            final(self).wf(),
            final(self)@.pos == old(self)@.pos,
            final(self)@.carry == old(self)@.carry,
            final(self)@.offset == old(self)@.offset,
            final(self)@.limit == old(self)@.limit,
            ({
                let older = newest_first(body@, read_by(*parse));
                let pass = old(self)@.offset - old(self)@.skipped;
                &&& final(self)@.out == old(self)@.out + page(older, pass, old(self)@.limit - old(self)@.out.len())
                &&& final(self)@.skipped == if older.len() < pass {
                    old(self)@.skipped + older.len()
                } else {
                    old(self)@.offset
                }
            }),
    {
        let ghost p = read_by(*parse);
        let ghost was = self@;
        let ghost all = newest_first(body@, p);
        let ghost pass = was.offset - was.skipped;
        let ghost room = was.limit - was.out.len();
        let ghost mut gone: Seq<Entry> = Seq::empty();
        let mut end: usize = body.len();
        assert(body@.take(end as int) =~= body@);
        assert(gone + all =~= all);
        assert(page(gone, pass, room) =~= Seq::<Entry>::empty());
        assert(was.out + page(gone, pass, room) =~= was.out);
        while end > 0 && self.out.len() < self.limit
            invariant
                settled(*parse),
                p == read_by(*parse),
                end <= body@.len(),
                all == newest_first(body@, p),
                pass == was.offset - was.skipped,
                pass >= 0,
                room == was.limit - was.out.len(),
                room > 0,
                gone + newest_first(body@.take(end as int), p) == all,
                self@.pos == was.pos,
                self@.carry == was.carry,
                self@.offset == was.offset,
                self@.limit == was.limit,
                self@.out == was.out + page(gone, pass, room),
                self@.skipped == if gone.len() < pass {
                    was.skipped + gone.len()
                } else {
                    was.offset
                },
            decreases end,
        {
            let ghost here = body@.take(end as int);
            let mut i: usize = end;
            while i > 0 && body[i - 1] != NEWLINE
                invariant
                    i <= end <= body@.len(),
                    forall|k: int| i <= k < end ==> body@[k] != NEWLINE,
                decreases i,
            {
                i = i - 1;
            }
            let line = slice_subrange(body, i, end);
            let ghost before = gone;
            proof {
                assert(here.len() == end);
                assert forall|k: int| i - 1 < k < here.len() implies here[k] != NEWLINE by {
                    assert(here[k] == body@[k]);
                }
                if i > 0 {
                    assert(here[i - 1] == body@[i - 1]);
                }
                lemma_is_last_newline(here, i - 1);
                assert(here.skip(i as int) =~= line@);
            }
            let found = entry_of(line, parse);
            let ghost e = found;
            proof {
                gone = before + one(e);
                let rest = if i > 0 {
                    newest_first(body@.take(i - 1), p)
                } else {
                    Seq::<Entry>::empty()
                };
                if i > 0 {
                    assert(here.take(i - 1) =~= body@.take(i - 1));
                } else {
                    assert(one(e) + rest =~= one(e));
                }
                assert(newest_first(here, p) == one(e) + rest);
                assert(gone + rest =~= before + (one(e) + rest));
                if i == 0 {
                    assert(body@.take(0) =~= Seq::<u8>::empty());
                    assert(newest_first(body@.take(0), p) =~= Seq::<Entry>::empty());
                }
            }
            match found {
                Some(x) => {
                    if self.skipped < self.offset {
                        self.skipped = self.skipped + 1;
                        assert(page(gone, pass, room) =~= page(before, pass, room));
                    } else {
                        self.out.push(x);
                        proof {
                            assert(page(before, pass, room).len() < room);
                            assert(page(gone, pass, room) =~= page(before, pass, room).push(x));
                            assert(self@.out =~= was.out + page(gone, pass, room));
                        }
                    }
                },
                None => {
                    assert(gone =~= before);
                },
            }
            end = if i > 0 {
                i - 1
            } else {
                0
            };
        }
        proof {
            let rest = newest_first(body@.take(end as int), p);
            if end == 0 {
                assert(body@.take(0) =~= Seq::<u8>::empty());
                assert(rest =~= Seq::<Entry>::empty());
                assert(gone =~= all);
            } else {
                lemma_page_done(gone, rest, pass, room);
                if gone.len() < pass {
                    assert(page(gone, pass, room).len() == 0);
                }
            }
        }
    }

    /// How many entries were passed over.
    pub fn passed(&self) -> (r: usize)
        requires
            self.wf(),
        ensures
            r == self@.skipped,
            r <= self@.offset,
    {
        self.skipped
    }

    /// The entries found.
    pub fn into_entries(self) -> (r: Vec<Entry>)
        ensures
            r@ == self@.out,
    {
        self.out
    }
}

/// Where the whole lines of some bytes begin.
fn cut(b: &[u8]) -> (r: usize)
    ensures
        r == whole_lines(b@, true),
        r <= b@.len(),
{
    let mut i: usize = 0;
    assert(b@.skip(0) =~= b@);
    while i < b.len() && b[i] != NEWLINE
        invariant
            i <= b@.len(),
            first_newline(b@) == i + first_newline(b@.skip(i as int)),
        decreases b@.len() - i,
    {
        assert(b@.skip(i as int)[0] == b@[i as int]);
        assert(b@.skip(i as int).drop_first() =~= b@.skip(i + 1));
        i = i + 1;
    }
    if i < b.len() {
        assert(b@.skip(i as int)[0] == b@[i as int]);
        i + 1
    } else {
        assert(b@.skip(i as int) =~= Seq::<u8>::empty());
        i
    }
}

/// The entry that a line holds.
fn entry_of<F: Fn(&str) -> Option<Entry>>(line: &[u8], parse: &F) -> (r: Option<Entry>)
    requires
        settled(*parse),
    ensures
        r == entry_in(line@, read_by(*parse)),
{
    if line.len() == 0 {
        return None;
    }
    match text_in(line) {
        None => None,
        Some(s) => {
            let c = chars_of(s);
            let t = string_of(trim(c.as_slice()));
            ask(parse, t.as_str())
        },
    }
}

proof fn lemma_more_pages(found: Seq<Entry>, older: Seq<Entry>, offset: int, limit: int)
    requires
        offset >= 0,
        limit >= 0,
        page(found, offset, limit).len() < limit,
    ensures
        ({
            let skipped = if found.len() < offset {
                found.len() as int
            } else {
                offset
            };
            page(found + older, offset, limit) == page(found, offset, limit) + page(
                older,
                offset - skipped,
                limit - page(found, offset, limit).len(),
            )
        }),
{
    let skipped = if found.len() < offset {
        found.len() as int
    } else {
        offset
    };
    assert(page(found + older, offset, limit) =~= page(found, offset, limit) + page(
        older,
        offset - skipped,
        limit - page(found, offset, limit).len(),
    ));
}

/// Reads up to `limit` entries from the end of a log, newest first, past the
/// newest `offset`.
pub fn read_tail<F: Fn(&str) -> Option<Entry>>(file: &[u8], offset: usize, limit: usize, parse: &F) -> (r: Vec<Entry>)
    requires
        settled(*parse),
    ensures
        r@ == page(newest_first(file@, read_by(*parse)), offset as int, limit as int),
{
    read_past(file, offset, limit, parse).0
}

/// Reads up to `limit` entries from the end of a log, and says how many of the
/// newest `offset` there were to pass over.
pub fn read_past<F: Fn(&str) -> Option<Entry>>(file: &[u8], offset: usize, limit: usize, parse: &F) -> (r: (
    Vec<Entry>,
    usize,
))
    requires
        settled(*parse),
    ensures
        r.0@ == page(newest_first(file@, read_by(*parse)), offset as int, limit as int),
        limit > 0 ==> r.1 == passed_over(newest_first(file@, read_by(*parse)).len(), offset as int),
        r.1 <= offset,
{
    let ghost p = read_by(*parse);
    let n: usize = file.len();
    let mut t = Tail::new(n as u64, offset, limit);
    assert(has_read(t@, file@, p));
    let mut left: u64 = n as u64;
    loop
        invariant
            settled(*parse),
            p == read_by(*parse),
            t.wf(),
            n == file@.len(),
            left == t@.pos,
            left <= n,
            t@.offset == offset,
            t@.limit == limit,
            has_read(t@, file@, p),
        ensures
            t.wf(),
            has_read(t@, file@, p),
            is_over(t@),
            t@.offset == offset,
            t@.limit == limit,
        decreases left,
    {
        match t.next_chunk() {
            None => {
                break;
            },
            Some((start, len)) => {
                let from: usize = start as usize;
                let to: usize = left as usize;
                let chunk = crate::message::copy_bytes(slice_subrange(file, from, to));
                let ghost was = t@;
                assert(chunk@ =~= file@.subrange(was.pos - chunk@.len(), was.pos));
                proof {
                    law_feeding(was, chunk@, file@, p);
                }
                t.feed(chunk, parse);
                left = start;
            },
        }
    }
    proof {
        law_reads_the_whole_file(t@, file@, p);
    }
    let passed: usize = t.passed();
    (t.into_entries(), passed)
}

} // verus!
