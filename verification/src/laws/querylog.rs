//! What the query log keeps and shows, in terms of what was asked.

use vstd::prelude::*;
use vstd::string::*;
use vstd::utf8::*;

use crate::laws::text::law_first_place;
use crate::laws::verdict::law_under;
use crate::querylog::tail::{entry_in, last_newline, newest_first, page};
use crate::querylog::{
    every_entry, excluded_by, first_place, flush_due, flushed, ignores, next_of, pushed, rotation_due, set_in, time_in,
    time_key, written, Config, Entry, EntryV, LogV, ReadingV,
};
use crate::text::{begins, first_at, lower, strings};

verus! {

/// A host is kept out of the log by its own name or that of a domain it is
/// below, in either case, and the root by a dot alone; by nothing where the
/// list is not in force.
pub proof fn law_ignored(ignored: Seq<Seq<char>>, i: int, host: Seq<char>, label: Seq<char>)
    requires
        0 <= i < ignored.len(),
    ensures
        !ignores(false, ignored, host),
        ignored[i] == seq!['.'] ==> ignores(true, ignored, host),
        ignores(true, ignored, lower(ignored[i])),
        label.len() > 0 ==> ignores(true, ignored, label + seq!['.'] + lower(ignored[i])),
        ignores(true, ignored, host) ==> exists|k: int|
            0 <= k < ignored.len() && (#[trigger] ignored[k] == seq!['.'] || host == lower(ignored[k]) || exists|n: int|
                0 <= n < host.len() && #[trigger] host.skip(n) == seq!['.'] + lower(ignored[k])),
{
    let d = lower(ignored[i]);
    law_under(d, d, label);
    assert(excluded_by(d, ignored[i]));
    let h = label + seq!['.'] + d;
    if label.len() > 0 {
        assert(excluded_by(h, ignored[i]));
    }
    if ignored[i] == seq!['.'] {
        assert(excluded_by(host, ignored[i]));
    }
    if ignores(true, ignored, host) {
        let k = choose|k: int| 0 <= k < ignored.len() && excluded_by(host, #[trigger] ignored[k]);
        let low = lower(ignored[k]);
        law_under(host, low, label);
        if ignored[k] != seq!['.'] && host != low {
            let n = host.len() - low.len() - 1;
            assert(host.skip(n) =~= seq!['.'] + low);
        }
    }
}

/// What recording does. A log that is switched off, or that is to ignore the
/// host, stays as it is. Otherwise the entry is the newest, the oldest goes
/// once there are more than five thousand, and the entry waits to be written
/// where there are files to write.
pub proof fn law_recorded(l: LogV, cfg: Config, e: EntryV)
    ensures
        !cfg.enabled ==> pushed(l, cfg, e) == l,
        ignores(cfg.ignored_enabled, strings(cfg.ignored@), e.host) ==> pushed(l, cfg, e) == l,
        cfg.enabled && !ignores(cfg.ignored_enabled, strings(cfg.ignored@), e.host) ==> {
            let t = pushed(l, cfg, e);
            &&& t.recent[0] == e
            &&& l.recent.len() < 5000 ==> t.recent == seq![e] + l.recent
            &&& l.recent.len() >= 5000 ==> t.recent == seq![e] + l.recent.drop_last()
            &&& cfg.file_enabled ==> t.pending == l.pending.push(e)
            &&& !cfg.file_enabled ==> t.pending == l.pending
        },
        flushed(l).recent == l.recent && flushed(l).pending.len() == 0 && flushed(l).filed == l.filed,
        flush_due(l, cfg) == (l.pending.len() > 0 && l.pending.len() >= cfg.size_memory),
{
    if l.recent.len() >= 5000 {
        assert((seq![e] + l.recent).drop_last() =~= seq![e] + l.recent.drop_last());
    }
}

/// A page is the entries from its offset on, as many as are asked for or are
/// left.
pub proof fn law_page(s: Seq<EntryV>, offset: int, limit: int, i: int)
    requires
        offset >= 0,
        limit >= 0,
    ensures
        offset <= s.len() && limit <= s.len() - offset ==> page(s, offset, limit).len() == limit,
        offset <= s.len() && limit > s.len() - offset ==> page(s, offset, limit).len() == s.len() - offset,
        offset > s.len() ==> page(s, offset, limit).len() == 0,
        0 <= i < page(s, offset, limit).len() ==> page(s, offset, limit)[i] == s[offset + i],
{
}

/// Two files are read at most, and none once the page is filled.
pub proof fn law_files_read(r: ReadingV)
    ensures
        r.files >= 2 ==> next_of(r) is None,
        r.out.len() >= r.limit ==> next_of(r) is None,
        r.files < 2 && r.out.len() < r.limit ==> (next_of(r) matches Some(n) && n.0 == r.pass && n.1 == r.limit
            - r.out.len()),
{
}

/// A log is rotated once its oldest entry is as old as the interval.
pub proof fn law_rotation(oldest: i64, interval: i64, now: i64)
    requires
        i64::MIN <= oldest + interval <= i64::MAX,
    ensures
        rotation_due(oldest, interval, now) == (now >= oldest + interval),
{
}

/// The last end of a line is where the last line begins, with none after it.
pub proof fn law_last_newline(a: Seq<u8>, line: Seq<u8>)
    requires
        !line.contains(10u8),
    ensures
        last_newline(line) == -1,
        last_newline(a.push(10u8) + line) == a.len(),
    decreases line.len(),
{
    let s = a.push(10u8) + line;
    if line.len() == 0 {
        assert(s.last() == 10u8);
    } else {
        let d = line.drop_last();
        assert(!d.contains(10u8)) by {
            if d.contains(10u8) {
                let i = d.index_of(10u8);
                assert(line[i] == 10u8);
            }
        }
        law_last_newline(a, d);
        assert(line.contains(line[line.len() - 1]));
        assert(s.last() == line.last());
        assert(s.drop_last() =~= a.push(10u8) + d);
    }
}

/// A file is read from its end: the entry of its last line, if it has one,
/// and those of the lines before it.
pub proof fn law_newest_first(a: Seq<u8>, line: Seq<u8>, parse: spec_fn(Seq<char>) -> Option<Entry>)
    requires
        !line.contains(10u8),
    ensures
        newest_first(a.push(10u8) + line, parse) == (match entry_in(line, parse) {
            Some(e) => seq![e],
            None => Seq::empty(),
        }) + newest_first(a, parse),
        line.len() > 0 ==> newest_first(line, parse) == match entry_in(line, parse) {
            Some(e) => seq![e],
            None => Seq::empty(),
        },
{
    let s = a.push(10u8) + line;
    law_last_newline(a, line);
    assert(s.skip(a.len() as int + 1) =~= line);
    assert(s.take(a.len() as int) =~= a);
    assert(line.skip(0) =~= line);
}

/// A line has an entry where it is text that the parser takes, without the
/// white space around it.
pub proof fn law_line_entry(line: Seq<u8>, parse: spec_fn(Seq<char>) -> Option<Entry>)
    ensures
        line.len() == 0 ==> entry_in(line, parse) is None,
        !valid_utf8(line) ==> entry_in(line, parse) is None,
        line.len() > 0 && valid_utf8(line) ==> entry_in(line, parse) == parse(
            crate::text::trimmed(decode_utf8(line)),
        ),
{
}

/// The time of a line is what stands between the quotes after the first "T":
/// in it.
pub proof fn law_time_in(s: Seq<char>, a: Seq<char>, t: Seq<char>, rest: Seq<char>)
    requires
        s == a + seq!['"', 'T', '"', ':', '"'] + t + seq!['"'] + rest,
        !t.contains('"'),
        forall|i: int| 0 <= i < a.len() ==> !begins(#[trigger] s.skip(i), seq!['"', 'T', '"', ':', '"']),
    ensures
        time_in(s) == Some(t),
{
    reveal_strlit("\"T\":\"");
    let k = seq!['"', 'T', '"', ':', '"'];
    assert(time_key() =~= k);
    let n = a.len() as int;
    assert(s.skip(n).take(5) =~= k);
    lemma_first_place(s, k, n);
    let tail = s.skip(n + 5);
    assert(tail =~= t + seq!['"'] + rest);
    law_first_place(tail, '"');
    let m = t.len() as int;
    assert(tail[m] == '"');
    let f = first_at(tail, '"');
    if f < m {
        assert(t[f] == tail[f]);
        assert(t.contains(t[f]));
    }
    assert(f == m);
    assert(tail.take(m) =~= t);
}

/// A line that has no "T": in it has no time.
pub proof fn law_no_time(s: Seq<char>)
    requires
        forall|i: int| 0 <= i <= s.len() ==> !begins(#[trigger] s.skip(i), seq!['"', 'T', '"', ':', '"']),
    ensures
        time_in(s) is None,
{
    reveal_strlit("\"T\":\"");
    let k = seq!['"', 'T', '"', ':', '"'];
    assert(time_key() =~= k);
    lemma_place_in_range(s, k);
}

proof fn lemma_place_in_range(s: Seq<char>, p: Seq<char>)
    ensures
        0 <= first_place(s, p) <= s.len(),
    decreases s.len(),
{
    if s.len() > 0 {
        lemma_place_in_range(s.drop_first(), p);
    }
}

proof fn lemma_first_place(s: Seq<char>, p: Seq<char>, n: int)
    requires
        0 <= n <= s.len(),
        begins(s.skip(n), p),
        forall|i: int| 0 <= i < n ==> !begins(#[trigger] s.skip(i), p),
    ensures
        first_place(s, p) == n,
    decreases s.len(),
{
    assert(s.skip(0) =~= s);
    if n > 0 {
        assert(!begins(s.skip(0), p));
        let d = s.drop_first();
        assert(d.skip(n - 1) =~= s.skip(n));
        assert forall|i: int| 0 <= i < n - 1 implies !begins(#[trigger] d.skip(i), p) by {
            assert(d.skip(i) =~= s.skip(i + 1));
        }
        lemma_first_place(d, p, n - 1);
    }
}

/// A moment past the end of the clock is reached only at its end, and one
/// before its beginning always was.
pub proof fn law_rotation_at_the_ends(oldest: i64, interval: i64, now: i64)
    ensures
        oldest + interval > i64::MAX ==> rotation_due(oldest, interval, now) == (now == i64::MAX),
        oldest + interval < i64::MIN ==> rotation_due(oldest, interval, now),
{
}

/// The log is read on from what memory holds: all of that, and then what is in
/// the files, without as many of the newest there as memory holds too.
pub proof fn law_whole_log(l: LogV, current: Seq<EntryV>, rotated: Seq<EntryV>, i: int)
    requires
        written(l) <= current.len() + rotated.len(),
    ensures
        every_entry(l, current, rotated).len() == l.recent.len() + current.len() + rotated.len() - written(l),
        0 <= i < l.recent.len() ==> every_entry(l, current, rotated)[i] == l.recent[i],
        written(l) <= i < current.len() ==> every_entry(l, current, rotated)[l.recent.len() + i - written(l)] == current[i],
        0 <= i < rotated.len() && current.len() + i >= written(l) ==> every_entry(l, current, rotated)[l.recent.len()
            + current.len() + i - written(l)] == rotated[i],
        (forall|k: int| 0 <= k < l.filed.len() ==> !#[trigger] l.filed[k]) ==> written(l) == 0,
        (forall|k: int| 0 <= k < l.filed.len() ==> #[trigger] l.filed[k]) && l.pending.len() <= l.filed.len() ==> written(l)
            == l.filed.len() - l.pending.len(),
{
    lemma_set_in(l.filed);
}

proof fn lemma_set_in(filed: Seq<bool>)
    ensures
        0 <= set_in(filed) <= filed.len(),
        (forall|k: int| 0 <= k < filed.len() ==> !#[trigger] filed[k]) ==> set_in(filed) == 0,
        (forall|k: int| 0 <= k < filed.len() ==> #[trigger] filed[k]) ==> set_in(filed) == filed.len(),
    decreases filed.len(),
{
    if filed.len() > 0 {
        let d = filed.drop_last();
        lemma_set_in(d);
        assert(forall|k: int| 0 <= k < d.len() ==> d[k] == #[trigger] filed[k]);
        assert(filed[filed.len() - 1] == filed.last());
        if forall|k: int| 0 <= k < filed.len() ==> !#[trigger] filed[k] {
            assert(forall|k: int| 0 <= k < d.len() ==> !#[trigger] d[k]);
        }
        if forall|k: int| 0 <= k < filed.len() ==> #[trigger] filed[k] {
            assert(forall|k: int| 0 <= k < d.len() ==> #[trigger] d[k]);
        }
    }
}

} // verus!
