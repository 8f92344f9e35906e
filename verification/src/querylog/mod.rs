//! The query log: what is recorded, kept and written.

use std::collections::VecDeque;

use vstd::prelude::*;
use vstd::slice::slice_subrange;
use vstd::string::*;
use vstd::utf8::*;

use crate::asked::{answer, ask, settled};
use crate::engine::words::{is_subdomain_of, under};
use crate::multi::{capped, word};
use crate::querylog::tail::page;
use crate::text::{begins, chars_of, find, first_at, lower, lowered, reads_as, starts_with, string_of, strings};

pub mod tail;

verus! {

/// How many entries the ring of recent ones keeps.
pub const RECENT_CAP: usize = 5_000;

/// How many bytes of a log are looked at for its first record's time.
pub const HEAD: usize = 512;

/// One recorded query: the host that was asked about, and the line that the
/// record is written as.
#[derive(Debug, PartialEq, Eq)]
pub struct Entry {
    pub question_host: String,
    pub line: String,
}

/// A record, with its texts as sequences.
pub ghost struct EntryV {
    pub host: Seq<char>,
    pub line: Seq<char>,
}

impl Entry {
    /// The record, with its texts as sequences.
    pub open spec fn view(&self) -> EntryV {
        EntryV { host: self.question_host@, line: self.line@ }
    }

    /// The same record.
    pub fn copy(&self) -> (r: Self)
        ensures
            r@ == self@,
    {
        Entry { question_host: self.question_host.as_str().to_owned(), line: self.line.as_str().to_owned() }
    }
}

/// Records, with their texts as sequences.
pub open spec fn entries_of(s: Seq<Entry>) -> Seq<EntryV> {
    s.map_values(|e: Entry| e@)
}

/// Query log settings.
#[derive(Clone, Debug)]
pub struct Config {
    /// Whether the log is collected at all.
    pub enabled: bool,
    /// Whether entries are written to disk.
    pub file_enabled: bool,
    /// How many entries are held in memory before a flush.
    pub size_memory: usize,
    /// Hosts excluded from the log.
    pub ignored: Vec<String>,
    /// Whether `ignored` is honoured.
    pub ignored_enabled: bool,
    /// Whether client addresses are anonymised.
    pub anonymize_client_ip: bool,
}

impl Default for Config {
    fn default() -> (r: Self)
        ensures
            r.enabled,
            r.file_enabled,
            r.size_memory == 1000,
            r.ignored@.len() == 0,
            !r.ignored_enabled,
            !r.anonymize_client_ip,
    {
        Config {
            enabled: true,
            file_enabled: true,
            size_memory: 1000,
            ignored: Vec::new(),
            ignored_enabled: false,
            anonymize_client_ip: false,
        }
    }
}

/// Whether a host falls under one that is excluded. The root domain is taken
/// as everything.
pub open spec fn excluded_by(host: Seq<char>, i: Seq<char>) -> bool {
    i == seq!['.'] || under(host, lower(i))
}

/// Whether a host is excluded from the log.
pub open spec fn ignores(enabled: bool, ignored: Seq<Seq<char>>, host: Seq<char>) -> bool {
    enabled && exists|i: int| 0 <= i < ignored.len() && excluded_by(host, #[trigger] ignored[i])
}

/// Reports whether a host is excluded from the log.
pub fn is_ignored(cfg: &Config, host: &str) -> (r: bool)
    ensures
        r == ignores(cfg.ignored_enabled, strings(cfg.ignored@), host@),
{
    if !cfg.ignored_enabled {
        return false;
    }
    let h = chars_of(host);
    let ghost v = strings(cfg.ignored@);
    proof {
        reveal_strlit(".");
        assert("."@ =~= seq!['.']);
    }
    let mut i: usize = 0;
    while i < cfg.ignored.len()
        invariant
            cfg.ignored_enabled,
            i <= cfg.ignored@.len(),
            h@ == host@,
            v == strings(cfg.ignored@),
            "."@ == seq!['.'],
            forall|k: int| 0 <= k < i ==> !excluded_by(host@, #[trigger] v[k]),
        decreases cfg.ignored@.len() - i,
    {
        let c = chars_of(cfg.ignored[i].as_str());
        assert(v[i as int] == c@);
        let l = lowered(c.as_slice());
        if reads_as(c.as_slice(), ".") || is_subdomain_of(h.as_slice(), l.as_slice()) {
            assert(excluded_by(host@, v[i as int]));
            return true;
        }
        i = i + 1;
    }
    false
}

/// The log, as it is held in memory.
#[verifier::ext_equal]
pub ghost struct LogV {
    /// Entries not yet written to disk, oldest first.
    pub pending: Seq<EntryV>,
    /// Recent entries, newest first.
    pub recent: Seq<EntryV>,
    /// Which of them are for the files.
    pub filed: Seq<bool>,
}

/// A log that holds nothing.
pub open spec fn no_log() -> LogV {
    LogV { pending: Seq::empty(), recent: Seq::empty(), filed: Seq::empty() }
}

/// Whether an entry is recorded.
pub open spec fn accepts(cfg: Config, host: Seq<char>) -> bool {
    cfg.enabled && !ignores(cfg.ignored_enabled, strings(cfg.ignored@), host)
}

/// A ring with one more item, the oldest gone where they are too many.
pub open spec fn with_recent<A>(recent: Seq<A>, e: A) -> Seq<A> {
    let s = seq![e] + recent;
    if s.len() > RECENT_CAP {
        s.drop_last()
    } else {
        s
    }
}

/// The log after an entry.
pub open spec fn pushed(l: LogV, cfg: Config, e: EntryV) -> LogV {
    if !accepts(cfg, e.host) {
        l
    } else {
        LogV {
            recent: with_recent(l.recent, e),
            filed: with_recent(l.filed, cfg.file_enabled),
            pending: if cfg.file_enabled {
                l.pending.push(e)
            } else {
                l.pending
            },
        }
    }
}

/// The log after its entries were written.
pub open spec fn flushed(l: LogV) -> LogV {
    LogV { pending: Seq::empty(), ..l }
}

/// How many of some flags are set.
pub open spec fn set_in(filed: Seq<bool>) -> int
    decreases filed.len(),
{
    if filed.len() == 0 {
        0
    } else {
        set_in(filed.drop_last()) + if filed.last() {
            1int
        } else {
            0int
        }
    }
}

/// How many of the recent entries have been written: those that are for the
/// files, but for the ones that still wait.
pub open spec fn written(l: LogV) -> int {
    at_least_none(set_in(l.filed) - l.pending.len())
}

/// Whether the entries not yet written are to be.
pub open spec fn flush_due(l: LogV, cfg: Config) -> bool {
    l.pending.len() >= 1 && l.pending.len() >= cfg.size_memory
}

/// What came of recording an entry.
#[derive(Clone, Copy, Debug, PartialEq, Eq, Structural)]
pub struct Pushed {
    /// Whether it was accepted.
    pub accepted: bool,
    /// Whether the entries not yet written are to be.
    pub flush: bool,
}

/// The query log.
pub struct QueryLog {
    cfg: Config,
    pending: Vec<Entry>,
    recent: VecDeque<Entry>,
    /// Which of the recent entries are for the files.
    filed: VecDeque<bool>,
}

impl QueryLog {
    /// The log, as it is held in memory.
    pub closed spec fn view(&self) -> LogV {
        LogV { pending: entries_of(self.pending@), recent: entries_of(self.recent@), filed: self.filed@ }
    }

    /// The settings.
    pub closed spec fn cfg(&self) -> Config {
        self.cfg
    }

    /// Whether the ring holds no more than it may.
    pub closed spec fn wf(&self) -> bool {
        self.recent@.len() <= RECENT_CAP && self.filed@.len() == self.recent@.len()
    }

    /// However much is asked, the ring holds no more entries than its cap.
    pub proof fn law_recent_is_bounded(&self)
        requires
            self.wf(),
        ensures
            self@.recent.len() <= RECENT_CAP,
            self@.filed.len() == self@.recent.len(),
    {
    }

    /// An empty log.
    pub fn new(cfg: Config) -> (r: Self)
        ensures
            r.wf(),
            r.cfg() == cfg,
            r@ == no_log(),
    {
        let r = QueryLog { cfg, pending: Vec::new(), recent: VecDeque::new(), filed: VecDeque::new() };
        assert(r@ =~= no_log());
        r
    }

    /// Replaces the settings.
    pub fn set_config(&mut self, cfg: Config)
        requires
            old(self).wf(),
        ensures
            final(self).wf(),
            final(self).cfg() == cfg,
            final(self)@ == old(self)@,
    {
        self.cfg = cfg;
    }

    /// The settings.
    pub fn config(&self) -> (r: &Config)
        ensures
            *r == self.cfg(),
    {
        &self.cfg
    }

    /// Records one entry. An ignored host or a disabled log drops it, and a
    /// full buffer is to be flushed.
    pub fn push(&mut self, e: Entry) -> (r: Pushed)
        requires
            old(self).wf(),
        ensures
            final(self).wf(),
            final(self).cfg() == old(self).cfg(),
            final(self)@ == pushed(old(self)@, old(self).cfg(), e@),
            r.accepted == accepts(old(self).cfg(), e@.host),
            r.flush == (r.accepted && old(self).cfg().file_enabled && flush_due(final(self)@, old(self).cfg())),
    {
        let ghost was = self@;
        if !self.cfg.enabled || is_ignored(&self.cfg, e.question_host.as_str()) {
            return Pushed { accepted: false, flush: false };
        }
        self.recent.push_front(e.copy());
        self.filed.push_front(self.cfg.file_enabled);
        assert(entries_of(self.recent@) =~= seq![e@] + was.recent);
        assert(self.filed@ =~= seq![self.cfg.file_enabled] + was.filed);
        if self.recent.len() > RECENT_CAP {
            let ghost r1 = self.recent@;
            self.recent.pop_back();
            self.filed.pop_back();
            assert(entries_of(self.recent@) =~= entries_of(r1).drop_last());
        }
        if !self.cfg.file_enabled {
            return Pushed { accepted: true, flush: false };
        }
        self.pending.push(e);
        assert(entries_of(self.pending@) =~= was.pending.push(e@));
        let flush = self.pending.len() >= self.cfg.size_memory;
        Pushed { accepted: true, flush }
    }

    /// Takes the entries not yet written, oldest first, to write them.
    pub fn flush(&mut self) -> (r: Vec<Entry>)
        requires
            old(self).wf(),
        ensures
            final(self).wf(),
            final(self).cfg() == old(self).cfg(),
            entries_of(r@) == old(self)@.pending,
            final(self)@ == flushed(old(self)@),
    {
        let mut batch: Vec<Entry> = Vec::new();
        std::mem::swap(&mut batch, &mut self.pending);
        assert(entries_of(self.pending@) =~= Seq::<EntryV>::empty());
        batch
    }

    /// Removes every entry from memory.
    pub fn clear(&mut self)
        ensures
            final(self).wf(),
            final(self).cfg() == old(self).cfg(),
            final(self)@ == no_log(),
    {
        self.pending = Vec::new();
        self.recent = VecDeque::new();
        self.filed = VecDeque::new();
        assert(self@ =~= no_log());
    }

    /// How many of the recent entries have been written.
    fn written(&self) -> (r: usize)
        requires
            self.wf(),
        ensures
            r == written(self@),
    {
        let ghost f = self.filed@;
        let mut n: usize = 0;
        let mut i: usize = 0;
        assert(f.take(0) =~= Seq::<bool>::empty());
        while i < self.filed.len()
            invariant
                i <= self.filed@.len(),
                f == self.filed@,
                n == set_in(f.take(i as int)),
                n <= i,
            decreases self.filed@.len() - i,
        {
            assert(f.take(i + 1).drop_last() =~= f.take(i as int));
            if self.filed[i] {
                n = n + 1;
            }
            i = i + 1;
        }
        assert(f.take(i as int) =~= f);
        n.saturating_sub(self.pending.len())
    }

    /// Begins to read a page, newest first: memory comes before the files,
    /// of which the entries that memory holds are passed over.
    pub fn read(&self, offset: usize, limit: usize) -> (r: Reading)
        requires
            self.wf(),
        ensures
            r.wf(),
            r@ == begun(self@, offset as int, limit as int),
    {
        let n: usize = self.recent.len();
        let mut out: Vec<Entry> = Vec::new();
        let mut i: usize = offset;
        assert(entries_of(out@) =~= page(self@.recent, offset as int, 0));
        while i < n && out.len() < limit
            invariant
                n == self.recent@.len(),
                offset <= i,
                i <= n || out@.len() == 0,
                i - offset == out@.len(),
                out@.len() <= limit,
                entries_of(out@) == page(self@.recent, offset as int, out@.len() as int),
            decreases n - i,
        {
            let ghost before = out@;
            out.push(self.recent[i].copy());
            proof {
                let v = self@.recent;
                assert(entries_of(out@) =~= entries_of(before).push(v[i as int]));
                assert(page(v, offset as int, out@.len() as int) =~= page(v, offset as int, before.len() as int).push(v[i as int]));
            }
            i = i + 1;
        }
        assert(entries_of(out@) =~= page(self@.recent, offset as int, limit as int));
        Reading { out, pass: offset.saturating_sub(n) as u128 + self.written() as u128, limit, files: 0 }
    }

    /// The number of entries the ring of recent ones holds.
    pub fn recent(&self) -> (r: usize)
        ensures
            r == self@.recent.len(),
    {
        self.recent.len()
    }

    /// The number of entries not yet written.
    pub fn buffered(&self) -> (r: usize)
        ensures
            r == self@.pending.len(),
    {
        self.pending.len()
    }
}

/// How many files there are behind memory: the current one, and the one it was
/// last rotated over.
pub const FILES: u8 = 2;

/// A page that is being read.
#[verifier::ext_equal]
pub ghost struct ReadingV {
    /// What was read so far.
    pub out: Seq<EntryV>,
    /// How many entries of the files are still to be passed over.
    pub pass: int,
    /// How many entries the page has room for.
    pub limit: int,
    /// How many files were read.
    pub files: int,
}

/// `n`, or nothing where it is less.
pub open spec fn at_least_none(n: int) -> int {
    if n > 0 {
        n
    } else {
        0
    }
}

/// A page of which memory was read.
pub open spec fn begun(l: LogV, offset: int, limit: int) -> ReadingV {
    ReadingV {
        out: page(l.recent, offset, limit),
        pass: at_least_none(offset - l.recent.len()) + written(l),
        limit,
        files: 0,
    }
}

/// What to read of the next file: how many entries to pass over, and how many
/// to take at most. A page that is full takes nothing more.
pub open spec fn next_of(r: ReadingV) -> Option<(int, int)> {
    if r.files < FILES && r.out.len() < r.limit {
        Some((r.pass, r.limit - r.out.len()))
    } else {
        None
    }
}

/// A page after one more file, which holds `file` with the newest first.
pub open spec fn read_on(r: ReadingV, file: Seq<EntryV>) -> ReadingV {
    match next_of(r) {
        Some((pass, room)) => ReadingV {
            out: r.out + page(file, pass, room),
            pass: at_least_none(pass - file.len()),
            files: r.files + 1,
            ..r
        },
        None => r,
    }
}

/// What is left of a sequence after `n` items.
pub open spec fn after<A>(s: Seq<A>, n: int) -> Seq<A> {
    if n >= s.len() {
        Seq::empty()
    } else {
        s.skip(n)
    }
}

/// Every entry of the log, newest first: those in memory, and those of the two
/// files that memory does not hold.
pub open spec fn every_entry(l: LogV, current: Seq<EntryV>, rotated: Seq<EntryV>) -> Seq<EntryV> {
    l.recent + after(current + rotated, written(l))
}

/// A page that is being read.
pub struct Reading {
    out: Vec<Entry>,
    pass: u128,
    limit: usize,
    files: u8,
}

impl Reading {
    /// The page so far.
    pub closed spec fn view(&self) -> ReadingV {
        ReadingV {
            out: entries_of(self.out@),
            pass: self.pass as int,
            limit: self.limit as int,
            files: self.files as int,
        }
    }

    /// Whether the page holds no more than it has room for.
    pub closed spec fn wf(&self) -> bool {
        &&& self.out@.len() <= self.limit
        &&& self.files <= FILES
    }

    /// What to read of the next file, the current one first: how many entries
    /// to pass over, and how many to take at most.
    pub fn next(&self) -> (r: Option<(usize, usize)>)
        requires
            self.wf(),
        ensures
            match (r, next_of(self@)) {
                (Some((offset, limit)), Some((o, l))) => offset == capped(o) && limit == l,
                (None, None) => true,
                _ => false,
            },
    {
        if self.files < FILES && self.out.len() < self.limit {
            Some((word(self.pass), self.limit - self.out.len()))
        } else {
            None
        }
    }

    /// Takes what was read of the next file: its entries, and how many were
    /// passed over before them.
    pub fn feed(&mut self, entries: Vec<Entry>, passed: usize)
        requires
            old(self).wf(),
            next_of(old(self)@) matches Some((pass, room)) && entries@.len() <= room && passed <= pass,
        ensures
            final(self).wf(),
            final(self)@ == (ReadingV {
                out: old(self)@.out + entries_of(entries@),
                pass: old(self)@.pass - passed,
                files: old(self)@.files + 1,
                ..old(self)@
            }),
            forall|file: Seq<EntryV>|
                entries_of(entries@) == page(file, old(self)@.pass, old(self)@.limit - old(self)@.out.len()) && passed == (
                if old(self)@.pass < file.len() {
                    old(self)@.pass
                } else {
                    file.len() as int
                }) ==> final(self)@ == #[trigger] read_on(old(self)@, file),
    {
        let mut entries = entries;
        let ghost (before, taken) = (self.out@, entries@);
        self.out.append(&mut entries);
        self.pass = self.pass - passed as u128;
        self.files = self.files + 1;
        assert(entries_of(self.out@) =~= entries_of(before) + entries_of(taken));
    }

    /// The page.
    pub fn into_entries(self) -> (r: Vec<Entry>)
        ensures
            entries_of(r@) == self@.out,
    {
        self.out
    }
}

proof fn lemma_page_apart<A>(a: Seq<A>, b: Seq<A>, offset: int, limit: int)
    requires
        offset >= 0,
        limit >= 0,
    ensures
        page(a + b, offset, limit) == page(a, offset, limit) + page(
            b,
            at_least_none(offset - a.len()),
            limit - page(a, offset, limit).len(),
        ),
{
    assert(page(a + b, offset, limit) =~= page(a, offset, limit) + page(
        b,
        at_least_none(offset - a.len()),
        limit - page(a, offset, limit).len(),
    ));
}

/// A page is one of the whole log: of memory and of the file entries that
/// memory does not hold, it skips `offset` and takes `limit`.
pub proof fn law_page_of_the_log(
    l: LogV,
    current: Seq<EntryV>,
    rotated: Seq<EntryV>,
    offset: int,
    limit: int,
)
    requires
        offset >= 0,
        limit >= 0,
    ensures
        read_on(read_on(begun(l, offset, limit), current), rotated).out == page(
            every_entry(l, current, rotated),
            offset,
            limit,
        ),
{
    let w = written(l);
    let r0 = begun(l, offset, limit);
    let r1 = read_on(r0, current);
    let files = current + rotated;
    let o = at_least_none(offset - l.recent.len());
    let room = limit - r0.out.len();
    lemma_page_apart(l.recent, after(files, w), offset, limit);
    assert(page(after(files, w), o, room) =~= page(files, o + w, room));
    lemma_page_apart(current, rotated, o + w, room);
    if room == 0 {
        assert(page(files, o + w, room) =~= Seq::<EntryV>::empty());
        assert(r0.out + Seq::<EntryV>::empty() =~= r0.out);
    } else {
        let p = page(current, o + w, room);
        assert(r1.out == r0.out + p);
        if p.len() == room {
            assert(page(rotated, r1.pass, 0) =~= Seq::<EntryV>::empty());
            assert(p + Seq::<EntryV>::empty() =~= p);
        } else {
            assert((r0.out + p) + page(rotated, r1.pass, room - p.len()) =~= r0.out + (p + page(
                rotated,
                r1.pass,
                room - p.len(),
            )));
        }
    }
}

/// However much there is, a page holds no more entries than were asked for.
pub proof fn law_pages_are_bounded(
    l: LogV,
    current: Seq<EntryV>,
    rotated: Seq<EntryV>,
    offset: int,
    limit: int,
)
    requires
        offset >= 0,
        limit >= 0,
    ensures
        page(every_entry(l, current, rotated), offset, limit).len() <= limit,
{
}

/// The recent entries that are for the files, newest first.
pub open spec fn for_files(recent: Seq<EntryV>, filed: Seq<bool>) -> Seq<EntryV>
    decreases recent.len(),
{
    if recent.len() == 0 {
        Seq::empty()
    } else if filed[recent.len() - 1] {
        for_files(recent.drop_last(), filed.drop_last()).push(recent.last())
    } else {
        for_files(recent.drop_last(), filed.drop_last())
    }
}

/// Whether a log and the entries of its files, newest first, are those of one
/// history: what memory holds for the files is the newest of what waits and
/// what was written.
pub open spec fn of_one_history(l: LogV, disk: Seq<EntryV>) -> bool {
    l.filed.len() == l.recent.len() && for_files(l.recent, l.filed).is_prefix_of(l.pending.reverse() + disk)
}

proof fn lemma_for_files_front(recent: Seq<EntryV>, filed: Seq<bool>, e: EntryV, f: bool)
    requires
        recent.len() == filed.len(),
    ensures
        for_files(seq![e] + recent, seq![f] + filed) == (if f {
            seq![e]
        } else {
            Seq::empty()
        }) + for_files(recent, filed),
    decreases recent.len(),
{
    let (r, g) = (seq![e] + recent, seq![f] + filed);
    if recent.len() == 0 {
        assert(r.drop_last() =~= Seq::<EntryV>::empty());
        assert(for_files(r.drop_last(), g.drop_last()) =~= Seq::<EntryV>::empty());
        assert(for_files(recent, filed) =~= Seq::<EntryV>::empty());
        assert(g[0] == f && r.last() == e);
        assert(for_files(r, g) =~= if f {
            seq![e]
        } else {
            Seq::empty()
        });
    } else {
        assert(r.drop_last() =~= seq![e] + recent.drop_last());
        assert(g.drop_last() =~= seq![f] + filed.drop_last());
        lemma_for_files_front(recent.drop_last(), filed.drop_last(), e, f);
        assert(r.last() == recent.last());
        assert(g[r.len() - 1] == filed[recent.len() - 1]);
        assert(for_files(r, g) =~= (if f {
            seq![e]
        } else {
            Seq::empty()
        }) + for_files(recent, filed));
    }
}

proof fn lemma_for_files_len(recent: Seq<EntryV>, filed: Seq<bool>)
    requires
        recent.len() == filed.len(),
    ensures
        for_files(recent, filed).len() == set_in(filed),
    decreases recent.len(),
{
    if recent.len() > 0 {
        lemma_for_files_len(recent.drop_last(), filed.drop_last());
    }
}

/// A log that holds nothing is of one history with whatever is on disk.
pub proof fn law_fresh_log(disk: Seq<EntryV>)
    ensures
        of_one_history(no_log(), disk),
{
}

/// Recording keeps the log and its files of one history.
pub proof fn law_recording(l: LogV, disk: Seq<EntryV>, cfg: Config, e: EntryV)
    requires
        of_one_history(l, disk),
    ensures
        of_one_history(pushed(l, cfg, e), disk),
{
    if accepts(cfg, e.host) {
        let f = cfg.file_enabled;
        let (r, g) = (seq![e] + l.recent, seq![f] + l.filed);
        let t = pushed(l, cfg, e);
        lemma_for_files_front(l.recent, l.filed, e, f);
        let all = t.pending.reverse() + disk;
        if f {
            assert(all =~= seq![e] + (l.pending.reverse() + disk));
        }
        assert(for_files(r, g).is_prefix_of(all));
        if r.len() > RECENT_CAP {
            assert(for_files(t.recent, t.filed).is_prefix_of(for_files(r, g)));
        }
    }
}

/// Writing what waits to the files keeps the log and its files of one history.
pub proof fn law_flushing(l: LogV, disk: Seq<EntryV>)
    requires
        of_one_history(l, disk),
    ensures
        of_one_history(flushed(l), l.pending.reverse() + disk),
{
    assert(flushed(l).pending.reverse() + (l.pending.reverse() + disk) =~= l.pending.reverse() + disk);
}

/// The file entries that a page passes over are ones that memory holds, so that
/// an entry that was recorded once is read once.
pub proof fn law_passed_over_is_held(l: LogV, disk: Seq<EntryV>)
    requires
        of_one_history(l, disk),
    ensures
        written(l) <= disk.len(),
        forall|i: int| 0 <= i < written(l) ==> l.recent.contains(#[trigger] disk[i]),
{
    let held = for_files(l.recent, l.filed);
    let n = l.pending.len() as int;
    lemma_for_files_len(l.recent, l.filed);
    assert forall|i: int| 0 <= i < written(l) implies l.recent.contains(#[trigger] disk[i]) by {
        assert((l.pending.reverse() + disk)[n + i] == disk[i]);
        assert(held[n + i] == disk[i]);
        lemma_held(l.recent, l.filed, n + i);
    }
}

proof fn lemma_held(recent: Seq<EntryV>, filed: Seq<bool>, i: int)
    requires
        0 <= i < for_files(recent, filed).len(),
    ensures
        recent.contains(for_files(recent, filed)[i]),
    decreases recent.len(),
{
    let d = recent.drop_last();
    let less = for_files(d, filed.drop_last());
    if i < less.len() {
        lemma_held(d, filed.drop_last(), i);
        let k = d.index_of(less[i]);
        assert(recent[k] == less[i]);
    } else {
        assert(recent[recent.len() - 1] == for_files(recent, filed)[i]);
    }
}

/// Whether a log whose first record is of `oldest` is to be rotated at `now`,
/// all in Unix seconds.
pub open spec fn rotation_due(oldest: i64, interval: i64, now: i64) -> bool {
    let at = oldest + interval;
    if at > i64::MAX {
        now == i64::MAX
    } else if at < i64::MIN {
        true
    } else {
        at <= now
    }
}

/// Decides whether a log is to be rotated, once its oldest entry is older
/// than the interval. The moment is that of the first record in the file, not
/// the file's own.
pub fn rotate_if_due(oldest: Option<i64>, interval: i64, now: i64) -> (r: bool)
    ensures
        r == match oldest {
            Some(t) => rotation_due(t, interval, now),
            None => false,
        },
{
    match oldest {
        None => false,
        Some(t) => {
            let at: i128 = t as i128 + interval as i128;
            if at > i64::MAX as i128 {
                now == i64::MAX
            } else {
                at <= now as i128
            }
        },
    }
}

/// Bytes as text, with what is not UTF-8 replaced.
pub uninterp spec fn lossy_text(b: Seq<u8>) -> Seq<char>;

/// `String::from_utf8_lossy`: the bytes as text, with what is not UTF-8
/// replaced. Bytes that are UTF-8 throughout are the text they encode.
#[verifier::external_body]
fn lossy(b: &[u8]) -> (r: String)
    ensures
        r@ == lossy_text(b@),
        valid_utf8(b@) ==> r@ == decode_utf8(b@),
{
    String::from_utf8_lossy(b).into_owned()
}

/// Where `p` first stands in `s`, or the length of `s`.
pub open spec fn first_place(s: Seq<char>, p: Seq<char>) -> int
    decreases s.len(),
{
    if begins(s, p) || s.len() == 0 {
        0
    } else {
        1 + first_place(s.drop_first(), p)
    }
}

/// What stands before a record's time.
pub open spec fn time_key() -> Seq<char> {
    "\"T\":\""@
}

/// The time of the first record in a text: what stands between the first time
/// key and the quote after it.
pub open spec fn time_in(s: Seq<char>) -> Option<Seq<char>> {
    let i = first_place(s, time_key());
    let rest = s.skip(i + 5);
    if !begins(s.skip(i), time_key()) || first_at(rest, '"') >= rest.len() {
        None
    } else {
        Some(rest.take(first_at(rest, '"')))
    }
}

/// The time of the first record in a text.
pub fn first_time(s: &str) -> (r: Option<String>)
    ensures
        match (r, time_in(s@)) {
            (Some(t), Some(v)) => t@ == v,
            (None, None) => true,
            _ => false,
        },
{
    let c = chars_of(s);
    let n: usize = c.len();
    proof {
        reveal_strlit("\"T\":\"");
        assert(s@.skip(0) =~= s@);
    }
    let mut i: usize = 0;
    while i < n && !starts_with(slice_subrange(c.as_slice(), i, n), "\"T\":\"")
        invariant
            i <= n,
            n == c@.len(),
            c@ == s@,
            time_key().len() == 5,
            first_place(s@, time_key()) == i + first_place(s@.skip(i as int), time_key()),
        decreases n - i,
    {
        assert(c@.subrange(i as int, n as int) =~= s@.skip(i as int));
        assert(s@.skip(i as int).drop_first() =~= s@.skip(i + 1));
        i = i + 1;
    }
    if i >= n {
        assert(s@.skip(i as int) =~= Seq::<char>::empty());
        return None;
    }
    assert(c@.subrange(i as int, n as int) =~= s@.skip(i as int));
    let rest = slice_subrange(c.as_slice(), i + 5, n);
    assert(rest@ =~= s@.skip(i + 5));
    let q = find(rest, '"');
    if q >= rest.len() {
        return None;
    }
    let t = slice_subrange(rest, 0, q);
    assert(t@ =~= rest@.take(q as int));
    Some(string_of(t))
}

/// The time of a log's first record, as a Unix second: it is looked for in
/// the beginning of the file, and `parse` reads it.
pub fn first_entry_secs<F: Fn(&str) -> Option<i64>>(head: &[u8], parse: &F) -> (r: Option<i64>)
    requires
        settled(*parse),
    ensures
        r == match time_in(lossy_text(head@)) {
            Some(t) => answer(*parse, t),
            None => None,
        },
        valid_utf8(head@) ==> r == match time_in(decode_utf8(head@)) {
            Some(t) => answer(*parse, t),
            None => None,
        },
{
    let s = lossy(head);
    match first_time(s.as_str()) {
        Some(t) => ask(parse, t.as_str()),
        None => None,
    }
}

/// A log is left alone until its oldest entry is older than the interval.
pub proof fn law_young_log_is_left_alone(oldest: i64, interval: i64, now: i64)
    requires
        interval >= 0,
        oldest + interval <= i64::MAX,
    ensures
        rotation_due(oldest, interval, now) == (now - oldest >= interval),
{
}

/// What is recorded is read: an entry that is accepted is the newest of the
/// next page.
pub proof fn law_recorded_is_read(
    l: LogV,
    cfg: Config,
    e: EntryV,
    current: Seq<EntryV>,
    rotated: Seq<EntryV>,
    limit: int,
)
    requires
        accepts(cfg, e.host),
        limit > 0,
    ensures
        page(every_entry(pushed(l, cfg, e), current, rotated), 0, limit)[0] == e,
{
}

} // verus!
