//! Filter lists: what they hold, when they are due, and the engine they make.

use vstd::prelude::*;
use vstd::slice::slice_subrange;
use vstd::string::*;

use crate::asked::settled;
use crate::engine::Engine;
use crate::engine::set::{MAX_LISTS, MAX_SOURCE, list_bytes, no_content, sources_of, with_lists};
use crate::ip::Ip;
use crate::multi::{picked, sum};
use crate::rule::parse::{PatternFacts, known, told};
use crate::text::{
    begins, chars_of, join, joined, push_char, quoted, quoted_text, same, split, split_at_each, starts, starts_with, string_of,
    strings, trim, trimmed,
};

verus! {

/// The list identifier used for the user's own rules.
pub const CUSTOM_LIST_ID: i64 = 0;

/// The list identifier for rules derived from the system hosts file.
pub const ETC_HOSTS_LIST_ID: i64 = -1;

/// The list identifier for the blocked-services rules.
pub const BLOCKED_SERVICE_LIST_ID: i64 = -2;

/// The earliest moment there is a timestamp for, in nanoseconds.
pub const EARLIEST: i128 = -377_705_023_201_000_000_000;

/// The latest moment there is a timestamp for, in nanoseconds.
pub const LATEST: i128 = 253_402_207_200_999_999_999;

/// A filter list as it is configured.
#[derive(Clone, Debug, PartialEq, Eq)]
pub struct FilterYaml {
    pub enabled: bool,
    pub url: String,
    pub name: String,
    pub id: i64,
}

/// One filter list and its loaded contents.
#[derive(Clone, Debug)]
pub struct List {
    /// The list identifier.
    pub id: i64,
    /// Where the list is fetched from.
    pub url: String,
    /// The display name.
    pub name: String,
    /// Whether the list is applied.
    pub enabled: bool,
    /// Whether this is an allowlist.
    pub allowlist: bool,
    /// The rule text.
    pub text: String,
    /// The number of rules the text holds.
    pub rules_count: usize,
    /// When the list was last written, in nanoseconds since the Unix epoch.
    pub last_updated: Option<i128>,
}

impl List {
    /// Builds a list from its configuration entry, with no contents yet.
    pub fn from_config(f: &FilterYaml, allowlist: bool) -> (r: Self)
        ensures
            r.id == f.id,
            r.url@ == f.url@,
            r.name@ == f.name@,
            r.enabled == f.enabled,
            r.allowlist == allowlist,
            r.text@.len() == 0,
            r.rules_count == 0,
            r.last_updated is None,
    {
        List {
            id: f.id,
            url: f.url.as_str().to_owned(),
            name: f.name.as_str().to_owned(),
            enabled: f.enabled,
            allowlist,
            text: String::new(),
            rules_count: 0,
            last_updated: None,
        }
    }

    /// Converts back to a configuration entry.
    pub fn to_config(&self) -> (r: FilterYaml)
        ensures
            r.id == self.id,
            r.url@ == self.url@,
            r.name@ == self.name@,
            r.enabled == self.enabled,
    {
        FilterYaml {
            enabled: self.enabled,
            url: self.url.as_str().to_owned(),
            name: self.name.as_str().to_owned(),
            id: self.id,
        }
    }

    /// Takes over contents that were loaded from disk, where the file was
    /// last modified at `modified`.
    pub fn loaded(&mut self, text: &str, modified: Option<i128>)
        ensures
            *final(self) == (List {
                text: final(self).text,
                rules_count: final(self).rules_count,
                last_updated: modified,
                ..*old(self)
            }),
            final(self).text@ == text@,
            final(self).rules_count == rules_in(text@),
    {
        self.last_updated = modified;
        self.rules_count = count_rules(text);
        self.text = text.to_owned();
    }
}

/// A line that holds a rule: it is not blank, and no comment.
pub open spec fn holds_rule(line: Seq<char>) -> bool {
    let t = trimmed(line);
    t.len() > 0 && t[0] != '!' && t[0] != '#'
}

/// How many of some lines hold a rule.
pub open spec fn rule_lines(lines: Seq<Seq<char>>) -> nat
    decreases lines.len(),
{
    if lines.len() == 0 {
        0
    } else {
        rule_lines(lines.drop_last()) + if holds_rule(lines.last()) {
            1nat
        } else {
            0nat
        }
    }
}

/// How many rules a text holds: its lines that hold one.
pub open spec fn rules_in(text: Seq<char>) -> nat {
    rule_lines(split(text, '\n'))
}

/// Counts the rules in a list, skipping blanks and comments.
pub fn count_rules(text: &str) -> (r: usize)
    ensures
        r == rules_in(text@),
{
    let c = chars_of(text);
    let lines = split_at_each(c.as_slice(), '\n');
    let ghost v = crate::text::texts(lines@);
    let mut n: usize = 0;
    let mut i: usize = 0;
    assert(v.take(0) =~= Seq::<Seq<char>>::empty());
    while i < lines.len()
        invariant
            i <= lines@.len(),
            v == crate::text::texts(lines@),
            n == rule_lines(v.take(i as int)),
            n <= i,
        decreases lines@.len() - i,
    {
        proof {
            assert(v.take(i + 1).drop_last() =~= v.take(i as int));
            assert(v.take(i + 1).last() == lines@[i as int]@);
        }
        let t = trim(lines[i]);
        if t.len() > 0 && t[0] != '!' && t[0] != '#' {
            n = n + 1;
        }
        i = i + 1;
    }
    assert(v.take(i as int) =~= v);
    n
}

/// What storing a freshly fetched list did.
#[derive(Clone, Copy, Debug, PartialEq, Eq, Structural)]
pub enum Fetched {
    /// The contents differed from what was stored, and were written.
    Written {
        /// How many rules the new contents hold.
        rules: usize,
    },
    /// The contents matched what was already there, so nothing was rewritten.
    Unchanged,
}

impl Fetched {
    /// Whether anything changed, which is what decides if the engine has to
    /// be rebuilt.
    pub fn changed(self) -> (r: bool)
        ensures
            r == (self is Written),
    {
        match self {
            Fetched::Written { .. } => true,
            Fetched::Unchanged => false,
        }
    }
}

/// Why a list could not be refreshed.
#[derive(Clone, Debug, PartialEq, Eq)]
pub enum RefreshError {
    /// No list has that identifier.
    NotFound(i64),
    /// The download failed.
    Download(String),
    /// The list could not be read or written.
    Io(String),
}

/// A digit.
pub open spec fn digit(n: int) -> char {
    ('0' as u32 + n) as char
}

/// A number in decimal digits.
pub open spec fn decimals(n: nat) -> Seq<char>
    decreases n,
{
    if n < 10 {
        seq![digit(n as int)]
    } else {
        decimals(n / 10).push(digit((n % 10) as int))
    }
}

/// A number as text.
pub open spec fn number_text(n: int) -> Seq<char> {
    if n < 0 {
        seq!['-'] + decimals((-n) as nat)
    } else {
        decimals(n as nat)
    }
}

fn push_decimals(out: &mut String, n: u64)
    ensures
        final(out)@ == old(out)@ + decimals(n as nat),
    decreases n,
{
    if n >= 10 {
        push_decimals(out, n / 10);
    }
    let d: u8 = (n % 10) as u8;
    let c: char = (48u8 + d) as char;
    assert(c == digit(d as int));
    push_char(out, c);
    assert(out@ =~= old(out)@ + decimals(n as nat));
}

/// A number as text.
fn text_of(n: i64) -> (r: String)
    ensures
        r@ == number_text(n as int),
{
    let mut out = String::new();
    if n < 0 {
        push_char(&mut out, '-');
        let m: u64 = (-(n as i128)) as u64;
        push_decimals(&mut out, m);
    } else {
        push_decimals(&mut out, n as u64);
    }
    assert(out@ =~= number_text(n as int));
    out
}

impl RefreshError {
    /// The error in words.
    pub fn message(&self) -> (r: String)
        ensures
            r@ == match *self {
                RefreshError::NotFound(id) => "no filter list with id "@ + number_text(id as int),
                RefreshError::Download(e) => "downloading: "@ + e@,
                RefreshError::Io(e) => "filter list i/o: "@ + e@,
            },
    {
        match self {
            RefreshError::NotFound(id) => {
                let n = text_of(*id);
                joined("no filter list with id ", n.as_str())
            },
            RefreshError::Download(e) => joined("downloading: ", e.as_str()),
            RefreshError::Io(e) => joined("filter list i/o: ", e.as_str()),
        }
    }
}

/// Whether a text names a remote list.
pub open spec fn remote(url: Seq<char>) -> bool {
    begins(url, "http://"@) || begins(url, "https://"@)
}

/// Reports whether a list `url` names a remote list.
pub fn is_remote(url: &str) -> (r: bool)
    ensures
        r == remote(url@),
{
    let c = chars_of(url);
    starts_with(c.as_slice(), "http://") || starts_with(c.as_slice(), "https://")
}

/// A path without the scheme that may stand before it.
pub open spec fn bare_path(url: Seq<char>) -> Seq<char> {
    if begins(url, "file://"@) {
        url.skip(7)
    } else {
        url
    }
}

/// Where a path leads: itself where it is absolute, and otherwise under
/// `base`.
pub open spec fn path_under(base: Seq<char>, raw: Seq<char>) -> Seq<char> {
    if raw.len() > 0 && raw[0] == '/' || base.len() == 0 {
        raw
    } else if base.last() == '/' {
        base + raw
    } else {
        base.push('/') + raw
    }
}

/// Whether a path steps up to a parent somewhere.
pub open spec fn steps_up(path: Seq<char>) -> bool {
    split(path, '/').contains(seq!['.', '.'])
}

/// Whether a path is a directory or something in it.
pub open spec fn lies_in(dir: Seq<char>, path: Seq<char>) -> bool {
    if dir.len() == 0 {
        path.len() == 0 || path[0] != '/'
    } else {
        begins(path, dir) && (dir.last() == '/' || path.len() == dir.len() || path[dir.len() as int] == '/')
    }
}

/// Whether a path leads to somewhere in a directory: it lies there, and never
/// steps up to a parent.
pub open spec fn stays_in(dir: Seq<char>, path: Seq<char>) -> bool {
    lies_in(dir, path) && !steps_up(path)
}

/// Whether a path is a directory or something in it.
fn is_in(dir: &[char], path: &[char]) -> (r: bool)
    ensures
        r == lies_in(dir@, path@),
{
    let n: usize = dir.len();
    if n == 0 {
        return path.len() == 0 || path[0] != '/';
    }
    starts(path, dir) && (dir[n - 1] == '/' || path.len() == n || path[n] == '/')
}

/// The refusal of a path that leaves the data directory.
fn escapes(url: &str) -> (r: RefreshError)
    ensures
        r matches RefreshError::Io(m) && m@ == "path "@ + quoted_text(url@) + " escapes the data directory"@,
{
    let q = quoted(url);
    let a = joined("path ", q.as_str());
    RefreshError::Io(joined(a.as_str(), " escapes the data directory"))
}

/// Resolves a filesystem list path, rejecting traversal outside the data
/// directory.
///
/// A list `url` that is no remote one names a file; anything relative is
/// resolved under `base`, the directory of the user's own lists, and a path
/// that leaves the directory `data` is refused, so that a configuration cannot
/// point the loader at arbitrary files.
pub fn local_list_path(data: &str, base: &str, url: &str) -> (r: Result<String, RefreshError>)
    ensures
        match r {
            Ok(p) => stays_in(data@, p@) && p@ == path_under(base@, bare_path(url@)),
            Err(e) => !stays_in(data@, path_under(base@, bare_path(url@))) && (e matches RefreshError::Io(m) && m@
                == "path "@ + quoted_text(url@) + " escapes the data directory"@),
        },
{
    let u = chars_of(url);
    let b = chars_of(base);
    let d = chars_of(data);
    proof {
        reveal_strlit("file://");
    }
    let raw = if starts_with(u.as_slice(), "file://") {
        slice_subrange(u.as_slice(), 7, u.len())
    } else {
        u.as_slice()
    };
    assert(raw@ =~= bare_path(url@));
    let mut path: Vec<char> = Vec::new();
    if !(raw.len() > 0 && raw[0] == '/') && b.len() > 0 {
        append(&mut path, b.as_slice());
        if b[b.len() - 1] != '/' {
            path.push('/');
        }
    }
    append(&mut path, raw);
    assert(path@ =~= path_under(base@, bare_path(url@)));
    if !is_in(d.as_slice(), path.as_slice()) {
        return Err(escapes(url));
    }
    let parts = split_at_each(path.as_slice(), '/');
    let ghost v = crate::text::texts(parts@);
    let dots: Vec<char> = vec!['.', '.'];
    assert(dots@ =~= seq!['.', '.']);
    let mut i: usize = 0;
    while i < parts.len()
        invariant
            i <= parts@.len(),
            v == crate::text::texts(parts@),
            v == split(path@, '/'),
            path@ == path_under(base@, bare_path(url@)),
            dots@ == seq!['.', '.'],
            forall|k: int| 0 <= k < i ==> #[trigger] v[k] != seq!['.', '.'],
        decreases parts@.len() - i,
    {
        if same(parts[i], dots.as_slice()) {
            assert(v[i as int] == seq!['.', '.']);
            assert(v.contains(seq!['.', '.']));
            return Err(escapes(url));
        }
        assert(v[i as int] == parts@[i as int]@);
        i = i + 1;
    }
    assert(!v.contains(seq!['.', '.']));
    Ok(string_of(path.as_slice()))
}

fn append(out: &mut Vec<char>, t: &[char])
    ensures
        final(out)@ == old(out)@ + t@,
{
    let mut i: usize = 0;
    let ghost was = out@;
    while i < t.len()
        invariant
            i <= t@.len(),
            out@ =~= was + t@.take(i as int),
        decreases t@.len() - i,
    {
        out.push(t[i]);
        i = i + 1;
    }
    assert(t@.take(i as int) =~= t@);
}

/// `Timestamp::checked_add` of jiff, on nanoseconds since the Unix epoch: the
/// sum, where there is a timestamp for it.
#[verifier::external_body]
fn later(t: i128, d: i128) -> (r: Option<i128>)
    requires
        EARLIEST <= t <= LATEST,
    ensures
        r == if EARLIEST <= t + d <= LATEST { Some((t + d) as i128) } else { None::<i128> },
{
    let at = jiff::Timestamp::from_nanosecond(t).ok()?;
    let span = jiff::SignedDuration::try_from_nanos_i128(d)?;
    at.checked_add(span).ok().map(|x| x.as_nanosecond())
}

/// Whether a list is due: it was never fetched, or the interval since it was
/// has passed. A moment past every timestamp counts as passed.
pub open spec fn is_due(last: Option<i128>, interval: i128, now: i128) -> bool {
    match last {
        None => true,
        Some(t) => !(EARLIEST <= t + interval <= LATEST) || t + interval <= now,
    }
}

/// The identifier of a list that is enabled.
pub open spec fn enabled_id(l: List) -> Option<i64> {
    if l.enabled {
        Some(l.id)
    } else {
        None
    }
}

/// The identifier of a list that is enabled and due.
pub open spec fn stale_id(l: List, interval: i128, now: i128) -> Option<i64> {
    if l.enabled && is_due(l.last_updated, interval, now) {
        Some(l.id)
    } else {
        None
    }
}

/// The first of some lists with an identifier, or their number.
pub open spec fn first_with(lists: Seq<List>, id: i64) -> int
    decreases lists.len(),
{
    if lists.len() == 0 || lists[0].id == id {
        0
    } else {
        1 + first_with(lists.drop_first(), id)
    }
}

/// The source of a list that is enabled.
pub open spec fn enabled_source(l: List) -> Option<(i64, Seq<char>)> {
    if l.enabled {
        Some((l.id, l.text@))
    } else {
        None
    }
}

/// Holds every list and builds the filtering engine from them.
#[derive(Clone, Debug)]
pub struct Manager {
    /// Blocklists.
    pub blocklists: Vec<List>,
    /// Allowlists.
    pub allowlists: Vec<List>,
    /// The user's own rules.
    pub user_rules: Vec<String>,
    /// The rules blocking the services the user selected.
    pub service_rules: String,
    /// Host rules taken from the system hosts file.
    pub hosts_rules: String,
}

impl Default for Manager {
    fn default() -> (r: Self)
        ensures
            r.blocklists@.len() == 0,
            r.allowlists@.len() == 0,
            r.user_rules@.len() == 0,
            r.service_rules@.len() == 0,
            r.hosts_rules@.len() == 0,
    {
        Manager {
            blocklists: Vec::new(),
            allowlists: Vec::new(),
            user_rules: Vec::new(),
            service_rules: String::new(),
            hosts_rules: String::new(),
        }
    }
}

/// Whether something has to be done with the file of a fetched list.
#[derive(Clone, Copy, Debug, PartialEq, Eq, Structural)]
pub enum Store {
    /// Its timestamps are to be moved on: the contents are the same.
    Touch,
    /// It is to be written.
    Write,
}

/// What came of moving a file's timestamps on.
#[derive(Clone, Debug, PartialEq, Eq)]
pub enum Touched {
    /// They moved.
    Done,
    /// There is no such file.
    Missing,
    /// It failed, for this reason.
    Failed(String),
}

impl Manager {
    /// Every list, blocklists first.
    pub open spec fn lists(&self) -> Seq<List> {
        self.blocklists@ + self.allowlists@
    }

    /// Builds a manager from the configured lists, with no contents yet.
    pub fn from_config(block: &[FilterYaml], allow: &[FilterYaml], user: &[String]) -> (r: Self)
        ensures
            configured(r.blocklists@, block@, false),
            configured(r.allowlists@, allow@, true),
            strings(r.user_rules@) == strings(user@),
            r.service_rules@.len() == 0,
            r.hosts_rules@.len() == 0,
    {
        let mut user_rules: Vec<String> = Vec::new();
        let mut i: usize = 0;
        while i < user.len()
            invariant
                i <= user@.len(),
                user_rules@.len() == i,
                forall|k: int| 0 <= k < i ==> (#[trigger] user_rules@[k])@ == user@[k]@,
            decreases user@.len() - i,
        {
            user_rules.push(user[i].as_str().to_owned());
            i = i + 1;
        }
        assert(strings(user_rules@) =~= strings(user@));
        Manager {
            blocklists: Self::lists_from(block, false),
            allowlists: Self::lists_from(allow, true),
            user_rules,
            service_rules: String::new(),
            hosts_rules: String::new(),
        }
    }

    fn lists_from(f: &[FilterYaml], allowlist: bool) -> (r: Vec<List>)
        ensures
            configured(r@, f@, allowlist),
    {
        let mut out: Vec<List> = Vec::new();
        let mut i: usize = 0;
        while i < f.len()
            invariant
                i <= f@.len(),
                out@.len() == i,
                forall|k: int| 0 <= k < i ==> as_configured(#[trigger] out@[k], f@[k], allowlist),
            decreases f@.len() - i,
        {
            out.push(List::from_config(&f[i], allowlist));
            i = i + 1;
        }
        out
    }

    /// Replaces the blocked-services rules with those of the services that are
    /// selected.
    pub fn set_blocked_services(&mut self, rules: String)
        ensures
            *final(self) == (Manager { service_rules: rules, ..*old(self) }),
    {
        self.service_rules = rules;
    }

    /// Replaces the rules taken from the system hosts file.
    pub fn set_hosts(&mut self, contents: String)
        ensures
            *final(self) == (Manager { hosts_rules: contents, ..*old(self) }),
    {
        self.hosts_rules = contents;
    }

    /// The block sources, in order: the user's rules, the hosts file's and
    /// every enabled blocklist.
    pub open spec fn block_sources(&self) -> Seq<(i64, Seq<char>)> {
        seq![
            (CUSTOM_LIST_ID, join(strings(self.user_rules@), seq!['\n'])),
            (ETC_HOSTS_LIST_ID, self.hosts_rules@),
        ] + picked(self.blocklists@, |l: List| enabled_source(l))
    }

    /// The allow sources, in order: every enabled allowlist.
    pub open spec fn allow_sources(&self) -> Seq<(i64, Seq<char>)> {
        picked(self.allowlists@, |l: List| enabled_source(l))
    }

    fn push_enabled(out: &mut Vec<(i64, String)>, lists: &Vec<List>)
        ensures
            sources_of(final(out)@) == sources_of(old(out)@) + picked(lists@, |l: List| enabled_source(l)),
    {
        let ghost f = |l: List| enabled_source(l);
        let ghost was = sources_of(out@);
        let mut i: usize = 0;
        assert(lists@.take(0) =~= Seq::<List>::empty());
        assert(sources_of(out@) =~= was + picked(lists@.take(0), f));
        while i < lists.len()
            invariant
                i <= lists@.len(),
                f == (|l: List| enabled_source(l)),
                sources_of(out@) == was + picked(lists@.take(i as int), f),
            decreases lists@.len() - i,
        {
            let ghost before = out@;
            proof {
                assert(lists@.take(i + 1).drop_last() =~= lists@.take(i as int));
                assert(lists@.take(i + 1).last() == lists@[i as int]);
            }
            if lists[i].enabled {
                out.push((lists[i].id, lists[i].text.as_str().to_owned()));
                assert(sources_of(out@) =~= sources_of(before).push((lists@[i as int].id, lists@[i as int].text@)));
                assert(sources_of(out@) =~= was + picked(lists@.take(i + 1), f));
            }
            i = i + 1;
        }
        assert(lists@.take(i as int) =~= lists@);
    }

    /// The sources of the main engine. The blocked services are not among
    /// them: they get an engine of their own.
    pub fn sources(&self) -> (r: (Vec<(i64, String)>, Vec<(i64, String)>))
        ensures
            sources_of(r.0@) == self.block_sources(),
            sources_of(r.1@) == self.allow_sources(),
    {
        let mut user: Vec<char> = Vec::new();
        let ghost v = strings(self.user_rules@);
        let ghost nl = seq!['\n'];
        let mut i: usize = 0;
        assert(v.take(0) =~= Seq::<Seq<char>>::empty());
        while i < self.user_rules.len()
            invariant
                i <= self.user_rules@.len(),
                v == strings(self.user_rules@),
                nl == seq!['\n'],
                user@ == join(v.take(i as int), nl),
            decreases self.user_rules@.len() - i,
        {
            proof {
                assert(v.take(i + 1).drop_last() =~= v.take(i as int));
                assert(v.take(i + 1).last() == self.user_rules@[i as int]@);
            }
            if i > 0 {
                user.push('\n');
            }
            let c = chars_of(self.user_rules[i].as_str());
            append(&mut user, c.as_slice());
            assert(user@ =~= join(v.take(i + 1), nl)) by {
                if i == 0 {
                    assert(v.take(1)[0] == c@);
                }
            }
            i = i + 1;
        }
        assert(v.take(i as int) =~= v);
        let mut block: Vec<(i64, String)> = Vec::new();
        block.push((CUSTOM_LIST_ID, string_of(user.as_slice())));
        block.push((ETC_HOSTS_LIST_ID, self.hosts_rules.as_str().to_owned()));
        assert(sources_of(block@) =~= seq![
            (CUSTOM_LIST_ID, join(strings(self.user_rules@), seq!['\n'])),
            (ETC_HOSTS_LIST_ID, self.hosts_rules@),
        ]);
        Self::push_enabled(&mut block, &self.blocklists);
        let mut allow: Vec<(i64, String)> = Vec::new();
        Self::push_enabled(&mut allow, &self.allowlists);
        assert(sources_of(Seq::<(i64, String)>::empty()) =~= Seq::<(i64, Seq<char>)>::empty());
        assert(sources_of(allow@) =~= self.allow_sources());
        (block, allow)
    }

    /// Builds a filtering engine from the enabled lists and the user's rules,
    /// or `None` where they are more than an engine holds.
    pub fn build_engine<V: Fn(&str) -> bool, A: Fn(&str) -> Option<Ip>, P: Fn(&str) -> PatternFacts>(
        &self,
        valid: &V,
        address: &A,
        facts: &P,
    ) -> (r: Option<Engine>)
        requires
            settled(*valid),
            settled(*address),
            settled(*facts),
        ensures
            r is Some == (fits_engine(self.block_sources()) && fits_engine(self.allow_sources())),
            r matches Some(e) ==> {
                &&& e.wf()
                &&& e.block.content() == with_lists(
                    no_content(),
                    self.block_sources(),
                    known(*valid, *address),
                    told(*facts),
                )
                &&& e.allow.content() == with_lists(
                    no_content(),
                    self.allow_sources(),
                    known(*valid, *address),
                    told(*facts),
                )
            },
    {
        let (block, allow) = self.sources();
        if !fit(&block) || !fit(&allow) {
            return None;
        }
        Some(Engine::build(block, allow, valid, address, facts))
    }

    /// Builds the engine for the blocked services, if any are set. They are
    /// kept out of the main engine so that they can be paused for a request.
    pub fn build_services_engine<V: Fn(&str) -> bool, A: Fn(&str) -> Option<Ip>, P: Fn(&str) -> PatternFacts>(
        &self,
        valid: &V,
        address: &A,
        facts: &P,
    ) -> (r: Option<Engine>)
        requires
            settled(*valid),
            settled(*address),
            settled(*facts),
        ensures
            r is Some == (trimmed(self.service_rules@).len() > 0 && fits_engine(
                seq![(BLOCKED_SERVICE_LIST_ID, self.service_rules@)],
            )),
            r matches Some(e) ==> {
                &&& e.wf()
                &&& e.block.content() == with_lists(
                    no_content(),
                    seq![(BLOCKED_SERVICE_LIST_ID, self.service_rules@)],
                    known(*valid, *address),
                    told(*facts),
                )
                &&& e.allow.content() == no_content()
            },
    {
        let c = chars_of(self.service_rules.as_str());
        if trim(c.as_slice()).len() == 0 {
            return None;
        }
        let mut block: Vec<(i64, String)> = Vec::new();
        block.push((BLOCKED_SERVICE_LIST_ID, self.service_rules.as_str().to_owned()));
        assert(sources_of(block@) =~= seq![(BLOCKED_SERVICE_LIST_ID, self.service_rules@)]);
        if !fit(&block) {
            return None;
        }
        let none: Vec<(i64, String)> = Vec::new();
        assert(list_bytes(sources_of(none@)) == 0);
        Some(Engine::build(block, none, valid, address, facts))
    }

    /// The total number of rules across enabled lists, and the user's.
    pub open spec fn rules_held(&self) -> int {
        sum(
            self.lists(),
            |l: List|
                if l.enabled {
                    l.rules_count as int
                } else {
                    0
                },
        ) + self.user_rules@.len()
    }

    /// The total number of rules across enabled lists, and the user's.
    pub fn rules_count(&self) -> (r: usize)
        requires
            self.rules_held() <= usize::MAX,
        ensures
            r == self.rules_held(),
    {
        let ghost f = |l: List|
            if l.enabled {
                l.rules_count as int
            } else {
                0
            };
        let ghost all = self.lists();
        let n: u128 = self.blocklists.len() as u128 + self.allowlists.len() as u128;
        let mut total: usize = 0;
        let mut i: u128 = 0;
        assert(all.take(0) =~= Seq::<List>::empty());
        while i < n
            invariant
                i <= n,
                all == self.lists(),
                n == all.len(),
                f == (|l: List|
                    if l.enabled {
                        l.rules_count as int
                    } else {
                        0
                    }),
                sum(all, f) + self.user_rules@.len() <= usize::MAX,
                total == sum(all.take(i as int), f),
            decreases n - i,
        {
            proof {
                crate::multi::lemma_sum_part(all, f, i as int);
                assert(all.take(i + 1).drop_last() =~= all.take(i as int));
            }
            let l = self.at(i);
            assert(*l == all[i as int]);
            if l.enabled {
                total = total + l.rules_count;
            }
            i = i + 1;
        }
        assert(all.take(i as int) =~= all);
        total + self.user_rules.len()
    }

    /// The list at a place.
    fn at(&self, i: u128) -> (r: &List)
        requires
            i < self.lists().len(),
        ensures
            *r == self.lists()[i as int],
    {
        let b: usize = self.blocklists.len();
        assert(self.allowlists.len() <= usize::MAX);
        if i < b as u128 {
            &self.blocklists[i as usize]
        } else {
            &self.allowlists[(i - b as u128) as usize]
        }
    }

    /// Finds a list by identifier: its place among the blocklists and then
    /// the allowlists.
    fn place(&self, id: i64) -> (r: Option<u128>)
        ensures
            match r {
                Some(i) => i == first_with(self.lists(), id) && i < self.lists().len() && self.lists()[i as int].id == id,
                None => first_with(self.lists(), id) == self.lists().len(),
            },
    {
        let ghost all = self.lists();
        let n: u128 = self.blocklists.len() as u128 + self.allowlists.len() as u128;
        let mut i: u128 = 0;
        assert(all.skip(0) =~= all);
        while i < n
            invariant
                i <= n,
                all == self.lists(),
                n == all.len(),
                first_with(all, id) == i + first_with(all.skip(i as int), id),
            decreases n - i,
        {
            let l = self.at(i);
            assert(*l == all[i as int]);
            assert(all.skip(i as int)[0] == all[i as int]);
            assert(all.skip(i as int).drop_first() =~= all.skip(i + 1));
            if l.id == id {
                return Some(i);
            }
            i = i + 1;
        }
        assert(all.skip(n as int).len() == 0);
        None
    }

    /// Finds a list by identifier.
    pub fn find(&self, id: i64) -> (r: Option<&List>)
        ensures
            match r {
                Some(l) => first_with(self.lists(), id) < self.lists().len() && *l == self.lists()[first_with(
                    self.lists(),
                    id,
                )],
                None => first_with(self.lists(), id) == self.lists().len(),
            },
    {
        match self.place(id) {
            None => None,
            Some(i) => Some(self.at(i)),
        }
    }

    /// Finds a list by identifier, to change it.
    pub fn find_mut(&mut self, id: i64) -> (r: Option<&mut List>)
        ensures
            ({
                let i = first_with(old(self).lists(), id);
                match r {
                    Some(l) => {
                        &&& i < old(self).lists().len()
                        &&& *l == old(self).lists()[i]
                        &&& final(self).lists() == old(self).lists().update(i, *final(l))
                        &&& final(self).blocklists@.len() == old(self).blocklists@.len()
                        &&& final(self).user_rules == old(self).user_rules
                        &&& final(self).service_rules == old(self).service_rules
                        &&& final(self).hosts_rules == old(self).hosts_rules
                    },
                    None => i == old(self).lists().len() && *final(self) == *old(self),
                }
            }),
    {
        let b: u128 = self.blocklists.len() as u128;
        assert(self.allowlists.len() <= usize::MAX);
        match self.place(id) {
            None => None,
            Some(i) => if i < b {
                Some(&mut self.blocklists[i as usize])
            } else {
                Some(&mut self.allowlists[(i - b) as usize])
            },
        }
    }

    /// The URL a list is fetched from.
    pub fn url_of(&self, id: i64) -> (r: Option<String>)
        ensures
            match r {
                Some(u) => first_with(self.lists(), id) < self.lists().len() && u@ == self.lists()[first_with(
                    self.lists(),
                    id,
                )].url@,
                None => first_with(self.lists(), id) == self.lists().len(),
            },
    {
        match self.find(id) {
            Some(l) => Some(l.url.as_str().to_owned()),
            None => None,
        }
    }

    /// Allocates an identifier not already in use.
    pub fn next_id(&self) -> (r: i64)
        requires
            forall|i: int| 0 <= i < self.lists().len() ==> (#[trigger] self.lists()[i]).id < i64::MAX,
        ensures
            r >= 1,
            forall|i: int| 0 <= i < self.lists().len() ==> (#[trigger] self.lists()[i]).id < r,
            r == 1 || exists|i: int| 0 <= i < self.lists().len() && (#[trigger] self.lists()[i]).id == r - 1,
    {
        let ghost all = self.lists();
        let n: u128 = self.blocklists.len() as u128 + self.allowlists.len() as u128;
        let mut next: i64 = 1;
        let mut i: u128 = 0;
        while i < n
            invariant
                i <= n,
                all == self.lists(),
                n == all.len(),
                next >= 1,
                forall|k: int| 0 <= k < all.len() ==> (#[trigger] all[k]).id < i64::MAX,
                forall|k: int| 0 <= k < i ==> (#[trigger] all[k]).id < next,
                next == 1 || exists|k: int| 0 <= k < i && (#[trigger] all[k]).id == next - 1,
            decreases n - i,
        {
            let l = self.at(i);
            assert(*l == all[i as int]);
            if l.id >= next {
                next = l.id + 1;
                assert(all[i as int].id == next - 1);
            }
            i = i + 1;
        }
        next
    }

    /// Every enabled list's identifier.
    pub fn enabled_ids(&self) -> (r: Vec<i64>)
        ensures
            r@ == picked(self.lists(), |l: List| enabled_id(l)),
    {
        let ghost f = |l: List| enabled_id(l);
        let ghost all = self.lists();
        let n: u128 = self.blocklists.len() as u128 + self.allowlists.len() as u128;
        let mut out: Vec<i64> = Vec::new();
        let mut i: u128 = 0;
        assert(all.take(0) =~= Seq::<List>::empty());
        while i < n
            invariant
                i <= n,
                all == self.lists(),
                n == all.len(),
                f == (|l: List| enabled_id(l)),
                out@ == picked(all.take(i as int), f),
            decreases n - i,
        {
            let l = self.at(i);
            proof {
                assert(*l == all[i as int]);
                assert(all.take(i + 1).drop_last() =~= all.take(i as int));
                assert(all.take(i + 1).last() == all[i as int]);
            }
            if l.enabled {
                out.push(l.id);
            }
            i = i + 1;
        }
        assert(all.take(i as int) =~= all);
        out
    }

    /// The enabled lists whose own refresh interval has elapsed at `now`, all
    /// in nanoseconds.
    ///
    /// A list is due by when it was last updated, never by how long the
    /// server has run: one never fetched is due at once.
    pub fn stale_ids(&self, interval: i128, now: i128) -> (r: Vec<i64>)
        requires
            forall|i: int|
                0 <= i < self.lists().len() ==> ((#[trigger] self.lists()[i]).last_updated matches Some(t) ==> EARLIEST <= t <= LATEST),
        ensures
            r@ == picked(self.lists(), |l: List| stale_id(l, interval, now)),
    {
        let ghost f = |l: List| stale_id(l, interval, now);
        let ghost all = self.lists();
        let n: u128 = self.blocklists.len() as u128 + self.allowlists.len() as u128;
        let mut out: Vec<i64> = Vec::new();
        let mut i: u128 = 0;
        assert(all.take(0) =~= Seq::<List>::empty());
        while i < n
            invariant
                i <= n,
                all == self.lists(),
                n == all.len(),
                f == (|l: List| stale_id(l, interval, now)),
                out@ == picked(all.take(i as int), f),
                forall|k: int|
                    0 <= k < all.len() ==> ((#[trigger] all[k]).last_updated matches Some(t) ==> EARLIEST <= t <= LATEST),
            decreases n - i,
        {
            let l = self.at(i);
            proof {
                assert(*l == all[i as int]);
                assert(all.take(i + 1).drop_last() =~= all.take(i as int));
                assert(all.take(i + 1).last() == all[i as int]);
            }
            if l.enabled {
                let due = match l.last_updated {
                    None => true,
                    Some(t) => match later(t, interval) {
                        Some(at) => at <= now,
                        None => true,
                    },
                };
                if due {
                    out.push(l.id);
                }
            }
            i = i + 1;
        }
        assert(all.take(i as int) =~= all);
        out
    }

    /// Replaces the list at a place.
    fn set_at(&mut self, i: u128, l: List)
        requires
            i < old(self).lists().len(),
        ensures
            final(self).lists() == old(self).lists().update(i as int, l),
            final(self).blocklists@.len() == old(self).blocklists@.len(),
            final(self).user_rules == old(self).user_rules,
            final(self).service_rules == old(self).service_rules,
            final(self).hosts_rules == old(self).hosts_rules,
    {
        let ghost was = self.lists();
        let b: u128 = self.blocklists.len() as u128;
        assert(self.allowlists.len() <= usize::MAX);
        if i < b {
            self.blocklists.set(i as usize, l);
        } else {
            self.allowlists.set((i - b) as usize, l);
        }
        assert(self.lists() =~= was.update(i as int, l));
    }

    /// Begins to store freshly fetched contents for a list, at `now` in
    /// nanoseconds: it is no longer due, and its file is to be touched where
    /// the contents are the same, and written otherwise.
    pub fn fetched(&mut self, id: i64, text: &str, now: i128) -> (r: Result<Store, RefreshError>)
        ensures
            ({
                let all = old(self).lists();
                let i = first_with(all, id);
                match r {
                    Ok(s) => {
                        &&& i < all.len()
                        &&& s == if all[i].text@ == text@ {
                            Store::Touch
                        } else {
                            Store::Write
                        }
                        &&& final(self).lists().len() == all.len()
                        &&& final(self).lists()[i].last_updated == Some(now)
                        &&& same_but_time(final(self).lists()[i], all[i])
                        &&& final(self).blocklists@.len() == old(self).blocklists@.len()
                        &&& final(self).user_rules == old(self).user_rules
                        &&& final(self).service_rules == old(self).service_rules
                        &&& final(self).hosts_rules == old(self).hosts_rules
                        &&& forall|k: int| 0 <= k < all.len() && k != i ==> final(self).lists()[k] == #[trigger] all[k]
                    },
                    Err(e) => i == all.len() && e == RefreshError::NotFound(id) && *final(self) == *old(self),
                }
            }),
    {
        let i = match self.place(id) {
            None => {
                return Err(RefreshError::NotFound(id));
            },
            Some(i) => i,
        };
        let l = self.at(i);
        assert(*l == self.lists()[i as int]);
        let held = chars_of(l.text.as_str());
        let sent = chars_of(text);
        let unchanged = same(held.as_slice(), sent.as_slice());
        let fresh = List {
            id: l.id,
            url: l.url.as_str().to_owned(),
            name: l.name.as_str().to_owned(),
            enabled: l.enabled,
            allowlist: l.allowlist,
            text: l.text.as_str().to_owned(),
            rules_count: l.rules_count,
            last_updated: Some(now),
        };
        self.set_at(i, fresh);
        Ok(
            if unchanged {
                Store::Touch
            } else {
                Store::Write
            },
        )
    }

    /// Goes on after the file of an unchanged list was touched: nothing more
    /// is to be done, or there is no file yet and it is to be written after
    /// all.
    pub fn touched(came: Touched) -> (r: Result<Option<Fetched>, RefreshError>)
        ensures
            match came {
                Touched::Done => r == Ok::<Option<Fetched>, RefreshError>(Some(Fetched::Unchanged)),
                Touched::Missing => r == Ok::<Option<Fetched>, RefreshError>(None),
                Touched::Failed(e) => r == Err::<Option<Fetched>, RefreshError>(RefreshError::Io(e)),
            },
    {
        match came {
            Touched::Done => Ok(Some(Fetched::Unchanged)),
            Touched::Missing => Ok(None),
            Touched::Failed(e) => Err(RefreshError::Io(e)),
        }
    }

    /// Takes over the contents of a list that are to be written.
    pub fn store(&mut self, id: i64, text: &str) -> (r: Result<Fetched, RefreshError>)
        ensures
            ({
                let all = old(self).lists();
                let i = first_with(all, id);
                match r {
                    Ok(f) => {
                        &&& i < all.len()
                        &&& f == (Fetched::Written { rules: rules_in(text@) as usize })
                        &&& final(self).lists().len() == all.len()
                        &&& final(self).lists()[i].text@ == text@
                        &&& final(self).lists()[i].rules_count == rules_in(text@)
                        &&& same_but_text(final(self).lists()[i], all[i])
                        &&& final(self).blocklists@.len() == old(self).blocklists@.len()
                        &&& final(self).user_rules == old(self).user_rules
                        &&& final(self).service_rules == old(self).service_rules
                        &&& final(self).hosts_rules == old(self).hosts_rules
                        &&& forall|k: int| 0 <= k < all.len() && k != i ==> final(self).lists()[k] == #[trigger] all[k]
                    },
                    Err(e) => i == all.len() && e == RefreshError::NotFound(id) && *final(self) == *old(self),
                }
            }),
    {
        let i = match self.place(id) {
            None => {
                return Err(RefreshError::NotFound(id));
            },
            Some(i) => i,
        };
        let l = self.at(i);
        assert(*l == self.lists()[i as int]);
        let rules = count_rules(text);
        let fresh = List {
            id: l.id,
            url: l.url.as_str().to_owned(),
            name: l.name.as_str().to_owned(),
            enabled: l.enabled,
            allowlist: l.allowlist,
            text: text.to_owned(),
            rules_count: rules,
            last_updated: l.last_updated,
        };
        self.set_at(i, fresh);
        Ok(Fetched::Written { rules })
    }
}

/// Whether two lists are the same but for when they were updated.
pub open spec fn same_but_time(a: List, b: List) -> bool {
    a.id == b.id && a.url@ == b.url@ && a.name@ == b.name@ && a.enabled == b.enabled && a.allowlist == b.allowlist
        && a.text@ == b.text@ && a.rules_count == b.rules_count
}

/// Whether two lists are the same but for what they hold.
pub open spec fn same_but_text(a: List, b: List) -> bool {
    a.id == b.id && a.url@ == b.url@ && a.name@ == b.name@ && a.enabled == b.enabled && a.allowlist == b.allowlist
        && a.last_updated == b.last_updated
}

/// Whether a list is one that was just configured.
pub open spec fn as_configured(l: List, f: FilterYaml, allowlist: bool) -> bool {
    l.id == f.id && l.url@ == f.url@ && l.name@ == f.name@ && l.enabled == f.enabled && l.allowlist == allowlist
        && l.text@.len() == 0 && l.rules_count == 0 && l.last_updated is None
}

/// Whether lists are the ones that were just configured.
pub open spec fn configured(l: Seq<List>, f: Seq<FilterYaml>, allowlist: bool) -> bool {
    &&& l.len() == f.len()
    &&& forall|i: int| 0 <= i < f.len() ==> as_configured(#[trigger] l[i], f[i], allowlist)
}

/// Whether an engine can hold some sources.
pub open spec fn fits_engine(s: Seq<(i64, Seq<char>)>) -> bool {
    s.len() <= MAX_LISTS && list_bytes(s) <= MAX_SOURCE
}

/// Whether an engine can hold some sources.
fn fit(s: &Vec<(i64, String)>) -> (r: bool)
    ensures
        r == fits_engine(sources_of(s@)),
{
    let ghost f = |x: (i64, Seq<char>)| vstd::utf8::encode_utf8(x.1).len() as int;
    let ghost v = sources_of(s@);
    if s.len() > MAX_LISTS {
        return false;
    }
    let mut total: usize = 0;
    let mut i: usize = 0;
    assert(v.take(0) =~= Seq::<(i64, Seq<char>)>::empty());
    while i < s.len()
        invariant
            i <= s@.len(),
            v == sources_of(s@),
            f == (|x: (i64, Seq<char>)| vstd::utf8::encode_utf8(x.1).len() as int),
            total == sum(v.take(i as int), f),
            total <= MAX_SOURCE,
        decreases s@.len() - i,
    {
        proof {
            crate::multi::lemma_sum_part(v, f, i as int);
        }
        let n: usize = s[i].1.as_str().as_bytes().len();
        assert(n == f(v[i as int]));
        if n > MAX_SOURCE - total {
            return false;
        }
        total = total + n;
        i = i + 1;
    }
    assert(v.take(i as int) =~= v);
    true
}

/// A list that was just fetched is not due before its interval has passed.
pub proof fn law_fetched_is_not_due(at: i128, interval: i128, now: i128)
    requires
        EARLIEST <= at <= LATEST,
        EARLIEST <= at + interval <= LATEST,
        now < at + interval,
    ensures
        !is_due(Some(at), interval, now),
{
}

/// A disabled list is never fetched, and one never fetched is due at once.
pub proof fn law_disabled_is_never_stale(l: List, interval: i128, now: i128)
    ensures
        !l.enabled ==> stale_id(l, interval, now) is None,
        l.enabled && l.last_updated is None ==> stale_id(l, interval, now) == Some(l.id),
{
}

/// A relative path that never steps up is not refused, where the directory of
/// the user's own lists lies in the data directory.
pub proof fn law_relative_paths_are_found(data: Seq<char>, base: Seq<char>, url: Seq<char>)
    requires
        lies_in(data, base),
        data.len() > 0,
        bare_path(url).len() == 0 || bare_path(url)[0] != '/',
        !steps_up(path_under(base, bare_path(url))),
    ensures
        stays_in(data, path_under(base, bare_path(url))),
{
    let p = path_under(base, bare_path(url));
    let n = data.len() as int;
    assert(p.take(n) =~= base.take(n));
    if n < base.len() {
        assert(p[n] == base[n]);
    }
}

/// No path that is given back leads outside the data directory: whatever the
/// configuration says, it begins with that directory, at a whole part of the
/// path, and none of its parts is a step up.
pub proof fn law_local_paths_stay_inside(data: Seq<char>, path: Seq<char>)
    requires
        stays_in(data, path),
        data.len() > 0,
    ensures
        begins(path, data),
        data.last() == '/' || path.len() == data.len() || path[data.len() as int] == '/',
        !split(path, '/').contains(seq!['.', '.']),
{
}

} // verus!
