//! What lists there are and when they are fetched, in terms of how they are
//! configured.

use vstd::prelude::*;
use vstd::string::*;

use crate::laws::clients::lemma_picked_has;
use crate::laws::text::law_splitting;
use crate::lists::{
    bare_path, decimals, enabled_id, enabled_source, first_with, is_due, lies_in, number_text, path_under, remote,
    rule_lines, rules_in, same_but_text, same_but_time, stale_id, stays_in, steps_up, as_configured, FilterYaml,
    List, Manager,
};
use crate::multi::{picked, sum};
use crate::server::access::{decimal, digits};
use crate::text::{begins, join, split, strings, trimmed};

verus! {

proof fn lemma_rule_lines(a: Seq<Seq<char>>, b: Seq<Seq<char>>)
    ensures
        rule_lines(a + b) == rule_lines(a) + rule_lines(b),
    decreases b.len(),
{
    if b.len() == 0 {
        assert(a + b =~= a);
    } else {
        assert((a + b).drop_last() =~= a + b.drop_last());
        lemma_rule_lines(a, b.drop_last());
    }
}

/// The rules of a text are its lines that say something: every line counts
/// for one, but those that are blank or begin with an exclamation mark or a
/// hash.
pub proof fn law_counting_rules(text: Seq<char>, line: Seq<char>)
    requires
        !line.contains('\n'),
    ensures
        ({
            let t = trimmed(line);
            let one = if t.len() == 0 || t[0] == '!' || t[0] == '#' { 0nat } else { 1nat };
            &&& rules_in(line) == one
            &&& rules_in(text + seq!['\n'] + line) == rules_in(text) + one
        }),
{
    crate::text::lemma_split_none(line, '\n');
    crate::text::lemma_split_concat(text, '\n', line);
    lemma_rule_lines(split(text, '\n'), split(line, '\n'));
    assert(split(line, '\n') =~= seq![line]);
    assert(seq![line].drop_last() =~= Seq::<Seq<char>>::empty());
    assert(rule_lines(Seq::<Seq<char>>::empty()) == 0);
    assert(seq![line].last() == line);
    reveal_with_fuel(rule_lines, 2);
}

/// A number is written as digits that read back as it, without a zero before
/// them, and with a minus before those of a negative one.
pub proof fn law_number_text(n: nat)
    ensures
        digits(number_text(n as int)),
        decimal(number_text(n as int)) == n,
        number_text(n as int).len() > 0,
        n > 0 ==> number_text(n as int)[0] != '0',
        n == 0 ==> number_text(n as int) == seq!['0'],
        n > 0 ==> number_text(-n) == seq!['-'] + number_text(n as int),
    decreases n,
{
    let s = decimals(n);
    if n < 10 {
        assert(s.drop_last() =~= Seq::<char>::empty());
        reveal_with_fuel(decimal, 2);
    } else {
        let m = n / 10;
        law_number_text(m);
        let d = decimals(m);
        assert(s.drop_last() =~= d);
        assert(s[0] == d[0]);
        assert forall|i: int| 0 <= i < s.len() implies '0' <= #[trigger] s[i] && s[i] <= '9' by {
            if i < d.len() {
                assert(s[i] == d[i]);
            }
        }
    }
}

/// What is fetched is what begins with http:// or https://, and nothing else
/// is.
pub proof fn law_remote(rest: Seq<char>, url: Seq<char>)
    ensures
        remote(seq!['h', 't', 't', 'p', ':', '/', '/'] + rest),
        remote(seq!['h', 't', 't', 'p', 's', ':', '/', '/'] + rest),
        remote(url) ==> {
            &&& url.len() >= 7
            &&& url[0] == 'h' && url[1] == 't' && url[2] == 't' && url[3] == 'p'
            &&& url[4] == ':' && url[5] == '/' && url[6] == '/' || url.len() >= 8 && url[4] == 's' && url[5] == ':' && url[6]
                == '/' && url[7] == '/'
        },
{
    reveal_strlit("http://");
    reveal_strlit("https://");
    let a = seq!['h', 't', 't', 'p', ':', '/', '/'];
    let b = seq!['h', 't', 't', 'p', 's', ':', '/', '/'];
    assert("http://"@ =~= a);
    assert("https://"@ =~= b);
    assert((a + rest).take(7) =~= a);
    assert((b + rest).take(8) =~= b);
    if begins(url, a) {
        assert(url.take(7) == a);
        assert(forall|i: int| 0 <= i < 7 ==> url[i] == #[trigger] url.take(7)[i]);
        assert(url[0] == a[0] && url[1] == a[1] && url[2] == a[2] && url[3] == a[3] && url[4] == a[4] && url[5] == a[5]
            && url[6] == a[6]);
    }
    if begins(url, b) {
        assert(url.take(8) == b);
        assert(forall|i: int| 0 <= i < 8 ==> url[i] == #[trigger] url.take(8)[i]);
        assert(url[0] == b[0] && url[1] == b[1] && url[2] == b[2] && url[3] == b[3] && url[4] == b[4] && url[5] == b[5]
            && url[6] == b[6] && url[7] == b[7]);
    }
}

/// A file is named by its path, with file:// before it or without. One that
/// is not absolute is taken below the base, with one slash between them.
pub proof fn law_paths(p: Seq<char>, base: Seq<char>, c: char)
    requires
        p.len() > 0,
        p[0] == 'f' ==> p.len() < 7,
    ensures
        bare_path(seq!['f', 'i', 'l', 'e', ':', '/', '/'] + p) == p,
        bare_path(p) == p,
        p[0] == '/' ==> path_under(base, p) == p,
        p[0] != '/' ==> path_under(Seq::empty(), p) == p,
        p[0] != '/' ==> path_under(base.push('/'), p) == base + seq!['/'] + p,
        p[0] != '/' && c != '/' ==> path_under(base.push(c), p) == base + seq![c, '/'] + p,
{
    reveal_strlit("file://");
    let f = seq!['f', 'i', 'l', 'e', ':', '/', '/'];
    assert("file://"@ =~= f);
    let u = f + p;
    assert(u.take(7) =~= f);
    assert(u.skip(7) =~= p);
    if begins(p, f) {
        assert(p.take(7)[0] == p[0]);
    }
    assert(base.push('/') + p =~= base + seq!['/'] + p);
    assert(base.push(c).push('/') + p =~= base + seq![c, '/'] + p);
}

/// A path steps up exactly where one of its parts is two dots.
pub proof fn law_stepping_up(parts: Seq<Seq<char>>)
    requires
        parts.len() > 0,
        forall|i: int| 0 <= i < parts.len() ==> !(#[trigger] parts[i]).contains('/'),
    ensures
        steps_up(join(parts, seq!['/'])) == exists|i: int|
            0 <= i < parts.len() && (#[trigger] parts[i]).len() == 2 && parts[i][0] == '.' && parts[i][1] == '.',
{
    law_splitting(Seq::empty(), '/', parts);
    let dots = seq!['.', '.'];
    if parts.contains(dots) {
        let i = parts.index_of(dots);
        assert(parts[i].len() == 2 && parts[i][0] == '.' && parts[i][1] == '.');
    }
    if exists|i: int| 0 <= i < parts.len() && (#[trigger] parts[i]).len() == 2 && parts[i][0] == '.' && parts[i][1] == '.' {
        let i = choose|i: int|
            0 <= i < parts.len() && (#[trigger] parts[i]).len() == 2 && parts[i][0] == '.' && parts[i][1] == '.';
        assert(parts[i] =~= dots);
        assert(parts.contains(dots));
    }
}

/// What lies in a directory is the directory and what is below it, and not
/// what merely begins with its name. A path that steps up stays in none.
pub proof fn law_lying_in(dir: Seq<char>, rest: Seq<char>, c: char, path: Seq<char>)
    requires
        dir.len() > 0,
        dir.last() != '/',
    ensures
        lies_in(dir, dir),
        lies_in(dir, dir + seq!['/'] + rest),
        lies_in(dir.push('/'), dir + seq!['/'] + rest),
        c != '/' ==> !lies_in(dir, dir + seq![c] + rest),
        path.len() < dir.len() || path.take(dir.len() as int) != dir ==> !lies_in(dir, path),
        lies_in(Seq::empty(), path) == (path.len() == 0 || path[0] != '/'),
        stays_in(dir, path) ==> !steps_up(path),
        lies_in(dir, path) && !steps_up(path) ==> stays_in(dir, path),
{
    let n = dir.len() as int;
    let a = dir + seq!['/'] + rest;
    let b = dir + seq![c] + rest;
    assert(dir.take(n) =~= dir);
    assert(a.take(n) =~= dir);
    assert(a.take(n + 1) =~= dir.push('/'));
    assert(b.take(n) =~= dir);
    assert(b[n] == c);
}

/// When a list is fetched: at once where it never was, and otherwise as soon
/// as the interval has passed since it was, but never while it is disabled.
pub proof fn law_when_due(l: List, at: i128, interval: i128, now: i128)
    requires
        -377_705_023_201_000_000_000 <= at + interval <= 253_402_207_200_999_999_999,
    ensures
        is_due(None, interval, now),
        is_due(Some(at), interval, now) == (now - at >= interval),
        !l.enabled ==> stale_id(l, interval, now) is None && enabled_id(l) is None,
        l.enabled ==> enabled_id(l) == Some(l.id),
        l.enabled && l.last_updated is None ==> stale_id(l, interval, now) == Some(l.id),
        l.enabled && l.last_updated == Some(at) ==> stale_id(l, interval, now) == if now >= at + interval {
            Some(l.id)
        } else {
            None
        },
{
}

/// The list of an identifier is the first that has it.
pub proof fn law_first_with(lists: Seq<List>, id: i64, i: int)
    ensures
        0 <= first_with(lists, id) <= lists.len(),
        first_with(lists, id) < lists.len() ==> lists[first_with(lists, id)].id == id,
        0 <= i < first_with(lists, id) ==> lists[i].id != id,
    decreases lists.len(),
{
    if lists.len() > 0 && lists[0].id != id {
        let d = lists.drop_first();
        law_first_with(d, id, i - 1);
        if 0 < i < first_with(lists, id) {
            assert(d[i - 1] == lists[i]);
        }
        if first_with(d, id) < d.len() {
            assert(lists[first_with(lists, id)] == d[first_with(d, id)]);
        }
    }
}

/// What blocks comes in order: the user's own rules, those of the hosts file,
/// and each enabled blocklist; what allows is each enabled allowlist. A
/// disabled list is in neither, and a list of one kind not in the other.
pub proof fn law_sources(m: Manager, i: int)
    ensures
        m.block_sources().len() >= 2,
        m.block_sources()[0] == (0i64, join(strings(m.user_rules@), seq!['\n'])),
        m.block_sources()[1] == (-1i64, m.hosts_rules@),
        0 <= i < m.blocklists@.len() && m.blocklists@[i].enabled ==> m.block_sources().skip(2).contains(
            (m.blocklists@[i].id, m.blocklists@[i].text@),
        ),
        0 <= i < m.allowlists@.len() && m.allowlists@[i].enabled ==> m.allow_sources().contains(
            (m.allowlists@[i].id, m.allowlists@[i].text@),
        ),
        m.block_sources().skip(2).len() == switched_on(m.blocklists@),
        m.allow_sources().len() == switched_on(m.allowlists@),
        m.lists().len() == m.blocklists@.len() + m.allowlists@.len(),
{
    let f = |l: List| enabled_source(l);
    assert(m.block_sources().skip(2) =~= picked(m.blocklists@, f));
    if 0 <= i < m.blocklists@.len() {
        lemma_picked_has(m.blocklists@, f, i);
    }
    if 0 <= i < m.allowlists@.len() {
        lemma_picked_has(m.allowlists@, f, i);
    }
    lemma_switched_on(m.blocklists@);
    lemma_switched_on(m.allowlists@);
}

/// How many lists are enabled.
pub open spec fn switched_on(lists: Seq<List>) -> nat
    decreases lists.len(),
{
    if lists.len() == 0 {
        0
    } else {
        switched_on(lists.drop_last()) + if lists.last().enabled {
            1nat
        } else {
            0nat
        }
    }
}

proof fn lemma_switched_on(lists: Seq<List>)
    ensures
        picked(lists, |l: List| enabled_source(l)).len() == switched_on(lists),
    decreases lists.len(),
{
    if lists.len() > 0 {
        lemma_switched_on(lists.drop_last());
    }
}

/// How many rules the enabled ones among these lists have.
pub open spec fn rules_of(lists: Seq<List>) -> int
    decreases lists.len(),
{
    if lists.len() == 0 {
        0
    } else {
        rules_of(lists.drop_last()) + if lists.last().enabled {
            lists.last().rules_count as int
        } else {
            0
        }
    }
}

/// The count of rules takes in each enabled list of either kind, and each of
/// the user's rules.
pub proof fn law_rules_held(m: Manager)
    ensures
        m.rules_held() == rules_of(m.blocklists@ + m.allowlists@) + m.user_rules@.len(),
{
    lemma_rules_of(m.lists());
}

proof fn lemma_rules_of(lists: Seq<List>)
    ensures
        sum(
            lists,
            |l: List|
                if l.enabled {
                    l.rules_count as int
                } else {
                    0
                },
        ) == rules_of(lists),
    decreases lists.len(),
{
    if lists.len() > 0 {
        lemma_rules_of(lists.drop_last());
    }
}

/// A list starts out as it is configured, with nothing in it yet.
pub proof fn law_configured(l: List, f: FilterYaml, allowlist: bool)
    requires
        as_configured(l, f, allowlist),
    ensures
        l.id == f.id && l.enabled == f.enabled && l.allowlist == allowlist,
        l.url@ == f.url@ && l.name@ == f.name@,
        l.text@ == Seq::<char>::empty() && l.rules_count == 0 && l.last_updated is None,
{
    assert(l.text@ =~= Seq::<char>::empty());
}

/// What fetching a list leaves alone.
pub proof fn law_left_alone(a: List, b: List)
    ensures
        same_but_time(a, b) ==> a.id == b.id && a.enabled == b.enabled && a.allowlist == b.allowlist && a.text@ == b.text@
            && a.rules_count == b.rules_count && a.url@ == b.url@ && a.name@ == b.name@,
        same_but_text(a, b) ==> a.id == b.id && a.enabled == b.enabled && a.allowlist == b.allowlist && a.last_updated
            == b.last_updated && a.url@ == b.url@ && a.name@ == b.name@,
{
}

} // verus!
