//! What the engine reads out of names and rule texts.

use vstd::prelude::*;
use vstd::slice::slice_subrange;
use vstd::string::*;

use crate::multi::picked;
use crate::text::{
    begins, chars_of, find, first_at, is_space, join, last_at, law_split_join, lemma_split_concat, lemma_split_none,
    lower, lowered, push_char, reads_as, rfind, same, same_but_case, same_folded, split, split_at_each, starts_with, string_of, strip_back, strip_front, texts, trim, trimmed,
    without_back, without_front,
};
use crate::utf::cut_once;

verus! {

/// The scheme the patterns are written against.
pub const SCHEME: &'static str = "http://";

/// The `http://<host>` form of a hostname, in lower case.
pub open spec fn url(host: Seq<char>) -> Seq<char> {
    SCHEME@ + lower(host)
}

/// Renders the `http://<host>` form the patterns are written against.
pub fn url_for(hostname: &str) -> (r: String)
    ensures
        r@ == url(hostname@),
{
    let mut out = SCHEME.to_owned();
    let c = chars_of(hostname);
    let l = lowered(c.as_slice());
    let mut i: usize = 0;
    while i < l.len()
        invariant
            i <= l@.len(),
            out@ =~= SCHEME@ + l@.take(i as int),
        decreases l@.len() - i,
    {
        push_char(&mut out, l[i]);
        i = i + 1;
    }
    assert(l@.take(i as int) =~= l@);
    out
}

/// A name and each of its parent domains, the name first.
pub open spec fn suffixes(s: Seq<char>) -> Seq<Seq<char>>
    decreases s.len(),
{
    if s.len() == 0 {
        Seq::empty()
    } else {
        let i = first_at(s, '.');
        seq![s] + if 0 <= i < s.len() {
            suffixes(s.skip(i + 1))
        } else {
            Seq::empty()
        }
    }
}

proof fn lemma_first_at(s: Seq<char>, a: Seq<char>, c: char, b: Seq<char>)
    requires
        s == a + seq![c] + b,
        !a.contains(c),
    ensures
        first_at(s, c) == a.len(),
        s.skip(a.len() as int + 1) == b,
    decreases a.len(),
{
    assert(s.skip(a.len() as int + 1) =~= b);
    if a.len() > 0 {
        assert(s[0] == a[0]);
        assert(a.contains(a[0]));
        let d = a.drop_first();
        assert(s.drop_first() =~= d + seq![c] + b);
        assert forall|x: char| d.contains(x) implies a.contains(x) by {
            let k = d.index_of(x);
            assert(a[k + 1] == x);
        }
        lemma_first_at(s.drop_first(), d, c, b);
    }
}

proof fn lemma_first_at_none(s: Seq<char>, c: char)
    requires
        !s.contains(c),
    ensures
        first_at(s, c) == s.len(),
    decreases s.len(),
{
    if s.len() > 0 {
        assert(s.contains(s[0]));
        let d = s.drop_first();
        assert forall|x: char| d.contains(x) implies s.contains(x) by {
            let k = d.index_of(x);
            assert(s[k + 1] == x);
        }
        lemma_first_at_none(d, c);
    }
}

/// The parent of a name, where it has one.
pub(crate) fn parent<'a>(s: &'a str) -> (r: Option<&'a str>)
    ensures
        match r {
            Some(p) => first_at(s@, '.') < s@.len() && p@ == s@.skip(first_at(s@, '.') + 1) && p@.len() < s@.len(),
            None => first_at(s@, '.') == s@.len(),
        },
{
    match cut_once(s, '.') {
        Some((a, b)) => {
            proof {
                lemma_first_at(s@, a@, '.', b@);
            }
            Some(b)
        },
        None => {
            proof {
                lemma_first_at_none(s@, '.');
            }
            None
        },
    }
}

/// Whether `host` is `domain` or a name below it.
pub open spec fn under(host: Seq<char>, domain: Seq<char>) -> bool {
    host == domain || (host.len() > domain.len() && host.skip(host.len() - domain.len()) == domain && host[host.len()
        - domain.len() - 1] == '.')
}

/// Reports whether `host` is `domain` or a name below it.
pub fn is_subdomain_of(host: &[char], domain: &[char]) -> (r: bool)
    ensures
        r == under(host@, domain@),
{
    let n: usize = host.len();
    let m: usize = domain.len();
    if n < m {
        return false;
    }
    let tail = slice_subrange(host, n - m, n);
    assert(tail@ =~= host@.skip(n - m));
    if !same(tail, domain) {
        proof {
            if host@ == domain@ {
                assert(tail@ =~= domain@);
            }
        }
        return false;
    }
    if n == m {
        assert(tail@ =~= host@);
        return true;
    }
    host[n - m - 1] == '.'
}

/// A rule's text without `$badfilter`: what a badfilter rule and the rule it
/// cancels have in common.
pub open spec fn canonical(text: Seq<char>) -> Seq<char> {
    let d = last_at(text, '$');
    if d < 0 {
        text
    } else {
        let kept = picked(
            split(text.skip(d + 1), ','),
            |m: Seq<char>| if trimmed(m) == "badfilter"@ { None } else { Some(m) },
        );
        if kept.len() == 0 {
            text.take(d)
        } else {
            text.take(d) + seq!['$'] + join(kept, seq![','])
        }
    }
}

/// Strips the `$badfilter` modifier so a badfilter rule can be compared with
/// the rule it cancels.
pub fn canonical_text(text: &str) -> (r: String)
    ensures
        r@ == canonical(text@),
{
    let c = chars_of(text);
    let n: usize = c.len();
    let d: usize = match rfind(c.as_slice(), '$') {
        None => {
            return text.to_owned();
        },
        Some(d) => d,
    };
    let rest = slice_subrange(c.as_slice(), d + 1, n);
    assert(rest@ =~= text@.skip(d + 1));
    let head = slice_subrange(c.as_slice(), 0, d);
    assert(head@ =~= text@.take(d as int));
    let parts = split_at_each(rest, ',');
    let ghost ps = texts(parts@);
    let ghost f = |m: Seq<char>| if trimmed(m) == "badfilter"@ { None } else { Some(m) };
    let mut out = string_of(head);
    let mut any = false;
    let mut i: usize = 0;
    let ghost mut kept: Seq<Seq<char>> = Seq::empty();
    assert(picked(ps.take(0), f) =~= kept);
    while i < parts.len()
        invariant
            i <= parts@.len(),
            ps == texts(parts@),
            f == (|m: Seq<char>| if trimmed(m) == "badfilter"@ { None } else { Some(m) }),
            kept == picked(ps.take(i as int), f),
            any == (kept.len() > 0),
            out@ == if kept.len() == 0 {
                head@
            } else {
                head@ + seq!['$'] + join(kept, seq![','])
            },
        decreases parts@.len() - i,
    {
        let part = parts[i];
        proof {
            assert(ps.take(i + 1).drop_last() =~= ps.take(i as int));
            assert(ps.take(i + 1).last() == part@);
        }
        if !reads_as(trim(part), "badfilter") {
            let ghost was = kept;
            push_char(&mut out, if any { ',' } else { '$' });
            add_text(&mut out, part);
            proof {
                kept = kept.push(part@);
                assert(kept.drop_last() =~= was);
                if was.len() == 0 {
                    assert(out@ =~= head@ + seq!['$'] + join(kept, seq![',']));
                } else {
                    assert(out@ =~= head@ + seq!['$'] + (join(was, seq![',']) + seq![','] + part@));
                }
            }
            any = true;
        }
        i = i + 1;
    }
    assert(ps.take(i as int) =~= ps);
    out
}

/// Adds `c` to the end of `s`.
fn add_text(s: &mut String, c: &[char])
    ensures
        final(s)@ == old(s)@ + c@,
{
    let ghost before = s@;
    let mut i: usize = 0;
    while i < c.len()
        invariant
            i <= c@.len(),
            s@ =~= before + c@.take(i as int),
        decreases c@.len() - i,
    {
        push_char(s, c[i]);
        i = i + 1;
    }
    assert(c@.take(i as int) =~= c@);
}

/// Whether `text` is a `||domain^` rule naming exactly `domain`, but for
/// case: an optional `@@`, then `||`, then the domain, then `^`.
pub open spec fn anchored_to(text: Seq<char>, domain: Seq<char>) -> bool {
    let t = if begins(text, "@@"@) { text.skip(2) } else { text };
    let body = t.skip(2);
    let end = first_at(body, '^');
    begins(t, "||"@) && end < body.len() && same_folded(body.take(end), domain)
}

/// Reports whether `text` is a `||domain^` rule naming exactly `domain`.
pub fn anchored_domain_is(text: &str, domain: &str) -> (r: bool)
    ensures
        r == anchored_to(text@, domain@),
{
    proof {
        reveal_strlit("@@");
        reveal_strlit("||");
    }
    let c = chars_of(text);
    let n: usize = c.len();
    let t = if starts_with(c.as_slice(), "@@") {
        slice_subrange(c.as_slice(), 2, n)
    } else {
        c.as_slice()
    };
    assert(begins(text@, "@@"@) ==> t@ =~= text@.skip(2));
    if !starts_with(t, "||") {
        return false;
    }
    let m: usize = t.len();
    let body = slice_subrange(t, 2, m);
    assert(body@ =~= t@.skip(2));
    let end = find(body, '^');
    if end == body.len() {
        return false;
    }
    let dom = slice_subrange(body, 0, end);
    assert(dom@ =~= body@.take(end as int));
    let d = chars_of(domain);
    same_but_case(dom, d.as_slice())
}

/// `s` without the dots around it.
pub open spec fn undotted(s: Seq<char>) -> Seq<char> {
    strip_back(strip_front(s, '.'), '.')
}

/// Whether two names are the same but for case and the dots around them.
pub fn same_name(a: &str, b: &str) -> (r: bool)
    ensures
        r == same_folded(undotted(a@), undotted(b@)),
{
    let x = chars_of(a);
    let y = chars_of(b);
    same_but_case(
        without_back(without_front(x.as_slice(), '.'), '.'),
        without_back(without_front(y.as_slice(), '.'), '.'),
    )
}

/// The first position of a character is within the text or at its end.
pub proof fn lemma_first_at_bound(s: Seq<char>, c: char)
    ensures
        0 <= first_at(s, c) <= s.len(),
{
    lemma_first_at_char(s, c);
}

/// What follows the dot at `i` is a name that `host` is under.
proof fn lemma_suffix_under(host: Seq<char>, i: int)
    requires
        0 <= i < host.len(),
        host[i] == '.',
    ensures
        under(host, host.skip(i + 1)),
{
    let d = host.skip(i + 1);
    assert(host.skip(host.len() - d.len()) =~= d);
}

proof fn lemma_first_at_char(s: Seq<char>, c: char)
    ensures
        0 <= first_at(s, c) <= s.len(),
        first_at(s, c) < s.len() ==> s[first_at(s, c)] == c,
        forall|i: int| 0 <= i < first_at(s, c) ==> s[i] != c,
    decreases s.len(),
{
    if s.len() > 0 && s[0] != c {
        lemma_first_at_char(s.drop_first(), c);
        assert forall|i: int| 0 <= i < first_at(s, c) implies s[i] != c by {
            if i > 0 {
                assert(s.drop_first()[i - 1] == s[i]);
            }
        }
    }
}

/// The walk over a name's parents meets exactly the domains it is or is
/// under, the empty one aside.
pub proof fn law_suffixes(host: Seq<char>, domain: Seq<char>)
    ensures
        suffixes(host).contains(domain) <==> domain.len() > 0 && under(host, domain),
    decreases host.len(),
{
    let all = suffixes(host);
    if host.len() > 0 {
        lemma_first_at_char(host, '.');
        let i = first_at(host, '.');
        assert(all[0] == host);
        if i < host.len() {
            let rest = host.skip(i + 1);
            law_suffixes(rest, domain);
            let more = suffixes(rest);
            assert(all =~= seq![host] + more);
            if all.contains(domain) {
                let k = all.index_of(domain);
                if k > 0 {
                    assert(more[k - 1] == domain);
                    assert(more.contains(domain));
                    if rest == domain {
                        lemma_suffix_under(host, i);
                    } else {
                        assert(host.skip(host.len() - domain.len()) =~= rest.skip(rest.len() - domain.len()));
                        assert(host[host.len() - domain.len() - 1] == rest[rest.len() - domain.len() - 1]);
                    }
                }
            }
            if domain.len() > 0 && under(host, domain) && host != domain {
                let at = host.len() - domain.len() - 1;
                assert(i <= at);
                if i == at {
                    assert(rest =~= domain);
                } else {
                    assert(rest.skip(rest.len() - domain.len()) =~= host.skip(host.len() - domain.len()));
                    assert(rest[rest.len() - domain.len() - 1] == '.');
                }
                assert(under(rest, domain));
                let k = more.index_of(domain);
                assert(all[k + 1] == domain);
            }
        } else {
            assert(all =~= seq![host]);
            if all.contains(domain) {
                assert(domain == host);
            }
            if under(host, domain) && host != domain {
                assert(host[host.len() - domain.len() - 1] == '.');
            }
        }
    }
}

/// Whether none of the modifiers in `m` is `badfilter`.
pub open spec fn without_badfilter(m: Seq<char>) -> bool {
    forall|i: int| 0 <= i < split(m, ',').len() ==> trimmed(#[trigger] split(m, ',')[i]) != "badfilter"@
}

/// What picks the modifiers that stay.
spec fn stays(m: Seq<char>) -> Option<Seq<char>> {
    if trimmed(m) == "badfilter"@ {
        None
    } else {
        Some(m)
    }
}

proof fn lemma_picked_all(s: Seq<Seq<char>>, f: spec_fn(Seq<char>) -> Option<Seq<char>>)
    requires
        forall|i: int| 0 <= i < s.len() ==> f(#[trigger] s[i]) == Some(s[i]),
    ensures
        picked(s, f) == s,
    decreases s.len(),
{
    if s.len() > 0 {
        let d = s.drop_last();
        assert forall|i: int| 0 <= i < d.len() implies f(#[trigger] d[i]) == Some(d[i]) by {
            assert(d[i] == s[i]);
        }
        lemma_picked_all(d, f);
        assert(f(s[s.len() - 1]) == Some(s[s.len() - 1]));
        assert(d.push(s.last()) =~= s);
    } else {
        assert(picked(s, f) =~= s);
    }
}

proof fn lemma_picked_concat(a: Seq<Seq<char>>, b: Seq<Seq<char>>, f: spec_fn(Seq<char>) -> Option<Seq<char>>)
    ensures
        picked(a + b, f) == picked(a, f) + picked(b, f),
    decreases b.len(),
{
    if b.len() == 0 {
        assert(a + b =~= a);
        assert(picked(a, f) + picked(b, f) =~= picked(a, f));
    } else {
        lemma_picked_concat(a, b.drop_last(), f);
        assert((a + b).drop_last() =~= a + b.drop_last());
        assert((a + b).last() == b.last());
        assert(picked(a + b, f) =~= picked(a, f) + picked(b, f));
    }
}

proof fn lemma_last_dollar(p: Seq<char>, m: Seq<char>)
    requires
        !m.contains('$'),
    ensures
        last_at(p + seq!['$'] + m, '$') == p.len(),
    decreases m.len(),
{
    let s = p + seq!['$'] + m;
    if m.len() > 0 {
        let d = m.drop_last();
        assert(m.contains(m[m.len() - 1]));
        assert forall|x: char| d.contains(x) implies m.contains(x) by {
            let k = d.index_of(x);
            assert(m[k] == x);
        }
        assert(s.drop_last() =~= p + seq!['$'] + d);
        assert(s.last() == m.last());
        lemma_last_dollar(p, d);
    } else {
        assert(s.last() == '$');
    }
}

proof fn lemma_no_dollar(p: Seq<char>)
    requires
        !p.contains('$'),
    ensures
        last_at(p, '$') == -1,
    decreases p.len(),
{
    if p.len() > 0 {
        let d = p.drop_last();
        assert(p.contains(p[p.len() - 1]));
        assert forall|x: char| d.contains(x) implies p.contains(x) by {
            let k = d.index_of(x);
            assert(p[k] == x);
        }
        lemma_no_dollar(d);
    }
}

/// The canonical text of a pattern with modifiers is the pattern with those
/// that stay.
proof fn lemma_canonical(p: Seq<char>, m: Seq<char>)
    requires
        !m.contains('$'),
    ensures
        ({
            let kept = picked(split(m, ','), |x: Seq<char>| stays(x));
            canonical(p + seq!['$'] + m) == if kept.len() == 0 {
                p
            } else {
                p + seq!['$'] + join(kept, seq![','])
            }
        }),
{
    let text = p + seq!['$'] + m;
    lemma_last_dollar(p, m);
    assert(text.skip(p.len() as int + 1) =~= m);
    assert(text.take(p.len() as int) =~= p);
    let f = |x: Seq<char>| if trimmed(x) == "badfilter"@ { None } else { Some(x) };
    assert(f =~= (|x: Seq<char>| stays(x)));
}

proof fn lemma_badfilter_alone()
    ensures
        !"badfilter"@.contains('$'),
        picked(split("badfilter"@, ','), |x: Seq<char>| stays(x)) == Seq::<Seq<char>>::empty(),
{
    reveal_strlit("badfilter");
    let b = "badfilter"@;
    assert(b[0] == 'b' && b.last() == 'r');
    assert(!is_space('b') && !is_space('r'));
    assert(trimmed(b) == b);
    lemma_split_none(b, ',');
    let parts = seq![b];
    assert(parts.drop_last() =~= Seq::<Seq<char>>::empty());
    assert(parts.last() == b);
    let f = |x: Seq<char>| stays(x);
    assert(f(b) is None);
    assert(picked(parts.drop_last(), f) =~= Seq::<Seq<char>>::empty());
    assert(picked(parts, f) =~= Seq::<Seq<char>>::empty());
}

proof fn lemma_kept_all(m: Seq<char>)
    requires
        without_badfilter(m),
    ensures
        picked(split(m, ','), |x: Seq<char>| stays(x)) == split(m, ','),
        split(m, ',').len() > 0,
        join(split(m, ','), seq![',']) == m,
{
    law_split_join(m, ',');
    lemma_picked_all(split(m, ','), |x: Seq<char>| stays(x));
}

/// Wherever `badfilter` stands among the modifiers of a rule, the canonical
/// text is that of the rule without it: the text of the rule that it cancels.
/// A text without `badfilter` is canonical already.
pub proof fn law_badfilter_anywhere(p: Seq<char>, a: Seq<char>, b: Seq<char>)
    requires
        !a.contains('$'),
        !b.contains('$'),
        without_badfilter(a),
        without_badfilter(b),
    ensures
        !p.contains('$') ==> canonical(p) == p,
        canonical(p + seq!['$'] + "badfilter"@) == p,
        canonical(p + seq!['$'] + a) == p + seq!['$'] + a,
        canonical(p + seq!['$'] + ("badfilter"@ + seq![','] + a)) == p + seq!['$'] + a,
        canonical(p + seq!['$'] + (a + seq![','] + "badfilter"@)) == p + seq!['$'] + a,
        canonical(p + seq!['$'] + (a + seq![','] + b)) == p + seq!['$'] + (a + seq![','] + b),
        canonical(p + seq!['$'] + (a + seq![','] + "badfilter"@ + seq![','] + b)) == p + seq!['$'] + (a + seq![','] + b),
{
    let f = |x: Seq<char>| stays(x);
    let bad = "badfilter"@;
    let none = Seq::<Seq<char>>::empty();
    let first = bad + seq![','] + a;
    let last = a + seq![','] + bad;
    let both = a + seq![','] + b;
    let mid = last + seq![','] + b;
    if !p.contains('$') {
        lemma_no_dollar(p);
    }
    lemma_badfilter_alone();
    lemma_kept_all(a);
    lemma_kept_all(b);
    lemma_split_concat(bad, ',', a);
    lemma_split_concat(a, ',', bad);
    lemma_split_concat(a, ',', b);
    lemma_split_concat(last, ',', b);
    lemma_picked_concat(split(bad, ','), split(a, ','), f);
    lemma_picked_concat(split(a, ','), split(bad, ','), f);
    lemma_picked_concat(split(a, ','), split(b, ','), f);
    lemma_picked_concat(split(last, ','), split(b, ','), f);
    assert(none + split(a, ',') =~= split(a, ','));
    assert(split(a, ',') + none =~= split(a, ','));
    law_split_join(both, ',');
    assert forall|x: char| first.contains(x) || last.contains(x) || both.contains(x) || mid.contains(x) implies x != '$' by {
        if x == '$' {
            lemma_contains_parts(bad, a, x);
            lemma_contains_parts(a, bad, x);
            lemma_contains_parts(a, b, x);
            lemma_contains_parts(last, b, x);
        }
    }
    lemma_canonical(p, bad);
    lemma_canonical(p, a);
    lemma_canonical(p, first);
    lemma_canonical(p, last);
    lemma_canonical(p, both);
    lemma_canonical(p, mid);
}

proof fn lemma_contains_parts(a: Seq<char>, b: Seq<char>, x: char)
    requires
        x != ',',
    ensures
        (a + seq![','] + b).contains(x) ==> a.contains(x) || b.contains(x),
{
    let s = a + seq![','] + b;
    if s.contains(x) {
        let i = s.index_of(x);
        if i < a.len() {
            assert(a[i] == x);
        } else {
            assert(i != a.len());
            assert(b[i - a.len() - 1] == x);
        }
    }
}

} // verus!
