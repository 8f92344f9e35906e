//! What reading text comes to, character by character.

use vstd::prelude::*;
use vstd::string::*;

use crate::text::{
    begins, first_at, has_text, is_ascii_space, is_space, join, last_at, lower, lower_char, same_folded, split, strip_back,
    strip_front, trim_back, trim_front, trimmed,
};

verus! {

/// Whether two characters are the same, or the two cases of one ASCII letter.
pub open spec fn same_letter(x: char, y: char) -> bool {
    ||| x == y
    ||| 'A' <= x <= 'Z' && y as int == x as int + 32
    ||| 'A' <= y <= 'Z' && x as int == y as int + 32
}

/// Whether two texts differ at most in the case of ASCII letters.
pub open spec fn alike(a: Seq<char>, b: Seq<char>) -> bool {
    a.len() == b.len() && forall|i: int| 0 <= i < a.len() ==> same_letter(#[trigger] a[i], b[i])
}

/// Lowering keeps every character but the ASCII capitals, and gives those
/// their small letter.
pub proof fn law_lower(s: Seq<char>)
    ensures
        lower(s).len() == s.len(),
        forall|i: int|
            0 <= i < s.len() ==> #[trigger] lower(s)[i] as int == if 'A' <= s[i] <= 'Z' {
                s[i] as int + 32
            } else {
                s[i] as int
            },
        lower(lower(s)) == lower(s),
{
    assert forall|i: int| 0 <= i < s.len() implies #[trigger] lower(s)[i] as int == if 'A' <= s[i] <= 'Z' {
        s[i] as int + 32
    } else {
        s[i] as int
    } by {
        assert(lower(s)[i] == lower_char(s[i]));
    }
    assert(lower(lower(s)) =~= lower(s)) by {
        assert forall|i: int| 0 <= i < s.len() implies lower(lower(s))[i] == lower(s)[i] by {
            assert(lower(s)[i] == lower_char(s[i]));
        }
    }
}

/// Texts are compared without regard to the case of ASCII letters, and with
/// regard to everything else.
pub proof fn law_alike(a: Seq<char>, b: Seq<char>)
    ensures
        same_folded(a, b) == alike(a, b),
{
    law_lower(a);
    law_lower(b);
    if same_folded(a, b) {
        assert forall|i: int| 0 <= i < a.len() implies same_letter(#[trigger] a[i], b[i]) by {
            assert(lower(a)[i] == lower(b)[i]);
        }
    }
    if alike(a, b) {
        assert forall|i: int| 0 <= i < a.len() implies lower(a)[i] == lower(b)[i] by {
            assert(same_letter(a[i], b[i]));
            assert(lower(a)[i] as int == lower(b)[i] as int);
        }
        assert(lower(a) =~= lower(b));
    }
}

proof fn lemma_trim_front(pad: Seq<char>, s: Seq<char>)
    requires
        forall|i: int| 0 <= i < pad.len() ==> is_space(#[trigger] pad[i]),
    ensures
        trim_front(pad + s) == trim_front(s),
    decreases pad.len(),
{
    if pad.len() == 0 {
        assert(pad + s =~= s);
    } else {
        let t = pad + s;
        assert(t[0] == pad[0]);
        assert(t.drop_first() =~= pad.drop_first() + s);
        assert forall|i: int| 0 <= i < pad.drop_first().len() implies is_space(#[trigger] pad.drop_first()[i]) by {
            assert(is_space(pad[i + 1]));
        }
        lemma_trim_front(pad.drop_first(), s);
    }
}

proof fn lemma_trim_back_pad(s: Seq<char>, pad: Seq<char>)
    requires
        forall|i: int| 0 <= i < pad.len() ==> is_space(#[trigger] pad[i]),
    ensures
        trim_back(s + pad) == trim_back(s),
    decreases pad.len(),
{
    if pad.len() == 0 {
        assert(s + pad =~= s);
    } else {
        let t = s + pad;
        assert(t.last() == pad[pad.len() - 1]);
        assert(t.drop_last() =~= s + pad.drop_last());
        lemma_trim_back_pad(s, pad.drop_last());
    }
}

/// White space around a text goes, and nothing else: a text that begins and
/// ends with something else comes back from whatever white space is put
/// around it, and nothing but white space is left of white space alone.
pub proof fn law_trimming(before: Seq<char>, s: Seq<char>, after: Seq<char>)
    requires
        forall|i: int| 0 <= i < before.len() ==> is_space(#[trigger] before[i]),
        forall|i: int| 0 <= i < after.len() ==> is_space(#[trigger] after[i]),
        s.len() > 0 ==> !is_space(s[0]) && !is_space(s.last()),
    ensures
        trimmed(before + s + after) == s,
{
    assert(before + s + after =~= before + (s + after));
    lemma_trim_front(before, s + after);
    if s.len() > 0 {
        assert((s + after)[0] == s[0]);
        assert(trim_front(s + after) == s + after);
        lemma_trim_back_pad(s, after);
    } else {
        assert(s + after =~= after + s);
        lemma_trim_front(after, s);
        assert(s =~= Seq::<char>::empty());
    }
}

/// The spaces that trimming knows: blanks, tabs and line ends, and no letter,
/// digit or mark of ASCII.
pub proof fn law_spaces(c: char)
    ensures
        c == ' ' || c == '\t' || c == '\n' || c == '\r' ==> is_space(c),
        '!' <= c <= '~' ==> !is_space(c),
        is_ascii_space(c) ==> is_space(c),
        '!' <= c <= '~' ==> !is_ascii_space(c),
        c == ' ' || c == '\t' || c == '\n' || c == '\r' ==> is_ascii_space(c),
{
}

/// The first place of a character is one where it stands, with none before it;
/// there is none only where it does not occur.
pub proof fn law_first_place(s: Seq<char>, c: char)
    ensures
        0 <= first_at(s, c) <= s.len(),
        first_at(s, c) < s.len() ==> s[first_at(s, c)] == c,
        forall|i: int| 0 <= i < first_at(s, c) ==> #[trigger] s[i] != c,
        s.contains(c) <==> first_at(s, c) < s.len(),
    decreases s.len(),
{
    if s.len() > 0 && s[0] != c {
        let d = s.drop_first();
        law_first_place(d, c);
        let at = first_at(d, c);
        assert forall|i: int| 0 <= i < first_at(s, c) implies #[trigger] s[i] != c by {
            if i > 0 {
                assert(d[i - 1] == s[i]);
            }
        }
        if at < d.len() {
            assert(s[at + 1] == d[at]);
        }
    }
    if s.contains(c) && first_at(s, c) == s.len() {
        let i = s.index_of(c);
        assert(s[i] != c);
    }
    if first_at(s, c) < s.len() {
        assert(s[first_at(s, c)] == c);
    }
}

/// The last place of a character is one where it stands, with none after it.
pub proof fn law_last_place(s: Seq<char>, c: char)
    ensures
        -1 <= last_at(s, c) < s.len(),
        last_at(s, c) >= 0 ==> s[last_at(s, c)] == c,
        forall|i: int| last_at(s, c) < i < s.len() ==> #[trigger] s[i] != c,
        s.contains(c) <==> last_at(s, c) >= 0,
    decreases s.len(),
{
    if s.len() > 0 && s.last() != c {
        let d = s.drop_last();
        law_last_place(d, c);
        assert forall|i: int| last_at(s, c) < i < s.len() implies #[trigger] s[i] != c by {
            if i < d.len() {
                assert(d[i] == s[i]);
            }
        }
    }
    if s.contains(c) && last_at(s, c) < 0 {
        let i = s.index_of(c);
        assert(s[i] != c);
    }
    if last_at(s, c) >= 0 {
        assert(s[last_at(s, c)] == c);
    }
}

/// A text begins with what it was put together from, and another text stands
/// in it exactly where it can be taken out of it.
pub proof fn law_parts_are_found(a: Seq<char>, p: Seq<char>, b: Seq<char>)
    ensures
        begins(p + b, p),
        has_text(a + p + b, p),
        begins(b, p) ==> b == p + b.skip(p.len() as int),
        has_text(b, p) ==> exists|i: int, j: int|
            0 <= i <= j <= b.len() && #[trigger] b.subrange(i, j) == p,
{
    assert((p + b).take(p.len() as int) =~= p);
    let s = a + p + b;
    assert(s.skip(a.len() as int).take(p.len() as int) =~= p);
    assert(begins(s.skip(a.len() as int), p));
    if begins(b, p) {
        assert(b =~= b.take(p.len() as int) + b.skip(p.len() as int));
    }
    if has_text(b, p) {
        let i = choose|i: int| 0 <= i <= b.len() && begins(#[trigger] b.skip(i), p);
        assert(b.subrange(i, i + p.len()) =~= b.skip(i).take(p.len() as int));
    }
}

proof fn lemma_split_parts(s: Seq<char>, sep: char)
    ensures
        split(s, sep).len() > 0,
        forall|i: int| 0 <= i < split(s, sep).len() ==> !(#[trigger] split(s, sep)[i]).contains(sep),
    decreases s.len(),
{
    let ps = split(s, sep);
    if s.len() > 0 {
        let d = s.drop_last();
        lemma_split_parts(d, sep);
        let qs = split(d, sep);
        assert(crate::text::marks(s, sep).drop_last() =~= crate::text::marks(d, sep));
        assert forall|i: int| 0 <= i < ps.len() implies !(#[trigger] ps[i]).contains(sep) by {
            if i < qs.len() - 1 {
                assert(ps[i] == qs[i]);
                assert(!qs[i].contains(sep));
            } else if s.last() != sep {
                assert(!qs[qs.len() - 1].contains(sep));
                let old = qs.last();
                assert(ps[i] == old.push(s.last()));
                if ps[i].contains(sep) {
                    let k = ps[i].index_of(sep);
                    assert(old[k] == sep);
                }
            } else if i == qs.len() - 1 {
                assert(ps[i] == qs[i]);
                assert(!qs[i].contains(sep));
            }
        }
    }
}

/// Splitting is the one way to cut a text at a separator: the parts hold none,
/// and with it between them they are the text. Parts that hold none come back
/// from what they were joined to.
pub proof fn law_splitting(s: Seq<char>, sep: char, parts: Seq<Seq<char>>)
    requires
        parts.len() > 0,
        forall|i: int| 0 <= i < parts.len() ==> !(#[trigger] parts[i]).contains(sep),
    ensures
        split(s, sep).len() > 0,
        forall|i: int| 0 <= i < split(s, sep).len() ==> !(#[trigger] split(s, sep)[i]).contains(sep),
        join(split(s, sep), seq![sep]) == s,
        split(join(parts, seq![sep]), sep) == parts,
    decreases parts.len(),
{
    lemma_split_parts(s, sep);
    crate::text::law_split_join(s, sep);
    let n = parts.len() - 1;
    assert(!parts[n].contains(sep));
    crate::text::lemma_split_none(parts[n], sep);
    if parts.len() == 1 {
        assert(parts =~= seq![parts[0]]);
    } else {
        let d = parts.drop_last();
        assert forall|i: int| 0 <= i < d.len() implies !(#[trigger] d[i]).contains(sep) by {
            assert(d[i] == parts[i]);
        }
        law_splitting(s, sep, d);
        crate::text::lemma_split_concat(join(d, seq![sep]), sep, parts[n]);
        assert(d + seq![parts[n]] =~= parts);
    }
}

/// Taking a character off an end takes all of it there, and nothing else.
pub proof fn law_stripping(s: Seq<char>, c: char, n: nat)
    requires
        s.len() > 0 ==> s[0] != c && s.last() != c,
    ensures
        strip_back(s + Seq::new(n, |i: int| c), c) == s,
        strip_front(Seq::new(n, |i: int| c) + s, c) == s,
    decreases n,
{
    let pad = Seq::new(n, |i: int| c);
    let a = s + pad;
    let b = pad + s;
    if n == 0 {
        assert(a =~= s);
        assert(b =~= s);
    } else {
        let less = Seq::new((n - 1) as nat, |i: int| c);
        law_stripping(s, c, (n - 1) as nat);
        assert(a.drop_last() =~= s + less);
        assert(b.drop_first() =~= less + s);
        assert(a.last() == c);
        assert(b[0] == c);
    }
}

} // verus!
