//! Text as sequences of characters: trimming, splitting, folding case.

use vstd::prelude::*;
use vstd::slice::slice_subrange;
use vstd::string::*;

verus! {

/// `c` in lower case, where it is an ASCII letter.
pub open spec fn lower_char(c: char) -> char {
    if 'A' <= c && c <= 'Z' {
        ((c as u32 + 32) as u32) as char
    } else {
        c
    }
}

/// `s` with its ASCII letters in lower case.
pub open spec fn lower(s: Seq<char>) -> Seq<char> {
    s.map_values(|c: char| lower_char(c))
}

/// Whether two texts are the same but for the case of ASCII letters.
pub open spec fn same_folded(a: Seq<char>, b: Seq<char>) -> bool {
    lower(a) == lower(b)
}

/// Whether `c` is white space, as Unicode has it.
pub open spec fn is_space(c: char) -> bool {
    let n = c as u32;
    ||| 0x09 <= n <= 0x0d
    ||| n == 0x20
    ||| n == 0x85
    ||| n == 0xa0
    ||| n == 0x1680
    ||| 0x2000 <= n <= 0x200a
    ||| n == 0x2028
    ||| n == 0x2029
    ||| n == 0x202f
    ||| n == 0x205f
    ||| n == 0x3000
}

/// Whether `c` is ASCII white space.
pub open spec fn is_ascii_space(c: char) -> bool {
    c == ' ' || c == '\t' || c == '\n' || c == '\x0c' || c == '\r'
}

/// `s` without the white space before it.
pub open spec fn trim_front(s: Seq<char>) -> Seq<char>
    decreases s.len(),
{
    if s.len() > 0 && is_space(s[0]) {
        trim_front(s.drop_first())
    } else {
        s
    }
}

/// `s` without the white space after it.
pub open spec fn trim_back(s: Seq<char>) -> Seq<char>
    decreases s.len(),
{
    if s.len() > 0 && is_space(s.last()) {
        trim_back(s.drop_last())
    } else {
        s
    }
}

/// `s` without the white space around it.
pub open spec fn trimmed(s: Seq<char>) -> Seq<char> {
    trim_back(trim_front(s))
}

/// `s` without the `c`s after it.
pub open spec fn strip_back(s: Seq<char>, c: char) -> Seq<char>
    decreases s.len(),
{
    if s.len() > 0 && s.last() == c {
        strip_back(s.drop_last(), c)
    } else {
        s
    }
}

/// `s` without the `c`s before it.
pub open spec fn strip_front(s: Seq<char>, c: char) -> Seq<char>
    decreases s.len(),
{
    if s.len() > 0 && s[0] == c {
        strip_front(s.drop_first(), c)
    } else {
        s
    }
}

/// Whether `p` stands at the beginning of `s`.
pub open spec fn begins(s: Seq<char>, p: Seq<char>) -> bool {
    p.len() <= s.len() && s.take(p.len() as int) == p
}

/// Whether `p` occurs in `s`.
pub open spec fn has_text(s: Seq<char>, p: Seq<char>) -> bool {
    exists|i: int| 0 <= i <= s.len() && begins(#[trigger] s.skip(i), p)
}

/// The first position of `c` in `s`, or the length of `s`.
pub open spec fn first_at(s: Seq<char>, c: char) -> int
    decreases s.len(),
{
    if s.len() == 0 || s[0] == c {
        0
    } else {
        1 + first_at(s.drop_first(), c)
    }
}

/// The last position of `c` in `s`, or -1.
pub open spec fn last_at(s: Seq<char>, c: char) -> int
    decreases s.len(),
{
    if s.len() == 0 {
        -1
    } else if s.last() == c {
        s.len() - 1
    } else {
        last_at(s.drop_last(), c)
    }
}

/// `s` cut into pieces: the characters marked by `cut` part them and are in
/// none.
pub open spec fn pieces(s: Seq<char>, cut: Seq<bool>) -> Seq<Seq<char>>
    decreases s.len(),
{
    if s.len() == 0 {
        seq![Seq::<char>::empty()]
    } else {
        let before = pieces(s.drop_last(), cut.drop_last());
        if cut.last() {
            before.push(Seq::<char>::empty())
        } else {
            before.drop_last().push(before.last().push(s.last()))
        }
    }
}

/// Which characters of `s` are `sep`.
pub open spec fn marks(s: Seq<char>, sep: char) -> Seq<bool> {
    s.map_values(|c: char| c == sep)
}

/// `s` split at each `sep`.
pub open spec fn split(s: Seq<char>, sep: char) -> Seq<Seq<char>> {
    pieces(s, marks(s, sep))
}

/// Whether a backslash escapes the character at `i`: one stands before it
/// that is not itself escaped.
pub open spec fn escaped(s: Seq<char>, i: int) -> bool
    decreases i,
{
    i > 0 && s[i - 1] == '\\' && !escaped(s, i - 1)
}

/// Which characters of `s` are an unescaped `sep`.
pub open spec fn bare_marks(s: Seq<char>, sep: char) -> Seq<bool> {
    Seq::new(s.len(), |i: int| s[i] == sep && s[i] != '\\' && !escaped(s, i))
}

/// `s` split at each `sep` that no backslash escapes.
pub open spec fn split_bare(s: Seq<char>, sep: char) -> Seq<Seq<char>> {
    pieces(s, bare_marks(s, sep))
}

/// `parts` with `sep` between them.
pub open spec fn join(parts: Seq<Seq<char>>, sep: Seq<char>) -> Seq<char>
    decreases parts.len(),
{
    if parts.len() == 0 {
        Seq::empty()
    } else if parts.len() == 1 {
        parts[0]
    } else {
        join(parts.drop_last(), sep) + sep + parts.last()
    }
}

/// The texts of `parts`.
pub open spec fn texts(parts: Seq<&[char]>) -> Seq<Seq<char>> {
    parts.map_values(|p: &[char]| p@)
}

/// The texts of `strings`.
pub open spec fn strings(s: Seq<String>) -> Seq<Seq<char>> {
    s.map_values(|x: String| x@)
}

proof fn lemma_join_pieces(s: Seq<char>, cut: Seq<bool>, sep: char)
    requires
        cut.len() == s.len(),
        forall|i: int| 0 <= i < s.len() && #[trigger] cut[i] ==> s[i] == sep,
    ensures
        pieces(s, cut).len() > 0,
        join(pieces(s, cut), seq![sep]) == s,
    decreases s.len(),
{
    let sp = seq![sep];
    if s.len() > 0 {
        assert forall|i: int| 0 <= i < s.len() - 1 && #[trigger] cut.drop_last()[i] implies s.drop_last()[i] == sep by {
            assert(cut[i]);
        }
        lemma_join_pieces(s.drop_last(), cut.drop_last(), sep);
        let b = pieces(s.drop_last(), cut.drop_last());
        let p = pieces(s, cut);
        if cut.last() {
            assert(cut[cut.len() - 1]);
            assert(p.drop_last() =~= b);
            assert(join(p, sp) =~= s.drop_last() + sp + Seq::<char>::empty());
            assert(join(p, sp) =~= s);
        } else {
            assert(p.drop_last() =~= b.drop_last());
            if b.len() == 1 {
                assert(p.len() == 1);
                assert(join(p, sp) =~= s);
            } else {
                assert(join(p, sp) =~= join(b.drop_last(), sp) + sp + b.last().push(s.last()));
                assert(join(p, sp) =~= join(b, sp).push(s.last()));
                assert(s =~= s.drop_last().push(s.last()));
            }
        }
    } else {
        assert(join(pieces(s, cut), sp) =~= s);
    }
}

/// Splitting loses nothing: the parts with the separator between them are the
/// text.
pub proof fn law_split_join(s: Seq<char>, sep: char)
    ensures
        join(split(s, sep), seq![sep]) == s,
        split(s, sep).len() > 0,
{
    lemma_join_pieces(s, marks(s, sep), sep);
}

/// Splitting at unescaped separators loses nothing either.
pub proof fn law_split_bare_join(s: Seq<char>, sep: char)
    ensures
        join(split_bare(s, sep), seq![sep]) == s,
        split_bare(s, sep).len() > 0,
{
    lemma_join_pieces(s, bare_marks(s, sep), sep);
}

/// A text without the separator is one part.
pub proof fn lemma_split_none(s: Seq<char>, sep: char)
    requires
        !s.contains(sep),
    ensures
        split(s, sep) == seq![s],
    decreases s.len(),
{
    if s.len() > 0 {
        let d = s.drop_last();
        assert forall|x: char| d.contains(x) implies s.contains(x) by {
            let k = d.index_of(x);
            assert(s[k] == x);
        }
        assert(s.contains(s[s.len() - 1]));
        lemma_split_none(d, sep);
        assert(marks(s, sep).drop_last() =~= marks(d, sep));
        assert(d.push(s.last()) =~= s);
        assert(split(s, sep) =~= seq![s]);
    } else {
        assert(s =~= Seq::<char>::empty());
        assert(split(s, sep) =~= seq![s]);
    }
}

/// What stands before the first separator is the first part, and the parts of
/// what stands after it are the others.
pub proof fn lemma_split_front(a: Seq<char>, sep: char, b: Seq<char>)
    requires
        !a.contains(sep),
    ensures
        split(a + seq![sep] + b, sep) == seq![a] + split(b, sep),
    decreases b.len(),
{
    let s = a + seq![sep] + b;
    if b.len() == 0 {
        assert(s.drop_last() =~= a);
        lemma_split_none(a, sep);
        assert(marks(s, sep).drop_last() =~= marks(a, sep));
        assert(split(b, sep) =~= seq![Seq::<char>::empty()]);
        assert(split(s, sep) =~= seq![a] + split(b, sep));
    } else {
        let d = b.drop_last();
        assert(s.drop_last() =~= a + seq![sep] + d);
        lemma_split_front(a, sep, d);
        assert(marks(s, sep).drop_last() =~= marks(s.drop_last(), sep));
        assert(marks(b, sep).drop_last() =~= marks(d, sep));
        assert(marks(s, sep).last() == marks(b, sep).last());
        law_split_join(d, sep);
        let before = seq![a] + split(d, sep);
        assert(before.last() == split(d, sep).last());
        assert(before.drop_last() =~= seq![a] + split(d, sep).drop_last());
        assert(split(s, sep) =~= seq![a] + split(b, sep));
    }
}

/// The parts of two texts with the separator between them are the parts of
/// the one and of the other.
pub proof fn lemma_split_concat(a: Seq<char>, sep: char, b: Seq<char>)
    ensures
        split(a + seq![sep] + b, sep) == split(a, sep) + split(b, sep),
    decreases b.len(),
{
    let s = a + seq![sep] + b;
    law_split_join(a, sep);
    if b.len() == 0 {
        assert(s.drop_last() =~= a);
        assert(marks(s, sep).drop_last() =~= marks(a, sep));
        assert(split(b, sep) =~= seq![Seq::<char>::empty()]);
        assert(split(s, sep) =~= split(a, sep) + split(b, sep));
    } else {
        let d = b.drop_last();
        assert(s.drop_last() =~= a + seq![sep] + d);
        lemma_split_concat(a, sep, d);
        assert(marks(s, sep).drop_last() =~= marks(s.drop_last(), sep));
        assert(marks(b, sep).drop_last() =~= marks(d, sep));
        assert(marks(s, sep).last() == marks(b, sep).last());
        law_split_join(d, sep);
        let before = split(a, sep) + split(d, sep);
        assert(before.last() == split(d, sep).last());
        assert(before.drop_last() =~= split(a, sep) + split(d, sep).drop_last());
        assert(split(s, sep) =~= split(a, sep) + split(b, sep));
    }
}

/// Trimming the end keeps the beginning.
pub proof fn lemma_trim_back(s: Seq<char>)
    ensures
        trim_back(s).len() <= s.len(),
        trim_back(s) == s.take(trim_back(s).len() as int),
    decreases s.len(),
{
    if s.len() > 0 && is_space(s.last()) {
        lemma_trim_back(s.drop_last());
        let t = trim_back(s);
        assert(s.drop_last().take(t.len() as int) =~= s.take(t.len() as int));
    } else {
        assert(s.take(s.len() as int) =~= s);
    }
}

/// `String::push`: adds a character to the end.
#[verifier::external_body]
pub(crate) fn push_char(s: &mut String, c: char)
    ensures
        final(s)@ == old(s)@.push(c),
{
    s.push(c);
}

/// `String::into_boxed_str`: the same text without spare capacity.
#[verifier::external_body]
pub(crate) fn boxed(s: String) -> (r: Box<str>)
    ensures
        r@ == s@,
{
    s.into_boxed_str()
}

/// The characters of `s`.
pub fn chars_of(s: &str) -> (r: Vec<char>)
    ensures
        r@ == s@,
{
    let mut out: Vec<char> = Vec::new();
    for c in it: s.chars()
        invariant
            out@ =~= it.seq().take(it.index() as int),
            it.seq() == s@,
    {
        out.push(c);
    }
    assert(s@.take(s@.len() as int) =~= s@);
    out
}

/// The string that `c` spells.
pub fn string_of(c: &[char]) -> (r: String)
    ensures
        r@ == c@,
{
    let mut out = String::new();
    let mut i: usize = 0;
    while i < c.len()
        invariant
            i <= c@.len(),
            out@ =~= c@.take(i as int),
        decreases c@.len() - i,
    {
        push_char(&mut out, c[i]);
        i = i + 1;
    }
    assert(c@.take(i as int) =~= c@);
    out
}

/// `s` in lower case, as far as its letters are ASCII.
pub fn lowered(c: &[char]) -> (r: Vec<char>)
    ensures
        r@ == lower(c@),
{
    let mut out: Vec<char> = Vec::new();
    let mut i: usize = 0;
    while i < c.len()
        invariant
            i <= c@.len(),
            out@ =~= lower(c@.take(i as int)),
        decreases c@.len() - i,
    {
        out.push(fold(c[i]));
        i = i + 1;
    }
    assert(c@.take(i as int) =~= c@);
    out
}

/// `c` in lower case, where it is an ASCII letter.
pub fn fold(c: char) -> (r: char)
    ensures
        r == lower_char(c),
{
    if 'A' <= c && c <= 'Z' {
        ((c as u8) + 32) as char
    } else {
        c
    }
}

/// Whether two texts are the same.
pub fn same(a: &[char], b: &[char]) -> (r: bool)
    ensures
        r == (a@ == b@),
{
    if a.len() != b.len() {
        return false;
    }
    let mut i: usize = 0;
    while i < a.len()
        invariant
            a@.len() == b@.len(),
            i <= a@.len(),
            forall|k: int| 0 <= k < i ==> a@[k] == b@[k],
        decreases a@.len() - i,
    {
        if a[i] != b[i] {
            return false;
        }
        i = i + 1;
    }
    assert(a@ =~= b@);
    true
}

/// Whether `c` spells `lit`.
pub fn reads_as(c: &[char], lit: &str) -> (r: bool)
    ensures
        r == (c@ == lit@),
{
    let l = chars_of(lit);
    same(c, l.as_slice())
}

/// Whether two texts are the same but for the case of ASCII letters.
pub fn same_but_case(a: &[char], b: &[char]) -> (r: bool)
    ensures
        r == same_folded(a@, b@),
{
    if a.len() != b.len() {
        assert(lower(a@).len() != lower(b@).len());
        return false;
    }
    let mut i: usize = 0;
    while i < a.len()
        invariant
            a@.len() == b@.len(),
            i <= a@.len(),
            forall|k: int| 0 <= k < i ==> lower_char(#[trigger] a@[k]) == lower_char(b@[k]),
        decreases a@.len() - i,
    {
        if fold(a[i]) != fold(b[i]) {
            assert(lower(a@)[i as int] != lower(b@)[i as int]);
            return false;
        }
        i = i + 1;
    }
    assert(lower(a@) =~= lower(b@));
    true
}

/// Whether `c` begins with `p`.
pub fn starts(c: &[char], p: &[char]) -> (r: bool)
    ensures
        r == begins(c@, p@),
{
    if p.len() > c.len() {
        return false;
    }
    same(slice_subrange(c, 0, p.len()), p)
}

/// Whether `c` begins with `lit`.
pub fn starts_with(c: &[char], lit: &str) -> (r: bool)
    ensures
        r == begins(c@, lit@),
{
    let l = chars_of(lit);
    starts(c, l.as_slice())
}

/// Whether `lit` occurs in `c`.
pub fn contains(c: &[char], lit: &str) -> (r: bool)
    ensures
        r == has_text(c@, lit@),
{
    let l = chars_of(lit);
    let n: usize = c.len();
    let mut i: usize = 0;
    loop
        invariant
            n == c@.len(),
            i <= n,
            l@ == lit@,
            forall|k: int| 0 <= k < i ==> !begins(#[trigger] c@.skip(k), lit@),
        decreases n - i,
    {
        assert(c@.subrange(i as int, n as int) =~= c@.skip(i as int));
        if starts(slice_subrange(c, i, n), l.as_slice()) {
            return true;
        }
        if i == n {
            return false;
        }
        i = i + 1;
    }
}

/// Whether `c` is white space, as Unicode has it.
pub fn space(c: char) -> (r: bool)
    ensures
        r == is_space(c),
{
    let n: u32 = c as u32;
    (0x09 <= n && n <= 0x0d) || n == 0x20 || n == 0x85 || n == 0xa0 || n == 0x1680 || (0x2000 <= n && n <= 0x200a)
        || n == 0x2028 || n == 0x2029 || n == 0x202f || n == 0x205f || n == 0x3000
}

/// Whether `c` is ASCII white space.
pub fn ascii_space(c: char) -> (r: bool)
    ensures
        r == is_ascii_space(c),
{
    c == ' ' || c == '\t' || c == '\n' || c == '\x0c' || c == '\r'
}

/// How many characters of white space `c` begins with.
pub fn leading(c: &[char]) -> (r: usize)
    ensures
        r <= c@.len(),
        c@.skip(r as int) == trim_front(c@),
        forall|k: int| 0 <= k < r ==> is_space(#[trigger] c@[k]),
{
    let mut i: usize = 0;
    assert(c@.skip(0) =~= c@);
    while i < c.len() && space(c[i])
        invariant
            i <= c@.len(),
            trim_front(c@) == trim_front(c@.skip(i as int)),
            forall|k: int| 0 <= k < i ==> is_space(#[trigger] c@[k]),
        decreases c@.len() - i,
    {
        assert(c@.skip(i as int).drop_first() =~= c@.skip(i + 1));
        i = i + 1;
    }
    i
}

/// `c` without the white space around it.
pub fn trim<'a>(c: &'a [char]) -> (r: &'a [char])
    ensures
        r@ == trimmed(c@),
{
    let i = leading(c);
    let n: usize = c.len();
    let mut j: usize = n;
    assert(c@.subrange(i as int, n as int) =~= c@.skip(i as int));
    while j > i && space(c[j - 1])
        invariant
            i <= j <= n,
            n == c@.len(),
            trim_back(c@.subrange(i as int, j as int)) == trimmed(c@),
        decreases j,
    {
        assert(c@.subrange(i as int, j as int).drop_last() =~= c@.subrange(i as int, j - 1));
        assert(c@.subrange(i as int, j as int).last() == c@[j - 1]);
        j = j - 1;
    }
    assert(j > i ==> c@.subrange(i as int, j as int).last() == c@[j - 1]);
    slice_subrange(c, i, j)
}

/// `c` without the `x`s after it.
pub fn without_back<'a>(c: &'a [char], x: char) -> (r: &'a [char])
    ensures
        r@ == strip_back(c@, x),
{
    let n: usize = c.len();
    let mut j: usize = n;
    assert(c@.take(n as int) =~= c@);
    while j > 0 && c[j - 1] == x
        invariant
            j <= n,
            n == c@.len(),
            strip_back(c@.take(j as int), x) == strip_back(c@, x),
        decreases j,
    {
        assert(c@.take(j as int).drop_last() =~= c@.take(j - 1));
        assert(c@.take(j as int).last() == c@[j - 1]);
        j = j - 1;
    }
    assert(j > 0 ==> c@.take(j as int).last() == c@[j - 1]);
    slice_subrange(c, 0, j)
}

/// `c` without the `x`s before it.
pub fn without_front<'a>(c: &'a [char], x: char) -> (r: &'a [char])
    ensures
        r@ == strip_front(c@, x),
{
    let n: usize = c.len();
    let mut i: usize = 0;
    assert(c@.skip(0) =~= c@);
    while i < n && c[i] == x
        invariant
            i <= n,
            n == c@.len(),
            strip_front(c@.skip(i as int), x) == strip_front(c@, x),
        decreases n - i,
    {
        assert(c@.skip(i as int).drop_first() =~= c@.skip(i + 1));
        i = i + 1;
    }
    assert(c@.skip(i as int) =~= c@.subrange(i as int, n as int));
    slice_subrange(c, i, n)
}

/// The first position of `x` in `c`, or the length of `c`.
pub fn find(c: &[char], x: char) -> (r: usize)
    ensures
        r <= c@.len(),
        r == first_at(c@, x),
        r < c@.len() ==> c@[r as int] == x,
        forall|k: int| 0 <= k < r ==> c@[k] != x,
{
    let mut i: usize = 0;
    assert(c@.skip(0) =~= c@);
    while i < c.len() && c[i] != x
        invariant
            i <= c@.len(),
            first_at(c@, x) == i + first_at(c@.skip(i as int), x),
            forall|k: int| 0 <= k < i ==> c@[k] != x,
        decreases c@.len() - i,
    {
        assert(c@.skip(i as int).drop_first() =~= c@.skip(i + 1));
        i = i + 1;
    }
    i
}

/// The last position of `x` in `c`, if it occurs.
pub fn rfind(c: &[char], x: char) -> (r: Option<usize>)
    ensures
        match r {
            Some(i) => i < c@.len() && i == last_at(c@, x) && c@[i as int] == x,
            None => last_at(c@, x) == -1,
        },
{
    let n: usize = c.len();
    let mut j: usize = n;
    assert(c@.take(n as int) =~= c@);
    while j > 0
        invariant
            j <= n,
            n == c@.len(),
            last_at(c@.take(j as int), x) == last_at(c@, x),
        decreases j,
    {
        assert(c@.take(j as int).drop_last() =~= c@.take(j - 1));
        assert(c@.take(j as int).last() == c@[j - 1]);
        if c[j - 1] == x {
            return Some(j - 1);
        }
        j = j - 1;
    }
    None
}

/// `c` cut into pieces at the characters marked by `cut`.
pub fn cut_up<'a>(c: &'a [char], cut: &Vec<bool>) -> (r: Vec<&'a [char]>)
    requires
        cut@.len() == c@.len(),
    ensures
        texts(r@) == pieces(c@, cut@),
{
    let mut out: Vec<&'a [char]> = Vec::new();
    let mut start: usize = 0;
    let n: usize = c.len();
    let mut i: usize = 0;
    proof {
        assert(c@.subrange(0, 0) =~= Seq::<char>::empty());
        assert(texts(out@).push(c@.subrange(0, 0)) =~= pieces(c@.take(0), cut@.take(0)));
    }
    while i < n
        invariant
            n == c@.len(),
            cut@.len() == n,
            start <= i <= n,
            texts(out@).push(c@.subrange(start as int, i as int)) == pieces(c@.take(i as int), cut@.take(i as int)),
        decreases n - i,
    {
        let ghost before = out@;
        let ghost old_start = start as int;
        proof {
            assert(c@.take(i + 1).drop_last() =~= c@.take(i as int));
            assert(cut@.take(i + 1).drop_last() =~= cut@.take(i as int));
            assert(cut@.take(i + 1).last() == cut@[i as int]);
        }
        if cut[i] {
            out.push(slice_subrange(c, start, i));
            start = i + 1;
            proof {
                assert(texts(out@) =~= texts(before).push(c@.subrange(old_start, i as int)));
                assert(c@.subrange(start as int, i + 1) =~= Seq::<char>::empty());
            }
        } else {
            proof {
                let p = pieces(c@.take(i as int), cut@.take(i as int));
                assert(p.drop_last() =~= texts(before));
                assert(c@.subrange(old_start, i + 1) =~= c@.subrange(old_start, i as int).push(c@[i as int]));
            }
        }
        i = i + 1;
    }
    let ghost before = out@;
    out.push(slice_subrange(c, start, n));
    proof {
        assert(texts(out@) =~= texts(before).push(c@.subrange(start as int, n as int)));
        assert(c@.take(n as int) =~= c@);
        assert(cut@.take(n as int) =~= cut@);
    }
    out
}

/// `c` split at each `sep`.
pub fn split_at_each<'a>(c: &'a [char], sep: char) -> (r: Vec<&'a [char]>)
    ensures
        texts(r@) == split(c@, sep),
{
    let mut cut: Vec<bool> = Vec::new();
    let mut i: usize = 0;
    while i < c.len()
        invariant
            i <= c@.len(),
            cut@ =~= marks(c@.take(i as int), sep),
        decreases c@.len() - i,
    {
        cut.push(c[i] == sep);
        i = i + 1;
    }
    assert(c@.take(i as int) =~= c@);
    cut_up(c, &cut)
}

/// `c` split at each `sep` that no backslash escapes.
pub fn split_unescaped<'a>(c: &'a [char], sep: char) -> (r: Vec<&'a [char]>)
    ensures
        texts(r@) == split_bare(c@, sep),
{
    let mut cut: Vec<bool> = Vec::new();
    let mut esc = false;
    let mut i: usize = 0;
    while i < c.len()
        invariant
            i <= c@.len(),
            esc == escaped(c@, i as int),
            cut@ =~= bare_marks(c@, sep).take(i as int),
        decreases c@.len() - i,
    {
        let x = c[i];
        cut.push(x == sep && x != '\\' && !esc);
        esc = x == '\\' && !esc;
        i = i + 1;
    }
    assert(bare_marks(c@, sep).take(i as int) =~= bare_marks(c@, sep));
    cut_up(c, &cut)
}

/// `a` and then `b`.
pub fn joined(a: &str, b: &str) -> (r: String)
    ensures
        r@ == a@ + b@,
{
    let mut out = a.to_owned();
    let c = chars_of(b);
    let mut i: usize = 0;
    while i < c.len()
        invariant
            i <= c@.len(),
            c@ == b@,
            out@ =~= a@ + b@.take(i as int),
        decreases c@.len() - i,
    {
        push_char(&mut out, c[i]);
        i = i + 1;
    }
    assert(b@.take(i as int) =~= b@);
    out
}

/// A text in quotes, as the standard library's `Debug` for `str` writes it.
pub uninterp spec fn quoted_text(s: Seq<char>) -> Seq<char>;

/// The `Debug` form of a `str`: quotes around it and escapes in it.
#[verifier::external_body]
pub(crate) fn quoted(s: &str) -> (r: String)
    ensures
        r@ == quoted_text(s@),
{
    format!("{s:?}")
}

} // verus!
