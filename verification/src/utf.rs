//! Texts and the bytes that encode them.

use vstd::prelude::*;
use vstd::string::*;
use vstd::utf8::*;

verus! {

/// The bytes of two texts one after the other are their bytes one after the
/// other.
pub proof fn lemma_encode_concat(a: Seq<char>, b: Seq<char>)
    ensures
        encode_utf8(a + b) == encode_utf8(a) + encode_utf8(b),
    decreases a.len(),
{
    if a.len() == 0 {
        assert(a + b =~= b);
        assert(encode_utf8(a) + encode_utf8(b) =~= encode_utf8(b));
    } else {
        assert((a + b).drop_first() =~= a.drop_first() + b);
        lemma_encode_concat(a.drop_first(), b);
        assert(encode_utf8(a + b) =~= encode_utf8(a) + encode_utf8(b));
    }
}

/// Where one text ends and the other begins is a boundary between characters.
pub proof fn lemma_encode_boundary(a: Seq<char>, b: Seq<char>)
    ensures
        is_char_boundary(encode_utf8(a + b), encode_utf8(a).len() as int),
    decreases a.len(),
{
    encode_utf8_valid_utf8(a + b);
    if a.len() > 0 {
        encode_utf8_first_scalar(a + b);
        assert((a + b).drop_first() =~= a.drop_first() + b);
        let whole = encode_utf8(a + b);
        assert(pop_first_scalar(whole) =~= encode_utf8(a.drop_first() + b));
        lemma_encode_boundary(a.drop_first(), b);
        lemma_encode_concat(a, b);
        assert((a + b)[0] == a[0]);
    }
}

/// Texts with the same bytes are the same.
pub proof fn lemma_encode_injective(a: Seq<char>, b: Seq<char>)
    requires
        encode_utf8(a) == encode_utf8(b),
    ensures
        a == b,
{
    encode_utf8_decode_utf8(a);
    encode_utf8_decode_utf8(b);
}

/// A text has no more characters than bytes.
pub proof fn lemma_encode_len(a: Seq<char>)
    ensures
        encode_utf8(a).len() >= a.len(),
        a.len() > 0 ==> encode_utf8(a).len() > 0,
    decreases a.len(),
{
    if a.len() > 0 {
        lemma_encode_len(a.drop_first());
    }
}

/// An ASCII character is one byte.
pub proof fn lemma_encode_ascii(c: char)
    requires
        (c as u32) < 128,
    ensures
        encode_utf8(seq![c]).len() == 1,
{
    let s = seq![c];
    assert(s.drop_first() =~= Seq::<char>::empty());
    assert(encode_utf8(s.drop_first()) =~= Seq::<u8>::empty());
}

/// `str::split_once`: the text before the first `c` and the text after it,
/// where there is one.
#[verifier::external_body]
pub(crate) fn cut_once<'a>(s: &'a str, c: char) -> (r: Option<(&'a str, &'a str)>)
    ensures
        match r {
            Some((a, b)) => s@ == a@ + seq![c] + b@ && !a@.contains(c),
            None => !s@.contains(c),
        },
{
    s.split_once(c)
}

/// The text from byte `off` on, `len` bytes long, where that is a text.
pub open spec fn text_at(s: Seq<char>, off: int, len: int) -> Seq<char> {
    let bytes = encode_utf8(s);
    if off + len <= bytes.len() && is_char_boundary(bytes, off) && is_char_boundary(bytes, off + len) {
        decode_utf8(bytes.subrange(off, off + len))
    } else {
        Seq::empty()
    }
}

/// A text between two others is found where it stands.
pub proof fn lemma_text_at(a: Seq<char>, t: Seq<char>, b: Seq<char>)
    ensures
        text_at(a + t + b, encode_utf8(a).len() as int, encode_utf8(t).len() as int) == t,
{
    lemma_encode_concat(a + t, b);
    lemma_encode_concat(a, t);
    lemma_encode_boundary(a, t + b);
    lemma_encode_boundary(a + t, b);
    assert(a + t + b =~= a + (t + b));
    let off = encode_utf8(a).len() as int;
    let len = encode_utf8(t).len() as int;
    assert(encode_utf8(a + t + b).subrange(off, off + len) =~= encode_utf8(t));
    encode_utf8_decode_utf8(t);
}

/// The text from byte `off` on, `len` bytes long, or nothing where that is no
/// text.
pub fn slice_text<'a>(s: &'a str, off: usize, len: usize) -> (r: &'a str)
    ensures
        r@ == text_at(s@, off as int, len as int),
{
    let n: usize = s.as_bytes().len();
    proof {
        encode_utf8_valid_utf8(s@);
    }
    if off > n || len > n - off || !s.is_char_boundary(off) || !s.is_char_boundary(off + len) {
        return empty_text(s);
    }
    let (_, tail) = s.split_at(off);
    proof {
        lemma_later_boundary(s.spec_bytes(), off as int, off + len);
    }
    let (head, _) = tail.split_at(len);
    proof {
        let bytes = s.spec_bytes();
        assert(head.spec_bytes() =~= bytes.subrange(off as int, off + len));
        encode_utf8_decode_utf8(head@);
    }
    head
}

/// The empty text.
fn empty_text<'a>(s: &'a str) -> (r: &'a str)
    ensures
        r@ == Seq::<char>::empty(),
{
    proof {
        encode_utf8_valid_utf8(s@);
    }
    let (head, _) = s.split_at(0);
    proof {
        assert(head.spec_bytes() =~= Seq::<u8>::empty());
        lemma_encode_len(head@);
        assert(head@ =~= Seq::<char>::empty());
    }
    head
}

/// A boundary after another is one of what follows that other.
proof fn lemma_later_boundary(bytes: Seq<u8>, i: int, j: int)
    requires
        valid_utf8(bytes),
        0 <= i <= j <= bytes.len(),
        is_char_boundary(bytes, i),
        is_char_boundary(bytes, j),
    ensures
        valid_utf8(bytes.subrange(i, bytes.len() as int)),
        is_char_boundary(bytes.subrange(i, bytes.len() as int), j - i),
    decreases bytes.len(),
{
    valid_utf8_split(bytes, i);
    let tail = bytes.subrange(i, bytes.len() as int);
    if i == 0 {
        assert(tail =~= bytes);
    } else if j == i {
        is_char_boundary_start_end_of_seq(tail);
    } else if j == bytes.len() {
        is_char_boundary_start_end_of_seq(tail);
    } else {
        is_char_boundary_iff_not_is_continuation_byte(bytes, j);
        is_char_boundary_iff_not_is_continuation_byte(tail, j - i);
        assert(tail[j - i] == bytes[j]);
    }
}

} // verus!
