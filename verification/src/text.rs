//! UTF-8 facts about string slices: where a `str` may be split so that the
//! pieces hold given character sequences.

use vstd::prelude::*;
use vstd::utf8::*;

verus! {

/// The number of bytes that the UTF-8 encoding of `s` takes.
pub open spec fn utf8_len(s: Seq<char>) -> nat {
    encode_utf8(s).len()
}

/// Encoding distributes over concatenation.
pub proof fn lemma_encode_concat(a: Seq<char>, b: Seq<char>)
    ensures
        encode_utf8(a + b) == encode_utf8(a) + encode_utf8(b),
    decreases a.len(),
{
    if a.len() == 0 {
        assert(a + b =~= b);
        assert(encode_utf8(a) =~= Seq::<u8>::empty());
        assert(encode_utf8(a) + encode_utf8(b) =~= encode_utf8(b));
    } else {
        lemma_encode_concat(a.drop_first(), b);
        assert((a + b).drop_first() =~= a.drop_first() + b);
        assert((a + b)[0] == a[0]);
        assert(encode_utf8(a + b) =~= encode_scalar(a[0] as u32) + (encode_utf8(a.drop_first())
            + encode_utf8(b)));
    }
}

/// The encoding of a prefix ends on a character boundary of the whole encoding.
pub proof fn lemma_prefix_is_char_boundary(a: Seq<char>, b: Seq<char>)
    ensures
        valid_utf8(encode_utf8(a + b)),
        is_char_boundary(encode_utf8(a + b), utf8_len(a) as int),
    decreases a.len(),
{
    let bytes = encode_utf8(a + b);
    encode_utf8_valid_utf8(a + b);
    if a.len() == 0 {
        assert(encode_utf8(a) =~= Seq::<u8>::empty());
    } else {
        lemma_prefix_is_char_boundary(a.drop_first(), b);
        lemma_encode_concat(a, b);
        encode_utf8_first_scalar(a + b);
        assert((a + b).drop_first() =~= a.drop_first() + b);
        assert((a + b)[0] == a[0]);
        let first = encode_scalar(a[0] as u32);
        assert(encode_utf8(a) == first + encode_utf8(a.drop_first()));
        assert(pop_first_scalar(bytes) =~= encode_utf8((a + b).drop_first()));
        assert(first.len() >= 1);
    }
}

/// A sequence of characters is determined by its encoding.
pub proof fn lemma_encode_injective(a: Seq<char>, b: Seq<char>)
    requires
        encode_utf8(a) == encode_utf8(b),
    ensures
        a == b,
{
    encode_utf8_decode_utf8(a);
    encode_utf8_decode_utf8(b);
}

/// Splits `s`, whose characters are `a + b`, into a piece holding `a` and a
/// piece holding `b`; `mid` is the byte length of `a`.
pub fn split_chars<'a>(s: &'a str, mid: usize, Ghost(a): Ghost<Seq<char>>, Ghost(b): Ghost<
    Seq<char>,
>) -> (r: (&'a str, &'a str))
    requires
        s@ == a + b,
        mid == utf8_len(a),
    ensures
        r.0@ == a,
        r.1@ == b,
{
    proof {
        lemma_prefix_is_char_boundary(a, b);
        lemma_encode_concat(a, b);
    }
    let r = s.split_at(mid);
    proof {
        let bytes = encode_utf8(a + b);
        assert(encode_utf8(a) =~= bytes.subrange(0, mid as int));
        assert(encode_utf8(b) =~= bytes.subrange(mid as int, bytes.len() as int));
        lemma_encode_injective(r.0@, a);
        lemma_encode_injective(r.1@, b);
    }
    r
}

/// The byte length of a string slice, which is the length of the UTF-8
/// encoding of its characters.
pub fn str_byte_len(s: &str) -> (n: usize)
    ensures
        n == utf8_len(s@),
{
    s.as_bytes().len()
}

/// The number of bytes that the UTF-8 encoding of `c` takes: one below
/// U+0080, two below U+0800, three below U+10000, four above.
pub fn char_byte_len(c: char) -> (n: usize)
    ensures
        n == utf8_len(seq![c]),
{
    proof {
        char_is_scalar(c);
        let one = seq![c];
        assert(one.drop_first() =~= Seq::<char>::empty());
        assert(encode_utf8(one.drop_first()) =~= Seq::<u8>::empty());
        assert(encode_utf8(one) == encode_scalar(one[0] as u32) + encode_utf8(one.drop_first()));
        assert(encode_utf8(one) =~= encode_scalar(c as u32));
    }
    let v = c as u32;
    if v < 0x80 {
        1
    } else if v < 0x800 {
        2
    } else if v < 0x10000 {
        3
    } else {
        4
    }
}

/// The byte length of `a + b` is the sum of the byte lengths.
pub proof fn lemma_utf8_len_concat(a: Seq<char>, b: Seq<char>)
    ensures
        utf8_len(a + b) == utf8_len(a) + utf8_len(b),
{
    lemma_encode_concat(a, b);
}

/// Extending a prefix of `s` by one character adds that character's byte length.
pub proof fn lemma_utf8_len_take_step(s: Seq<char>, k: int)
    requires
        0 <= k < s.len(),
    ensures
        utf8_len(s.take(k + 1)) == utf8_len(s.take(k)) + utf8_len(seq![s[k]]),
        utf8_len(s.take(k + 1)) <= utf8_len(s),
{
    assert(s.take(k + 1) =~= s.take(k) + seq![s[k]]);
    lemma_utf8_len_concat(s.take(k), seq![s[k]]);
    assert(s =~= s.take(k + 1) + s.skip(k + 1));
    lemma_utf8_len_concat(s.take(k + 1), s.skip(k + 1));
}

} // verus!
