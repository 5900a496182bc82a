//! A text as its characters, with the byte offset of each in UTF-8.

use vstd::prelude::*;
use vstd::utf8::{encode_scalar, encode_utf8};

verus! {

broadcast use vstd::string::group_string_axioms;

/// The number of bytes that the first `l` characters of `text` take in UTF-8.
pub open spec fn byte_offset(text: Seq<char>, l: int) -> nat {
    encode_utf8(text.take(l)).len()
}

/// The number of bytes that `c` takes in UTF-8.
pub open spec fn utf8_width(c: char) -> nat {
    encode_scalar(c as u32).len()
}

/// The encoding of two texts, one behind the other, is the encoding of
/// the first and then that of the second.
pub proof fn lemma_encode_concat(a: Seq<char>, b: Seq<char>)
    ensures
        encode_utf8(a + b) == encode_utf8(a) + encode_utf8(b),
    decreases a.len(),
{
    if a.len() == 0 {
        assert(a + b =~= b);
        assert(encode_utf8(a) + encode_utf8(b) =~= encode_utf8(b));
    } else {
        lemma_encode_concat(a.drop_first(), b);
        assert((a + b).drop_first() =~= a.drop_first() + b);
        assert((a + b)[0] == a[0]);
        assert(encode_utf8(a + b) =~= encode_utf8(a) + encode_utf8(b));
    }
}

/// Each character adds its width to the offset, and no offset exceeds the
/// length of the whole text in bytes.
pub proof fn lemma_byte_offset_step(text: Seq<char>, l: int)
    requires
        0 <= l < text.len(),
    ensures
        byte_offset(text, l + 1) == byte_offset(text, l) + utf8_width(text[l]),
        byte_offset(text, l + 1) <= encode_utf8(text).len(),
        1 <= utf8_width(text[l]) <= 4,
{
    let head = text.take(l);
    let one = seq![text[l]];
    assert(text.take(l + 1) =~= head + one);
    lemma_encode_concat(head, one);
    assert(one.drop_first() =~= Seq::<char>::empty());
    assert(encode_utf8(one.drop_first()) =~= Seq::<u8>::empty());
    assert(one[0] == text[l]);
    assert(encode_utf8(one) =~= encode_scalar(text[l] as u32) + encode_utf8(one.drop_first()));
    assert(encode_utf8(one) =~= encode_scalar(text[l] as u32));
    let tail = text.skip(l + 1);
    assert(text =~= text.take(l + 1) + tail);
    lemma_encode_concat(text.take(l + 1), tail);
}

/// The number of bytes that `c` takes in UTF-8.
pub fn char_width(c: char) -> (w: usize)
    ensures
        w == utf8_width(c),
{
    let code = c as u32;
    if code < 0x80 {
        1
    } else if code < 0x800 {
        2
    } else if code < 0x10000 {
        3
    } else {
        4
    }
}

/// The characters of `s`, and for each number `l` of characters up to their
/// count, the byte offset in `s` at which the first `l` characters end.
pub fn decode(s: &str) -> (r: (Vec<char>, Vec<usize>))
    ensures
        r.0@ == s@,
        r.1@.len() == s@.len() + 1,
        forall|l: int| 0 <= l <= s@.len() ==> r.1@[l] == byte_offset(s@, l),
{
    let total = s.as_bytes().len();
    let mut chars: Vec<char> = Vec::new();
    let mut offsets: Vec<usize> = Vec::new();
    offsets.push(0);
    let mut at: usize = 0;
    proof {
        assert(s@.take(0) =~= Seq::<char>::empty());
    }
    for c in it: s.chars()
        invariant
            it.seq() == s@,
            chars@.len() == it.index(),
            chars@ == s@.take(it.index() as int),
            offsets@.len() == it.index() + 1,
            at == byte_offset(s@, it.index() as int),
            total == encode_utf8(s@).len(),
            forall|l: int| 0 <= l <= it.index() ==> offsets@[l] == byte_offset(s@, l),
    {
        proof {
            lemma_byte_offset_step(s@, it.index() as int);
            assert(s@.take(it.index() + 1) =~= s@.take(it.index() as int).push(c));
        }
        chars.push(c);
        at = at + char_width(c);
        offsets.push(at);
    }
    proof {
        assert(s@.take(s@.len() as int) =~= s@);
    }
    (chars, offsets)
}

} // verus!
