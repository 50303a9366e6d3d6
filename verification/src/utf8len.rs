//! Byte offsets of characters in UTF-8 text.

use vstd::prelude::*;
use vstd::string::StringSliceAdditionalSpecFns;
use vstd::utf8::{encode_utf8, encode_scalar, has_width_1_encoding, has_width_2_encoding, has_width_3_encoding};

verus! {

broadcast use vstd::utf8::char_is_scalar;

/// Bytes the UTF-8 encoding of `c` takes.
pub open spec fn char_width(c: char) -> nat {
    encode_scalar(c as u32).len()
}

/// Byte offset of character `i` in the UTF-8 encoding of `s`.
pub open spec fn byte_offset(s: Seq<char>, i: int) -> nat {
    encode_utf8(s.take(i)).len()
}

pub proof fn lemma_encode_concat(a: Seq<char>, b: Seq<char>)
    ensures encode_utf8(a + b).len() == encode_utf8(a).len() + encode_utf8(b).len(),
    decreases a.len(),
{
    if a.len() > 0 {
        assert((a + b).drop_first() == a.drop_first() + b);
        assert((a + b)[0] == a[0]);
        lemma_encode_concat(a.drop_first(), b);
    } else {
        assert(a + b == b);
    }
}

pub proof fn lemma_offset_step(s: Seq<char>, i: int)
    requires 0 <= i < s.len(),
    ensures byte_offset(s, i + 1) == byte_offset(s, i) + char_width(s[i]),
{
    assert(s.take(i + 1) == s.take(i) + seq![s[i]]);
    lemma_encode_concat(s.take(i), seq![s[i]]);
    assert(seq![s[i]].drop_first().len() == 0);
    assert(encode_utf8(seq![s[i]]) == encode_scalar(s[i] as u32) + encode_utf8(seq![s[i]].drop_first()));
}

pub proof fn lemma_offset_bound(s: Seq<char>, i: int)
    requires 0 <= i <= s.len(),
    ensures byte_offset(s, i) <= encode_utf8(s).len(),
{
    assert(s == s.take(i) + s.skip(i));
    lemma_encode_concat(s.take(i), s.skip(i));
}

pub fn width_of(c: char) -> (w: usize)
    ensures w == char_width(c),
{
    let u = c as u32;
    if u < 0x80 {
        1
    } else if u < 0x800 {
        2
    } else if u < 0x10000 {
        3
    } else {
        4
    }
}

/// `offs[i]` is the byte offset of character `i`, for `i` up to `v.len()`.
pub fn offsets(text: &str, v: &Vec<char>) -> (offs: Vec<usize>)
    requires v@ == text@,
    ensures
        offs@.len() == v@.len() + 1,
        forall|i: int| 0 <= i <= v@.len() ==> offs@[i] == byte_offset(v@, i),
{
    let bytes = text.as_bytes();
    let total = bytes.len();
    assert(total == encode_utf8(text@).len());
    let mut offs: Vec<usize> = Vec::new();
    offs.push(0);
    assert(v@.take(0).len() == 0);
    let mut acc: usize = 0;
    let mut i: usize = 0;
    while i < v.len()
        invariant
            i <= v@.len(), offs@.len() == i + 1, acc == byte_offset(v@, i as int),
            total == encode_utf8(v@).len(),
            forall|j: int| 0 <= j <= i ==> offs@[j] == byte_offset(v@, j),
        decreases v@.len() - i,
    {
        proof {
            lemma_offset_step(v@, i as int);
            lemma_offset_bound(v@, i + 1);
        }
        acc = acc + width_of(v[i]);
        offs.push(acc);
        i += 1;
    }
    offs
}

} // verus!
