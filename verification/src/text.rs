//! Character-level helpers shared by the rest of the crate: conversion
//! between strings and character vectors, UTF-8 widths, decimal and
//! hexadecimal rendering, decimal parsing and lexicographic order.

use vstd::prelude::*;
use vstd::utf8::*;

verus! {

/// `String::push` appends one character to the end of the string.
pub assume_specification[ String::push ](s: &mut String, c: char)
    ensures
        final(s)@ == old(s)@.push(c),
;

/// The characters of `s`, in order.
pub fn chars_of(s: &str) -> (r: Vec<char>)
    ensures
        r@ == s@,
{
    let mut out: Vec<char> = Vec::new();
    for c in it: s.chars()
        invariant
            out@ == it.seq().take(it.index() as int),
            it.seq() == s@,
    {
        out.push(c);
    }
    out
}

/// The string made of the characters `v[from..to]`.
pub fn string_of_range(v: &Vec<char>, from: usize, to: usize) -> (r: String)
    requires
        from <= to <= v.len(),
    ensures
        r@ == v@.subrange(from as int, to as int),
{
    let mut out = String::new();
    let mut i: usize = from;
    while i < to
        invariant
            from <= i <= to <= v.len(),
            out@ == v@.subrange(from as int, i as int),
        decreases to - i,
    {
        out.push(v[i]);
        proof {
            assert(v@.subrange(from as int, i as int).push(v@[i as int]) =~= v@.subrange(
                from as int,
                i + 1,
            ));
        }
        i += 1;
    }
    out
}

/// The string made of the characters of `v`.
pub fn string_of(v: &Vec<char>) -> (r: String)
    ensures
        r@ == v@,
{
    let r = string_of_range(v, 0, v.len());
    proof {
        assert(v@.subrange(0, v.len() as int) =~= v@);
    }
    r
}

/// Appends the characters of `tail` to `out`.
pub fn push_chars(out: &mut Vec<char>, tail: &Vec<char>)
    ensures
        final(out)@ == old(out)@ + tail@,
{
    let mut i: usize = 0;
    while i < tail.len()
        invariant
            i <= tail.len(),
            out@ == old(out)@ + tail@.take(i as int),
        decreases tail.len() - i,
    {
        out.push(tail[i]);
        proof {
            assert(old(out)@ + tail@.take(i + 1) =~= (old(out)@ + tail@.take(i as int)).push(
                tail@[i as int],
            ));
        }
        i += 1;
    }
    proof {
        assert(tail@.take(tail.len() as int) =~= tail@);
    }
}

/// Whether two character vectors hold the same characters.
pub fn chars_eq(a: &Vec<char>, b: &Vec<char>) -> (r: bool)
    ensures
        r == (a@ == b@),
{
    if a.len() != b.len() {
        return false;
    }
    let mut i: usize = 0;
    while i < a.len()
        invariant
            i <= a.len(),
            a.len() == b.len(),
            a@.take(i as int) == b@.take(i as int),
        decreases a.len() - i,
    {
        if a[i] != b[i] {
            return false;
        }
        proof {
            assert(a@.take(i + 1) =~= a@.take(i as int).push(a@[i as int]));
            assert(b@.take(i + 1) =~= b@.take(i as int).push(b@[i as int]));
        }
        i += 1;
    }
    proof {
        assert(a@.take(a.len() as int) =~= a@);
        assert(b@.take(b.len() as int) =~= b@);
    }
    true
}

/// `std::str::from_utf8` accepts exactly the valid UTF-8 byte strings; the
/// string it gives has those bytes as its encoding.
#[verifier::external_body]
pub(crate) fn utf8_to_string(bytes: &[u8]) -> (r: Option<String>)
    ensures
        match r {
            Some(s) => valid_utf8(bytes@) && encode_utf8(s@) == bytes@,
            None => !valid_utf8(bytes@),
        },
{
    std::str::from_utf8(bytes).ok().map(|s| s.to_string())
}

/// Whether two strings hold the same text.
pub fn str_eq(a: &str, b: &str) -> (r: bool)
    ensures
        r == (a@ == b@),
{
    let x = chars_of(a);
    let y = chars_of(b);
    chars_eq(&x, &y)
}

/// Number of bytes that the UTF-8 encoding of `c` occupies.
pub open spec fn utf8_width(c: char) -> int {
    encode_scalar(c as u32).len() as int
}

/// Number of bytes that the UTF-8 encoding of the first `i` characters of
/// `s` occupies: the byte offset at which character `i` starts.
pub open spec fn byte_offset(s: Seq<char>, i: int) -> int {
    encode_utf8(s.take(i)).len() as int
}

/// Encoding distributes over concatenation.
pub proof fn lemma_encode_utf8_concat(a: Seq<char>, b: Seq<char>)
    ensures
        encode_utf8(a + b) == encode_utf8(a) + encode_utf8(b),
    decreases a.len(),
{
    if a.len() == 0 {
        assert(a + b =~= b);
        assert(encode_utf8(a) + encode_utf8(b) =~= encode_utf8(b));
    } else {
        lemma_encode_utf8_concat(a.drop_first(), b);
        assert((a + b).drop_first() =~= a.drop_first() + b);
        assert((a + b)[0] == a[0]);
        assert(encode_utf8(a + b) =~= encode_scalar(a[0] as u32) + (encode_utf8(a.drop_first())
            + encode_utf8(b)));
        assert(encode_utf8(a) + encode_utf8(b) =~= encode_scalar(a[0] as u32) + (encode_utf8(
            a.drop_first(),
        ) + encode_utf8(b)));
    }
}

/// The encoding of a single character is that of its scalar value.
pub proof fn lemma_encode_utf8_single(c: char)
    ensures
        encode_utf8(seq![c]) == encode_scalar(c as u32),
{
    let s = seq![c];
    assert(s.drop_first() =~= Seq::<char>::empty());
    assert(encode_utf8(s.drop_first()) =~= Seq::<u8>::empty());
    assert(encode_utf8(s) =~= encode_scalar(c as u32) + encode_utf8(s.drop_first()));
    assert(encode_scalar(c as u32) + Seq::<u8>::empty() =~= encode_scalar(c as u32));
}

/// Each character moves the byte offset forward by its width, which is
/// between one and four bytes.
pub proof fn lemma_byte_offset_step(s: Seq<char>, i: int)
    requires
        0 <= i < s.len(),
    ensures
        byte_offset(s, i + 1) == byte_offset(s, i) + utf8_width(s[i]),
        1 <= utf8_width(s[i]) <= 4,
{
    assert(s.take(i + 1) =~= s.take(i) + seq![s[i]]);
    lemma_encode_utf8_concat(s.take(i), seq![s[i]]);
    lemma_encode_utf8_single(s[i]);
}

/// Byte offsets grow with the character index.
pub proof fn lemma_byte_offset_monotonic(s: Seq<char>, i: int, j: int)
    requires
        0 <= i <= j <= s.len(),
    ensures
        byte_offset(s, i) + (j - i) <= byte_offset(s, j),
    decreases j - i,
{
    if i < j {
        lemma_byte_offset_monotonic(s, i, j - 1);
        lemma_byte_offset_step(s, j - 1);
    }
}

/// Number of bytes that the UTF-8 encoding of `c` occupies.
pub fn char_width(c: char) -> (w: usize)
    ensures
        w == utf8_width(c),
        1 <= w <= 4,
{
    proof {
        char_is_scalar(c);
    }
    let v: u32 = c as u32;
    if v < 0x80 {
        1
    } else if v < 0x800 {
        2
    } else if v < 0x10000 {
        3
    } else {
        4
    }
}

/// Whether `c` is white space: one of U+0009..U+000D, U+0020, U+0085,
/// U+00A0, U+1680, U+2000..U+200A, U+2028, U+2029, U+202F, U+205F, U+3000.
pub open spec fn is_space(c: char) -> bool {
    let v = c as u32;
    (0x09 <= v <= 0x0D) || v == 0x20 || v == 0x85 || v == 0xA0 || v == 0x1680 || (0x2000 <= v
        <= 0x200A) || v == 0x2028 || v == 0x2029 || v == 0x202F || v == 0x205F || v == 0x3000
}

/// Whether `c` is white space.
pub fn char_is_space(c: char) -> (r: bool)
    ensures
        r == is_space(c),
{
    let v: u32 = c as u32;
    (0x09 <= v && v <= 0x0D) || v == 0x20 || v == 0x85 || v == 0xA0 || v == 0x1680 || (0x2000 <= v
        && v <= 0x200A) || v == 0x2028 || v == 0x2029 || v == 0x202F || v == 0x205F || v == 0x3000
}

/// The characters `cs[from..to]` appended to `out`.
pub fn push_range(out: &mut Vec<char>, cs: &Vec<char>, from: usize, to: usize)
    requires
        from <= to <= cs.len(),
    ensures
        final(out)@ == old(out)@ + cs@.subrange(from as int, to as int),
{
    let mut i: usize = from;
    proof {
        assert(old(out)@ + cs@.subrange(from as int, from as int) =~= old(out)@);
    }
    while i < to
        invariant
            from <= i <= to <= cs.len(),
            out@ == old(out)@ + cs@.subrange(from as int, i as int),
        decreases to - i,
    {
        out.push(cs[i]);
        proof {
            assert(out@ =~= old(out)@ + cs@.subrange(from as int, i + 1));
        }
        i += 1;
    }
}

/// The number of white space characters at the start of `s`.
pub open spec fn leading_space(s: Seq<char>) -> int
    decreases s.len(),
{
    if s.len() == 0 || !is_space(s[0]) {
        0
    } else {
        1 + leading_space(s.drop_first())
    }
}

/// The number of white space characters at the end of `s`.
pub open spec fn trailing_space(s: Seq<char>) -> int
    decreases s.len(),
{
    if s.len() == 0 || !is_space(s.last()) {
        0
    } else {
        1 + trailing_space(s.drop_last())
    }
}

/// `s` without the white space at its start and at its end.
pub open spec fn trimmed(s: Seq<char>) -> Seq<char> {
    let a = leading_space(s);
    if a >= s.len() {
        Seq::empty()
    } else {
        s.subrange(a, s.len() - trailing_space(s))
    }
}

proof fn lemma_leading(s: Seq<char>, n: int)
    requires
        0 <= n <= s.len(),
        forall|k: int| 0 <= k < n ==> is_space(#[trigger] s[k]),
        n < s.len() ==> !is_space(s[n]),
    ensures
        leading_space(s) == n,
    decreases n,
{
    if n > 0 {
        assert(is_space(s[0]));
        assert forall|k: int| 0 <= k < n - 1 implies is_space(#[trigger] s.drop_first()[k]) by {
            assert(s.drop_first()[k] == s[k + 1]);
        }
        lemma_leading(s.drop_first(), n - 1);
    }
}

proof fn lemma_trailing(s: Seq<char>, n: int)
    requires
        0 <= n <= s.len(),
        forall|k: int| s.len() - n <= k < s.len() ==> is_space(#[trigger] s[k]),
        n < s.len() ==> !is_space(s[s.len() - n - 1]),
    ensures
        trailing_space(s) == n,
    decreases n,
{
    if n > 0 {
        assert(is_space(s[s.len() - 1]));
        assert forall|k: int| s.drop_last().len() - (n - 1) <= k < s.drop_last().len() implies is_space(
            #[trigger] s.drop_last()[k],
        ) by {
            assert(s.drop_last()[k] == s[k]);
        }
        lemma_trailing(s.drop_last(), n - 1);
    }
}

/// `s` without the white space at its start and at its end.
pub fn trim_chars(s: &str) -> (r: Vec<char>)
    ensures
        r@ == trimmed(s@),
{
    let cs = chars_of(s);
    let mut a: usize = 0;
    while a < cs.len() && char_is_space(cs[a])
        invariant
            a <= cs.len(),
            forall|k: int| 0 <= k < a ==> is_space(#[trigger] cs@[k]),
        decreases cs.len() - a,
    {
        a += 1;
    }
    proof {
        lemma_leading(cs@, a as int);
    }
    if a >= cs.len() {
        return Vec::new();
    }
    let mut b: usize = cs.len();
    while b > 0 && char_is_space(cs[b - 1])
        invariant
            b <= cs.len(),
            forall|k: int| b <= k < cs.len() ==> is_space(#[trigger] cs@[k]),
        decreases b,
    {
        b -= 1;
    }
    proof {
        lemma_trailing(cs@, cs.len() - b);
        if b <= a {
            assert(is_space(cs@[a as int]));
        }
    }
    let mut out: Vec<char> = Vec::new();
    let mut i: usize = a;
    while i < b
        invariant
            a <= i <= b <= cs.len(),
            out@ == cs@.subrange(a as int, i as int),
        decreases b - i,
    {
        out.push(cs[i]);
        proof {
            assert(out@ =~= cs@.subrange(a as int, i + 1));
        }
        i += 1;
    }
    out
}

} // verus!
