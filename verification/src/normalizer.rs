//! Text normalisation, applied to every indexed string and to every query
//! pattern: lower case, then compatibility composition, then canonical
//! decomposition with the combining marks U+0300..U+036F dropped.

use vstd::prelude::*;
use unicode_normalization::UnicodeNormalization;
use crate::text::{chars_of, string_of};

verus! {

/// What `str::to_lowercase` returns for the text `s`.
pub uninterp spec fn lowercase_of(s: Seq<char>) -> Seq<char>;

/// What Unicode Normalization Form KC of the text `s` is, as the
/// `unicode-normalization` crate computes it.
pub uninterp spec fn nfkc_of(s: Seq<char>) -> Seq<char>;

/// What Unicode Normalization Form D of the text `s` is, as the
/// `unicode-normalization` crate computes it.
pub uninterp spec fn nfd_of(s: Seq<char>) -> Seq<char>;

/// Whether `c` is one of the combining diacritical marks U+0300..U+036F.
pub open spec fn is_mark_char(c: char) -> bool {
    0x0300 <= (c as u32) <= 0x036F
}

/// The predicate that keeps every character but the combining marks.
pub open spec fn keeps_char() -> spec_fn(char) -> bool {
    |c: char| !is_mark_char(c)
}

/// `s` in Form D without its combining marks.
pub open spec fn accents_stripped(s: Seq<char>) -> Seq<char> {
    nfd_of(s).filter(keeps_char())
}

/// The normal form of `s`.
pub open spec fn normalized(s: Seq<char>) -> Seq<char> {
    accents_stripped(nfkc_of(lowercase_of(s)))
}

/// Calls `str::to_lowercase`; the result is named `lowercase_of`.
#[verifier::external_body]
pub(crate) fn to_lowercase(s: &str) -> (r: String)
    ensures
        r@ == lowercase_of(s@),
{
    s.to_lowercase()
}

/// Calls `UnicodeNormalization::nfkc` on the text and collects the
/// characters it yields; the result is named `nfkc_of`.
#[verifier::external_body]
fn nfkc_string(s: &str) -> (r: String)
    ensures
        r@ == nfkc_of(s@),
{
    s.nfkc().collect::<String>()
}

/// Calls `UnicodeNormalization::nfd` on the text and collects the
/// characters it yields; the result is named `nfd_of`.
#[verifier::external_body]
fn nfd_chars(s: &str) -> (r: Vec<char>)
    ensures
        r@ == nfd_of(s@),
{
    s.nfd().collect::<Vec<char>>()
}

/// Whether `c` is one of the combining diacritical marks U+0300..U+036F.
pub fn is_mark(c: char) -> (r: bool)
    ensures
        r == is_mark_char(c),
{
    let v: u32 = c as u32;
    0x0300 <= v && v <= 0x036F
}

/// Decomposes `s` canonically and drops the combining marks.
pub fn strip_accents(s: &str) -> (r: String)
    ensures
        r@ == accents_stripped(s@),
{
    let d = nfd_chars(s);
    let mut out: Vec<char> = Vec::new();
    let mut i: usize = 0;
    proof {
        assert(d@.take(0) =~= Seq::<char>::empty());
        reveal(Seq::filter);
    }
    while i < d.len()
        invariant
            i <= d.len(),
            out@ == d@.take(i as int).filter(keeps_char()),
        decreases d.len() - i,
    {
        let c = d[i];
        proof {
            assert(d@.take(i + 1) =~= d@.take(i as int).push(c));
            d@.take(i as int).lemma_filter_push(c, keeps_char());
        }
        if !is_mark(c) {
            out.push(c);
        }
        i += 1;
    }
    proof {
        assert(d@.take(d.len() as int) =~= d@);
    }
    string_of(&out)
}

/// The normal form of `s`: lower case, Form KC, then Form D without the
/// combining marks U+0300..U+036F.
pub fn normalize(s: &str) -> (r: String)
    ensures
        r@ == normalized(s@),
{
    let lower = to_lowercase(s);
    let composed = nfkc_string(lower.as_str());
    strip_accents(composed.as_str())
}

/// The normal form of `s`, as characters.
pub fn normalize_chars(s: &str) -> (r: Vec<char>)
    ensures
        r@ == normalized(s@),
{
    let n = normalize(s);
    chars_of(n.as_str())
}

} // verus!
