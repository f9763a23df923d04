//! Trigram extraction: every three-character window of a normalised
//! string, and the windows that a wildcard pattern requires of any text
//! it matches.

use vstd::prelude::*;
use crate::normalizer::{normalize_chars, normalized};
use crate::text::{chars_of, string_of_range};

verus! {

/// How the posting lists of several trigrams are combined.
#[derive(Debug, Clone, Copy, PartialEq, Eq, Structural)]
pub enum BooleanOp {
    And,
    Or,
    Not,
}

/// A pattern holds no run of three literal characters.
#[derive(Debug, Clone, Copy, PartialEq, Eq, Structural)]
pub struct PatternTooWeak;

/// The texts of a sequence of strings.
pub open spec fn strings_view(v: Seq<String>) -> Seq<Seq<char>> {
    v.map_values(|s: String| s@)
}

/// Every three-character window of `s`, by starting index.
pub open spec fn trigram_windows(s: Seq<char>) -> Seq<Seq<char>> {
    if s.len() < 3 {
        Seq::empty()
    } else {
        Seq::new((s.len() - 2) as nat, |i: int| s.subrange(i, i + 3))
    }
}

/// Whether `c` is one of the two pattern metacharacters.
pub open spec fn is_wildcard(c: char) -> bool {
    c == '*' || c == '?'
}

/// Whether no character of `g` is a metacharacter.
pub open spec fn is_literal_gram(g: Seq<char>) -> bool {
    forall|i: int| 0 <= i < g.len() ==> !is_wildcard(#[trigger] g[i])
}

/// The predicate that keeps the windows made of literal characters only.
pub open spec fn keeps_gram() -> spec_fn(Seq<char>) -> bool {
    |g: Seq<char>| is_literal_gram(g)
}

/// The trigrams that a normalised pattern `p` requires: its windows that
/// hold no metacharacter, which are the windows of its literal runs of
/// three or more characters.
pub open spec fn required_grams(p: Seq<char>) -> Seq<Seq<char>> {
    trigram_windows(p).filter(keeps_gram())
}

/// Every window of a run that occurs in `v` at `at` is a window of `v`.
pub proof fn lemma_windows_of_substring(v: Seq<char>, run: Seq<char>, at: int, i: int)
    requires
        0 <= at,
        at + run.len() <= v.len(),
        v.subrange(at, at + run.len()) == run,
        0 <= i < trigram_windows(run).len(),
    ensures
        at + i < trigram_windows(v).len(),
        trigram_windows(v)[at + i] == trigram_windows(run)[i],
{
    assert(v.subrange(at + i, at + i + 3) =~= run.subrange(i, i + 3));
}

/// Appends every three-character window of `cs` to `out`.
pub fn push_windows(cs: &Vec<char>, out: &mut Vec<String>)
    ensures
        strings_view(final(out)@) == strings_view(old(out)@) + trigram_windows(cs@),
{
    if cs.len() < 3 {
        proof {
            assert(strings_view(out@) + trigram_windows(cs@) =~= strings_view(out@));
        }
        return ;
    }
    let n: usize = cs.len() - 2;
    let mut i: usize = 0;
    while i < n
        invariant
            i <= n,
            n == cs.len() - 2,
            strings_view(out@) == strings_view(old(out)@) + trigram_windows(cs@).take(i as int),
        decreases n - i,
    {
        let g = string_of_range(cs, i, i + 3);
        let ghost before = out@;
        out.push(g);
        proof {
            assert(strings_view(out@) =~= strings_view(before).push(g@));
            assert(trigram_windows(cs@).take(i + 1) =~= trigram_windows(cs@).take(i as int).push(
                g@,
            ));
            assert(strings_view(out@) =~= strings_view(old(out)@) + trigram_windows(cs@).take(
                i + 1,
            ));
        }
        i += 1;
    }
    proof {
        assert(trigram_windows(cs@).take(n as int) =~= trigram_windows(cs@));
    }
}

/// Appends every three-character window of `s` to `out`.
pub fn push_tris(s: &str, out: &mut Vec<String>)
    ensures
        strings_view(final(out)@) == strings_view(old(out)@) + trigram_windows(s@),
{
    let cs = chars_of(s);
    push_windows(&cs, out);
}

/// Every three-character window of `s`, in order; shorter strings have none.
pub fn trigrams(s: &str) -> (r: Vec<String>)
    ensures
        strings_view(r@) == trigram_windows(s@),
{
    let mut out: Vec<String> = Vec::new();
    push_tris(s, &mut out);
    proof {
        assert(strings_view(Seq::<String>::empty()) + trigram_windows(s@) =~= trigram_windows(s@));
    }
    out
}

/// The required trigrams of an already normalised pattern.
pub fn required_grams_of_chars(p: &Vec<char>) -> (r: Vec<String>)
    ensures
        strings_view(r@) == required_grams(p@),
{
    let mut out: Vec<String> = Vec::new();
    proof {
        reveal(Seq::filter);
        assert(strings_view(out@) =~= Seq::<Seq<char>>::empty());
    }
    if p.len() < 3 {
        return out;
    }
    let n: usize = p.len() - 2;
    let mut i: usize = 0;
    proof {
        assert(trigram_windows(p@).take(0) =~= Seq::<Seq<char>>::empty());
    }
    while i < n
        invariant
            i <= n,
            n == p.len() - 2,
            strings_view(out@) == trigram_windows(p@).take(i as int).filter(keeps_gram()),
        decreases n - i,
    {
        let a = p[i];
        let b = p[i + 1];
        let c = p[i + 2];
        let literal = a != '*' && a != '?' && b != '*' && b != '?' && c != '*' && c != '?';
        let ghost w = p@.subrange(i as int, i + 3);
        proof {
            assert(w[0] == a && w[1] == b && w[2] == c);
            assert(literal == is_literal_gram(w));
            assert(trigram_windows(p@).take(i + 1) =~= trigram_windows(p@).take(i as int).push(w));
            trigram_windows(p@).take(i as int).lemma_filter_push(w, keeps_gram());
        }
        if literal {
            let g = string_of_range(p, i, i + 3);
            let ghost before = out@;
            out.push(g);
            proof {
                assert(strings_view(out@) =~= strings_view(before).push(g@));
            }
        }
        i += 1;
    }
    proof {
        assert(trigram_windows(p@).take(n as int) =~= trigram_windows(p@));
    }
    out
}

/// The trigrams that any text matching `pattern` must hold: the pattern is
/// normalised, and every window of three literal characters is taken.
/// Fails when the pattern holds no such window.
pub fn required_grams_from_wildcard(pattern: &str) -> (r: Result<Vec<String>, PatternTooWeak>)
    ensures
        match r {
            Ok(v) => strings_view(v@) == required_grams(normalized(pattern@)) && v.len() > 0,
            Err(_) => required_grams(normalized(pattern@)).len() == 0,
        },
{
    let p = normalize_chars(pattern);
    let out = required_grams_of_chars(&p);
    if out.len() == 0 {
        Err(PatternTooWeak)
    } else {
        Ok(out)
    }
}

} // verus!
