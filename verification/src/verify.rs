//! The verify engine: a wildcard pattern compiled into a matcher over
//! normalised text. The matcher is a regular expression of the `regex`
//! crate.

use vstd::prelude::*;
use crate::normalizer::{normalize, normalized};
use crate::text::{chars_of, string_of};

verus! {

#[verifier::external_type_specification]
#[verifier::external_body]
pub struct ExRegex(regex::Regex);

#[verifier::external_type_specification]
#[verifier::external_body]
pub struct ExRegexError(regex::Error);

/// The pattern that the regular expression was compiled from: what
/// `Regex::as_str` returns.
pub uninterp spec fn regex_source(rx: regex::Regex) -> Seq<char>;

/// Whether `Regex::new` accepts the pattern.
pub uninterp spec fn regex_compiles(pattern: Seq<char>) -> bool;

/// The first match of the pattern in the text, as `Regex::find` reports
/// it: the byte offsets at which it starts and ends.
pub uninterp spec fn regex_first_match(pattern: Seq<char>, text: Seq<char>) -> Option<(int, int)>;

/// `Regex::new` compiles a pattern; the regular expression remembers the
/// pattern it was compiled from.
#[verifier::external_body]
fn regex_new(pattern: &str) -> (r: Result<regex::Regex, regex::Error>)
    ensures
        r is Ok == regex_compiles(pattern@),
        r matches Ok(rx) ==> regex_source(rx) == pattern@,
{
    regex::Regex::new(pattern)
}

/// `Regex::is_match` says whether the text holds a match at all, which is
/// whether `Regex::find` finds one.
#[verifier::external_body]
fn regex_is_match(rx: &regex::Regex, text: &str) -> (b: bool)
    ensures
        b == (regex_first_match(regex_source(*rx), text@) is Some),
{
    rx.is_match(text)
}

/// `Regex::find` gives the first match in the text; its start and end are
/// handed on as they are.
#[verifier::external_body]
fn regex_find(rx: &regex::Regex, text: &str) -> (r: Option<(usize, usize)>)
    ensures
        match r {
            Some((s, e)) => regex_first_match(regex_source(*rx), text@) == Some(
                (s as int, e as int),
            ),
            None => regex_first_match(regex_source(*rx), text@) is None,
        },
{
    rx.find(text).map(|m| (m.start(), m.end()))
}

#[verifier::external_type_specification]
#[verifier::external_body]
pub struct ExPcre2Regex(pcre2::bytes::Regex);

#[verifier::external_type_specification]
#[verifier::external_body]
pub struct ExPcre2Error(pcre2::Error);

/// The pattern that the PCRE2 regular expression was compiled from: what
/// its `as_str` returns.
pub uninterp spec fn pcre2_source(rx: pcre2::bytes::Regex) -> Seq<char>;

/// Whether a PCRE2 `RegexBuilder` with `caseless` and `dotall` set builds
/// the pattern.
pub uninterp spec fn pcre2_compiles(pattern: Seq<char>) -> bool;

/// The first match of the pattern, built with `caseless` and `dotall`, in
/// the bytes of a text, as `find` of the PCRE2 regular expression reports
/// it; `None` too where the search itself fails.
pub uninterp spec fn pcre2_first_match(pattern: Seq<char>, text: Seq<char>) -> Option<(int, int)>;

/// `RegexBuilder::build` with `caseless` and `dotall` switched on; the
/// regular expression remembers the pattern it was built from.
#[verifier::external_body]
fn pcre2_build(pattern: &str) -> (r: Result<pcre2::bytes::Regex, pcre2::Error>)
    ensures
        r is Ok == pcre2_compiles(pattern@),
        r matches Ok(rx) ==> pcre2_source(rx) == pattern@,
{
    pcre2::bytes::RegexBuilder::new().caseless(true).dotall(true).build(pattern)
}

/// `find` of the PCRE2 regular expression on the bytes of the text; the
/// start and end of the match are handed on as they are, and a search
/// that fails counts as no match.
#[verifier::external_body]
fn pcre2_find(rx: &pcre2::bytes::Regex, text: &str) -> (r: Option<(usize, usize)>)
    ensures
        match r {
            Some((s, e)) => pcre2_first_match(pcre2_source(*rx), text@) == Some(
                (s as int, e as int),
            ),
            None => pcre2_first_match(pcre2_source(*rx), text@) is None,
        },
{
    match rx.find(text.as_bytes()) {
        Ok(Some(m)) => Some((m.start(), m.end())),
        _ => None,
    }
}

/// Why a matcher could not be made.
#[derive(Debug, Clone, Copy, PartialEq, Eq, Structural)]
pub enum VerifyError {
    /// The regular expression made from the pattern does not compile.
    BadPattern,
}

/// A compiled matcher.
pub trait VerifyEngine {
    /// The first match in `text`: the byte offsets of its start and end.
    spec fn first_match(&self, text: Seq<char>) -> Option<(int, int)>;

    /// Whether the text holds a match.
    fn is_match(&self, text: &str) -> (b: bool)
        ensures
            b == (self.first_match(text@) is Some),
    ;

    /// The first match in the text, for highlighting.
    fn find(&self, text: &str) -> (r: Option<(usize, usize)>)
        ensures
            match r {
                Some((s, e)) => self.first_match(text@) == Some((s as int, e as int)),
                None => self.first_match(text@) is None,
            },
    ;
}

/// Whether `c` has a meaning of its own in a regular expression.
pub open spec fn is_regex_meta(c: char) -> bool {
    c == '\\' || c == '.' || c == '^' || c == '$' || c == '|' || c == '(' || c == ')' || c == '['
        || c == ']' || c == '{' || c == '}' || c == '+' || c == '*' || c == '?'
}

/// What one character of a wildcard pattern becomes: `*` any run of
/// characters, `?` any one character, anything else itself, with a
/// backslash before it where the regular expression would read it as more.
pub open spec fn wildcard_piece(c: char) -> Seq<char> {
    if c == '*' {
        seq!['.', '*']
    } else if c == '?' {
        seq!['.']
    } else if is_regex_meta(c) {
        seq!['\\', c]
    } else {
        seq![c]
    }
}

/// The regular expression of a wildcard pattern, without flags.
pub open spec fn wildcard_body(p: Seq<char>) -> Seq<char>
    decreases p.len(),
{
    if p.len() == 0 {
        Seq::empty()
    } else {
        wildcard_body(p.drop_last()) + wildcard_piece(p.last())
    }
}

/// The regular expression of a wildcard pattern: the flags for "dot
/// matches line feeds too" and "letter case does not count", then the
/// pattern.
pub open spec fn wildcard_regex(p: Seq<char>) -> Seq<char> {
    seq!['(', '?', 's', 'i', ')'] + wildcard_body(p)
}

/// Appends the regular expression of the wildcard pattern `p` to `out`.
fn push_wildcard_body(p: &Vec<char>, out: &mut Vec<char>)
    ensures
        final(out)@ == old(out)@ + wildcard_body(p@),
{
    let mut i: usize = 0;
    proof {
        assert(p@.take(0) =~= Seq::<char>::empty());
        assert(old(out)@ + wildcard_body(p@.take(0)) =~= old(out)@);
    }
    while i < p.len()
        invariant
            i <= p.len(),
            out@ == old(out)@ + wildcard_body(p@.take(i as int)),
        decreases p.len() - i,
    {
        let c = p[i];
        let ghost before = out@;
        if c == '*' {
            out.push('.');
            out.push('*');
        } else if c == '?' {
            out.push('.');
        } else {
            if c == '\\' || c == '.' || c == '^' || c == '$' || c == '|' || c == '(' || c == ')'
                || c == '[' || c == ']' || c == '{' || c == '}' || c == '+' {
                out.push('\\');
            }
            out.push(c);
        }
        proof {
            assert(out@ =~= before + wildcard_piece(c));
            assert(p@.take(i + 1).drop_last() =~= p@.take(i as int));
            assert(p@.take(i + 1).last() == c);
            assert(out@ =~= old(out)@ + wildcard_body(p@.take(i + 1)));
        }
        i += 1;
    }
    proof {
        assert(p@.take(p.len() as int) =~= p@);
    }
}

/// The regular expression of a wildcard pattern, with the flags for "dot
/// matches line feeds too" and "letter case does not count".
pub fn wildcard_to_regex_case_insensitive(pat: &str) -> (r: String)
    ensures
        r@ == wildcard_regex(pat@),
{
    let p = chars_of(pat);
    let mut out: Vec<char> = Vec::new();
    out.push('(');
    out.push('?');
    out.push('s');
    out.push('i');
    out.push(')');
    proof {
        assert(out@ =~= seq!['(', '?', 's', 'i', ')']);
    }
    push_wildcard_body(&p, &mut out);
    string_of(&out)
}

/// The regular expression of a normalised wildcard pattern, without
/// flags, for an engine that takes its flags apart from the pattern.
pub fn wildcard_to_regex_pattern(norm_wildcard: &str) -> (r: String)
    ensures
        r@ == wildcard_body(norm_wildcard@),
{
    let p = chars_of(norm_wildcard);
    let mut out: Vec<char> = Vec::new();
    push_wildcard_body(&p, &mut out);
    proof {
        assert(Seq::<char>::empty() + wildcard_body(p@) =~= wildcard_body(p@));
    }
    string_of(&out)
}

/// A matcher that is a regular expression of the `regex` crate.
pub struct RegexVerify {
    rx: regex::Regex,
}

impl RegexVerify {
    /// The pattern that the matcher was compiled from.
    pub closed spec fn source(&self) -> Seq<char> {
        regex_source(self.rx)
    }

    /// Compiles a regular expression.
    pub fn compile_regex(pat: &str) -> (r: Result<Self, VerifyError>)
        ensures
            r is Ok == regex_compiles(pat@),
            r matches Ok(e) ==> e.source() == pat@,
    {
        match regex_new(pat) {
            Ok(rx) => Ok(RegexVerify { rx }),
            Err(_) => Err(VerifyError::BadPattern),
        }
    }

    /// Compiles a wildcard pattern: `*` matches any run of characters,
    /// `?` any one character, letter case does not count.
    pub fn compile_wildcard(wildcard: &str) -> (r: Result<Self, VerifyError>)
        ensures
            r is Ok == regex_compiles(wildcard_regex(wildcard@)),
            r matches Ok(e) ==> e.source() == wildcard_regex(wildcard@),
    {
        let pat = wildcard_to_regex_case_insensitive(wildcard);
        RegexVerify::compile_regex(pat.as_str())
    }
}

impl VerifyEngine for RegexVerify {
    closed spec fn first_match(&self, text: Seq<char>) -> Option<(int, int)> {
        regex_first_match(regex_source(self.rx), text)
    }

    fn is_match(&self, text: &str) -> (b: bool) {
        regex_is_match(&self.rx, text)
    }

    fn find(&self, text: &str) -> (r: Option<(usize, usize)>) {
        regex_find(&self.rx, text)
    }
}

/// What a matcher compiled from a pattern finds first in a text.
pub proof fn lemma_regex_verify_match(e: &RegexVerify, text: Seq<char>)
    ensures
        e.first_match(text) == regex_first_match(e.source(), text),
{
}

/// Makes matchers from normalised wildcard patterns.
pub trait VerifyFactory {
    type Engine: VerifyEngine;

    /// Whether the factory's engine takes the pattern.
    spec fn compiles(&self, wildcard: Seq<char>) -> bool;

    /// Whether the matcher is the one that the factory makes for the
    /// pattern.
    spec fn made_for(e: &Self::Engine, wildcard: Seq<char>) -> bool;

    /// Compiles a matcher for a normalised wildcard pattern.
    fn compile(&self, wildcard_normalized: &str) -> (r: Result<Self::Engine, VerifyError>)
        ensures
            r is Ok == self.compiles(wildcard_normalized@),
            r matches Ok(e) ==> Self::made_for(&e, wildcard_normalized@),
    ;
}

/// The factory that picks the engine by name. Every name gives the
/// `regex` engine, which is the only one there is.
#[derive(Debug, Clone)]
pub struct EnvVerifyFactory {
    pub engine: String,
}

impl EnvVerifyFactory {
    /// The factory for the engine of the given name; no name stands for
    /// `regex`. The name is kept in lower case.
    pub fn named(engine: Option<&str>) -> (r: Self)
        ensures
            r.engine@ == (match engine {
                Some(n) => crate::normalizer::lowercase_of(n@),
                None => "regex"@,
            }),
    {
        match engine {
            Some(n) => EnvVerifyFactory { engine: crate::normalizer::to_lowercase(n) },
            None => EnvVerifyFactory { engine: "regex".to_owned() },
        }
    }
}

impl VerifyFactory for EnvVerifyFactory {
    type Engine = RegexVerify;

    open spec fn compiles(&self, wildcard: Seq<char>) -> bool {
        regex_compiles(wildcard_regex(wildcard))
    }

    open spec fn made_for(e: &RegexVerify, wildcard: Seq<char>) -> bool {
        e.source() == wildcard_regex(wildcard)
    }

    fn compile(&self, wildcard_normalized: &str) -> (r: Result<RegexVerify, VerifyError>) {
        RegexVerify::compile_wildcard(wildcard_normalized)
    }
}

/// A matcher that is a regular expression of PCRE2.
pub struct Pcre2Engine {
    rx: pcre2::bytes::Regex,
}

impl Pcre2Engine {
    /// The pattern that the matcher was compiled from.
    pub closed spec fn source(&self) -> Seq<char> {
        pcre2_source(self.rx)
    }
}

impl VerifyEngine for Pcre2Engine {
    closed spec fn first_match(&self, text: Seq<char>) -> Option<(int, int)> {
        pcre2_first_match(pcre2_source(self.rx), text)
    }

    fn is_match(&self, text: &str) -> (b: bool) {
        pcre2_find(&self.rx, text).is_some()
    }

    fn find(&self, text: &str) -> (r: Option<(usize, usize)>) {
        pcre2_find(&self.rx, text)
    }
}

/// The factory of PCRE2 matchers.
#[derive(Debug, Clone, Copy)]
pub struct Pcre2Factory;

impl Pcre2Factory {
    /// Compiles a matcher for a normalised wildcard pattern.
    pub fn compile_engine(&self, normalized_wildcard: &str) -> (r: Result<Pcre2Engine, VerifyError>)
        ensures
            r is Ok == pcre2_compiles(wildcard_body(normalized_wildcard@)),
            r matches Ok(e) ==> e.source() == wildcard_body(normalized_wildcard@),
    {
        let pat = wildcard_to_regex_pattern(normalized_wildcard);
        match pcre2_build(pat.as_str()) {
            Ok(rx) => Ok(Pcre2Engine { rx }),
            Err(_) => Err(VerifyError::BadPattern),
        }
    }
}

impl VerifyFactory for Pcre2Factory {
    type Engine = Pcre2Engine;

    open spec fn compiles(&self, wildcard: Seq<char>) -> bool {
        pcre2_compiles(wildcard_body(wildcard))
    }

    open spec fn made_for(e: &Pcre2Engine, wildcard: Seq<char>) -> bool {
        e.source() == wildcard_body(wildcard)
    }

    fn compile(&self, wildcard_normalized: &str) -> (r: Result<Pcre2Engine, VerifyError>) {
        self.compile_engine(wildcard_normalized)
    }
}

/// Compiles the matcher of a wildcard pattern as a client wrote it: the
/// pattern is normalised first.
pub fn compile_wildcard_engine(raw_wildcard: &str) -> (r: Result<RegexVerify, VerifyError>)
    ensures
        r is Ok == regex_compiles(wildcard_regex(normalized(raw_wildcard@))),
        r matches Ok(e) ==> e.source() == wildcard_regex(normalized(raw_wildcard@)),
{
    let norm = normalize(raw_wildcard);
    RegexVerify::compile_wildcard(norm.as_str())
}

} // verus!
