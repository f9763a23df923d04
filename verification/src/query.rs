//! The query line of the in-memory index: one or two wildcard patterns,
//! joined by AND, OR or NOT, each with an optional `field:` before it,
//! and the options `--limit N` and `--offset N`.

use vstd::prelude::*;
use crate::digits::{parse_u64, parsed_u64};
use crate::gram::{
    BooleanOp, PatternTooWeak, required_grams as required_grams_of, required_grams_of_chars,
    strings_view,
};
use crate::manifest::first_colon;
use crate::normalizer::{normalize, normalized};
use crate::preview::{find_chars, first_occurrence_from};
use crate::text::{
    char_is_space, chars_of, is_space, push_chars, string_of, string_of_range, trim_chars, trimmed,
};
use crate::verify::{regex_compiles, RegexVerify, VerifyError, wildcard_body};

verus! {

/// What to run against the index.
#[derive(Debug, Clone)]
pub struct ExecPlan {
    pub op: BooleanOp,
    /// The trigrams that a matching text must hold.
    pub grams: Vec<String>,
    /// The wildcard pattern, in normal form.
    pub matcher: String,
    pub field: Option<String>,
}

/// How many hits to give, and how many candidates to pass over first.
#[derive(Debug, Clone, Copy, PartialEq, Eq, Structural, Default)]
pub struct SearchOpts {
    pub limit: u32,
    pub offset: u32,
}

/// A hit of the in-memory index.
#[derive(Debug, Clone)]
pub struct Hit {
    /// The external id of the document.
    pub doc_id: String,
    pub preview: String,
}

/// The number of characters at the start of `s` that are no white space.
pub open spec fn leading_word(s: Seq<char>) -> int
    decreases s.len(),
{
    if s.len() == 0 || is_space(s[0]) {
        0
    } else {
        1 + leading_word(s.drop_first())
    }
}

/// The words of `s`: its longest runs of characters that are no white
/// space, in order.
pub open spec fn words_of(s: Seq<char>) -> Seq<Seq<char>>
    decreases s.len(),
{
    if s.len() == 0 {
        Seq::empty()
    } else if is_space(s[0]) {
        words_of(s.drop_first())
    } else {
        let w = leading_word(s);
        if 0 < w <= s.len() {
            seq![s.take(w)] + words_of(s.skip(w))
        } else {
            Seq::empty()
        }
    }
}

proof fn lemma_leading_word(s: Seq<char>, n: int)
    requires
        0 <= n <= s.len(),
        forall|k: int| 0 <= k < n ==> !is_space(#[trigger] s[k]),
        n < s.len() ==> is_space(s[n]),
    ensures
        leading_word(s) == n,
    decreases n,
{
    if n > 0 {
        assert(!is_space(s[0]));
        assert forall|k: int| 0 <= k < n - 1 implies !is_space(#[trigger] s.drop_first()[k]) by {
            assert(s.drop_first()[k] == s[k + 1]);
        }
        lemma_leading_word(s.drop_first(), n - 1);
    }
}

/// The words of a text.
pub fn split_words(s: &Vec<char>) -> (r: Vec<Vec<char>>)
    ensures
        r@.map_values(|w: Vec<char>| w@) == words_of(s@),
{
    let mut out: Vec<Vec<char>> = Vec::new();
    let mut i: usize = 0;
    let ghost view = |w: Vec<char>| w@;
    proof {
        assert(s@.skip(0) =~= s@);
        assert(out@.map_values(view) + words_of(s@) =~= words_of(s@));
    }
    while i < s.len()
        invariant
            i <= s.len(),
            view == (|w: Vec<char>| w@),
            out@.map_values(view) + words_of(s@.skip(i as int)) == words_of(s@),
        decreases s.len() - i,
    {
        let ghost t = s@.skip(i as int);
        proof {
            assert(t[0] == s@[i as int]);
            assert(t.drop_first() =~= s@.skip(i + 1));
        }
        if char_is_space(s[i]) {
            i += 1;
        } else {
            let start: usize = i;
            let mut word: Vec<char> = Vec::new();
            while i < s.len() && !char_is_space(s[i])
                invariant
                    start <= i <= s.len(),
                    word@ == s@.subrange(start as int, i as int),
                    forall|k: int| start <= k < i ==> !is_space(#[trigger] s@[k]),
                decreases s.len() - i,
            {
                word.push(s[i]);
                proof {
                    assert(word@ =~= s@.subrange(start as int, i + 1));
                }
                i += 1;
            }
            proof {
                lemma_leading_word(t, i - start);
                assert(t.take(i - start) =~= word@);
                assert(t.skip(i - start) =~= s@.skip(i as int));
            }
            let ghost before = out@;
            out.push(word);
            proof {
                assert(out@.map_values(view) =~= before.map_values(view).push(word@));
                assert(before.map_values(view) + words_of(t) =~= out@.map_values(view) + words_of(
                    s@.skip(i as int),
                ));
            }
        }
    }
    proof {
        assert(s@.skip(s.len() as int) =~= Seq::<char>::empty());
        assert(out@.map_values(view) + Seq::<Seq<char>>::empty() =~= out@.map_values(view));
    }
    out
}

/// The number that an option's value gives: what the word says where it
/// is an unsigned decimal that fits 32 bits, else the default.
pub open spec fn option_value(word: Seq<char>, default: u32) -> u32 {
    match parsed_u64(word) {
        Some(n) => if n <= u32::MAX {
            n as u32
        } else {
            default
        },
        None => default,
    }
}

/// The words from the word `j` on that are no option, with a blank
/// before each.
pub open spec fn kept_from(words: Seq<Seq<char>>, j: int) -> Seq<char>
    decreases words.len() - j,
{
    if j < 0 || j >= words.len() {
        Seq::empty()
    } else if (words[j] == "--limit"@ || words[j] == "--offset"@) && j + 1 < words.len() {
        kept_from(words, j + 2)
    } else {
        seq![' '] + words[j] + kept_from(words, j + 1)
    }
}

/// The options that the words from the word `j` on leave, starting from
/// `opts`: `--limit` and `--offset` each take the word after them as
/// their value; a value that is no number gives ten for the limit and
/// zero for the offset.
pub open spec fn opts_from(words: Seq<Seq<char>>, j: int, opts: SearchOpts) -> SearchOpts
    decreases words.len() - j,
{
    if j < 0 || j >= words.len() {
        opts
    } else if words[j] == "--limit"@ && j + 1 < words.len() {
        opts_from(
            words,
            j + 2,
            SearchOpts { limit: option_value(words[j + 1], 10), offset: opts.offset },
        )
    } else if words[j] == "--offset"@ && j + 1 < words.len() {
        opts_from(
            words,
            j + 2,
            SearchOpts { limit: opts.limit, offset: option_value(words[j + 1], 0) },
        )
    } else {
        opts_from(words, j + 1, opts)
    }
}

/// The words of a query line that are no option, joined by one blank.
pub open spec fn joined_words(words: Seq<Seq<char>>) -> Seq<char> {
    let k = kept_from(words, 0);
    if k.len() == 0 {
        k
    } else {
        k.drop_first()
    }
}

/// The two sides of an expression and what joins them: the text before
/// and after the first ` AND `, or failing that the first ` OR `, or
/// failing that the first ` NOT `; without any of them the whole text
/// under AND, with nothing on the right.
pub open spec fn split_expr(j: Seq<char>) -> (BooleanOp, Seq<char>, Seq<char>) {
    match first_occurrence_from(j, " AND "@, 0) {
        Some(p) => (BooleanOp::And, j.take(p), j.skip(p + 5)),
        None => match first_occurrence_from(j, " OR "@, 0) {
            Some(p) => (BooleanOp::Or, j.take(p), j.skip(p + 4)),
            None => match first_occurrence_from(j, " NOT "@, 0) {
                Some(p) => (BooleanOp::Not, j.take(p), j.skip(p + 5)),
                None => (BooleanOp::And, j, Seq::empty()),
            },
        },
    }
}

/// One side of an expression: its field, if a colon parts one off, and
/// its pattern in normal form. `None` for a side that is blank.
pub open spec fn side_of(expr: Seq<char>) -> Option<(Option<Seq<char>>, Seq<char>)> {
    let e = trimmed(expr);
    if e.len() == 0 {
        None
    } else {
        let c = first_colon(e);
        if 0 <= c < e.len() {
            Some((Some(e.take(c)), normalized(e.skip(c + 1))))
        } else {
            Some((None, normalized(e)))
        }
    }
}

/// The trigrams that a side requires.
pub open spec fn side_grams(side: Option<(Option<Seq<char>>, Seq<char>)>) -> Seq<Seq<char>> {
    match side {
        Some((_, pat)) => required_grams_of(pat),
        None => Seq::empty(),
    }
}

/// The plan of a query line, as texts.
pub struct PlanModel {
    pub op: BooleanOp,
    pub grams: Seq<Seq<char>>,
    pub matcher: Seq<char>,
    pub field: Option<Seq<char>>,
}

/// The plan that two sides make: the trigrams of both, the pattern of
/// the first side that has one which is not empty, and the field of the
/// first side that names one.
pub open spec fn plan_of(
    op: BooleanOp,
    lhs: Option<(Option<Seq<char>>, Seq<char>)>,
    rhs: Option<(Option<Seq<char>>, Seq<char>)>,
) -> PlanModel {
    let m1 = match lhs {
        Some((_, pat)) => pat,
        None => Seq::empty(),
    };
    let m2 = match rhs {
        Some((_, pat)) => pat,
        None => Seq::empty(),
    };
    let f1 = match lhs {
        Some((f, _)) => f,
        None => None,
    };
    let f2 = match rhs {
        Some((f, _)) => f,
        None => None,
    };
    PlanModel {
        op,
        grams: side_grams(lhs) + side_grams(rhs),
        matcher: if m1.len() > 0 {
            m1
        } else {
            m2
        },
        field: if f1 is Some {
            f1
        } else {
            f2
        },
    }
}

/// The plan of a query line.
pub open spec fn parsed_plan(s: Seq<char>) -> PlanModel {
    let (op, lhs, rhs) = split_expr(joined_words(words_of(s)));
    plan_of(op, side_of(lhs), side_of(rhs))
}

/// The options of a query line: a limit of ten and an offset of zero,
/// unless the line sets them.
pub open spec fn parsed_opts(s: Seq<char>) -> SearchOpts {
    opts_from(words_of(s), 0, SearchOpts { limit: 10, offset: 0 })
}

/// The plan as texts.
pub open spec fn plan_model(p: ExecPlan) -> PlanModel {
    PlanModel {
        op: p.op,
        grams: strings_view(p.grams@),
        matcher: p.matcher@,
        field: match p.field {
            Some(f) => Some(f@),
            None => None,
        },
    }
}

/// The value of an option.
fn parse_option(word: &Vec<char>, default: u32) -> (r: u32)
    ensures
        r == option_value(word@, default),
{
    match parse_u64(word) {
        Some(n) => if n <= 0xFFFF_FFFF {
            n as u32
        } else {
            default
        },
        None => default,
    }
}

/// Reads one side of an expression.
fn parse_side(expr: &Vec<char>, from: usize, to: usize) -> (r: Option<(Option<String>, Vec<char>)>)
    requires
        from <= to <= expr.len(),
    ensures
        match r {
            Some((f, pat)) => side_of(expr@.subrange(from as int, to as int)) == Some(
                (
                    match f {
                        Some(x) => Some(x@),
                        None => None,
                    },
                    pat@,
                ),
            ),
            None => side_of(expr@.subrange(from as int, to as int)) is None,
        },
{
    let piece = string_of_range(expr, from, to);
    let e = trim_chars(piece.as_str());
    if e.len() == 0 {
        return None;
    }
    let mut c: usize = 0;
    while c < e.len() && e[c] != ':'
        invariant
            c <= e.len(),
            forall|k: int| 0 <= k < c ==> e@[k] != ':',
        decreases e.len() - c,
    {
        c += 1;
    }
    proof {
        lemma_first_colon_at(e@, c as int);
    }
    if c < e.len() {
        let field = string_of_range(&e, 0, c);
        let pat = string_of_range(&e, c + 1, e.len());
        proof {
            assert(e@.subrange(0, c as int) =~= e@.take(c as int));
            assert(e@.subrange(c + 1, e.len() as int) =~= e@.skip(c + 1));
        }
        let n = normalize(pat.as_str());
        Some((Some(field), chars_of(n.as_str())))
    } else {
        let pat = string_of(&e);
        let n = normalize(pat.as_str());
        Some((None, chars_of(n.as_str())))
    }
}

proof fn lemma_first_colon_at(s: Seq<char>, n: int)
    requires
        0 <= n <= s.len(),
        forall|k: int| 0 <= k < n ==> s[k] != ':',
        n < s.len() ==> s[n] == ':',
    ensures
        first_colon(s) == n,
    decreases n,
{
    if n > 0 {
        lemma_first_colon_at(s.drop_first(), n - 1);
    }
}

/// The trigrams that an already normalised pattern requires: every
/// window of three literal characters. A pattern without one requires
/// nothing.
pub fn required_grams(pat_norm: &str) -> (r: Vec<String>)
    ensures
        strings_view(r@) == required_grams_of(pat_norm@),
{
    let p = chars_of(pat_norm);
    required_grams_of_chars(&p)
}

/// The regular expression of a normalised wildcard pattern in which a
/// dot matches line feeds too and letter case counts.
pub open spec fn pattern_regex(p: Seq<char>) -> Seq<char> {
    seq!['(', '?', 's', ')'] + wildcard_body(p)
}

/// Compiles a normalised wildcard pattern into a matcher in which letter
/// case counts.
pub fn compile_pattern(pat_norm: &str) -> (r: Result<RegexVerify, VerifyError>)
    ensures
        r is Ok == regex_compiles(pattern_regex(pat_norm@)),
        r matches Ok(e) ==> e.source() == pattern_regex(pat_norm@),
{
    let body = crate::verify::wildcard_to_regex_pattern(pat_norm);
    let mut rx: Vec<char> = Vec::new();
    rx.push('(');
    rx.push('?');
    rx.push('s');
    rx.push(')');
    let b = chars_of(body.as_str());
    push_chars(&mut rx, &b);
    proof {
        assert(rx@ =~= pattern_regex(pat_norm@));
    }
    let text = string_of(&rx);
    RegexVerify::compile_regex(text.as_str())
}

/// Reads a query line. It fails where neither side requires a trigram.
pub fn parse_query(s: &str) -> (r: Result<(ExecPlan, SearchOpts), PatternTooWeak>)
    ensures
        match r {
            Ok((plan, opts)) => plan_model(plan) == parsed_plan(s@) && opts == parsed_opts(s@)
                && plan.grams@.len() > 0,
            Err(_) => parsed_plan(s@).grams.len() == 0,
        },
{
    let cs = chars_of(s);
    let words = split_words(&cs);
    let ghost ws = words_of(s@);
    let ghost view = |w: Vec<char>| w@;
    let mut opts = SearchOpts { limit: 10, offset: 0 };
    let mut kept: Vec<char> = Vec::new();
    let limit_word = chars_of("--limit");
    let offset_word = chars_of("--offset");
    let mut j: usize = 0;
    proof {
        assert(ws.len() == words.len());
        assert(kept@ + kept_from(ws, 0) =~= kept_from(ws, 0));
    }
    while j < words.len()
        invariant
            j <= words.len(),
            ws == words@.map_values(|w: Vec<char>| w@),
            limit_word@ == "--limit"@,
            offset_word@ == "--offset"@,
            kept@ + kept_from(ws, j as int) == kept_from(ws, 0),
            opts_from(ws, j as int, opts) == opts_from(ws, 0, SearchOpts { limit: 10, offset: 0 }),
        decreases words.len() - j,
    {
        proof {
            assert(ws[j as int] == words@[j as int]@);
            if j + 1 < words.len() {
                assert(ws[j + 1] == words@[j + 1]@);
            }
        }
        let is_limit = crate::text::chars_eq(&words[j], &limit_word);
        let is_offset = crate::text::chars_eq(&words[j], &offset_word);
        if is_limit && j + 1 < words.len() {
            opts.limit = parse_option(&words[j + 1], 10);
            j += 2;
        } else if is_offset && j + 1 < words.len() {
            opts.offset = parse_option(&words[j + 1], 0);
            j += 2;
        } else {
            let ghost before = kept@;
            kept.push(' ');
            push_chars(&mut kept, &words[j]);
            proof {
                assert(kept@ =~= before + (seq![' '] + ws[j as int]));
                assert(before + kept_from(ws, j as int) =~= kept@ + kept_from(ws, j + 1));
            }
            j += 1;
        }
    }
    proof {
        assert(kept@ + Seq::<char>::empty() =~= kept@);
    }
    let mut joined: Vec<char> = Vec::new();
    if kept.len() > 0 {
        let mut k: usize = 1;
        while k < kept.len()
            invariant
                1 <= k <= kept.len(),
                joined@ == kept@.subrange(1, k as int),
            decreases kept.len() - k,
        {
            joined.push(kept[k]);
            proof {
                assert(joined@ =~= kept@.subrange(1, k + 1));
            }
            k += 1;
        }
        proof {
            assert(joined@ =~= kept@.drop_first());
        }
    }
    let and_word = chars_of(" AND ");
    let or_word = chars_of(" OR ");
    let not_word = chars_of(" NOT ");
    let n: usize = joined.len();
    let (op, lhs_to, rhs_from): (BooleanOp, usize, usize) = match find_chars(&joined, &and_word) {
        Some(p) => {
            proof {
                reveal_strlit(" AND ");
            }
            (BooleanOp::And, p, p + 5)
        },
        None => match find_chars(&joined, &or_word) {
            Some(p) => {
                proof {
                    reveal_strlit(" OR ");
                }
                (BooleanOp::Or, p, p + 4)
            },
            None => match find_chars(&joined, &not_word) {
                Some(p) => {
                    proof {
                        reveal_strlit(" NOT ");
                    }
                    (BooleanOp::Not, p, p + 5)
                },
                None => (BooleanOp::And, n, n),
            },
        },
    };
    proof {
        let (sop, sl, sr) = split_expr(joined@);
        assert(sop == op);
        assert(joined@.subrange(0, lhs_to as int) =~= sl);
        assert(joined@.subrange(rhs_from as int, n as int) =~= sr);
    }
    let lhs = parse_side(&joined, 0, lhs_to);
    let rhs = parse_side(&joined, rhs_from, n);
    let mut grams: Vec<String> = Vec::new();
    let mut matcher: Vec<char> = Vec::new();
    let mut field: Option<String> = None;
    proof {
        assert(strings_view(grams@) =~= Seq::<Seq<char>>::empty());
    }
    match lhs {
        Some((f, pat)) => {
            grams = required_grams_of_chars(&pat);
            matcher = pat;
            field = f;
        },
        None => {},
    }
    match rhs {
        Some((f, pat)) => {
            let mut more = required_grams_of_chars(&pat);
            let ghost a = strings_view(grams@);
            let ghost b = strings_view(more@);
            grams.append(&mut more);
            proof {
                assert(strings_view(grams@) =~= a + b);
            }
            if matcher.len() == 0 {
                matcher = pat;
            }
            match field {
                Some(_) => {},
                None => {
                    field = f;
                },
            }
        },
        None => {
            proof {
                assert(strings_view(grams@) + Seq::<Seq<char>>::empty() =~= strings_view(grams@));
            }
        },
    }
    if grams.len() == 0 {
        return Err(PatternTooWeak);
    }
    let plan = ExecPlan { op, grams, matcher: string_of(&matcher), field };
    Ok((plan, opts))
}

} // verus!
