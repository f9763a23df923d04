//! The input of the segment writer: a text of one JSON document per line.

use vstd::prelude::*;
use crate::doc::{ext_id_of, has_ext_id, normalize_leaves, normalized_leaves};
use crate::gram::strings_view;
use crate::json::{collect_strings, json_parsed, leaves_view, parse_json, string_leaves};
use crate::segment::error::SegmentError;
use crate::text::{char_is_space, chars_of, is_space, string_of_range};

verus! {

/// Whether a line holds nothing but white space.
pub open spec fn is_blank(line: Seq<char>) -> bool {
    forall|i: int| 0 <= i < line.len() ==> is_space(#[trigger] line[i])
}

/// Whether a line holds nothing but white space.
pub fn line_is_blank(line: &str) -> (r: bool)
    ensures
        r == is_blank(line@),
{
    let cs = chars_of(line);
    let mut i: usize = 0;
    while i < cs.len()
        invariant
            i <= cs.len(),
            cs@ == line@,
            forall|k: int| 0 <= k < i ==> is_space(#[trigger] cs@[k]),
        decreases cs.len() - i,
    {
        if !char_is_space(cs[i]) {
            return false;
        }
        i += 1;
    }
    true
}

/// The index of the first line feed of `s`, or its length where it has none.
pub open spec fn first_nl(s: Seq<char>) -> int
    decreases s.len(),
{
    if s.len() == 0 || s[0] == '\n' {
        0
    } else {
        1 + first_nl(s.drop_first())
    }
}

/// `l` without one carriage return at its end.
pub open spec fn strip_cr(l: Seq<char>) -> Seq<char> {
    if l.len() > 0 && l.last() == '\r' {
        l.drop_last()
    } else {
        l
    }
}

/// The lines of `s`: what stands between line feeds, a carriage return
/// before a line feed taken off, and what follows the last line feed if
/// anything does.
pub open spec fn lines_of(s: Seq<char>) -> Seq<Seq<char>>
    decreases s.len(),
{
    if s.len() == 0 {
        Seq::empty()
    } else {
        let i = first_nl(s);
        if 0 <= i < s.len() {
            seq![strip_cr(s.take(i))] + lines_of(s.skip(i + 1))
        } else {
            seq![s]
        }
    }
}

proof fn lemma_first_nl(s: Seq<char>, n: int)
    requires
        0 <= n <= s.len(),
        forall|k: int| 0 <= k < n ==> s[k] != '\n',
        n < s.len() ==> s[n] == '\n',
    ensures
        first_nl(s) == n,
    decreases n,
{
    if n > 0 {
        lemma_first_nl(s.drop_first(), n - 1);
    }
}

/// Splits a text into its lines.
pub fn split_lines(text: &str) -> (r: Vec<String>)
    ensures
        strings_view(r@) == lines_of(text@),
{
    let cs = chars_of(text);
    let mut out: Vec<String> = Vec::new();
    let mut start: usize = 0;
    let mut i: usize = 0;
    proof {
        assert(cs@.skip(0) =~= cs@);
        assert(strings_view(out@) + lines_of(cs@) =~= lines_of(cs@));
    }
    while i < cs.len()
        invariant
            start <= i <= cs.len(),
            cs@ == text@,
            forall|k: int| start <= k < i ==> cs@[k] != '\n',
            strings_view(out@) + lines_of(cs@.skip(start as int)) == lines_of(cs@),
        decreases cs.len() - i,
    {
        if cs[i] == '\n' {
            let end: usize = if i > start && cs[i - 1] == '\r' {
                i - 1
            } else {
                i
            };
            let line = string_of_range(&cs, start, end);
            let ghost before = out@;
            out.push(line);
            proof {
                let t = cs@.skip(start as int);
                lemma_first_nl(t, i - start);
                assert(t.take(i - start) =~= cs@.subrange(start as int, i as int));
                assert(strip_cr(t.take(i - start)) =~= line@);
                assert(t.skip(i - start + 1) =~= cs@.skip(i + 1));
                assert(strings_view(out@) =~= strings_view(before).push(line@));
                assert(strings_view(before) + lines_of(t) =~= strings_view(out@) + lines_of(
                    cs@.skip(i + 1),
                ));
            }
            start = i + 1;
        }
        i += 1;
    }
    if start < cs.len() {
        let line = string_of_range(&cs, start, cs.len());
        let ghost before = out@;
        out.push(line);
        proof {
            let t = cs@.skip(start as int);
            lemma_first_nl(t, t.len() as int);
            assert(t =~= line@);
            assert(strings_view(out@) =~= strings_view(before).push(line@));
        }
    } else {
        proof {
            assert(strings_view(out@) + Seq::<Seq<char>>::empty() =~= strings_view(out@));
        }
    }
    out
}

/// A document as the writer takes it from a line: the external id and the
/// string leaves, each value normalised.
pub struct InputModel {
    pub ext_id: Seq<char>,
    pub leaves: Seq<(Seq<char>, Seq<char>)>,
}

/// A document as the writer takes it from a line.
#[derive(Debug)]
pub struct InputDoc {
    pub ext_id: String,
    /// Path and normalised value of every string leaf, in walk order.
    pub leaves: Vec<(String, String)>,
}

impl InputDoc {
    pub open spec fn model(self) -> InputModel {
        InputModel { ext_id: self.ext_id@, leaves: leaves_view(self.leaves@) }
    }
}

/// The models of a sequence of input documents.
pub open spec fn input_models(docs: Seq<InputDoc>) -> Seq<InputModel> {
    docs.map_values(|d: InputDoc| d.model())
}

/// What the first `n` lines hold: the documents of the lines that are not
/// blank, or the first line that is no JSON value or whose document has
/// no string member `_id`.
pub open spec fn input_of(lines: Seq<Seq<char>>, n: int) -> Result<Seq<InputModel>, SegmentError>
    decreases n,
{
    if n <= 0 || n > lines.len() {
        Ok(Seq::empty())
    } else {
        match input_of(lines, n - 1) {
            Err(e) => Err(e),
            Ok(prev) => {
                let l = lines[n - 1];
                if is_blank(l) {
                    Ok(prev)
                } else {
                    match json_parsed(l) {
                        None => Err(SegmentError::BadJson { line: (n - 1) as usize }),
                        Some(j) => if !has_ext_id(j) {
                            Err(SegmentError::MissingId { line: (n - 1) as usize })
                        } else {
                            Ok(
                                prev.push(
                                    InputModel {
                                        ext_id: ext_id_of(j),
                                        leaves: normalized_leaves(string_leaves(j, Seq::empty())),
                                    },
                                ),
                            )
                        },
                    }
                }
            },
        }
    }
}

/// Once a line is refused, reading further lines does not change that.
pub proof fn lemma_input_error_stays(lines: Seq<Seq<char>>, k: int, n: int)
    requires
        0 <= k <= n <= lines.len(),
        input_of(lines, k) is Err,
    ensures
        input_of(lines, n) == input_of(lines, k),
    decreases n - k,
{
    if k < n {
        lemma_input_error_stays(lines, k, n - 1);
    }
}

/// Reads the documents of the lines.
pub fn read_input(lines: &Vec<String>) -> (r: Result<Vec<InputDoc>, SegmentError>)
    ensures
        match r {
            Ok(docs) => input_of(strings_view(lines@), lines.len() as int) == Ok::<
                _,
                SegmentError,
            >(input_models(docs@)),
            Err(e) => input_of(strings_view(lines@), lines.len() as int) == Err::<
                Seq<InputModel>,
                _,
            >(e),
        },
{
    let mut docs: Vec<InputDoc> = Vec::new();
    let mut i: usize = 0;
    let ghost ls = strings_view(lines@);
    proof {
        assert(input_models(docs@) =~= Seq::<InputModel>::empty());
    }
    while i < lines.len()
        invariant
            i <= lines.len(),
            ls == strings_view(lines@),
            input_of(ls, i as int) == Ok::<_, SegmentError>(input_models(docs@)),
        decreases lines.len() - i,
    {
        proof {
            assert(ls[i as int] == lines@[i as int]@);
        }
        if !line_is_blank(lines[i].as_str()) {
            match parse_json(lines[i].as_str()) {
                None => {
                    proof {
                        lemma_input_error_stays(ls, i + 1, lines.len() as int);
                    }
                    return Err(SegmentError::BadJson { line: i });
                },
                Some(j) => {
                    let ext_id: String = match j.get("_id") {
                        Some(v) => match v.as_str() {
                            Some(s) => s.to_owned(),
                            None => {
                                proof {
                                    lemma_input_error_stays(ls, i + 1, lines.len() as int);
                                }
                                return Err(SegmentError::MissingId { line: i });
                            },
                        },
                        None => {
                            proof {
                                lemma_input_error_stays(ls, i + 1, lines.len() as int);
                            }
                            return Err(SegmentError::MissingId { line: i });
                        },
                    };
                    let raw = collect_strings(&j);
                    let leaves = normalize_leaves(&raw);
                    let ghost before = docs@;
                    let d = InputDoc { ext_id, leaves };
                    docs.push(d);
                    proof {
                        assert(input_models(docs@) =~= input_models(before).push(d.model()));
                    }
                },
            }
        }
        i += 1;
    }
    Ok(docs)
}

} // verus!
