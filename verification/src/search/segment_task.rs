//! The per-segment task: prefilter, then walk the candidates past the
//! cursor in doc id order, verify each against the matcher and build the
//! hits of this segment.

use vstd::prelude::*;
use crate::bitmap::{bitmap_to_vec, strictly_increasing};
use crate::doc::StoredDoc;
use crate::gram::{BooleanOp, is_wildcard, required_grams, required_grams_from_wildcard};
use crate::normalizer::{normalize, normalized};
use crate::preview::{snippet, snippet_with_highlight};
use crate::sat::sat_add;
use crate::search::error::SearchError;
use crate::search::executor::{SegmentTaskInput, SegmentTaskOutput};
use crate::search::types::Hit;
use crate::segment::docs::{DocModel, model_of};
use crate::segment::traits::{AnySegmentReader, same_reader, SegmentReader};
use crate::strmap::{keys_sorted, lemma_lookup_at, lookup};
use crate::text::{
    byte_offset, chars_of, lemma_byte_offset_monotonic, lemma_byte_offset_step, string_of_range,
};
use crate::verify::VerifyEngine;

verus! {

#[verifier::external_type_specification]
#[verifier::external_body]
pub struct ExInstant(std::time::Instant);

/// `Instant::now` reads the clock.
#[verifier::external_body]
pub(crate) fn clock_now() -> std::time::Instant {
    std::time::Instant::now()
}

/// `Instant::elapsed` in whole milliseconds; above the largest 64-bit
/// value it stays at that.
#[verifier::external_body]
pub(crate) fn elapsed_ms(since: &std::time::Instant) -> u64 {
    u64::try_from(since.elapsed().as_millis()).unwrap_or(u64::MAX)
}

/// The width of a preview in characters.
pub const PREVIEW_LEN: usize = 180;

/// The most hits that one task returns.
pub const TASK_HIT_LIMIT: usize = 1024;

/// The most candidates that are read ahead of the walk.
pub const WARM_LIMIT: usize = 5000;

/// The field to search, or `None` where the empty string says "any".
pub fn non_empty(s: &str) -> (r: Option<&str>)
    ensures
        match r {
            Some(t) => field_choice(s@) == Some(t@),
            None => field_choice(s@) is None,
        },
{
    if s.is_empty() {
        None
    } else {
        Some(s)
    }
}

/// The field to search, or `None` where the empty text says "any".
pub open spec fn field_choice(s: Seq<char>) -> Option<Seq<char>> {
    if s.len() == 0 {
        None
    } else {
        Some(s)
    }
}

/// The number of candidates to pass over for a cursor: its value, or zero
/// where there is none.
pub fn skip_from_cursor(cur: Option<u64>) -> (r: usize)
    ensures
        r == (match cur {
            Some(v) => if v > usize::MAX {
                usize::MAX as int
            } else {
                v as int
            },
            None => 0,
        }),
{
    match cur {
        Some(v) => if v > usize::MAX as u64 {
            usize::MAX
        } else {
            v as usize
        },
        None => 0,
    }
}

/// A hit as texts.
pub struct HitModel {
    pub ext_id: Seq<char>,
    pub doc_id: u32,
    pub matched_field: Seq<char>,
    pub preview: Seq<char>,
}

/// The texts of a hit.
pub open spec fn hit_model(h: Hit) -> HitModel {
    HitModel {
        ext_id: h.ext_id@,
        doc_id: h.doc_id,
        matched_field: h.matched_field@,
        preview: h.preview@,
    }
}

/// The texts of hits.
pub open spec fn hit_models(hs: Seq<Hit>) -> Seq<HitModel> {
    hs.map_values(|h: Hit| hit_model(h))
}

/// The cursor that a walk leaves: the last doc id that it looked at, or
/// the cursor it came with where it looked at none.
pub open spec fn next_cursor(last: Option<u32>, cursor: Option<u64>) -> Option<u64> {
    match last {
        Some(id) => Some(id as u64),
        None => cursor,
    }
}

/// Whether the doc id lies past the cursor.
pub open spec fn is_past(cur: Option<u64>, id: u32) -> bool {
    match cur {
        Some(c) => id > c,
        None => true,
    }
}

/// The first `n` of the ids `v` that lie past the cursor.
pub open spec fn past_cursor(v: Seq<u32>, cur: Option<u64>, n: int) -> Seq<u32>
    decreases n,
{
    if n <= 0 || n > v.len() {
        Seq::empty()
    } else if is_past(cur, v[n - 1]) {
        past_cursor(v, cur, n - 1).push(v[n - 1])
    } else {
        past_cursor(v, cur, n - 1)
    }
}

/// The name of the first field from index `from` on whose text the
/// matcher accepts.
pub open spec fn first_matching<E: VerifyEngine>(
    eng: &E,
    texts: Seq<(Seq<char>, Seq<char>)>,
    from: int,
) -> Option<Seq<char>>
    decreases texts.len() - from,
{
    if from < 0 || from >= texts.len() {
        None
    } else if eng.first_match(texts[from].1) is Some {
        Some(texts[from].0)
    } else {
        first_matching(eng, texts, from + 1)
    }
}

/// The field in which a document matches: the named field if its text is
/// accepted, or without a name the first field, in name order, whose text
/// is.
pub open spec fn matched_field_of<E: VerifyEngine>(
    eng: &E,
    texts: Seq<(Seq<char>, Seq<char>)>,
    field: Option<Seq<char>>,
) -> Option<Seq<char>> {
    match field {
        Some(f) => match lookup(texts, f) {
            Some(t) => if eng.first_match(t) is Some {
                Some(f)
            } else {
                None
            },
            None => None,
        },
        None => first_matching(eng, texts, 0),
    }
}

/// The hit of a document that matches in the field `mf`: the preview is
/// the snippet around the first match in the text of that field.
pub open spec fn hit_of<E: VerifyEngine>(eng: &E, id: u32, doc: DocModel, mf: Seq<char>) -> HitModel {
    let text = match lookup(doc.texts, mf) {
        Some(t) => t,
        None => Seq::empty(),
    };
    let place = match eng.first_match(text) {
        Some(p) => p,
        None => (0int, 0int),
    };
    HitModel {
        ext_id: doc.ext_id,
        doc_id: id,
        matched_field: mf,
        preview: snippet(text, place.0, place.1, PREVIEW_LEN as int),
    }
}

/// How far a walk over the candidates has come.
pub struct Walk {
    pub hits: Seq<HitModel>,
    /// The candidates counted so far.
    pub candidates: nat,
    /// The last doc id that was looked at.
    pub last: Option<u32>,
    /// Whether the walk has ended before the candidates did.
    pub stopped: bool,
}

/// The walk over the first `n` candidates. Each candidate is marked as
/// the last one looked at and counted; the walk ends there where the
/// count is then above `max_candidates`. Else the document is read and
/// verified; a match adds a hit, and the walk ends where the hits have
/// reached the limit of one task.
pub open spec fn walked<E: VerifyEngine>(
    eng: &E,
    docs: spec_fn(u32) -> Option<DocModel>,
    field: Option<Seq<char>>,
    cands: Seq<u32>,
    n: int,
    max_candidates: u64,
) -> Walk
    decreases n,
{
    if n <= 0 || n > cands.len() {
        Walk { hits: Seq::empty(), candidates: 0, last: None, stopped: false }
    } else {
        let prev = walked(eng, docs, field, cands, n - 1, max_candidates);
        if prev.stopped {
            prev
        } else {
            let id = cands[n - 1];
            let counted = prev.candidates + 1;
            if counted > max_candidates {
                Walk { hits: prev.hits, candidates: counted, last: Some(id), stopped: true }
            } else {
                let found = match docs(id) {
                    Some(doc) => match matched_field_of(eng, doc.texts, field) {
                        Some(mf) => Some(hit_of(eng, id, doc, mf)),
                        None => None,
                    },
                    None => None,
                };
                match found {
                    Some(h) => Walk {
                        hits: prev.hits.push(h),
                        candidates: counted,
                        last: Some(id),
                        stopped: prev.hits.len() + 1 >= TASK_HIT_LIMIT,
                    },
                    None => Walk {
                        hits: prev.hits,
                        candidates: counted,
                        last: Some(id),
                        stopped: false,
                    },
                }
            }
        }
    }
}

/// The documents of a reader, by doc id.
pub open spec fn docs_of(reader: AnySegmentReader) -> spec_fn(u32) -> Option<DocModel> {
    |id: u32| reader.document(id)
}

/// Every hit of a walk stands for a document whose matched field the
/// matcher accepts.
pub proof fn lemma_walk_hits_match<E: VerifyEngine>(
    eng: &E,
    docs: spec_fn(u32) -> Option<DocModel>,
    field: Option<Seq<char>>,
    cands: Seq<u32>,
    n: int,
    max_candidates: u64,
    i: int,
)
    requires
        0 <= i < walked(eng, docs, field, cands, n, max_candidates).hits.len(),
    ensures
        ({
            let h = walked(eng, docs, field, cands, n, max_candidates).hits[i];
            &&& cands.contains(h.doc_id)
            &&& docs(h.doc_id) matches Some(doc) && h.ext_id == doc.ext_id && matched_field_of(
                eng,
                doc.texts,
                field,
            ) == Some(h.matched_field)
        }),
    decreases n,
{
    if n <= 0 || n > cands.len() {
    } else {
        let prev = walked(eng, docs, field, cands, n - 1, max_candidates);
        let cur = walked(eng, docs, field, cands, n, max_candidates);
        if i < prev.hits.len() {
            lemma_walk_hits_match(eng, docs, field, cands, n - 1, max_candidates, i);
            assert(cur.hits[i] == prev.hits[i]);
        } else {
            assert(cands[n - 1] == cur.hits[i].doc_id);
        }
    }
}

/// What lies past the cursor is taken from the candidates, in their
/// order, and lies past the cursor.
pub proof fn lemma_past_cursor(v: Seq<u32>, cur: Option<u64>, n: int)
    requires
        0 <= n <= v.len(),
        strictly_increasing(v),
    ensures
        strictly_increasing(past_cursor(v, cur, n)),
        forall|i: int|
            0 <= i < past_cursor(v, cur, n).len() ==> is_past(
                cur,
                #[trigger] past_cursor(v, cur, n)[i],
            ) && v.take(n).contains(past_cursor(v, cur, n)[i]),
    decreases n,
{
    if n > 0 {
        lemma_past_cursor(v, cur, n - 1);
        let prev = past_cursor(v, cur, n - 1);
        let now = past_cursor(v, cur, n);
        assert forall|i: int| 0 <= i < now.len() implies is_past(cur, #[trigger] now[i])
            && v.take(n).contains(now[i]) by {
            if i < prev.len() {
                let t = v.take(n - 1);
                assert(t.contains(prev[i]));
                let k = choose|k: int| 0 <= k < t.len() && t[k] == prev[i];
                assert(v.take(n)[k] == now[i]);
            } else {
                assert(v.take(n)[n - 1] == now[i]);
            }
        }
        assert forall|i: int, j: int| 0 <= i < j < now.len() implies now[i] < now[j] by {
            if j == prev.len() {
                let t = v.take(n - 1);
                assert(t.contains(prev[i]));
                let k = choose|k: int| 0 <= k < t.len() && t[k] == prev[i];
                assert(v[k] < v[n - 1]);
            }
        }
    }
}

/// In a walk over candidates in increasing order, no hit has a doc id
/// above the last doc id looked at.
pub proof fn lemma_walk_last<E: VerifyEngine>(
    eng: &E,
    docs: spec_fn(u32) -> Option<DocModel>,
    field: Option<Seq<char>>,
    cands: Seq<u32>,
    n: int,
    max_candidates: u64,
)
    requires
        0 <= n <= cands.len(),
        strictly_increasing(cands),
    ensures
        ({
            let w = walked(eng, docs, field, cands, n, max_candidates);
            &&& w.hits.len() > 0 ==> w.last is Some
            &&& w.last matches Some(l) ==> cands.take(n).contains(l) && forall|i: int|
                0 <= i < w.hits.len() ==> (#[trigger] w.hits[i]).doc_id <= l
        }),
    decreases n,
{
    if n > 0 {
        lemma_walk_last(eng, docs, field, cands, n - 1, max_candidates);
        let prev = walked(eng, docs, field, cands, n - 1, max_candidates);
        let w = walked(eng, docs, field, cands, n, max_candidates);
        if prev.stopped {
            if prev.last is Some {
                let l = prev.last->0;
                let t = cands.take(n - 1);
                let k = choose|k: int| 0 <= k < t.len() && t[k] == l;
                assert(cands.take(n)[k] == l);
            }
        } else {
            let id = cands[n - 1];
            assert(cands.take(n)[n - 1] == id);
            assert forall|i: int| 0 <= i < w.hits.len() implies (#[trigger] w.hits[i]).doc_id
                <= id by {
                if i < prev.hits.len() {
                    assert(w.hits[i] == prev.hits[i]);
                    let l = prev.last->0;
                    let t = cands.take(n - 1);
                    let k = choose|k: int| 0 <= k < t.len() && t[k] == l;
                    assert(cands[k] < cands[n - 1]);
                }
            }
        }
    }
}

/// Two pages of one segment do not overlap: where the second walk starts
/// from the last doc id that the first walk looked at, no document is a
/// hit of both.
pub proof fn lemma_pages_do_not_overlap<E1: VerifyEngine, E2: VerifyEngine>(
    eng1: &E1,
    eng2: &E2,
    docs: spec_fn(u32) -> Option<DocModel>,
    field: Option<Seq<char>>,
    cands1: Seq<u32>,
    cands2: Seq<u32>,
    cursor1: Option<u64>,
    max1: u64,
    max2: u64,
    i: int,
    j: int,
)
    requires
        strictly_increasing(cands1),
        strictly_increasing(cands2),
        ({
            let past1 = past_cursor(cands1, cursor1, cands1.len() as int);
            let w1 = walked(eng1, docs, field, past1, past1.len() as int, max1);
            let cursor2 = next_cursor(w1.last, cursor1);
            let past2 = past_cursor(cands2, cursor2, cands2.len() as int);
            let w2 = walked(eng2, docs, field, past2, past2.len() as int, max2);
            0 <= i < w1.hits.len() && 0 <= j < w2.hits.len()
        }),
    ensures
        ({
            let past1 = past_cursor(cands1, cursor1, cands1.len() as int);
            let w1 = walked(eng1, docs, field, past1, past1.len() as int, max1);
            let cursor2 = next_cursor(w1.last, cursor1);
            let past2 = past_cursor(cands2, cursor2, cands2.len() as int);
            let w2 = walked(eng2, docs, field, past2, past2.len() as int, max2);
            w1.hits[i].doc_id < w2.hits[j].doc_id
        }),
{
    let past1 = past_cursor(cands1, cursor1, cands1.len() as int);
    let w1 = walked(eng1, docs, field, past1, past1.len() as int, max1);
    let cursor2 = next_cursor(w1.last, cursor1);
    let past2 = past_cursor(cands2, cursor2, cands2.len() as int);
    let w2 = walked(eng2, docs, field, past2, past2.len() as int, max2);
    lemma_past_cursor(cands1, cursor1, cands1.len() as int);
    lemma_past_cursor(cands2, cursor2, cands2.len() as int);
    lemma_walk_last(eng1, docs, field, past1, past1.len() as int, max1);
    lemma_walk_hits_match(eng2, docs, field, past2, past2.len() as int, max2, j);
    let h2 = w2.hits[j];
    let k = choose|k: int| 0 <= k < past2.len() && past2[k] == h2.doc_id;
    assert(is_past(cursor2, past2[k]));
}

/// Whether no two documents of a segment carry the same external id.
pub open spec fn ext_ids_distinct(docs: spec_fn(u32) -> Option<DocModel>) -> bool {
    forall|a: u32, b: u32|
        a != b && (#[trigger] docs(a)) is Some && (#[trigger] docs(b)) is Some ==> docs(a)->0.ext_id
            != docs(b)->0.ext_id
}

/// In a segment whose documents all carry different external ids, two
/// pages share no external id: where the second walk starts from the
/// last doc id that the first walk looked at, no hit of the one has the
/// external id of a hit of the other.
pub proof fn lemma_pages_share_no_ext_id<E1: VerifyEngine, E2: VerifyEngine>(
    eng1: &E1,
    eng2: &E2,
    docs: spec_fn(u32) -> Option<DocModel>,
    field: Option<Seq<char>>,
    cands1: Seq<u32>,
    cands2: Seq<u32>,
    cursor1: Option<u64>,
    max1: u64,
    max2: u64,
    i: int,
    j: int,
)
    requires
        ext_ids_distinct(docs),
        strictly_increasing(cands1),
        strictly_increasing(cands2),
        ({
            let past1 = past_cursor(cands1, cursor1, cands1.len() as int);
            let w1 = walked(eng1, docs, field, past1, past1.len() as int, max1);
            let cursor2 = next_cursor(w1.last, cursor1);
            let past2 = past_cursor(cands2, cursor2, cands2.len() as int);
            let w2 = walked(eng2, docs, field, past2, past2.len() as int, max2);
            0 <= i < w1.hits.len() && 0 <= j < w2.hits.len()
        }),
    ensures
        ({
            let past1 = past_cursor(cands1, cursor1, cands1.len() as int);
            let w1 = walked(eng1, docs, field, past1, past1.len() as int, max1);
            let cursor2 = next_cursor(w1.last, cursor1);
            let past2 = past_cursor(cands2, cursor2, cands2.len() as int);
            let w2 = walked(eng2, docs, field, past2, past2.len() as int, max2);
            w1.hits[i].ext_id != w2.hits[j].ext_id
        }),
{
    let past1 = past_cursor(cands1, cursor1, cands1.len() as int);
    let w1 = walked(eng1, docs, field, past1, past1.len() as int, max1);
    let cursor2 = next_cursor(w1.last, cursor1);
    let past2 = past_cursor(cands2, cursor2, cands2.len() as int);
    let w2 = walked(eng2, docs, field, past2, past2.len() as int, max2);
    lemma_pages_do_not_overlap(eng1, eng2, docs, field, cands1, cands2, cursor1, max1, max2, i, j);
    lemma_walk_hits_match(eng1, docs, field, past1, past1.len() as int, max1, i);
    lemma_walk_hits_match(eng2, docs, field, past2, past2.len() as int, max2, j);
    let a = w1.hits[i].doc_id;
    let b = w2.hits[j].doc_id;
    assert(docs(a) is Some && docs(b) is Some && a != b);
}

/// The name of the field in which the document matches.
pub fn match_field<E: VerifyEngine>(eng: &E, doc: &StoredDoc, field: Option<&str>) -> (r: Option<
    String,
>)
    ensures
        match r {
            Some(mf) => matched_field_of(
                eng,
                doc.texts(),
                match field {
                    Some(f) => Some(f@),
                    None => None,
                },
            ) == Some(mf@),
            None => matched_field_of(
                eng,
                doc.texts(),
                match field {
                    Some(f) => Some(f@),
                    None => None,
                },
            ) is None,
        },
        r matches Some(mf) ==> (lookup(doc.texts(), mf@) matches Some(t) && eng.first_match(t)
            is Some),
{
    match field {
        Some(f) => match doc.field(f) {
            Some(t) => if eng.is_match(t.as_str()) {
                Some(f.to_owned())
            } else {
                None
            },
            None => None,
        },
        None => {
            let entries = doc.entries();
            let ghost texts = doc.texts();
            let mut i: usize = 0;
            while i < entries.len()
                invariant
                    i <= entries.len(),
                    field is None,
                    keys_sorted(texts),
                    texts == doc.texts(),
                    texts.len() == entries.len(),
                    forall|k: int|
                        0 <= k < entries.len() ==> texts[k] == (
                            (#[trigger] entries@[k]).0@,
                            entries@[k].1@,
                        ),
                    first_matching(eng, texts, 0) == first_matching(eng, texts, i as int),
                decreases entries.len() - i,
            {
                proof {
                    assert(texts[i as int] == (entries@[i as int].0@, entries@[i as int].1@));
                }
                if eng.is_match(entries[i].1.as_str()) {
                    proof {
                        lemma_lookup_at(texts, i as int);
                    }
                    return Some(entries[i].0.clone());
                }
                i += 1;
            }
            None
        },
    }
}

/// The number of bytes of the characters `p[a..b]`.
pub open spec fn run_bytes(p: Seq<char>, a: int, b: int) -> int {
    byte_offset(p, b) - byte_offset(p, a)
}

/// After the first `n` characters of `p`: the bounds of the longest
/// literal run that has ended, and where the run that has not ended yet
/// starts. A run that ends replaces the longest one only where it has
/// more bytes.
pub open spec fn runs_upto(p: Seq<char>, n: int) -> (int, int, int)
    decreases n,
{
    if n <= 0 || n > p.len() {
        (0, 0, 0)
    } else {
        let (bf, bt, cf) = runs_upto(p, n - 1);
        if is_wildcard(p[n - 1]) {
            if run_bytes(p, cf, n - 1) > run_bytes(p, bf, bt) {
                (cf, n - 1, n)
            } else {
                (bf, bt, n)
            }
        } else {
            (bf, bt, cf)
        }
    }
}

/// The longest run of literal characters of `p`, measured in bytes; of
/// runs of the same length the first. `None` where `p` holds no literal
/// character.
pub open spec fn longest_literal(p: Seq<char>) -> Option<Seq<char>> {
    let (bf, bt, cf) = runs_upto(p, p.len() as int);
    let (f, t) = if run_bytes(p, cf, p.len() as int) > run_bytes(p, bf, bt) {
        (cf, p.len() as int)
    } else {
        (bf, bt)
    };
    if run_bytes(p, f, t) == 0 {
        None
    } else {
        Some(p.subrange(f, t))
    }
}

/// The longest run of literal characters of a wildcard pattern, measured
/// in bytes; of runs of the same length the first. `None` where the
/// pattern holds no literal character.
pub fn longest_literal_needle(wc: &str) -> (r: Option<String>)
    ensures
        match r {
            Some(s) => longest_literal(wc@) == Some(s@),
            None => longest_literal(wc@) is None,
        },
{
    let cs = chars_of(wc);
    let total: usize = crate::preview::byte_len(wc);
    let mut best_from: usize = 0;
    let mut best_to: usize = 0;
    let mut best_bytes: usize = 0;
    let mut cur_from: usize = 0;
    let mut cur_bytes: usize = 0;
    let mut i: usize = 0;
    proof {
        assert(cs@.take(cs@.len() as int) =~= cs@);
    }
    while i < cs.len()
        invariant
            i <= cs.len(),
            cs@ == wc@,
            total == byte_offset(cs@, cs@.len() as int),
            cur_from <= i,
            best_from <= best_to <= i,
            runs_upto(cs@, i as int) == (best_from as int, best_to as int, cur_from as int),
            cur_bytes == run_bytes(cs@, cur_from as int, i as int),
            best_bytes == run_bytes(cs@, best_from as int, best_to as int),
        decreases cs.len() - i,
    {
        let c = cs[i];
        proof {
            lemma_byte_offset_step(cs@, i as int);
            lemma_byte_offset_monotonic(cs@, i + 1, cs@.len() as int);
            lemma_byte_offset_monotonic(cs@, 0, cur_from as int);
        }
        if c == '*' || c == '?' {
            if cur_bytes > best_bytes {
                best_from = cur_from;
                best_to = i;
                best_bytes = cur_bytes;
            }
            cur_from = i + 1;
            cur_bytes = 0;
        } else {
            cur_bytes = cur_bytes + crate::text::char_width(c);
        }
        i += 1;
    }
    if cur_bytes > best_bytes {
        best_from = cur_from;
        best_to = cs.len();
        best_bytes = cur_bytes;
    }
    if best_bytes == 0 {
        None
    } else {
        Some(string_of_range(&cs, best_from, best_to))
    }
}

/// The snippet of `s` around the match from byte `m_start_b` to byte
/// `m_end_b`, for a width of `max_chars` characters.
pub fn snippet_with_highlight_utf8(s: &str, m_start_b: usize, m_end_b: usize, max_chars: usize) -> (r:
    String)
    ensures
        r@ == snippet(s@, m_start_b as int, m_end_b as int, max_chars as int),
{
    snippet_with_highlight(s, m_start_b, m_end_b, max_chars)
}

/// The hit of a document that matches in the field `mf`.
fn make_hit<E: VerifyEngine>(eng: &E, doc: &StoredDoc, mf: String) -> (h: Hit)
    requires
        keys_sorted(doc.texts()),
        lookup(doc.texts(), mf@) matches Some(t) && eng.first_match(t) is Some,
    ensures
        hit_model(h) == hit_of(eng, doc.doc_id, model_of(*doc), mf@),
{
    let preview = match doc.field(mf.as_str()) {
        Some(txt) => match eng.find(txt.as_str()) {
            Some((s, e)) => snippet_with_highlight_utf8(txt.as_str(), s, e, PREVIEW_LEN),
            None => String::new(),
        },
        None => String::new(),
    };
    Hit { ext_id: doc.ext_id.clone(), doc_id: doc.doc_id, matched_field: mf, preview }
}

/// What a task has found in one segment.
pub open spec fn task_found<E: VerifyEngine>(
    out: SegmentTaskOutput,
    eng: &E,
    reader: AnySegmentReader,
    input: SegmentTaskInput,
    cands: Seq<u32>,
) -> bool {
    let past = past_cursor(cands, input.cursor_docid, cands.len() as int);
    let w = walked(
        eng,
        docs_of(reader),
        field_choice(input.field@),
        past,
        past.len() as int,
        input.max_candidates,
    );
    &&& out.seg_path@ == input.seg_path@
    &&& hit_models(out.hits@) == w.hits
    &&& out.candidates == w.candidates
    &&& out.last_docid == next_cursor(w.last, input.cursor_docid)
    &&& out.warmed_docs == (if !(reader is V2) {
        0
    } else if past.len() < warm_budget(input.page_size) {
        past.len() as int
    } else {
        warm_budget(input.page_size)
    })
}

/// The number of candidates that are read ahead of the walk: four times
/// the page size, and no more than the limit.
pub open spec fn warm_budget(page_size: usize) -> int {
    if page_size * 4 < WARM_LIMIT {
        page_size * 4
    } else {
        WARM_LIMIT as int
    }
}

/// Searches one segment.
///
/// The pattern is normalised and its required trigrams are taken; the
/// prefilter gives the candidates that hold them all, within the field
/// if one is named. In a segment of the binary format the first
/// candidates past the cursor are read ahead. Then the candidates past
/// the cursor are walked in doc id order: see `walked`. The output
/// carries the hits, the last doc id looked at (or the cursor that came
/// in where none was looked at, which may be none), and the counts; the
/// times are what the clock gave.
pub fn search_one_segment<E: VerifyEngine>(
    input: &SegmentTaskInput,
    reader: &mut AnySegmentReader,
    eng: &E,
) -> (r: Result<SegmentTaskOutput, SearchError>)
    requires
        old(reader).valid(),
    ensures
        final(reader).valid(),
        same_reader(final(reader), old(reader)),
        match r {
            Ok(out) => required_grams(normalized(normalized(input.wildcard@))).len() > 0 && exists|
                cands: Seq<u32>,
            |
                strictly_increasing(cands) && (forall|x: u32|
                    cands.contains(x) <==> (old(reader).candidates(
                        BooleanOp::And,
                        required_grams(normalized(normalized(input.wildcard@))),
                        field_choice(input.field@),
                    ) matches Ok(s) && s.contains(x))) && old(reader).candidates(
                    BooleanOp::And,
                    required_grams(normalized(normalized(input.wildcard@))),
                    field_choice(input.field@),
                ) is Ok && task_found(out, eng, *old(reader), *input, cands),
            Err(SearchError::PatternTooWeak) => required_grams(
                normalized(normalized(input.wildcard@)),
            ).len() == 0,
            Err(SearchError::BadSegment(e)) => required_grams(
                normalized(normalized(input.wildcard@)),
            ).len() > 0 && old(reader).candidates(
                BooleanOp::And,
                required_grams(normalized(normalized(input.wildcard@))),
                field_choice(input.field@),
            ) == Err::<Set<u32>, _>(e),
            Err(SearchError::BadPattern) => false,
        },
{
    let nq = normalize(input.wildcard.as_str());
    let grams = match required_grams_from_wildcard(nq.as_str()) {
        Ok(g) => g,
        Err(_) => {
            return Err(SearchError::PatternTooWeak);
        },
    };
    let field = non_empty(input.field.as_str());
    let t0 = clock_now();
    let bm = match reader.prefilter(BooleanOp::And, &grams, field) {
        Ok(b) => b,
        Err(e) => {
            return Err(SearchError::BadSegment(e));
        },
    };
    let prefilter_ms = elapsed_ms(&t0);
    let cands = bitmap_to_vec(&bm);
    // the candidates past the cursor
    let mut past: Vec<u32> = Vec::new();
    let mut k: usize = 0;
    while k < cands.len()
        invariant
            k <= cands.len(),
            past@ == past_cursor(cands@, input.cursor_docid, k as int),
        decreases cands.len() - k,
    {
        let id = cands[k];
        let keep = match input.cursor_docid {
            Some(c) => id as u64 > c,
            None => true,
        };
        if keep {
            past.push(id);
        }
        k += 1;
    }
    // read ahead
    let budget: usize = if input.page_size < WARM_LIMIT && input.page_size * 4 < WARM_LIMIT {
        input.page_size * 4
    } else {
        WARM_LIMIT
    };
    let warm_n: usize = if !reader.is_binary() {
        0
    } else if past.len() < budget {
        past.len()
    } else {
        budget
    };
    let t1 = clock_now();
    let mut wi: usize = 0;
    while wi < warm_n
        invariant
            wi <= warm_n <= past.len(),
            reader.valid(),
            same_reader(reader, old(reader)),
            (*reader is V2) == (*old(reader) is V2),
        decreases warm_n - wi,
    {
        reader.warm(past[wi]);
        wi += 1;
    }
    let prefetch_ms = elapsed_ms(&t1);
    // the walk
    let mut hits: Vec<Hit> = Vec::new();
    let mut candidates: u64 = 0;
    let mut verify_ms: u64 = 0;
    let mut last_scanned: Option<u32> = None;
    let mut stopped = false;
    let mut i: usize = 0;
    let ghost docs = docs_of(*old(reader));
    let ghost fc = field_choice(input.field@);
    proof {
        assert(hit_models(hits@) =~= Seq::<HitModel>::empty());
    }
    while i < past.len() && !stopped
        invariant
            i <= past.len(),
            reader.valid(),
            same_reader(reader, old(reader)),
            docs == docs_of(*old(reader)),
            fc == field_choice(input.field@),
            match field {
                Some(f) => fc == Some(f@),
                None => fc is None,
            },
            hits@.len() < TASK_HIT_LIMIT || stopped,
            candidates <= i,
            ({
                let w = walked(eng, docs, fc, past@, i as int, input.max_candidates);
                &&& hit_models(hits@) == w.hits
                &&& candidates == w.candidates
                &&& last_scanned == w.last
                &&& stopped == w.stopped
            }),
        decreases past.len() - i,
    {
        let id = past[i];
        last_scanned = Some(id);
        candidates = candidates + 1;
        if candidates > input.max_candidates {
            stopped = true;
        } else {
            let tv = clock_now();
            let ghost before = hits@;
            let ghost pre = *reader;
            let found: Option<Hit> = match reader.get_doc(id) {
                Some(doc) => match match_field(eng, doc, field) {
                    Some(mf) => {
                        proof {
                            assert(doc.doc_id == id);
                        }
                        Some(make_hit(eng, doc, mf))
                    },
                    None => None,
                },
                None => None,
            };
            verify_ms = sat_add(verify_ms, elapsed_ms(&tv));
            proof {
                assert(pre.document(id) == docs(id));
            }
            match found {
                Some(h) => {
                    hits.push(h);
                    proof {
                        assert(hit_models(hits@) =~= hit_models(before).push(hit_model(h)));
                    }
                    if hits.len() >= TASK_HIT_LIMIT {
                        stopped = true;
                    }
                },
                None => {},
            }
        }
        i += 1;
    }
    proof {
        lemma_walk_stays(eng, docs, fc, past@, i as int, past.len() as int, input.max_candidates);
    }
    let final_last: Option<u64> = match last_scanned {
        Some(d) => Some(d as u64),
        None => input.cursor_docid,
    };
    let out = SegmentTaskOutput {
        seg_path: input.seg_path.clone(),
        last_docid: final_last,
        candidates,
        hits,
        prefilter_ms,
        verify_ms,
        prefetch_ms,
        warmed_docs: warm_n as u64,
    };
    proof {
        assert(task_found(out, eng, *old(reader), *input, cands@));
    }
    Ok(out)
}

/// Once a walk has ended, further candidates do not change it.
pub proof fn lemma_walk_stays<E: VerifyEngine>(
    eng: &E,
    docs: spec_fn(u32) -> Option<DocModel>,
    field: Option<Seq<char>>,
    cands: Seq<u32>,
    k: int,
    n: int,
    max_candidates: u64,
)
    requires
        0 <= k <= n <= cands.len(),
        k < n ==> walked(eng, docs, field, cands, k, max_candidates).stopped,
    ensures
        walked(eng, docs, field, cands, n, max_candidates) == walked(
            eng,
            docs,
            field,
            cands,
            k,
            max_candidates,
        ),
    decreases n - k,
{
    if k < n {
        lemma_walk_stays(eng, docs, field, cands, k, n - 1, max_candidates);
    }
}

} // verus!
