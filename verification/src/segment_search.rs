//! The search of one segment of either format: prefilter, then verify
//! every candidate past the cursor, without previews.

use vstd::prelude::*;
use crate::bitmap::{bitmap_to_vec, strictly_increasing};
use crate::gram::{BooleanOp, required_grams, required_grams_from_wildcard};
use crate::normalizer::{normalize, normalized};
use crate::search::error::SearchError;
use crate::search::segment_task::{match_field, matched_field_of, past_cursor};
use crate::segment::docs::DocModel;
use crate::segment::traits::{same_reader, SegmentReader};
use crate::verify::{
    compile_wildcard_engine, regex_compiles, RegexVerify, VerifyEngine, wildcard_regex,
};

verus! {

/// A hit of a segment search.
#[derive(Debug, Clone)]
pub struct Hit {
    pub doc_id: u32,
    pub ext_id: String,
    pub matched_field: Option<String>,
}

/// What a segment search gives.
#[derive(Debug)]
pub struct SegSearchOut {
    pub hits: Vec<Hit>,
    /// The last doc id that was looked at, or the cursor where none was.
    pub last_docid: Option<u64>,
    /// The candidates that were counted.
    pub candidates: u64,
}

/// A hit as texts.
pub struct SegHit {
    pub doc_id: u32,
    pub ext_id: Seq<char>,
    pub matched_field: Seq<char>,
}

/// The texts of hits; a hit always names the field it matched in.
pub open spec fn seg_hits(hits: Seq<Hit>) -> Seq<Option<SegHit>> {
    hits.map_values(
        |h: Hit|
            match h.matched_field {
                Some(f) => Some(SegHit { doc_id: h.doc_id, ext_id: h.ext_id@, matched_field: f@ }),
                None => None,
            },
    )
}

/// How far a walk has come.
pub struct SegWalk {
    pub hits: Seq<Option<SegHit>>,
    pub candidates: nat,
    pub last: Option<u64>,
    pub stopped: bool,
}

/// The walk over the first `n` candidates past the cursor `from`: each is
/// counted and marked as the last one looked at; the walk ends where the
/// count is then above `max_candidates`; else a document that matches is
/// a hit.
pub open spec fn seg_walked<E: VerifyEngine>(
    eng: &E,
    docs: spec_fn(u32) -> Option<DocModel>,
    field: Option<Seq<char>>,
    cands: Seq<u32>,
    n: int,
    max_candidates: u64,
    from: Option<u64>,
) -> SegWalk
    decreases n,
{
    if n <= 0 || n > cands.len() {
        SegWalk { hits: Seq::empty(), candidates: 0, last: from, stopped: false }
    } else {
        let prev = seg_walked(eng, docs, field, cands, n - 1, max_candidates, from);
        if prev.stopped {
            prev
        } else {
            let id = cands[n - 1];
            let counted = prev.candidates + 1;
            if counted > max_candidates {
                SegWalk {
                    hits: prev.hits,
                    candidates: counted,
                    last: Some(id as u64),
                    stopped: true,
                }
            } else {
                let found = match docs(id) {
                    Some(doc) => match matched_field_of(eng, doc.texts, field) {
                        Some(mf) => Some(
                            SegHit { doc_id: id, ext_id: doc.ext_id, matched_field: mf },
                        ),
                        None => None,
                    },
                    None => None,
                };
                SegWalk {
                    hits: if found is Some {
                        prev.hits.push(found)
                    } else {
                        prev.hits
                    },
                    candidates: counted,
                    last: Some(id as u64),
                    stopped: false,
                }
            }
        }
    }
}

/// Once a walk has ended, further candidates do not change it.
pub proof fn lemma_seg_walk_stays<E: VerifyEngine>(
    eng: &E,
    docs: spec_fn(u32) -> Option<DocModel>,
    field: Option<Seq<char>>,
    cands: Seq<u32>,
    k: int,
    n: int,
    max_candidates: u64,
    from: Option<u64>,
)
    requires
        0 <= k <= n <= cands.len(),
        k < n ==> seg_walked(eng, docs, field, cands, k, max_candidates, from).stopped,
    ensures
        seg_walked(eng, docs, field, cands, n, max_candidates, from) == seg_walked(
            eng,
            docs,
            field,
            cands,
            k,
            max_candidates,
            from,
        ),
    decreases n - k,
{
    if k < n {
        lemma_seg_walk_stays(eng, docs, field, cands, k, n - 1, max_candidates, from);
    }
}

/// The documents of a reader, by doc id.
pub open spec fn documents_of<R: SegmentReader>(reader: R) -> spec_fn(u32) -> Option<DocModel> {
    |id: u32| reader.document(id)
}

/// What a search of a segment has found, for the candidates `cands`.
pub open spec fn seg_found<R: SegmentReader>(
    out: SegSearchOut,
    eng: &RegexVerify,
    reader: R,
    field: Option<Seq<char>>,
    from: Option<u64>,
    max_candidates: u64,
    cands: Seq<u32>,
) -> bool {
    let past = past_cursor(cands, from, cands.len() as int);
    let w = seg_walked(eng, documents_of(reader), field, past, past.len() as int, max_candidates, from);
    &&& seg_hits(out.hits@) == w.hits
    &&& out.candidates == w.candidates
    &&& out.last_docid == w.last
}

/// Searches one segment.
///
/// The pattern is normalised and its required trigrams are taken; the
/// prefilter gives the candidates that hold them all, within the field
/// if one is named; the matcher is compiled from the pattern. Then the
/// candidates past `from_doc` are walked in doc id order: see
/// `seg_walked`.
pub fn search_one_segment<R: SegmentReader>(
    reader: &mut R,
    field: Option<&str>,
    wildcard: &str,
    from_doc: Option<u64>,
    max_candidates: u64,
) -> (r: Result<SegSearchOut, SearchError>)
    requires
        old(reader).valid(),
    ensures
        final(reader).valid(),
        same_reader(final(reader), old(reader)),
        match r {
            Ok(out) => required_grams(normalized(normalized(wildcard@))).len() > 0
                && regex_compiles(wildcard_regex(normalized(wildcard@))) && exists|
                cands: Seq<u32>,
                eng: RegexVerify,
            |
                eng.source() == wildcard_regex(normalized(wildcard@)) && strictly_increasing(cands)
                    && (forall|x: u32|
                    cands.contains(x) <==> (old(reader).candidates(
                        BooleanOp::And,
                        required_grams(normalized(normalized(wildcard@))),
                        match field {
                            Some(f) => Some(f@),
                            None => None,
                        },
                    ) matches Ok(s) && s.contains(x))) && seg_found(
                    out,
                    &eng,
                    *old(reader),
                    match field {
                        Some(f) => Some(f@),
                        None => None,
                    },
                    from_doc,
                    max_candidates,
                    cands,
                ),
            Err(SearchError::PatternTooWeak) => required_grams(
                normalized(normalized(wildcard@)),
            ).len() == 0,
            Err(SearchError::BadSegment(e)) => required_grams(
                normalized(normalized(wildcard@)),
            ).len() > 0 && old(reader).candidates(
                BooleanOp::And,
                required_grams(normalized(normalized(wildcard@))),
                match field {
                    Some(f) => Some(f@),
                    None => None,
                },
            ) == Err::<Set<u32>, _>(e),
            Err(SearchError::BadPattern) => required_grams(
                normalized(normalized(wildcard@)),
            ).len() > 0 && !regex_compiles(wildcard_regex(normalized(wildcard@))),
        },
{
    let norm_wc = normalize(wildcard);
    let grams = match required_grams_from_wildcard(norm_wc.as_str()) {
        Ok(g) => g,
        Err(_) => {
            return Err(SearchError::PatternTooWeak);
        },
    };
    let bm = match reader.prefilter(BooleanOp::And, &grams, field) {
        Ok(b) => b,
        Err(e) => {
            return Err(SearchError::BadSegment(e));
        },
    };
    let eng = match compile_wildcard_engine(wildcard) {
        Ok(e) => e,
        Err(_) => {
            return Err(SearchError::BadPattern);
        },
    };
    let cands = bitmap_to_vec(&bm);
    let mut hits: Vec<Hit> = Vec::new();
    let mut last_docid: Option<u64> = from_doc;
    let mut candidates: u64 = 0;
    let mut stopped = false;
    let ghost docs = documents_of(*old(reader));
    let ghost fc: Option<Seq<char>> = match field {
        Some(f) => Some(f@),
        None => None,
    };
    let ghost mut past: Seq<u32> = Seq::empty();
    let mut i: usize = 0;
    proof {
        assert(seg_hits(hits@) =~= Seq::<Option<SegHit>>::empty());
    }
    while i < cands.len() && !stopped
        invariant
            i <= cands.len(),
            reader.valid(),
            same_reader(reader, old(reader)),
            docs == documents_of(*old(reader)),
            match field {
                Some(f) => fc == Some(f@),
                None => fc is None,
            },
            past == past_cursor(cands@, from_doc, i as int),
            candidates <= past.len() <= i,
            ({
                let w = seg_walked(&eng, docs, fc, past, past.len() as int, max_candidates, from_doc);
                &&& seg_hits(hits@) == w.hits
                &&& candidates == w.candidates
                &&& last_docid == w.last
                &&& stopped == w.stopped
            }),
        decreases cands.len() - i,
    {
        let id = cands[i];
        let is_past_cursor = match from_doc {
            Some(c) => id as u64 > c,
            None => true,
        };
        if is_past_cursor {
            let ghost before_past = past;
            proof {
                past = past.push(id);
                lemma_seg_walk_prefix(
                    &eng,
                    docs,
                    fc,
                    before_past,
                    past,
                    before_past.len() as int,
                    max_candidates,
                    from_doc,
                );
            }
            candidates = candidates + 1;
            last_docid = Some(id as u64);
            if candidates > max_candidates {
                stopped = true;
            } else {
                let ghost before = hits@;
                let found: Option<Hit> = match reader.get_doc(id) {
                    Some(doc) => match match_field(&eng, doc, field) {
                        Some(mf) => Some(
                            Hit { doc_id: id, ext_id: doc.ext_id.clone(), matched_field: Some(mf) },
                        ),
                        None => None,
                    },
                    None => None,
                };
                match found {
                    Some(h) => {
                        hits.push(h);
                        proof {
                            assert(seg_hits(hits@) =~= seg_hits(before).push(
                                Some(
                                    SegHit {
                                        doc_id: h.doc_id,
                                        ext_id: h.ext_id@,
                                        matched_field: h.matched_field->0@,
                                    },
                                ),
                            ));
                        }
                    },
                    None => {},
                }
            }
        }
        i += 1;
    }
    proof {
        let all = past_cursor(cands@, from_doc, cands@.len() as int);
        lemma_past_prefix(cands@, from_doc, i as int, cands@.len() as int);
        lemma_seg_walk_prefix(
            &eng,
            docs,
            fc,
            past,
            all,
            past.len() as int,
            max_candidates,
            from_doc,
        );
        lemma_seg_walk_stays(
            &eng,
            docs,
            fc,
            all,
            past.len() as int,
            all.len() as int,
            max_candidates,
            from_doc,
        );
    }
    let out = SegSearchOut { hits, last_docid, candidates };
    proof {
        assert(seg_found(out, &eng, *old(reader), fc, from_doc, max_candidates, cands@));
    }
    Ok(out)
}

/// What lies past the cursor among the first `k` candidates stands at
/// the start of what lies past it among the first `n`.
pub proof fn lemma_past_prefix(v: Seq<u32>, cur: Option<u64>, k: int, n: int)
    requires
        0 <= k <= n <= v.len(),
    ensures
        past_cursor(v, cur, k).len() <= past_cursor(v, cur, n).len(),
        forall|i: int|
            0 <= i < past_cursor(v, cur, k).len() ==> past_cursor(v, cur, k)[i] == past_cursor(
                v,
                cur,
                n,
            )[i],
    decreases n - k,
{
    if k < n {
        lemma_past_prefix(v, cur, k, n - 1);
    }
}

/// A walk over the first `n` candidates does not depend on what follows.
pub proof fn lemma_seg_walk_prefix<E: VerifyEngine>(
    eng: &E,
    docs: spec_fn(u32) -> Option<DocModel>,
    field: Option<Seq<char>>,
    a: Seq<u32>,
    b: Seq<u32>,
    n: int,
    max_candidates: u64,
    from: Option<u64>,
)
    requires
        0 <= n <= a.len() <= b.len(),
        forall|i: int| 0 <= i < n ==> a[i] == b[i],
    ensures
        seg_walked(eng, docs, field, a, n, max_candidates, from) == seg_walked(
            eng,
            docs,
            field,
            b,
            n,
            max_candidates,
            from,
        ),
    decreases n,
{
    if n > 0 {
        lemma_seg_walk_prefix(eng, docs, field, a, b, n - 1, max_candidates, from);
    }
}

} // verus!
