//! The listing of one segment: the matches of a pattern from an offset
//! on, up to a limit, each with a preview, and the counts that go with
//! them.

use vstd::array::array_as_slice;
use vstd::prelude::*;
use crate::bitmap::{bitmap_to_vec, strictly_increasing};
use crate::doc::StoredDoc;
use crate::gram::{BooleanOp, required_grams, required_grams_from_wildcard};
use crate::normalizer::{normalize, normalized};
use crate::preview::{
    build_preview, pick_preview_field_name, preview_field, preview_of, preview_source, PreviewOpts,
    strs_view,
};
use crate::search::coordinator::preferred_fields;
use crate::search::error::SearchError;
use crate::search::segment_task::{
    docs_of, longest_literal, longest_literal_needle, match_field, matched_field_of, PREVIEW_LEN,
    WARM_LIMIT,
};
use crate::segment::docs::{DocModel, model_of};
use crate::segment::traits::{AnySegmentReader, same_reader, SegmentReader};
use crate::strmap::{keys_sorted, lemma_upserted_lookup, lookup, StrMap};
use crate::verify::VerifyEngine;

verus! {

/// One line of a listing.
#[derive(Debug, Clone)]
pub struct ListedHit {
    pub ext_id: String,
    pub doc_id: u32,
    /// The field in which the document matched.
    pub matched_field: String,
    /// The field that the line is labelled with, `-` where the document
    /// has no field.
    pub label: String,
    pub preview: String,
}

/// A listing.
#[derive(Debug)]
pub struct Listing {
    /// The lines, in doc id order.
    pub lines: Vec<ListedHit>,
    /// The candidates that were counted, those passed over included.
    pub candidates: usize,
    /// For every field in which a line matched, the number of such lines.
    pub by_field: StrMap<usize>,
}

/// A line as texts.
pub struct LineModel {
    pub ext_id: Seq<char>,
    pub doc_id: u32,
    pub matched_field: Seq<char>,
    pub label: Seq<char>,
    pub preview: Seq<char>,
}

/// The texts of a line.
pub open spec fn line_model(h: ListedHit) -> LineModel {
    LineModel {
        ext_id: h.ext_id@,
        doc_id: h.doc_id,
        matched_field: h.matched_field@,
        label: h.label@,
        preview: h.preview@,
    }
}

/// The texts of lines.
pub open spec fn line_models(hs: Seq<ListedHit>) -> Seq<LineModel> {
    hs.map_values(|h: ListedHit| line_model(h))
}

/// The line of a document that matches in the field `mf`: its label is
/// the wanted field where the document has it, else its best field for a
/// preview; its preview is built around the needle.
pub open spec fn line_of(
    id: u32,
    doc: DocModel,
    mf: Seq<char>,
    field: Option<Seq<char>>,
    needle: Option<Seq<char>>,
) -> LineModel {
    LineModel {
        ext_id: doc.ext_id,
        doc_id: id,
        matched_field: mf,
        label: match preview_field(doc.texts, field) {
            Some(n) => n,
            None => "-"@,
        },
        preview: preview_of(
            preview_source(doc.texts, preferred_fields(), needle),
            needle,
            PREVIEW_LEN as int,
        ),
    }
}

/// How far a listing has come.
pub struct ListWalk {
    pub lines: Seq<LineModel>,
    /// The candidates passed over for the offset.
    pub skipped: nat,
    /// The candidates counted so far.
    pub candidates: nat,
    /// Whether the listing has ended before the candidates did.
    pub stopped: bool,
}

/// The listing over the first `n` candidates. Each candidate is counted.
/// The first `offset` of them are passed over. The listing ends at the
/// candidate that comes when `limit` lines are there. Else the document
/// is read and verified, and a match adds a line.
pub open spec fn listed<E: VerifyEngine>(
    eng: &E,
    docs: spec_fn(u32) -> Option<DocModel>,
    field: Option<Seq<char>>,
    needle: Option<Seq<char>>,
    cands: Seq<u32>,
    n: int,
    limit: usize,
    offset: usize,
) -> ListWalk
    decreases n,
{
    if n <= 0 || n > cands.len() {
        ListWalk { lines: Seq::empty(), skipped: 0, candidates: 0, stopped: false }
    } else {
        let prev = listed(eng, docs, field, needle, cands, n - 1, limit, offset);
        if prev.stopped {
            prev
        } else {
            let id = cands[n - 1];
            let counted = prev.candidates + 1;
            if prev.skipped < offset {
                ListWalk {
                    lines: prev.lines,
                    skipped: prev.skipped + 1,
                    candidates: counted,
                    stopped: false,
                }
            } else if prev.lines.len() >= limit {
                ListWalk {
                    lines: prev.lines,
                    skipped: prev.skipped,
                    candidates: counted,
                    stopped: true,
                }
            } else {
                let found = match docs(id) {
                    Some(doc) => match matched_field_of(eng, doc.texts, field) {
                        Some(mf) => Some(line_of(id, doc, mf, field, needle)),
                        None => None,
                    },
                    None => None,
                };
                ListWalk {
                    lines: match found {
                        Some(l) => prev.lines.push(l),
                        None => prev.lines,
                    },
                    skipped: prev.skipped,
                    candidates: counted,
                    stopped: false,
                }
            }
        }
    }
}

/// Once a listing has ended, further candidates do not change it.
pub proof fn lemma_listing_stays<E: VerifyEngine>(
    eng: &E,
    docs: spec_fn(u32) -> Option<DocModel>,
    field: Option<Seq<char>>,
    needle: Option<Seq<char>>,
    cands: Seq<u32>,
    k: int,
    n: int,
    limit: usize,
    offset: usize,
)
    requires
        0 <= k <= n <= cands.len(),
        k < n ==> listed(eng, docs, field, needle, cands, k, limit, offset).stopped,
    ensures
        listed(eng, docs, field, needle, cands, n, limit, offset) == listed(
            eng,
            docs,
            field,
            needle,
            cands,
            k,
            limit,
            offset,
        ),
    decreases n - k,
{
    if k < n {
        lemma_listing_stays(eng, docs, field, needle, cands, k, n - 1, limit, offset);
    }
}

/// A listing never holds more lines than its limit, nor counts more
/// candidates than it was given.
pub proof fn lemma_listing_bounds<E: VerifyEngine>(
    eng: &E,
    docs: spec_fn(u32) -> Option<DocModel>,
    field: Option<Seq<char>>,
    needle: Option<Seq<char>>,
    cands: Seq<u32>,
    n: int,
    limit: usize,
    offset: usize,
)
    requires
        0 <= n <= cands.len(),
    ensures
        listed(eng, docs, field, needle, cands, n, limit, offset).lines.len() <= limit,
        listed(eng, docs, field, needle, cands, n, limit, offset).candidates <= n,
        listed(eng, docs, field, needle, cands, n, limit, offset).skipped <= offset,
    decreases n,
{
    if n > 0 {
        lemma_listing_bounds(eng, docs, field, needle, cands, n - 1, limit, offset);
    }
}

/// How often `name` is the matched field of one of the first `n` lines.
pub open spec fn lines_in_field(lines: Seq<LineModel>, name: Seq<char>, n: int) -> nat
    decreases n,
{
    if n <= 0 || n > lines.len() {
        0
    } else {
        lines_in_field(lines, name, n - 1) + (if lines[n - 1].matched_field == name {
            1nat
        } else {
            0nat
        })
    }
}

/// Whether the map counts, for every field, the lines among the first
/// `n` that matched in it; a field without such a line has no entry.
pub open spec fn counts_fields(pairs: Seq<(Seq<char>, usize)>, lines: Seq<LineModel>, n: int) -> bool {
    forall|name: Seq<char>|
        #[trigger] lookup(pairs, name) == (if lines_in_field(lines, name, n) > 0 {
            Some(lines_in_field(lines, name, n) as usize)
        } else {
            None
        })
}

proof fn lemma_lines_in_field_bound(lines: Seq<LineModel>, name: Seq<char>, n: int)
    requires
        0 <= n <= lines.len(),
    ensures
        lines_in_field(lines, name, n) <= n,
    decreases n,
{
    if n > 0 {
        lemma_lines_in_field_bound(lines, name, n - 1);
    }
}

/// Counts the lines by the field in which they matched.
pub fn count_by_field(lines: &Vec<ListedHit>) -> (r: StrMap<usize>)
    ensures
        counts_fields(r.pairs(), line_models(lines@), lines@.len() as int),
        keys_sorted(r.pairs()),
{
    let mut out: StrMap<usize> = StrMap::new();
    let ghost ls = line_models(lines@);
    let mut i: usize = 0;
    while i < lines.len()
        invariant
            i <= lines.len(),
            ls == line_models(lines@),
            keys_sorted(out.pairs()),
            counts_fields(out.pairs(), ls, i as int),
        decreases lines.len() - i,
    {
        let name = lines[i].matched_field.as_str();
        let seen: usize = match out.get(name) {
            Some(n) => *n,
            None => 0,
        };
        let ghost before = out.pairs();
        proof {
            lemma_lines_in_field_bound(ls, name@, i as int);
            assert(lookup(before, name@) == out.value_of(name@));
            assert(seen == lines_in_field(ls, name@, i as int));
            assert(ls[i as int].matched_field == name@);
        }
        out.insert(name.to_owned(), seen + 1);
        proof {
            assert forall|o: Seq<char>|
                #[trigger] lookup(out.pairs(), o) == (if lines_in_field(ls, o, i + 1) > 0 {
                    Some(lines_in_field(ls, o, i + 1) as usize)
                } else {
                    None
                }) by {
                lemma_upserted_lookup(before, name@, (seen + 1) as usize, o);
                assert(lookup(before, o) == (if lines_in_field(ls, o, i as int) > 0 {
                    Some(lines_in_field(ls, o, i as int) as usize)
                } else {
                    None
                }));
            }
        }
        i += 1;
    }
    out
}

/// What a listing has found in a segment, given the candidates of its
/// prefilter in doc id order.
pub open spec fn listing_found<E: VerifyEngine>(
    out: Listing,
    eng: &E,
    reader: AnySegmentReader,
    wildcard: Seq<char>,
    field: Option<Seq<char>>,
    limit: usize,
    offset: usize,
    cands: Seq<u32>,
) -> bool {
    let w = listed(
        eng,
        docs_of(reader),
        field,
        longest_literal(normalized(wildcard)),
        cands,
        cands.len() as int,
        limit,
        offset,
    );
    &&& line_models(out.lines@) == w.lines
    &&& out.candidates == w.candidates
    &&& counts_fields(out.by_field.pairs(), w.lines, w.lines.len() as int)
}

/// The line of a document that matches in the field `mf`.
fn make_line(doc: &StoredDoc, mf: String, field: Option<&str>, needle: Option<&str>) -> (h: ListedHit)
    ensures
        line_model(h) == line_of(
            doc.doc_id,
            model_of(*doc),
            mf@,
            match field {
                Some(f) => Some(f@),
                None => None,
            },
            match needle {
                Some(n) => Some(n@),
                None => None,
            },
        ),
{
    let preferred: [&str; 4] = ["text.title", "text.body", "title", "body"];
    proof {
        reveal_strlit("text.title");
        reveal_strlit("text.body");
        reveal_strlit("title");
        reveal_strlit("body");
        assert(strs_view(array_as_slice(&preferred)@) =~= preferred_fields());
    }
    let preview = build_preview(
        doc,
        PreviewOpts {
            preferred_fields: array_as_slice(&preferred),
            max_len: PREVIEW_LEN,
            highlight_needle: needle,
        },
    );
    let label = match pick_preview_field_name(doc, field) {
        Some(n) => n,
        None => "-".to_owned(),
    };
    ListedHit { ext_id: doc.ext_id.clone(), doc_id: doc.doc_id, matched_field: mf, label, preview }
}

/// Lists the matches of a pattern in one segment.
///
/// The pattern is normalised and its required trigrams are taken; the
/// prefilter gives the candidates that hold them all, within the field
/// if one is given. In a segment of the binary format the first
/// candidates are read ahead. Then the candidates are walked in doc id
/// order: see `listed`. The needle of the previews is the longest run of
/// literal characters of the normalised pattern.
pub fn search_one_segment_cli<E: VerifyEngine>(
    reader: &mut AnySegmentReader,
    eng: &E,
    wildcard: &str,
    field: Option<&str>,
    limit: usize,
    offset: usize,
) -> (r: Result<Listing, SearchError>)
    requires
        old(reader).valid(),
    ensures
        final(reader).valid(),
        same_reader(final(reader), old(reader)),
        r matches Ok(out) ==> out.lines@.len() <= limit,
        match r {
            Ok(out) => required_grams(normalized(normalized(wildcard@))).len() > 0 && exists|
                cands: Seq<u32>,
            |
                strictly_increasing(cands) && (forall|x: u32|
                    cands.contains(x) <==> (old(reader).candidates(
                        BooleanOp::And,
                        required_grams(normalized(normalized(wildcard@))),
                        match field {
                            Some(f) => Some(f@),
                            None => None,
                        },
                    ) matches Ok(s) && s.contains(x))) && old(reader).candidates(
                    BooleanOp::And,
                    required_grams(normalized(normalized(wildcard@))),
                    match field {
                        Some(f) => Some(f@),
                        None => None,
                    },
                ) is Ok && listing_found(
                    out,
                    eng,
                    *old(reader),
                    wildcard@,
                    match field {
                        Some(f) => Some(f@),
                        None => None,
                    },
                    limit,
                    offset,
                    cands,
                ),
            Err(SearchError::PatternTooWeak) => required_grams(
                normalized(normalized(wildcard@)),
            ).len() == 0,
            Err(SearchError::BadSegment(e)) => required_grams(
                normalized(normalized(wildcard@)),
            ).len() > 0 && old(reader).candidates(
                BooleanOp::And,
                required_grams(normalized(normalized(wildcard@))),
                match field {
                    Some(f) => Some(f@),
                    None => None,
                },
            ) == Err::<Set<u32>, _>(e),
            Err(SearchError::BadPattern) => false,
        },
{
    let norm_wc = normalize(wildcard);
    let grams = match required_grams_from_wildcard(norm_wc.as_str()) {
        Ok(g) => g,
        Err(_) => {
            return Err(SearchError::PatternTooWeak);
        },
    };
    let bm = match reader.prefilter(BooleanOp::And, &grams, field) {
        Ok(b) => b,
        Err(e) => {
            return Err(SearchError::BadSegment(e));
        },
    };
    let cands = bitmap_to_vec(&bm);
    // read ahead
    let budget: usize = if limit < WARM_LIMIT && limit * 4 < WARM_LIMIT {
        limit * 4
    } else {
        WARM_LIMIT
    };
    let warm_n: usize = if !reader.is_binary() {
        0
    } else if cands.len() < budget {
        cands.len()
    } else {
        budget
    };
    let mut wi: usize = 0;
    while wi < warm_n
        invariant
            wi <= warm_n <= cands.len(),
            reader.valid(),
            same_reader(reader, old(reader)),
        decreases warm_n - wi,
    {
        reader.warm(cands[wi]);
        wi += 1;
    }
    // the listing
    let needle_text = longest_literal_needle(norm_wc.as_str());
    let needle: Option<&str> = match &needle_text {
        Some(s) => Some(s.as_str()),
        None => None,
    };
    let ghost docs = docs_of(*old(reader));
    let ghost fc: Option<Seq<char>> = match field {
        Some(f) => Some(f@),
        None => None,
    };
    let ghost nd = longest_literal(normalized(wildcard@));
    let mut lines: Vec<ListedHit> = Vec::new();
    let mut skipped: usize = 0;
    let mut candidates: usize = 0;
    let mut stopped = false;
    let mut i: usize = 0;
    proof {
        assert(line_models(lines@) =~= Seq::<LineModel>::empty());
    }
    while i < cands.len() && !stopped
        invariant
            i <= cands.len(),
            reader.valid(),
            same_reader(reader, old(reader)),
            docs == docs_of(*old(reader)),
            match field {
                Some(f) => fc == Some(f@),
                None => fc is None,
            },
            match needle {
                Some(s) => nd == Some(s@),
                None => nd is None,
            },
            candidates <= i,
            skipped <= i,
            ({
                let w = listed(eng, docs, fc, nd, cands@, i as int, limit, offset);
                &&& line_models(lines@) == w.lines
                &&& candidates == w.candidates
                &&& skipped == w.skipped
                &&& stopped == w.stopped
            }),
        decreases cands.len() - i,
    {
        let id = cands[i];
        candidates = candidates + 1;
        if skipped < offset {
            skipped = skipped + 1;
        } else if lines.len() >= limit {
            stopped = true;
        } else {
            let ghost before = lines@;
            let ghost pre = *reader;
            let found: Option<ListedHit> = match reader.get_doc(id) {
                Some(doc) => match match_field(eng, doc, field) {
                    Some(mf) => {
                        proof {
                            assert(doc.doc_id == id);
                        }
                        Some(make_line(doc, mf, field, needle))
                    },
                    None => None,
                },
                None => None,
            };
            proof {
                assert(pre.document(id) == docs(id));
            }
            match found {
                Some(h) => {
                    lines.push(h);
                    proof {
                        assert(line_models(lines@) =~= line_models(before).push(line_model(h)));
                    }
                },
                None => {},
            }
        }
        i += 1;
    }
    proof {
        lemma_listing_stays(eng, docs, fc, nd, cands@, i as int, cands.len() as int, limit, offset);
        lemma_listing_bounds(eng, docs, fc, nd, cands@, i as int, limit, offset);
    }
    let by_field = count_by_field(&lines);
    let out = Listing { lines, candidates, by_field };
    proof {
        assert(listing_found(out, eng, *old(reader), wildcard@, fc, limit, offset, cands@));
    }
    Ok(out)
}

} // verus!
