//! Merging the outputs of the per-segment tasks into one page.

use vstd::prelude::*;
use crate::sat::{clamp_u64, lemma_clamp_add, sat_add};
use crate::search::executor::SegmentTaskOutput;
use crate::search::types::{Hit, PerSegPos, SearchCursor};
use crate::strmap::{StrMap, upserted};
use crate::text::str_eq;

verus! {

/// The path under which the hot buffer's hits arrive. It never enters a
/// cursor.
pub const HOT_PATH: &'static str = "__hot__";

/// The text of the hot buffer's path.
pub open spec fn hot_path() -> Seq<char> {
    "__hot__"@
}

/// All hits of `parts`, part by part, each part in its own order.
pub open spec fn all_hits(parts: Seq<SegmentTaskOutput>) -> Seq<Hit>
    decreases parts.len(),
{
    if parts.len() == 0 {
        Seq::empty()
    } else {
        all_hits(parts.drop_last()) + parts.last().hits@
    }
}

/// Whether one of `page` has the external identifier `ext`.
pub open spec fn has_ext(page: Seq<Hit>, ext: Seq<char>) -> bool {
    exists|i: int| 0 <= i < page.len() && (#[trigger] page[i]).ext_id@ == ext
}

/// The page that the hits `hs` fill, taken in order: a hit enters while
/// the page has room and holds no hit with the same external identifier.
pub open spec fn page_of(hs: Seq<Hit>, size: nat) -> Seq<Hit>
    decreases hs.len(),
{
    if hs.len() == 0 {
        Seq::empty()
    } else {
        let prev = page_of(hs.drop_last(), size);
        if prev.len() < size && !has_ext(prev, hs.last().ext_id@) {
            prev.push(hs.last())
        } else {
            prev
        }
    }
}

/// The number of hits of `hs` that were left out because the page held
/// their external identifier already; hits that come when the page is
/// full are not counted.
pub open spec fn dropped_of(hs: Seq<Hit>, size: nat) -> nat
    decreases hs.len(),
{
    if hs.len() == 0 {
        0
    } else {
        let prev = page_of(hs.drop_last(), size);
        dropped_of(hs.drop_last(), size) + (if prev.len() < size && has_ext(
            prev,
            hs.last().ext_id@,
        ) {
            1nat
        } else {
            0nat
        })
    }
}

/// The position that a part leaves in the cursor.
pub open spec fn position_of(p: SegmentTaskOutput) -> PerSegPos {
    PerSegPos {
        last_docid: match p.last_docid {
            Some(d) => d,
            None => 0,
        },
    }
}

/// The cursor entries that `parts` leave: one per segment path, the last
/// part of a path deciding, and none for the hot buffer.
pub open spec fn cursor_of(parts: Seq<SegmentTaskOutput>) -> Seq<(Seq<char>, PerSegPos)>
    decreases parts.len(),
{
    if parts.len() == 0 {
        Seq::empty()
    } else {
        let prev = cursor_of(parts.drop_last());
        let p = parts.last();
        if p.seg_path@ == hot_path() {
            prev
        } else {
            upserted(prev, p.seg_path@, position_of(p))
        }
    }
}

/// The four per-stage figures of a part.
pub open spec fn stage_figures(p: SegmentTaskOutput) -> (nat, nat, nat, nat) {
    (p.prefilter_ms as nat, p.verify_ms as nat, p.prefetch_ms as nat, p.warmed_docs as nat)
}

/// The sum of the candidates of `parts`.
pub open spec fn candidates_sum(parts: Seq<SegmentTaskOutput>) -> nat
    decreases parts.len(),
{
    if parts.len() == 0 {
        0
    } else {
        candidates_sum(parts.drop_last()) + parts.last().candidates as nat
    }
}

/// The sums of the four per-stage figures of `parts`.
pub open spec fn stage_sums(parts: Seq<SegmentTaskOutput>) -> (nat, nat, nat, nat)
    decreases parts.len(),
{
    if parts.len() == 0 {
        (0, 0, 0, 0)
    } else {
        let s = stage_sums(parts.drop_last());
        let f = stage_figures(parts.last());
        (s.0 + f.0, s.1 + f.1, s.2 + f.2, s.3 + f.3)
    }
}

/// No two hits of a page share an external identifier.
pub open spec fn distinct_ext(page: Seq<Hit>) -> bool {
    forall|i: int, j: int|
        0 <= i < j < page.len() ==> (#[trigger] page[i]).ext_id@ != (#[trigger] page[j]).ext_id@
}

/// A page never holds more than its size, never holds an external
/// identifier twice, and together with the dropped duplicates accounts
/// for no more hits than came in.
pub proof fn lemma_page_bounds(hs: Seq<Hit>, size: nat)
    ensures
        page_of(hs, size).len() <= size,
        distinct_ext(page_of(hs, size)),
        page_of(hs, size).len() + dropped_of(hs, size) <= hs.len(),
        forall|i: int|
            0 <= i < page_of(hs, size).len() ==> hs.contains(#[trigger] page_of(hs, size)[i]),
    decreases hs.len(),
{
    if hs.len() > 0 {
        let prev = page_of(hs.drop_last(), size);
        lemma_page_bounds(hs.drop_last(), size);
        let page = page_of(hs, size);
        assert forall|i: int| 0 <= i < page.len() implies hs.contains(#[trigger] page[i]) by {
            if i < prev.len() {
                assert(hs.drop_last().contains(prev[i]));
                let k = choose|k: int| 0 <= k < hs.drop_last().len() && hs.drop_last()[k] == prev[i];
                assert(hs[k] == prev[i]);
            } else {
                assert(hs[hs.len() - 1] == page[i]);
            }
        }
    }
}

/// The paginator.
pub struct Paginator;

impl Paginator {
    /// Merges the parts into one page of at most `page_size` hits.
    ///
    /// Hits are taken part by part, each part in its own order; a hit whose
    /// external identifier the page holds already is dropped and counted.
    /// The cursor gets the last doc id of every part but the hot buffer's
    /// (zero where a part has none). Candidates and the per-stage figures
    /// are summed, each sum stopping at the largest 64-bit value.
    ///
    /// Returns the page, the cursor, the candidates total, the number of
    /// dropped duplicates and the totals of `prefilter_ms`, `verify_ms`,
    /// `prefetch_ms` and `warmed_docs`.
    pub fn merge(parts: Vec<SegmentTaskOutput>, page_size: usize) -> (r: (
        Vec<Hit>,
        SearchCursor,
        u64,
        u64,
        (u64, u64, u64, u64),
    ))
        ensures
            r.0@ == page_of(all_hits(parts@), page_size as nat),
            r.0@.len() <= page_size,
            distinct_ext(r.0@),
            r.0@.len() + r.3 <= all_hits(parts@).len(),
            r.1.per_seg.pairs() == cursor_of(parts@),
            r.1.pin_gen is None,
            r.2 == clamp_u64(candidates_sum(parts@)),
            r.3 == clamp_u64(dropped_of(all_hits(parts@), page_size as nat)),
            (r.4).0 == clamp_u64(stage_sums(parts@).0),
            (r.4).1 == clamp_u64(stage_sums(parts@).1),
            (r.4).2 == clamp_u64(stage_sums(parts@).2),
            (r.4).3 == clamp_u64(stage_sums(parts@).3),
    {
        let mut hits: Vec<Hit> = Vec::new();
        let mut per_seg: StrMap<PerSegPos> = StrMap::new();
        let mut candidates_total: u64 = 0;
        let mut prefilter_total: u64 = 0;
        let mut verify_total: u64 = 0;
        let mut prefetch_total: u64 = 0;
        let mut warmed_total: u64 = 0;
        let mut dedup_dropped: u64 = 0;
        let ghost whole = parts@;
        let mut parts = parts;
        let mut pi: usize = 0;
        let n: usize = parts.len();
        proof {
            assert(whole.take(0) =~= Seq::<SegmentTaskOutput>::empty());
        }
        while pi < n
            invariant
                pi <= n,
                n == whole.len(),
                parts@.len() == n,
                forall|k: int| pi <= k < n ==> parts@[k] == whole[k],
                hits@ == page_of(all_hits(whole.take(pi as int)), page_size as nat),
                dedup_dropped == clamp_u64(
                    dropped_of(all_hits(whole.take(pi as int)), page_size as nat),
                ),
                per_seg.pairs() == cursor_of(whole.take(pi as int)),
                candidates_total == clamp_u64(candidates_sum(whole.take(pi as int))),
                prefilter_total == clamp_u64(stage_sums(whole.take(pi as int)).0),
                verify_total == clamp_u64(stage_sums(whole.take(pi as int)).1),
                prefetch_total == clamp_u64(stage_sums(whole.take(pi as int)).2),
                warmed_total == clamp_u64(stage_sums(whole.take(pi as int)).3),
            decreases n - pi,
        {
            let ghost done = whole.take(pi as int);
            let ghost next = whole.take(pi + 1);
            proof {
                assert(next.drop_last() =~= done);
                assert(next.last() == whole[pi as int]);
                lemma_clamp_add(candidates_sum(done), whole[pi as int].candidates);
                lemma_clamp_add(stage_sums(done).0, whole[pi as int].prefilter_ms);
                lemma_clamp_add(stage_sums(done).1, whole[pi as int].verify_ms);
                lemma_clamp_add(stage_sums(done).2, whole[pi as int].prefetch_ms);
                lemma_clamp_add(stage_sums(done).3, whole[pi as int].warmed_docs);
            }
            let mut p = SegmentTaskOutput::empty(String::new());
            std::mem::swap(&mut p, &mut parts[pi]);
            hits_of_part(&mut hits, &mut dedup_dropped, p.hits, page_size, Ghost(all_hits(done)));
            candidates_total = sat_add(candidates_total, p.candidates);
            prefilter_total = sat_add(prefilter_total, p.prefilter_ms);
            verify_total = sat_add(verify_total, p.verify_ms);
            prefetch_total = sat_add(prefetch_total, p.prefetch_ms);
            warmed_total = sat_add(warmed_total, p.warmed_docs);
            if !str_eq(p.seg_path.as_str(), HOT_PATH) {
                let pos = PerSegPos {
                    last_docid: match p.last_docid {
                        Some(d) => d,
                        None => 0,
                    },
                };
                per_seg.insert(p.seg_path, pos);
            }
            pi += 1;
        }
        proof {
            assert(whole.take(n as int) =~= whole);
            lemma_page_bounds(all_hits(whole), page_size as nat);
        }
        let cursor = SearchCursor { per_seg, pin_gen: None };
        (
            hits,
            cursor,
            candidates_total,
            dedup_dropped,
            (prefilter_total, verify_total, prefetch_total, warmed_total),
        )
    }
}

/// Whether one of `page` has the external identifier `ext`.
fn page_has_ext(page: &Vec<Hit>, ext: &str) -> (r: bool)
    ensures
        r == has_ext(page@, ext@),
{
    let mut i: usize = 0;
    while i < page.len()
        invariant
            i <= page.len(),
            forall|k: int| 0 <= k < i ==> (#[trigger] page@[k]).ext_id@ != ext@,
        decreases page.len() - i,
    {
        if str_eq(page[i].ext_id.as_str(), ext) {
            return true;
        }
        i += 1;
    }
    false
}

/// Feeds the hits of one part into the page.
fn hits_of_part(
    hits: &mut Vec<Hit>,
    dropped: &mut u64,
    part: Vec<Hit>,
    page_size: usize,
    Ghost(before): Ghost<Seq<Hit>>,
)
    requires
        old(hits)@ == page_of(before, page_size as nat),
        *old(dropped) == clamp_u64(dropped_of(before, page_size as nat)),
    ensures
        final(hits)@ == page_of(before + part@, page_size as nat),
        *final(dropped) == clamp_u64(dropped_of(before + part@, page_size as nat)),
{
    let ghost whole = part@;
    let mut part = part;
    let n: usize = part.len();
    let mut i: usize = 0;
    proof {
        assert(before + whole.take(0) =~= before);
    }
    while i < n
        invariant
            i <= n,
            n == whole.len(),
            part@.len() == n,
            forall|k: int| i <= k < n ==> part@[k] == whole[k],
            hits@ == page_of(before + whole.take(i as int), page_size as nat),
            *dropped == clamp_u64(dropped_of(before + whole.take(i as int), page_size as nat)),
        decreases n - i,
    {
        let ghost seen = before + whole.take(i as int);
        let ghost next = before + whole.take(i + 1);
        proof {
            assert(next.drop_last() =~= seen);
            assert(next.last() == whole[i as int]);
            lemma_clamp_add(dropped_of(seen, page_size as nat), 1);
        }
        let mut h = Hit {
            ext_id: String::new(),
            doc_id: 0,
            matched_field: String::new(),
            preview: String::new(),
        };
        std::mem::swap(&mut h, &mut part[i]);
        if hits.len() < page_size {
            if page_has_ext(hits, h.ext_id.as_str()) {
                *dropped = sat_add(*dropped, 1);
            } else {
                hits.push(h);
            }
        }
        i += 1;
    }
    proof {
        assert(before + whole.take(n as int) =~= before + whole);
    }
}

/// Every hit of a page is one of the hits that came in.
pub proof fn lemma_page_hits_came_in(hs: Seq<Hit>, size: nat, i: int)
    requires
        0 <= i < page_of(hs, size).len(),
    ensures
        hs.contains(page_of(hs, size)[i]),
    decreases hs.len(),
{
    let prev = page_of(hs.drop_last(), size);
    if i < prev.len() {
        lemma_page_hits_came_in(hs.drop_last(), size, i);
        let k = choose|k: int| 0 <= k < hs.drop_last().len() && hs.drop_last()[k] == prev[i];
        assert(hs[k] == prev[i]);
    } else {
        assert(hs[hs.len() - 1] == page_of(hs, size)[i]);
    }
}

/// Two pages share no external identifier where the hits that they were
/// merged from share none.
pub proof fn lemma_pages_of_disjoint_hits(
    first: Seq<Hit>,
    second: Seq<Hit>,
    size1: nat,
    size2: nat,
    i: int,
    j: int,
)
    requires
        forall|a: int, b: int|
            0 <= a < first.len() && 0 <= b < second.len() ==> (#[trigger] first[a]).ext_id@ != (
            #[trigger] second[b]).ext_id@,
        0 <= i < page_of(first, size1).len(),
        0 <= j < page_of(second, size2).len(),
    ensures
        page_of(first, size1)[i].ext_id@ != page_of(second, size2)[j].ext_id@,
{
    lemma_page_hits_came_in(first, size1, i);
    lemma_page_hits_came_in(second, size2, j);
    let a = choose|a: int| 0 <= a < first.len() && first[a] == page_of(first, size1)[i];
    let b = choose|b: int| 0 <= b < second.len() && second[b] == page_of(second, size2)[j];
    assert(first[a].ext_id@ != second[b].ext_id@);
}

} // verus!
