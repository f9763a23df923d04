//! The search coordinator: which segments a request reads, in which
//! order, with which task each; what the hot buffer adds; and the answer
//! that the merged parts make.

use vstd::array::array_as_slice;
use vstd::prelude::*;
use crate::doc::StoredDoc;
use crate::ingest::hot::HotMem;
use crate::json::Json;
use crate::listmap::ListMap;
use crate::manifest::{
    ManifestUnified, refs_view, resolved_pins, resolved_refs, SegRef, SegRefModel, segs_view,
};
use crate::preview::{build_preview, preview_source, PreviewOpts, strs_view, truncated};
use crate::sat::{clamp_u64, sat_add};
use crate::search::executor::{SegmentTaskInput, SegmentTaskOutput};
use crate::search::paginator::{
    all_hits, candidates_sum, cursor_of, dropped_of, HOT_PATH, page_of, Paginator, stage_sums,
};
use crate::search::segment_task::{
    clock_now, elapsed_ms, hit_models, HitModel, match_field, matched_field_of, PREVIEW_LEN,
};
use crate::search::types::{
    Hit, SearchCursor, SearchLimits, SearchMetrics, SearchRequest, SearchResponse,
};
use crate::segment::fields::names_view;
use crate::normalizer::{normalize, normalized};
use crate::verify::{VerifyEngine, VerifyError, VerifyFactory};

verus! {

/// The number of candidates a task looks at where the request sets none.
pub const DEFAULT_MAX_CANDIDATES: u64 = 200_000;

/// The search coordinator.
#[derive(Debug)]
pub struct SearchCoordinator {
    pub default_parallelism: usize,
    /// The manifest that shards are resolved through, if one is set up.
    pub manifest: Option<ManifestUnified>,
    /// The hot buffer whose documents are searched too, if one is attached.
    pub hot: Option<HotMem>,
}

/// Whether `a` is searched strictly before `b`: it is of a lower shard,
/// or of the same shard and a newer generation.
pub open spec fn goes_before(a: SegRef, b: SegRef) -> bool {
    a.shard < b.shard || (a.shard == b.shard && a.gen > b.gen)
}

/// Whether no segment stands after one that it goes before.
pub open spec fn is_ordered(refs: Seq<SegRef>) -> bool {
    forall|i: int, j: int| 0 <= i < j < refs.len() ==> !goes_before(refs[j], refs[i])
}

/// Where `x` is put into the ordered `sorted`: after the last segment
/// that it does not go before.
pub open spec fn slot_of(sorted: Seq<SegRef>, x: SegRef) -> int
    decreases sorted.len(),
{
    if sorted.len() == 0 || !goes_before(x, sorted.last()) {
        sorted.len() as int
    } else {
        slot_of(sorted.drop_last(), x)
    }
}

/// The first `n` segments in search order: by shard, and within a shard
/// the newest generation first; segments that tie keep the order they
/// came in.
pub open spec fn ordered(refs: Seq<SegRef>, n: int) -> Seq<SegRef>
    decreases n,
{
    if n <= 0 || n > refs.len() {
        Seq::empty()
    } else {
        let prev = ordered(refs, n - 1);
        prev.insert(slot_of(prev, refs[n - 1]), refs[n - 1])
    }
}

proof fn lemma_slot(sorted: Seq<SegRef>, x: SegRef)
    requires
        is_ordered(sorted),
    ensures
        0 <= slot_of(sorted, x) <= sorted.len(),
        forall|i: int| 0 <= i < slot_of(sorted, x) ==> !goes_before(x, #[trigger] sorted[i]),
        forall|i: int| slot_of(sorted, x) <= i < sorted.len() ==> goes_before(x, #[trigger] sorted[i]),
        is_ordered(sorted.insert(slot_of(sorted, x), x)),
    decreases sorted.len(),
{
    if sorted.len() == 0 || !goes_before(x, sorted.last()) {
        assert forall|i: int| 0 <= i < sorted.len() implies !goes_before(x, #[trigger] sorted[i]) by {
            if i < sorted.len() - 1 {
                assert(!goes_before(sorted[sorted.len() - 1], sorted[i]));
            }
        }
    } else {
        let rest = sorted.drop_last();
        assert(is_ordered(rest)) by {
            assert forall|i: int, j: int| 0 <= i < j < rest.len() implies !goes_before(
                rest[j],
                rest[i],
            ) by {
                assert(!goes_before(sorted[j], sorted[i]));
            }
        }
        lemma_slot(rest, x);
        assert forall|i: int| 0 <= i < slot_of(sorted, x) implies !goes_before(
            x,
            #[trigger] sorted[i],
        ) by {
            assert(sorted[i] == rest[i]);
        }
        assert forall|i: int| slot_of(sorted, x) <= i < sorted.len() implies goes_before(
            x,
            #[trigger] sorted[i],
        ) by {
            if i < rest.len() {
                assert(sorted[i] == rest[i]);
            }
        }
    }
    let p = slot_of(sorted, x);
    let out = sorted.insert(p, x);
    assert forall|i: int, j: int| 0 <= i < j < out.len() implies !goes_before(out[j], out[i]) by {
        if j < p {
            assert(out[i] == sorted[i] && out[j] == sorted[j]);
        } else if j == p {
            assert(out[i] == sorted[i]);
        } else if i < p {
            assert(out[i] == sorted[i] && out[j] == sorted[j - 1]);
        } else if i == p {
            assert(out[j] == sorted[j - 1]);
        } else {
            assert(out[i] == sorted[i - 1] && out[j] == sorted[j - 1]);
        }
    }
}

/// The segments in search order are in order.
pub proof fn lemma_ordered(refs: Seq<SegRef>, n: int)
    requires
        0 <= n <= refs.len(),
    ensures
        is_ordered(ordered(refs, n)),
        ordered(refs, n).len() == n,
    decreases n,
{
    if n > 0 {
        lemma_ordered(refs, n - 1);
        lemma_slot(ordered(refs, n - 1), refs[n - 1]);
    }
}

/// The segments in search order: by shard, and within a shard the newest
/// generation first.
pub fn order_segments(refs: Vec<SegRef>) -> (r: Vec<SegRef>)
    ensures
        r@ == ordered(refs@, refs@.len() as int),
        is_ordered(r@),
        r@.len() == refs@.len(),
{
    let ghost whole = refs@;
    let mut refs = refs;
    let n: usize = refs.len();
    let mut out: Vec<SegRef> = Vec::new();
    let mut i: usize = 0;
    while i < n
        invariant
            i <= n,
            n == whole.len(),
            refs@.len() == n,
            forall|k: int| i <= k < n ==> refs@[k] == whole[k],
            out@ == ordered(whole, i as int),
            out@.len() == i,
        decreases n - i,
    {
        let mut x = SegRef { shard: 0, gen: 0, path: String::new() };
        std::mem::swap(&mut x, &mut refs[i]);
        let mut p: usize = out.len();
        proof {
            assert(out@.take(p as int) =~= out@);
        }
        while p > 0 && (x.shard < out[p - 1].shard || (x.shard == out[p - 1].shard && x.gen
            > out[p - 1].gen))
            invariant
                p <= out.len(),
                slot_of(out@, x) == slot_of(out@.take(p as int), x),
            decreases p,
        {
            proof {
                assert(out@.take(p as int).last() == out@[p - 1]);
                assert(out@.take(p as int).drop_last() =~= out@.take(p - 1));
            }
            p -= 1;
        }
        proof {
            if p > 0 {
                assert(out@.take(p as int).last() == out@[p - 1]);
            }
        }
        out.insert(p, x);
        i += 1;
    }
    proof {
        lemma_ordered(whole, n as int);
    }
    out
}

/// The last doc id that a cursor holds for the segment `seg`: the
/// unsigned number `last_docid` of the member `seg` of its member
/// `per_seg`.
pub open spec fn cursor_docid(cursor: Option<Json>, seg: Seq<char>) -> Option<u64> {
    match cursor {
        None => None,
        Some(c) => match c.member("per_seg"@) {
            None => None,
            Some(ps) => match ps.member(seg) {
                None => None,
                Some(s) => match s.member("last_docid"@) {
                    None => None,
                    Some(v) => v.unsigned(),
                },
            },
        },
    }
}

/// The last doc id that a cursor holds for the segment `seg`.
pub fn extract_last_docid(cursor: &Option<Json>, seg: &str) -> (r: Option<u64>)
    ensures
        r == cursor_docid(*cursor, seg@),
{
    match cursor {
        None => None,
        Some(c) => match c.get("per_seg") {
            None => None,
            Some(ps) => match ps.get(seg) {
                None => None,
                Some(s) => match s.get("last_docid") {
                    None => None,
                    Some(v) => v.as_u64(),
                },
            },
        },
    }
}

/// The task of one segment of a request, as texts and numbers.
pub struct TaskModel {
    pub seg_path: Seq<char>,
    pub wildcard: Seq<char>,
    pub field: Seq<char>,
    pub cursor_docid: Option<u64>,
    pub max_candidates: u64,
    pub page_size: usize,
}

/// The texts and numbers of tasks.
pub open spec fn tasks_view(tasks: Seq<SegmentTaskInput>) -> Seq<TaskModel> {
    tasks.map_values(
        |t: SegmentTaskInput|
            TaskModel {
                seg_path: t.seg_path@,
                wildcard: t.wildcard@,
                field: t.field@,
                cursor_docid: t.cursor_docid,
                max_candidates: t.max_candidates,
                page_size: t.page_size,
            },
    )
}

/// The most candidates that a task of the request looks at.
pub open spec fn max_candidates_of(req: SearchRequest) -> u64 {
    match req.limits {
        Some(l) => match l.max_candidates {
            Some(m) => m,
            None => DEFAULT_MAX_CANDIDATES,
        },
        None => DEFAULT_MAX_CANDIDATES,
    }
}

/// The task that a request gives the segment `seg`.
pub open spec fn task_for(req: SearchRequest, seg: SegRef) -> TaskModel {
    TaskModel {
        seg_path: seg.path@,
        wildcard: req.wildcard@,
        field: match req.field {
            Some(f) => f@,
            None => Seq::empty(),
        },
        cursor_docid: cursor_docid(req.page.cursor, seg.path@),
        max_candidates: max_candidates_of(req),
        page_size: req.page.size,
    }
}

/// The hits that the first `n` documents of the hot buffer give: every
/// document that matches is a hit, up to the page size and one hit at
/// least; the preview is the start of the document's preferred text.
pub open spec fn hot_hits<E: VerifyEngine>(
    eng: &E,
    docs: Seq<StoredDoc>,
    field: Option<Seq<char>>,
    page_size: usize,
    n: int,
) -> Seq<HitModel>
    decreases n,
{
    if n <= 0 || n > docs.len() {
        Seq::empty()
    } else {
        let prev = hot_hits(eng, docs, field, page_size, n - 1);
        if prev.len() > 0 && prev.len() >= page_size {
            prev
        } else {
            let d = docs[n - 1];
            match matched_field_of(eng, d.texts(), field) {
                Some(mf) => prev.push(
                    HitModel {
                        ext_id: d.ext_id@,
                        doc_id: d.doc_id,
                        matched_field: mf,
                        preview: truncated(
                            preview_source(d.texts(), preferred_fields(), None),
                            PREVIEW_LEN as int,
                        ),
                    },
                ),
                None => prev,
            }
        }
    }
}

/// The fields that a preview of a hot document is taken from, the most
/// wanted first.
pub open spec fn preferred_fields() -> Seq<Seq<char>> {
    seq!["text.title"@, "text.body"@, "title"@, "body"@]
}

/// The field that a request names, the empty name standing for none.
pub open spec fn hot_field(field: Option<Seq<char>>) -> Option<Seq<char>> {
    match field {
        Some(f) => if f.len() == 0 {
            None
        } else {
            Some(f)
        },
        None => None,
    }
}

/// Searches the documents of the hot buffer: every document is verified,
/// no prefilter comes first. The part that comes back has the path of
/// the hot buffer, the matches as its candidates and the doc id of its
/// last hit as its last doc id.
pub fn search_hot<E: VerifyEngine>(
    docs: &Vec<StoredDoc>,
    eng: &E,
    field: Option<&str>,
    page_size: usize,
) -> (r: SegmentTaskOutput)
    ensures
        r.seg_path@ == HOT_PATH@,
        hit_models(r.hits@) == hot_hits(
            eng,
            docs@,
            hot_field(
                match field {
                    Some(f) => Some(f@),
                    None => None,
                },
            ),
            page_size,
            docs@.len() as int,
        ),
        r.candidates == r.hits@.len(),
        r.last_docid == (if r.hits@.len() == 0 {
            None
        } else {
            Some(r.hits@.last().doc_id as u64)
        }),
        r.prefilter_ms == 0,
        r.prefetch_ms == 0,
        r.warmed_docs == 0,
{
    let wanted: Option<&str> = match field {
        Some(f) => if f.is_empty() {
            None
        } else {
            Some(f)
        },
        None => None,
    };
    let ghost fc = hot_field(
        match field {
            Some(f) => Some(f@),
            None => None,
        },
    );
    let preferred: [&str; 4] = ["text.title", "text.body", "title", "body"];
    let mut hits: Vec<Hit> = Vec::new();
    let mut verify_ms: u64 = 0;
    let mut last: Option<u64> = None;
    let mut i: usize = 0;
    proof {
        assert(hit_models(hits@) =~= Seq::<HitModel>::empty());
        assert(strs_view(array_as_slice(&preferred)@) =~= preferred_fields());
    }
    while i < docs.len() && !(hits.len() > 0 && hits.len() >= page_size)
        invariant
            i <= docs.len(),
            match wanted {
                Some(f) => fc == Some(f@),
                None => fc is None,
            },
            strs_view(array_as_slice(&preferred)@) == preferred_fields(),
            hit_models(hits@) == hot_hits(eng, docs@, fc, page_size, i as int),
            last == (if hits@.len() == 0 {
                None
            } else {
                Some(hits@.last().doc_id as u64)
            }),
        decreases docs.len() - i,
    {
        let doc = &docs[i];
        let tv = clock_now();
        let mf = match_field(eng, doc, wanted);
        verify_ms = sat_add(verify_ms, elapsed_ms(&tv));
        match mf {
            Some(name) => {
                let preview = build_preview(
                    doc,
                    PreviewOpts {
                        preferred_fields: array_as_slice(&preferred),
                        max_len: PREVIEW_LEN,
                        highlight_needle: None,
                    },
                );
                let ghost before = hits@;
                let h = Hit {
                    ext_id: doc.ext_id.clone(),
                    doc_id: doc.doc_id,
                    matched_field: name,
                    preview,
                };
                hits.push(h);
                last = Some(doc.doc_id as u64);
                proof {
                    assert(hit_models(hits@) =~= hit_models(before).push(
                        crate::search::segment_task::hit_model(h),
                    ));
                }
            },
            None => {},
        }
        i += 1;
    }
    proof {
        lemma_hot_stays(eng, docs@, fc, page_size, i as int, docs@.len() as int);
    }
    SegmentTaskOutput {
        seg_path: HOT_PATH.to_owned(),
        last_docid: last,
        candidates: hits.len() as u64,
        hits,
        prefilter_ms: 0,
        verify_ms,
        prefetch_ms: 0,
        warmed_docs: 0,
    }
}

/// Once the hot hits have filled the page, further documents add none.
pub proof fn lemma_hot_stays<E: VerifyEngine>(
    eng: &E,
    docs: Seq<StoredDoc>,
    field: Option<Seq<char>>,
    page_size: usize,
    k: int,
    n: int,
)
    requires
        0 <= k <= n <= docs.len(),
        k < n ==> (hot_hits(eng, docs, field, page_size, k).len() > 0 && hot_hits(
            eng,
            docs,
            field,
            page_size,
            k,
        ).len() >= page_size),
    ensures
        hot_hits(eng, docs, field, page_size, n) == hot_hits(eng, docs, field, page_size, k),
    decreases n - k,
{
    if k < n {
        lemma_hot_stays(eng, docs, field, page_size, k, n - 1);
    }
}

impl SearchCoordinator {
    /// Compiles the matcher of a request, once for all its segments: the
    /// pattern is put in its normal form and handed to the factory.
    pub fn compile_engine<F: VerifyFactory>(factory: &F, wildcard: &str) -> (r: Result<
        F::Engine,
        VerifyError,
    >)
        ensures
            r is Ok == factory.compiles(normalized(wildcard@)),
            r matches Ok(e) ==> F::made_for(&e, normalized(wildcard@)),
    {
        let pattern = normalize(wildcard);
        factory.compile(pattern.as_str())
    }

    /// A coordinator without manifest and hot buffer.
    pub fn new(default_parallelism: usize) -> (r: Self)
        ensures
            r.default_parallelism == default_parallelism,
            r.manifest is None,
            r.hot is None,
    {
        SearchCoordinator { default_parallelism, manifest: None, hot: None }
    }

    /// The coordinator with the manifest `store` to resolve shards through.
    pub fn with_manifest(self, store: ManifestUnified) -> (r: Self)
        ensures
            r.default_parallelism == self.default_parallelism,
            r.manifest == Some(store),
            r.hot == self.hot,
    {
        SearchCoordinator {
            default_parallelism: self.default_parallelism,
            manifest: Some(store),
            hot: self.hot,
        }
    }

    /// The coordinator with the hot buffer `hot` to search too.
    pub fn with_hot(self, hot: HotMem) -> (r: Self)
        ensures
            r.default_parallelism == self.default_parallelism,
            r.manifest == self.manifest,
            r.hot == Some(hot),
    {
        SearchCoordinator {
            default_parallelism: self.default_parallelism,
            manifest: self.manifest,
            hot: Some(hot),
        }
    }

    /// The number of tasks that may run side by side for a request: what
    /// the request sets, else the coordinator's number, and one at least.
    pub fn parallelism_for(&self, limits: &Option<SearchLimits>) -> (r: usize)
        ensures
            r >= 1,
            r == ({
                let wanted = match *limits {
                    Some(l) => match l.parallelism {
                        Some(p) => p,
                        None => self.default_parallelism,
                    },
                    None => self.default_parallelism,
                };
                if wanted < 1 {
                    1
                } else {
                    wanted
                }
            }),
    {
        let wanted = match limits {
            Some(l) => match l.parallelism {
                Some(p) => p,
                None => self.default_parallelism,
            },
            None => self.default_parallelism,
        };
        if wanted < 1 {
            1
        } else {
            wanted
        }
    }

    /// The segments that a request reads, before they are put in order,
    /// and the generations that its shards are pinned to. With shards in
    /// the request and a manifest set up, the shards are resolved; else
    /// the paths of the request are taken, each as shard zero and
    /// generation zero, and nothing is pinned.
    pub fn select_segments(&self, req: &SearchRequest) -> (r: (Vec<SegRef>, ListMap<u64, u64>))
        ensures
            match (self.manifest, req.shards) {
                (Some(m), Some(shards)) => refs_view(r.0@) == resolved_refs(
                    m.pin_gen.pairs(),
                    segs_view(m.segs.pairs()),
                    shards@,
                    shards@.len() as int,
                ) && r.1.pairs() == resolved_pins(m.pin_gen.pairs(), shards@, shards@.len() as int),
                _ => refs_view(r.0@) == names_view(req.segments@).map_values(
                    |p: Seq<char>| SegRefModel { shard: 0, gen: 0, path: p },
                ) && r.1.pairs().len() == 0,
            },
    {
        match (&self.manifest, &req.shards) {
            (Some(m), Some(shards)) => m.resolve(shards.as_slice()),
            _ => {
                let mut out: Vec<SegRef> = Vec::new();
                let mut i: usize = 0;
                let ghost want = names_view(req.segments@).map_values(
                    |p: Seq<char>| SegRefModel { shard: 0, gen: 0, path: p },
                );
                proof {
                    assert(refs_view(out@) =~= want.take(0));
                }
                while i < req.segments.len()
                    invariant
                        i <= req.segments.len(),
                        want == names_view(req.segments@).map_values(
                            |p: Seq<char>| SegRefModel { shard: 0, gen: 0, path: p },
                        ),
                        refs_view(out@) == want.take(i as int),
                    decreases req.segments.len() - i,
                {
                    let ghost before = out@;
                    out.push(SegRef { shard: 0, gen: 0, path: req.segments[i].clone() });
                    proof {
                        assert(want[i as int] == SegRefModel {
                            shard: 0,
                            gen: 0,
                            path: req.segments@[i as int]@,
                        });
                        assert(refs_view(out@) =~= refs_view(before).push(want[i as int]));
                        assert(want.take(i + 1) =~= want.take(i as int).push(want[i as int]));
                    }
                    i += 1;
                }
                proof {
                    assert(want.take(req.segments.len() as int) =~= want);
                }
                (out, ListMap::new())
            },
        }
    }

    /// The tasks of a request, one per segment: each with the pattern and
    /// the field of the request, the cursor's last doc id for its path,
    /// the candidate limit and the page size.
    pub fn build_tasks(&self, req: &SearchRequest, selected: &Vec<SegRef>) -> (r: Vec<
        SegmentTaskInput,
    >)
        ensures
            tasks_view(r@) == selected@.map_values(|s: SegRef| task_for(*req, s)),
    {
        let max_candidates: u64 = match &req.limits {
            Some(l) => match l.max_candidates {
                Some(m) => m,
                None => DEFAULT_MAX_CANDIDATES,
            },
            None => DEFAULT_MAX_CANDIDATES,
        };
        let mut out: Vec<SegmentTaskInput> = Vec::new();
        let mut i: usize = 0;
        let ghost want = selected@.map_values(|s: SegRef| task_for(*req, s));
        proof {
            assert(tasks_view(out@) =~= want.take(0));
        }
        while i < selected.len()
            invariant
                i <= selected.len(),
                max_candidates == max_candidates_of(*req),
                want == selected@.map_values(|s: SegRef| task_for(*req, s)),
                tasks_view(out@) == want.take(i as int),
            decreases selected.len() - i,
        {
            let s = &selected[i];
            let ghost before = out@;
            let t = SegmentTaskInput {
                seg_path: s.path.clone(),
                wildcard: req.wildcard.clone(),
                field: match &req.field {
                    Some(f) => f.clone(),
                    None => String::new(),
                },
                cursor_docid: extract_last_docid(&req.page.cursor, s.path.as_str()),
                max_candidates,
                page_size: req.page.size,
            };
            out.push(t);
            proof {
                assert(want[i as int] == task_for(*req, selected@[i as int]));
                assert(tasks_view(out@) =~= tasks_view(before).push(want[i as int]));
                assert(want.take(i + 1) =~= want.take(i as int).push(want[i as int]));
            }
            i += 1;
        }
        proof {
            assert(want.take(selected.len() as int) =~= want);
        }
        out
    }

    /// The answer that the parts of a request make. The parts are merged
    /// into one page; the time to the first hit is the time the request
    /// took where the page has a hit, else zero; the pinned generations
    /// go into the cursor where there are any; the per-stage figures are
    /// absent where no candidate was seen and every figure is zero.
    pub fn respond(
        parts: Vec<SegmentTaskOutput>,
        page_size: usize,
        pin_gen: ListMap<u64, u64>,
        elapsed_ms: u64,
        deadline_hit: bool,
        saturated_sem: usize,
    ) -> (r: SearchResponse)
        ensures
            r.hits@ == page_of(all_hits(parts@), page_size as nat),
            r.cursor matches Some(c) && c.per_seg.pairs() == cursor_of(parts@) && (match c.pin_gen {
                Some(p) => pin_gen.pairs().len() > 0 && p == pin_gen,
                None => pin_gen.pairs().len() == 0,
            }),
            r.metrics.candidates_total == clamp_u64(candidates_sum(parts@)),
            r.metrics.dedup_dropped == clamp_u64(
                dropped_of(all_hits(parts@), page_size as nat),
            ),
            r.metrics.time_to_first_hit_ms == (if r.hits@.len() == 0 {
                0
            } else {
                elapsed_ms
            }),
            r.metrics.deadline_hit == deadline_hit,
            r.metrics.saturated_sem == saturated_sem,
            ({
                let s = stage_sums(parts@);
                let none = candidates_sum(parts@) == 0 && s.0 == 0 && s.1 == 0 && s.2 == 0 && s.3
                    == 0;
                if none {
                    r.metrics.prefilter_ms is None && r.metrics.verify_ms is None
                        && r.metrics.prefetch_ms is None && r.metrics.warmed_docs is None
                } else {
                    r.metrics.prefilter_ms == Some(clamp_u64(s.0)) && r.metrics.verify_ms == Some(
                        clamp_u64(s.1),
                    ) && r.metrics.prefetch_ms == Some(clamp_u64(s.2)) && r.metrics.warmed_docs
                        == Some(clamp_u64(s.3))
                }
            }),
    {
        let (hits, cursor, candidates_total, dedup_dropped, totals) = Paginator::merge(
            parts,
            page_size,
        );
        let ttfh: u64 = if hits.len() == 0 {
            0
        } else {
            elapsed_ms
        };
        let SearchCursor { per_seg, pin_gen: _ } = cursor;
        let pins = if pin_gen.is_empty() {
            None
        } else {
            Some(pin_gen)
        };
        let has_any = candidates_total > 0 || totals.0 > 0 || totals.1 > 0 || totals.2 > 0
            || totals.3 > 0;
        SearchResponse {
            hits,
            cursor: Some(SearchCursor { per_seg, pin_gen: pins }),
            metrics: SearchMetrics {
                candidates_total,
                time_to_first_hit_ms: ttfh,
                deadline_hit,
                saturated_sem: saturated_sem as u64,
                dedup_dropped,
                prefilter_ms: if has_any {
                    Some(totals.0)
                } else {
                    None
                },
                verify_ms: if has_any {
                    Some(totals.1)
                } else {
                    None
                },
                prefetch_ms: if has_any {
                    Some(totals.2)
                } else {
                    None
                },
                warmed_docs: if has_any {
                    Some(totals.3)
                } else {
                    None
                },
            },
        }
    }
}

} // verus!
