use grepzilla::search::executor::SegmentTaskOutput;
use grepzilla::search::paginator::Paginator;
use grepzilla::search::types::{Hit, SearchMetrics, SearchResponse};

fn mk_seg(seg_path: &str, hits: Vec<Hit>, last_docid: u64) -> SegmentTaskOutput {
    SegmentTaskOutput {
        seg_path: seg_path.to_string(),
        last_docid: Some(last_docid),
        candidates: hits.len() as u64,
        hits,
        prefilter_ms: 0,
        verify_ms: 0,
        prefetch_ms: 0,
        warmed_docs: 0,
    }
}

fn mk_seg_metrics(
    seg_path: &str,
    hits: Vec<Hit>,
    last_docid: u64,
    prefilter: u64,
    verify: u64,
    prefetch: u64,
    warmed: u64,
) -> SegmentTaskOutput {
    SegmentTaskOutput {
        seg_path: seg_path.to_string(),
        last_docid: Some(last_docid),
        candidates: hits.len() as u64,
        hits,
        prefilter_ms: prefilter,
        verify_ms: verify,
        prefetch_ms: prefetch,
        warmed_docs: warmed,
    }
}

fn hit(ext_id: &str, doc_id: u32, field: &str, preview: &str) -> Hit {
    Hit {
        ext_id: ext_id.into(),
        doc_id,
        matched_field: field.into(),
        preview: preview.into(),
    }
}

#[test]
fn merge_dedups_by_ext_id_across_segments() {
    let h1 = Hit {
        ext_id: "same-ext-id".into(),
        doc_id: 10,
        matched_field: "text.body".into(),
        preview: "first".into(),
    };
    let h2 = Hit {
        ext_id: "same-ext-id".into(),
        doc_id: 11,
        matched_field: "text.body".into(),
        preview: "second".into(),
    };

    let parts = vec![
        mk_seg("segments/000001", vec![h1.clone()], 123),
        mk_seg("segments/000002", vec![h2.clone()], 123),
    ];

    let (hits, _cursor, _cand, dedup_dropped, _totals) = Paginator::merge(parts, 10);

    assert_eq!(hits.len(), 1);
    assert_eq!(hits[0].ext_id, "same-ext-id");
    assert_eq!(dedup_dropped, 1);
}

#[test]
fn paginator_aggregates_metrics_and_reports_dedup() {
    let base = Hit {
        ext_id: "dup".into(),
        doc_id: 1,
        matched_field: "text.body".into(),
        preview: "...".into(),
    };

    let parts = vec![
        mk_seg_metrics("segments/A", vec![base.clone()], 5, 2, 3, 5, 7),
        mk_seg_metrics("segments/B", vec![base.clone()], 5, 11, 13, 17, 19),
    ];

    let (hits, cursor, candidates_total, dedup_dropped, totals) = Paginator::merge(parts, 10);
    let (prefilter_ms_total, verify_ms_total, prefetch_ms_total, warmed_docs_total) = totals;

    let resp = SearchResponse {
        hits,
        cursor: Some(cursor),
        metrics: SearchMetrics {
            candidates_total,
            time_to_first_hit_ms: 0,
            deadline_hit: false,
            saturated_sem: 0,
            dedup_dropped,
            prefilter_ms: Some(prefilter_ms_total),
            verify_ms: Some(verify_ms_total),
            prefetch_ms: Some(prefetch_ms_total),
            warmed_docs: Some(warmed_docs_total),
        },
    };

    assert_eq!(resp.metrics.dedup_dropped, 1);
    assert_eq!(resp.hits.len(), 1);
    assert_eq!(resp.metrics.candidates_total, 2);

    assert_eq!(resp.metrics.prefilter_ms, Some(2 + 11));
    assert_eq!(resp.metrics.verify_ms, Some(3 + 13));
    assert_eq!(resp.metrics.prefetch_ms, Some(5 + 17));
    assert_eq!(resp.metrics.warmed_docs, Some(7 + 19));

    let per_seg = &resp.cursor.as_ref().unwrap().per_seg;
    assert!(per_seg.get("segments/A").is_some());
    assert!(per_seg.get("segments/B").is_some());
}

#[test]
fn metrics_are_some_and_aggregated_when_non_empty() {
    let h = Hit {
        ext_id: "e".into(),
        doc_id: 1,
        matched_field: "f".into(),
        preview: "p".into(),
    };

    let parts = vec![
        mk_seg_metrics("A", vec![h.clone()], 1, 2, 3, 5, 7),
        mk_seg_metrics("B", vec![h], 1, 11, 13, 17, 19),
    ];

    let (hits, cursor, candidates_total, dedup_dropped, totals) = Paginator::merge(parts, 10);
    let (prefilter_ms_total, verify_ms_total, prefetch_ms_total, warmed_docs_total) = totals;

    let resp = SearchResponse {
        hits,
        cursor: Some(cursor),
        metrics: SearchMetrics {
            candidates_total,
            time_to_first_hit_ms: 0,
            deadline_hit: false,
            saturated_sem: 0,
            dedup_dropped,
            prefilter_ms: Some(prefilter_ms_total),
            verify_ms: Some(verify_ms_total),
            prefetch_ms: Some(prefetch_ms_total),
            warmed_docs: Some(warmed_docs_total),
        },
    };

    assert_eq!(resp.metrics.prefilter_ms, Some(2 + 11));
    assert_eq!(resp.metrics.verify_ms, Some(3 + 13));
    assert_eq!(resp.metrics.prefetch_ms, Some(5 + 17));
    assert_eq!(resp.metrics.warmed_docs, Some(7 + 19));
}

#[test]
fn two_pages_do_not_overlap() {
    let p1_parts = vec![
        mk_seg(
            "segments/A",
            vec![hit("id-1", 1, "text", "..."), hit("id-2", 2, "text", "...")],
            2,
        ),
        mk_seg("segments/B", vec![hit("id-3", 7, "text", "...")], 7),
    ];
    let (hits1, cursor1, _c1, _d1, _t1) = Paginator::merge(p1_parts, 3);
    assert_eq!(hits1.len(), 3);

    let p2_parts = vec![
        mk_seg("segments/A", vec![hit("id-4", 3, "text", "...")], 3),
        mk_seg("segments/B", vec![hit("id-5", 8, "text", "...")], 8),
    ];
    let (hits2, cursor2, _c2, _d2, _t2) = Paginator::merge(p2_parts, 3);
    assert_eq!(hits2.len(), 2);

    let s1: std::collections::BTreeSet<_> = hits1.iter().map(|h| h.ext_id.as_str()).collect();
    let s2: std::collections::BTreeSet<_> = hits2.iter().map(|h| h.ext_id.as_str()).collect();
    assert!(s1.is_disjoint(&s2));

    assert_eq!(cursor1.per_seg.get("segments/A").unwrap().last_docid, 2);
    assert_eq!(cursor1.per_seg.get("segments/B").unwrap().last_docid, 7);
    assert_eq!(cursor2.per_seg.get("segments/A").unwrap().last_docid, 3);
    assert_eq!(cursor2.per_seg.get("segments/B").unwrap().last_docid, 8);
}

#[test]
fn hot_path_never_enters_the_cursor() {
    let parts = vec![
        mk_seg("segments/A", vec![hit("a", 1, "f", "p")], 1),
        mk_seg("__hot__", vec![hit("h", 0, "f", "p")], 0),
    ];
    let (hits, cursor, _c, _d, _t) = Paginator::merge(parts, 10);
    assert_eq!(hits.len(), 2);
    assert!(cursor.per_seg.get("__hot__").is_none());
    assert!(cursor.per_seg.get("segments/A").is_some());
    assert_eq!(cursor.per_seg.len(), 1);
}

#[test]
fn page_stops_at_its_size_and_later_duplicates_are_not_counted() {
    let parts = vec![
        mk_seg(
            "s1",
            vec![hit("a", 1, "f", "p"), hit("a", 2, "f", "p"), hit("b", 3, "f", "p")],
            3,
        ),
        mk_seg("s2", vec![hit("a", 1, "f", "p"), hit("c", 2, "f", "p")], 2),
    ];
    let (hits, _cursor, cand, dropped, _t) = Paginator::merge(parts, 2);
    let ids: Vec<&str> = hits.iter().map(|h| h.ext_id.as_str()).collect();
    assert_eq!(ids, vec!["a", "b"]);
    assert_eq!(dropped, 1);
    assert_eq!(cand, 5);
}

#[test]
fn part_without_last_docid_leaves_zero() {
    let mut p = SegmentTaskOutput::empty("seg".to_string());
    p.candidates = u64::MAX;
    let q = mk_seg_metrics("seg2", vec![], 9, 1, 1, 1, 1);
    let mut q = q;
    q.candidates = 5;
    let (hits, cursor, cand, dropped, totals) = Paginator::merge(vec![p, q], 0);
    assert!(hits.is_empty());
    assert_eq!(dropped, 0);
    assert_eq!(cand, u64::MAX);
    assert_eq!(totals, (1, 1, 1, 1));
    assert_eq!(cursor.per_seg.get("seg").unwrap().last_docid, 0);
    assert_eq!(cursor.per_seg.get("seg2").unwrap().last_docid, 9);
}
