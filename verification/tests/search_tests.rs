use grepzilla::doc::StoredDoc;
use grepzilla::json::Json;
use grepzilla::listmap::ListMap;
use grepzilla::manifest::{ManifestFlat, ManifestUnified, SegRef};
use grepzilla::search::coordinator::{
    extract_last_docid, order_segments, search_hot, SearchCoordinator,
};
use grepzilla::search::error::SearchError;
use grepzilla::search::executor::{
    Admission, ParallelExecutor, SegmentTaskInput, SegmentTaskOutput,
};
use grepzilla::search::segment_task::{
    longest_literal_needle, non_empty, search_one_segment, skip_from_cursor,
};
use grepzilla::search::types::{PageIn, SearchLimits, SearchRequest};
use grepzilla::segjson::reader::JsonSegmentReader;
use grepzilla::segjson::writer::JsonSegmentWriter;
use grepzilla::segment::reader::BinSegmentReader;
use grepzilla::segment::traits::{AnySegmentReader, SegmentReader};
use grepzilla::segment::writer::BinSegmentWriter;
use grepzilla::strmap::StrMap;
use grepzilla::verify::{
    compile_wildcard_engine, wildcard_to_regex_case_insensitive, wildcard_to_regex_pattern,
    EnvVerifyFactory, Pcre2Factory, RegexVerify, VerifyEngine, VerifyFactory,
};

fn reader(lines: &[&str]) -> AnySegmentReader {
    let text = lines.join("\n");
    let img = BinSegmentWriter::default().write_segment(&text).unwrap();
    AnySegmentReader::V2(BinSegmentReader::open_segment(img).unwrap())
}

fn textual_reader(lines: &[&str]) -> AnySegmentReader {
    let text = lines.join("\n");
    let img = JsonSegmentWriter::default().write_segment(&text).unwrap();
    AnySegmentReader::V1(JsonSegmentReader::open_segment(img).unwrap())
}

fn task(path: &str, wildcard: &str, field: &str, cursor: Option<u64>) -> SegmentTaskInput {
    SegmentTaskInput {
        seg_path: path.to_string(),
        wildcard: wildcard.to_string(),
        field: field.to_string(),
        cursor_docid: cursor,
        max_candidates: 200_000,
        page_size: 10,
    }
}

fn request(wildcard: &str, field: Option<&str>, segments: &[&str], shards: Option<Vec<u64>>) -> SearchRequest {
    SearchRequest {
        wildcard: wildcard.to_string(),
        field: field.map(|f| f.to_string()),
        segments: segments.iter().map(|s| s.to_string()).collect(),
        shards,
        page: PageIn { size: 10, cursor: None },
        limits: None,
    }
}

const SEG1: [&str; 2] = [
    r#"{"_id":"1","text":{"body":"котенок играет с клубком"}}"#,
    r#"{"_id":"2","text":{"body":"щенок играет с мячиком"}}"#,
];
const SEG2: [&str; 2] = [
    r#"{"_id":"2","text":{"body":"щенок играет дома"}}"#,
    r#"{"_id":"3","text":{"body":"кот играет"}}"#,
];

#[test]
fn a_textual_segment_is_searched_alike() {
    let eng = compile_wildcard_engine("*игра*").unwrap();
    let t = task("seg1", "*игра*", "text.body", None);
    let a = search_one_segment(&t, &mut reader(&SEG1), &eng).unwrap();
    let b = search_one_segment(&t, &mut textual_reader(&SEG1), &eng).unwrap();
    let shown = |out: &SegmentTaskOutput| {
        out.hits
            .iter()
            .map(|h| (h.ext_id.clone(), h.doc_id, h.matched_field.clone(), h.preview.clone()))
            .collect::<Vec<_>>()
    };
    assert_eq!(shown(&a), shown(&b));
    assert_eq!(a.hits.len(), 2);
    assert_eq!(a.candidates, b.candidates);
    assert_eq!(a.last_docid, b.last_docid);
    // only the binary format reads documents ahead
    assert_eq!(a.warmed_docs, 2);
    assert_eq!(b.warmed_docs, 0);
}

#[test]
fn search_one_segment_finds_and_highlights() {
    let mut r = reader(&SEG1);
    let eng = compile_wildcard_engine("*игра*").unwrap();
    let out = search_one_segment(&task("seg1", "*игра*", "text.body", None), &mut r, &eng).unwrap();
    assert_eq!(out.seg_path, "seg1");
    assert_eq!(out.hits.len(), 2);
    assert_eq!(out.candidates, 2);
    assert_eq!(out.last_docid, Some(1));
    assert_eq!(out.warmed_docs, 2);
    let ids: Vec<&str> = out.hits.iter().map(|h| h.ext_id.as_str()).collect();
    assert_eq!(ids, vec!["1", "2"]);
    for h in &out.hits {
        assert_eq!(h.matched_field, "text.body");
        assert!(h.preview.contains('[') && h.preview.contains(']'));
        // what the engine accepts is what the hit names
        let doc = r.get_doc(h.doc_id).unwrap();
        assert!(eng.is_match(doc.fields.get(&h.matched_field).unwrap()));
    }
    // the pattern "*игра*" matches the whole text: the match is the text
    assert_eq!(out.hits[0].preview, "[котенок играет с клубком]");
}

#[test]
fn search_one_segment_preview_is_cut_around_the_match() {
    let long = format!(
        r#"{{"_id":"1","t":"{}needle{}"}}"#,
        "a".repeat(300),
        "b".repeat(300)
    );
    let mut r = reader(&[long.as_str()]);
    let eng = compile_wildcard_engine("needle").unwrap();
    let out = search_one_segment(&task("s", "needle", "", None), &mut r, &eng).unwrap();
    assert_eq!(out.hits.len(), 1);
    assert_eq!(out.hits[0].matched_field, "t");
    // 180 - (6 + 2) = 172, 86 characters each side
    let want = format!("…{}[needle]{}…", "a".repeat(86), "b".repeat(86));
    assert_eq!(out.hits[0].preview, want);
}

#[test]
fn search_one_segment_respects_cursor_and_limits() {
    let lines: Vec<String> = (0..6)
        .map(|i| format!(r#"{{"_id":"d{}","t":"common text {}"}}"#, i, if i % 2 == 0 { "even" } else { "odd" }))
        .collect();
    let refs: Vec<&str> = lines.iter().map(|s| s.as_str()).collect();
    let mut r = reader(&refs);
    let eng = compile_wildcard_engine("*common*even*").unwrap();
    // all candidates, the even ones match
    let out = search_one_segment(&task("s", "*common*even*", "", None), &mut r, &eng).unwrap();
    let ids: Vec<u32> = out.hits.iter().map(|h| h.doc_id).collect();
    assert_eq!(ids, vec![0, 2, 4]);
    assert_eq!(out.candidates, 3);
    // the prefilter takes "common" and "even" grams: only even docs are candidates
    let eng2 = compile_wildcard_engine("*common*").unwrap();
    let out = search_one_segment(&task("s", "*common*", "", Some(2)), &mut r, &eng2).unwrap();
    let ids: Vec<u32> = out.hits.iter().map(|h| h.doc_id).collect();
    assert_eq!(ids, vec![3, 4, 5]);
    assert_eq!(out.candidates, 3);
    assert_eq!(out.last_docid, Some(5));
    // nothing past the cursor: the cursor comes back
    let out = search_one_segment(&task("s", "*common*", "", Some(5)), &mut r, &eng2).unwrap();
    assert!(out.hits.is_empty());
    assert_eq!(out.candidates, 0);
    assert_eq!(out.last_docid, Some(5));
    // no cursor and no candidate: none
    let eng3 = compile_wildcard_engine("*zzzz*").unwrap();
    let out = search_one_segment(&task("s", "*zzzz*", "", None), &mut r, &eng3).unwrap();
    assert_eq!(out.last_docid, None);
    assert_eq!(out.candidates, 0);
    // the walk ends at the candidate that passes the limit, which is
    // counted and marked but not verified
    let mut t = task("s", "*common*", "", None);
    t.max_candidates = 2;
    t.page_size = 1;
    let out = search_one_segment(&t, &mut r, &eng2).unwrap();
    let ids: Vec<u32> = out.hits.iter().map(|h| h.doc_id).collect();
    assert_eq!(ids, vec![0, 1]);
    assert_eq!(out.candidates, 3);
    assert_eq!(out.last_docid, Some(2));
    assert_eq!(out.warmed_docs, 4);
    // a named field that does not match
    let out = search_one_segment(&task("s", "*common*", "_id", None), &mut r, &eng2).unwrap();
    assert!(out.hits.is_empty());
    assert_eq!(out.candidates, 6);
}

#[test]
fn weak_pattern_is_an_error_of_its_own() {
    let mut r = reader(&SEG1);
    let eng = compile_wildcard_engine("*иг*").unwrap();
    let out = search_one_segment(&task("s", "*иг*", "", None), &mut r, &eng);
    assert_eq!(out.err(), Some(SearchError::PatternTooWeak));
}

#[test]
fn two_shards_dedup_and_pin() {
    // shard 0 gen 1 -> seg1, shard 1 gen 7 -> seg2
    let mut shards: ListMap<u64, u64> = ListMap::new();
    shards.insert(0, 1);
    shards.insert(1, 7);
    let mut segments: StrMap<Vec<String>> = StrMap::new();
    segments.insert("0:1".to_string(), vec!["seg1".to_string()]);
    segments.insert("1:7".to_string(), vec!["seg2".to_string()]);
    let coord = SearchCoordinator::new(2)
        .with_manifest(ManifestUnified::from_flat(ManifestFlat { shards, segments }));
    let req = request("*игра*", Some("text.body"), &[], Some(vec![0, 1]));
    let (selected, pin) = coord.select_segments(&req);
    let selected = order_segments(selected);
    let tasks = coord.build_tasks(&req, &selected);
    assert_eq!(tasks.len(), 2);
    assert_eq!(tasks[0].max_candidates, 200_000);
    let eng = compile_wildcard_engine(&req.wildcard).unwrap();
    let mut parts = Vec::new();
    for t in &tasks {
        let mut r = if t.seg_path == "seg1" { reader(&SEG1) } else { reader(&SEG2) };
        parts.push(search_one_segment(t, &mut r, &eng).unwrap());
    }
    let resp = SearchCoordinator::respond(parts, req.page.size, pin, 5, false, 0);
    assert_eq!(resp.hits.len(), 3);
    assert_eq!(resp.metrics.dedup_dropped, 1);
    assert_eq!(resp.metrics.candidates_total, 4);
    assert_eq!(resp.metrics.time_to_first_hit_ms, 5);
    let cursor = resp.cursor.unwrap();
    let pins = cursor.pin_gen.unwrap();
    assert_eq!(pins.entries(), &vec![(0u64, 1u64), (1, 7)]);
    assert_eq!(cursor.per_seg.get("seg1").unwrap().last_docid, 1);
    assert_eq!(cursor.per_seg.get("seg2").unwrap().last_docid, 1);
    assert!(resp.metrics.warmed_docs.is_some());
}

#[test]
fn hot_documents_are_found_and_stay_out_of_the_cursor() {
    let doc = Json::parse(r#"{"_id":"hot1","text":{"body":"свежее сообщение играет"}}"#).unwrap();
    let mut hot = grepzilla::ingest::hot::HotMem::new();
    assert!(hot.apply(vec![doc], None).is_ok());
    let eng = compile_wildcard_engine("*игра*").unwrap();
    let part = search_hot(&hot.snapshot(), &eng, None, 10);
    assert_eq!(part.seg_path, "__hot__");
    assert_eq!(part.hits.len(), 1);
    assert_eq!(part.hits[0].ext_id, "hot1");
    assert_eq!(part.hits[0].matched_field, "text.body");
    assert_eq!(part.hits[0].preview, "свежее сообщение играет");
    assert_eq!(part.candidates, 1);
    assert_eq!(part.last_docid, Some(0));
    let resp = SearchCoordinator::respond(vec![part], 10, ListMap::new(), 3, false, 0);
    assert_eq!(resp.hits.len(), 1);
    let cursor = resp.cursor.unwrap();
    assert!(cursor.per_seg.get("__hot__").is_none());
    assert_eq!(cursor.per_seg.len(), 0);
    assert!(cursor.pin_gen.is_none());
    // the named field must match; the empty name stands for any field
    assert_eq!(search_hot(&hot.snapshot(), &eng, Some("_id"), 10).hits.len(), 0);
    assert_eq!(search_hot(&hot.snapshot(), &eng, Some(""), 10).hits.len(), 1);
}

#[test]
fn hot_search_stops_at_the_page_size() {
    let docs: Vec<Json> = (0..5)
        .map(|i| Json::parse(&format!(r#"{{"_id":"h{}","t":"same text"}}"#, i)).unwrap())
        .collect();
    let mut hot = grepzilla::ingest::hot::HotMem::new();
    assert!(hot.apply(docs, None).is_ok());
    let eng = compile_wildcard_engine("*same*").unwrap();
    assert_eq!(search_hot(&hot.snapshot(), &eng, None, 2).hits.len(), 2);
    assert_eq!(search_hot(&hot.snapshot(), &eng, None, 0).hits.len(), 1);
    assert_eq!(search_hot(&hot.snapshot(), &eng, None, 9).hits.len(), 5);
}

#[test]
fn metrics_are_null_when_empty() {
    let parts: Vec<SegmentTaskOutput> = Vec::new();
    let resp = SearchCoordinator::respond(parts, 10, ListMap::new(), 9, false, 0);
    assert!(resp.hits.is_empty());
    assert_eq!(resp.metrics.time_to_first_hit_ms, 0);
    assert_eq!(resp.metrics.prefilter_ms, None);
    assert_eq!(resp.metrics.verify_ms, None);
    assert_eq!(resp.metrics.prefetch_ms, None);
    assert_eq!(resp.metrics.warmed_docs, None);
    // one candidate is enough for the figures to be there, zero or not
    let mut p = SegmentTaskOutput::empty("s".to_string());
    p.candidates = 1;
    let resp = SearchCoordinator::respond(vec![p], 10, ListMap::new(), 9, true, 3);
    assert_eq!(resp.metrics.prefilter_ms, Some(0));
    assert_eq!(resp.metrics.warmed_docs, Some(0));
    assert!(resp.metrics.deadline_hit);
    assert_eq!(resp.metrics.saturated_sem, 3);
}

#[test]
fn extract_last_docid_from_cursor_json() {
    let cur = Json::parse(r#"{ "per_seg": { "segments/000001": { "last_docid": 42 } } }"#).unwrap();
    let got = extract_last_docid(&Some(cur), "segments/000001");
    assert_eq!(got, Some(42));

    let none = extract_last_docid(&Json::parse(r#"{ "per_seg": {} }"#), "segments/000001");
    assert_eq!(none, None);
    assert_eq!(extract_last_docid(&None, "s"), None);
    for bad in [
        r#"{"per_seg":{"s":{"last_docid":-1}}}"#,
        r#"{"per_seg":{"s":{"last_docid":1.5}}}"#,
        r#"{"per_seg":{"s":{"last_docid":"7"}}}"#,
        r#"{"per_seg":{"s":{}}}"#,
        r#"{"per_seq":{"s":{"last_docid":1}}}"#,
        r#"[1]"#,
    ] {
        assert_eq!(extract_last_docid(&Json::parse(bad), "s"), None, "{}", bad);
    }
    let big = Json::parse(r#"{"per_seg":{"s":{"last_docid":18446744073709551615}}}"#);
    assert_eq!(extract_last_docid(&big, "s"), Some(u64::MAX));
}

#[test]
fn segments_are_ordered_by_shard_and_newest_generation() {
    let mk = |shard, gen, path: &str| SegRef { shard, gen, path: path.to_string() };
    let out = order_segments(vec![
        mk(1, 1, "a"),
        mk(0, 2, "b"),
        mk(1, 9, "c"),
        mk(0, 2, "d"),
        mk(0, 5, "e"),
    ]);
    let got: Vec<&str> = out.iter().map(|r| r.path.as_str()).collect();
    assert_eq!(got, vec!["e", "b", "d", "c", "a"]);
    assert!(order_segments(vec![]).is_empty());
}

#[test]
fn raw_segments_are_shard_zero() {
    let coord = SearchCoordinator::new(0);
    let req = request("*abc*", None, &["s1", "s2"], Some(vec![1]));
    let (sel, pin) = coord.select_segments(&req);
    assert_eq!(sel.len(), 2);
    assert_eq!((sel[0].shard, sel[0].gen, sel[0].path.as_str()), (0, 0, "s1"));
    assert!(pin.is_empty());
    assert_eq!(coord.parallelism_for(&None), 1);
    let limits = Some(SearchLimits { parallelism: Some(8), deadline_ms: Some(5), max_candidates: Some(3) });
    assert_eq!(coord.parallelism_for(&limits), 8);
    assert_eq!(limits.as_ref().unwrap().deadline_duration(), Some(5));
    let mut req = req;
    req.limits = limits;
    let tasks = coord.build_tasks(&req, &sel);
    assert_eq!(tasks[1].seg_path, "s2");
    assert_eq!(tasks[1].max_candidates, 3);
    assert_eq!(tasks[1].field, "");
    assert_eq!(tasks[1].cursor_docid, None);
}

#[test]
fn executor_counts_waits_and_stops_at_a_full_page() {
    let ex = ParallelExecutor::new(0);
    assert_eq!(ex.parallelism, 1);
    let ex = ParallelExecutor::new(2);
    let mut run = ex.begin(5, 3);
    assert_eq!(run.next_task(), Admission::Start);
    assert_eq!(run.next_task(), Admission::Start);
    assert_eq!(run.next_task(), Admission::Wait);
    assert_eq!(run.in_flight, 2);
    // a task finishes: the waiting one takes its permit
    assert!(run.task_finished(1));
    assert_eq!(run.in_flight, 2);
    assert!(!run.cancelled);
    // the page fills: the run is cancelled, the rest is skipped
    assert!(!run.task_finished(2));
    assert!(run.cancelled);
    assert_eq!(run.next_task(), Admission::Skip);
    assert_eq!(run.next_task(), Admission::Skip);
    assert!(run.all_decided());
    assert!(!run.task_finished(0));
    let (deadline_hit, saturated) = run.outcome();
    assert!(!deadline_hit);
    assert_eq!(saturated, 1);
    assert!(saturated <= 5);

    let mut run = ParallelExecutor::new(1).begin(2, 10);
    assert_eq!(run.next_task(), Admission::Start);
    run.deadline_elapsed();
    assert_eq!(run.next_task(), Admission::Skip);
    assert_eq!(run.outcome(), (true, 0));
    let mut run = ParallelExecutor::new(1).begin(1, 10);
    run.caller_cancelled();
    assert_eq!(run.next_task(), Admission::Skip);
    assert_eq!(run.outcome(), (false, 0));
    // no task, no deadline hit
    assert_eq!(ParallelExecutor::new(4).begin(0, 10).outcome(), (false, 0));
}

#[test]
fn wildcard_becomes_a_regular_expression() {
    assert_eq!(wildcard_to_regex_case_insensitive("a*b?c"), "(?si)a.*b.c");
    assert_eq!(
        wildcard_to_regex_case_insensitive(r"1+1=2 (x.y) [z] {q} ^$|\"),
        r"(?si)1\+1=2 \(x\.y\) \[z\] \{q\} \^\$\|\\"
    );
    assert_eq!(wildcard_to_regex_case_insensitive(""), "(?si)");
    assert_eq!(wildcard_to_regex_pattern("a*b?c."), r"a.*b.c\.");
    let e = RegexVerify::compile_wildcard("a?c*").unwrap();
    assert!(e.is_match("xABCx"));
    assert!(e.is_match("a\nc"));
    assert!(!e.is_match("ac"));
    assert_eq!(e.find("xxabcxx"), Some((2, 7)));
    assert_eq!(e.find("zzz"), None);
    assert!(RegexVerify::compile_regex("(").is_err());
    let e = RegexVerify::compile_wildcard("a.c").unwrap();
    assert!(!e.is_match("abc"));
    assert!(e.is_match("A.C"));
    // the engine of a raw pattern is that of its normal form
    let e = compile_wildcard_engine("*ИГРА*").unwrap();
    assert!(e.is_match("щенок играет"));
    let f = EnvVerifyFactory::named(Some("PCRE2"));
    assert_eq!(f.engine, "pcre2");
    assert!(f.compile("ab*").unwrap().is_match("xxABxx"));
    assert_eq!(EnvVerifyFactory::named(None).engine, "regex");
}

#[test]
fn task_helpers() {
    assert_eq!(non_empty(""), None);
    assert_eq!(non_empty("f"), Some("f"));
    assert_eq!(skip_from_cursor(None), 0);
    assert_eq!(skip_from_cursor(Some(0)), 0);
    assert_eq!(skip_from_cursor(Some(7)), 7);
    assert_eq!(longest_literal_needle("*ab*cde?f"), Some("cde".to_string()));
    assert_eq!(longest_literal_needle("ab*cd"), Some("ab".to_string()));
    assert_eq!(longest_literal_needle("*?"), None);
    assert_eq!(longest_literal_needle(""), None);
    // runs are measured in bytes
    assert_eq!(longest_literal_needle("abc*жу"), Some("жу".to_string()));
    let _ = StoredDoc::from_pairs(0, String::new(), &vec![]);
}

#[test]
fn the_engine_of_a_request_is_made_from_the_normalised_pattern() {
    let eng = SearchCoordinator::compile_engine(&EnvVerifyFactory::named(None), "*КРАЙ*").unwrap();
    assert!(eng.is_match("синии краи"));
    assert_eq!(eng.find("синии краи"), Some((0, 19)));
    // the factory alone takes the pattern as it is, and the text is in normal form
    let raw = EnvVerifyFactory::named(None).compile("*КРАЙ*").unwrap();
    assert!(!raw.is_match("синии краи"));
    let eng = SearchCoordinator::compile_engine(&Pcre2Factory, "Cafe\u{301}*").unwrap();
    assert!(eng.is_match("a cafe by the sea"));
}
