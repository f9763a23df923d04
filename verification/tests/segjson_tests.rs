use grepzilla::gram::{required_grams_from_wildcard, BooleanOp};
use grepzilla::ingest::memtable::Memtable;
use grepzilla::json::Json;
use grepzilla::listmap::ListMap;
use grepzilla::manifest::{Manifest, ManifestFlat, ManifestUnified};
use grepzilla::search::error::SearchError;
use grepzilla::search::listing::{count_by_field, search_one_segment_cli, ListedHit};
use grepzilla::search::selector::SegmentSelector;
use grepzilla::search::snippet::build_snippet;
use grepzilla::search::types::{PageIn, SearchRequest};
use grepzilla::segjson::reader::JsonSegmentReader;
use grepzilla::segjson::writer::JsonSegmentWriter;
use grepzilla::segment::error::SegmentError;
use grepzilla::segment::reader::BinSegmentReader;
use grepzilla::segment::traits::{
    detect_format, AnyImage, AnySegmentReader, SegmentFormat, SegmentReader, SegmentWriter,
};
use grepzilla::segment::writer::BinSegmentWriter;
use grepzilla::segment_search::search_one_segment;
use grepzilla::strmap::StrMap;
use grepzilla::verify::{Pcre2Factory, RegexVerify, VerifyEngine, VerifyFactory};

const PETS: &str = r#"{"_id":"1","text.title":"Кошки","text.body":"котёнок играет с клубком","tags":["pets"],"lang":"ru"}
{"_id":"2","text.title":"Собаки","text.body":"щенок играет с мячиком","tags":["pets"],"lang":"ru"}
{"_id":"3","text.title":"Птицы","text.body":"воробей поёт утром","tags":["wildlife"],"lang":"ru"}
"#;

#[test]
fn smoke_ingest_and_search() {
    let mut w = JsonSegmentWriter::default();
    let img = w.write_segment(PETS).unwrap();
    let reader = JsonSegmentReader::open_segment(img).unwrap();
    assert_eq!(reader.doc_count(), 3);

    let grams = required_grams_from_wildcard("*играет*").unwrap();
    let bm = reader.prefilter(BooleanOp::And, &grams, None).unwrap();

    let mut found = Vec::new();
    for doc_id in bm.iter() {
        let doc = reader.get_doc(doc_id).unwrap();
        found.push(doc.ext_id.clone());
    }
    assert!(found.contains(&"1".to_string()));
    assert!(found.contains(&"2".to_string()));
    assert!(!found.contains(&"3".to_string()));
}

const TAGGED: &str = r#"{"_id":"a","text":{"title":"aaa","body":"alpha beta gamma"},"tags":["Игры"]}
{"_id":"b","text":{"title":"bbb","body":"delta epsilon zeta"},"tags":["Музыка"]}
"#;

#[test]
fn field_mask_consistency_v1_v2() {
    let r1 = JsonSegmentReader::open_segment(
        JsonSegmentWriter::default().write_segment(TAGGED).unwrap(),
    )
    .unwrap();
    let r2 = BinSegmentReader::open_segment(
        BinSegmentWriter::default().write_segment(TAGGED).unwrap(),
    )
    .unwrap();

    let grams = required_grams_from_wildcard("*игры*").unwrap();
    let b1 = r1.prefilter(BooleanOp::And, &grams, Some("tags[0]")).unwrap();
    let b2 = r2.prefilter(BooleanOp::And, &grams, Some("tags[0]")).unwrap();
    assert_eq!(b1.cardinality(), 1);
    assert_eq!(b2.cardinality(), 1);
    assert_eq!(b1.iter().collect::<Vec<_>>(), b2.iter().collect::<Vec<_>>());
}

#[test]
fn textual_segment_texts() {
    let img = JsonSegmentWriter::default()
        .write_segment("{\"_id\":\"x\",\"t\":\"Abcd\"}\n\n{\"t\":\"bcd\",\"u\":\"q\"}\n")
        .unwrap();
    assert_eq!(img.meta_json, r#"{"doc_count":2,"gram_count":2,"version":1}"#);
    assert_eq!(img.grams_json, r#"{"abc":[0],"bcd":[0,1]}"#);
    assert_eq!(img.field_masks_json.as_deref(), Some(r#"{"_id":[0],"t":[0,1],"u":[1]}"#));
    assert_eq!(
        img.docs_jsonl,
        "{\"doc_id\":0,\"ext_id\":\"x\",\"fields\":{\"_id\":\"x\",\"t\":\"abcd\"}}\n\
         {\"doc_id\":1,\"ext_id\":\"\",\"fields\":{\"t\":\"bcd\",\"u\":\"q\"}}\n"
    );
    assert_eq!(
        JsonSegmentWriter::default().write_segment("{}\nnope").err(),
        Some(SegmentError::BadJson { line: 1 })
    );
    let r = JsonSegmentReader::open_segment(img).unwrap();
    let ids = |b: croaring::Bitmap| b.iter().collect::<Vec<u32>>();
    let g = |v: &[&str]| v.iter().map(|s| s.to_string()).collect::<Vec<String>>();
    assert_eq!(ids(r.prefilter(BooleanOp::And, &g(&["bcd"]), None).unwrap()), vec![0, 1]);
    assert_eq!(ids(r.prefilter(BooleanOp::And, &g(&["bcd", "abc"]), None).unwrap()), vec![0]);
    assert_eq!(ids(r.prefilter(BooleanOp::And, &g(&["bcd", "zzz"]), None).unwrap()), Vec::<u32>::new());
    assert_eq!(ids(r.prefilter(BooleanOp::Or, &g(&["abc", "zzz"]), Some("t")).unwrap()), vec![0]);
    assert_eq!(ids(r.prefilter(BooleanOp::Not, &g(&["abc"]), None).unwrap()), vec![1]);
    assert_eq!(ids(r.prefilter(BooleanOp::Not, &g(&[]), Some("u")).unwrap()), vec![1]);
    assert_eq!(ids(r.prefilter(BooleanOp::Or, &g(&["bcd"]), Some("nope")).unwrap()), Vec::<u32>::new());
    assert_eq!(r.prefilter(BooleanOp::And, &g(&[]), None).err(), Some(SegmentError::NoGrams));
    assert_eq!(r.get_doc(1).unwrap().fields.get("u").unwrap(), "q");
    assert!(r.get_doc(2).is_none());
}

#[test]
fn textual_segment_faults() {
    let good = || JsonSegmentWriter::default().write_segment("{\"_id\":\"x\",\"t\":\"abcd\"}").unwrap();
    let mut img = good();
    img.meta_json = r#"{"version":1,"doc_count":"2","gram_count":2}"#.to_string();
    assert_eq!(JsonSegmentReader::open_segment(img).err(), Some(SegmentError::BadMetaJson));
    let mut img = good();
    img.meta_json = "{".to_string();
    assert_eq!(JsonSegmentReader::open_segment(img).err(), Some(SegmentError::BadMetaJson));
    let mut img = good();
    img.grams_json = r#"{"abc":[0,-1]}"#.to_string();
    assert_eq!(JsonSegmentReader::open_segment(img).err(), Some(SegmentError::BadGramsJson));
    let mut img = good();
    img.docs_jsonl = "\n{\"doc_id\":1,\"ext_id\":\"x\",\"fields\":{}}\n".to_string();
    assert_eq!(JsonSegmentReader::open_segment(img).err(), Some(SegmentError::BadDocsLine { line: 1 }));
    let mut img = good();
    img.docs_jsonl = "{\"doc_id\":0,\"ext_id\":\"x\",\"fields\":{\"a\":1}}".to_string();
    assert_eq!(JsonSegmentReader::open_segment(img).err(), Some(SegmentError::BadDocsLine { line: 0 }));
    // masks that are missing or unreadable count as none
    let mut img = good();
    img.field_masks_json = None;
    let r = JsonSegmentReader::open_segment(img).unwrap();
    assert!(r.prefilter(BooleanOp::Or, &vec!["abc".to_string()], Some("t")).unwrap().is_empty());
    let mut img = good();
    img.field_masks_json = Some("[]".to_string());
    assert!(JsonSegmentReader::open_segment(img).is_ok());
}

#[test]
fn either_format_through_one_reader() {
    assert_eq!(detect_format(true, true, true), Some(SegmentFormat::V2));
    assert_eq!(detect_format(true, false, false), Some(SegmentFormat::V2));
    assert_eq!(detect_format(false, true, true), Some(SegmentFormat::V1));
    assert_eq!(detect_format(false, true, false), None);
    assert_eq!(detect_format(false, false, true), None);
    let v1 = AnyImage::V1(JsonSegmentWriter::default().write_segment(PETS).unwrap());
    let v2 = AnyImage::V2(BinSegmentWriter::default().write_segment(PETS).unwrap());
    for img in [v1, v2] {
        let mut r = AnySegmentReader::open_segment(img).unwrap();
        assert_eq!(r.doc_count(), 3);
        let out = search_one_segment(&mut r, Some("text.body"), "*ИГРАЕТ*", None, 100).unwrap();
        let ids: Vec<&str> = out.hits.iter().map(|h| h.ext_id.as_str()).collect();
        assert_eq!(ids, vec!["1", "2"]);
        assert_eq!(out.hits[0].matched_field.as_deref(), Some("text.body"));
        assert_eq!(out.candidates, 2);
        assert_eq!(out.last_docid, Some(1));
        let out = search_one_segment(&mut r, None, "*играет*", Some(0), 100).unwrap();
        assert_eq!(out.hits.len(), 1);
        assert_eq!(out.hits[0].doc_id, 1);
        let out = search_one_segment(&mut r, None, "*играет*", Some(1), 100).unwrap();
        assert!(out.hits.is_empty());
        assert_eq!(out.last_docid, Some(1));
        assert_eq!(out.candidates, 0);
        let out = search_one_segment(&mut r, None, "*играет*", None, 1).unwrap();
        assert_eq!(out.hits.len(), 1);
        assert_eq!(out.candidates, 2);
        assert_eq!(out.last_docid, Some(1));
        assert_eq!(
            search_one_segment(&mut r, None, "*иг*", None, 1).err(),
            Some(SearchError::PatternTooWeak)
        );
        assert!(r.get_doc(0).is_some());
        assert!(r.get_doc(3).is_none());
    }
    let mut w = BinSegmentWriter::default();
    assert!(SegmentWriter::write_segment(&mut w, PETS).is_ok());
}

#[test]
fn byte_snippets() {
    let e = RegexVerify::compile_wildcard("needle").unwrap();
    assert_eq!(build_snippet(&e, "a needle here", 40), "a [needle] here");
    // 12 - (6 + 2) = 4 bytes, two on each side
    assert_eq!(build_snippet(&e, "xxxx needle yyyy", 12), "…x [needle] y…");
    assert_eq!(build_snippet(&e, "nothing to see", 7), "nothing…");
    assert_eq!(build_snippet(&e, "short", 7), "short");
    // offsets inside a character fall back to its start
    assert_eq!(build_snippet(&e, "жжж needle жжж", 13), "…ж [needle] …");
    assert_eq!(build_snippet(&e, "жжжжж", 3), "ж…");
}

#[test]
fn pcre2_engine() {
    let e = Pcre2Factory.compile("a?c*").unwrap();
    assert!(e.is_match("xxABCxx"));
    assert!(e.is_match("a\nc"));
    assert!(!e.is_match("ac"));
    assert_eq!(e.find("xxabcxx"), Some((2, 7)));
    assert_eq!(e.find("zzz"), None);
    let e = Pcre2Factory.compile_engine("a.c").unwrap();
    assert!(!e.is_match("abc"));
    assert!(e.is_match("a.c"));
}

#[test]
fn selector_plans() {
    let mut shards: ListMap<u64, u64> = ListMap::new();
    shards.insert(0, 2);
    shards.insert(1, 7);
    let mut segments: StrMap<Vec<String>> = StrMap::new();
    segments.insert("0:1".to_string(), vec!["old".to_string()]);
    segments.insert("0:2".to_string(), vec!["a".to_string(), "b".to_string()]);
    segments.insert("1:7".to_string(), vec!["c".to_string()]);
    let sel = SegmentSelector { store: Manifest { shards, segments } };
    let req = |segments: &[&str], shards: Option<Vec<u64>>| SearchRequest {
        wildcard: "*abc*".to_string(),
        field: None,
        segments: segments.iter().map(|s| s.to_string()).collect(),
        shards,
        page: PageIn { size: 10, cursor: None },
        limits: None,
    };
    let (paths, pin) = sel.plan(&req(&["raw"], Some(vec![0])), None);
    assert_eq!(paths, vec!["raw"]);
    assert!(pin.is_empty());
    let (paths, pin) = sel.plan(&req(&[], Some(vec![1, 0, 5])), None);
    assert_eq!(paths, vec!["c", "a", "b"]);
    assert_eq!(pin.entries(), &vec![(0u64, 2u64), (1, 7)]);
    let mut pinned: ListMap<u64, u64> = ListMap::new();
    pinned.insert(0, 1);
    let (paths, pin) = sel.plan(&req(&[], Some(vec![1, 0])), Some(pinned));
    assert_eq!(paths, vec!["old"]);
    assert_eq!(pin.entries(), &vec![(0u64, 1u64)]);
    let (paths, _) = sel.plan(&req(&[], None), None);
    assert!(paths.is_empty());
}

#[test]
fn shard_views_and_memtable() {
    let mut shards: ListMap<u64, u64> = ListMap::new();
    shards.insert(0, 2);
    let mut segments: StrMap<Vec<String>> = StrMap::new();
    segments.insert("0:2".to_string(), vec!["a".to_string()]);
    segments.insert("3:4".to_string(), vec!["x".to_string()]);
    segments.insert("3:9".to_string(), vec!["y".to_string(), "z".to_string()]);
    let uni = ManifestUnified::from_flat(ManifestFlat { shards, segments });
    assert_eq!(uni.shard_view(0), Some((2, vec!["a".to_string()])));
    // a shard without a pin shows its highest generation
    assert_eq!(uni.shard_view(3), Some((9, vec!["y".to_string(), "z".to_string()])));
    assert_eq!(uni.shard_view(8), None);

    let mut m = Memtable::new();
    assert_eq!(m.len(), 0);
    m.push_many(vec![Json::Bool(true), Json::Str("x".to_string())]);
    m.push_many(vec![Json::Null]);
    assert_eq!(m.len(), 3);
    assert_eq!(m.snapshot(), vec!["true", "\"x\"", "null"]);
    m.clear();
    assert_eq!(m.len(), 0);
}

#[test]
fn listing_passes_over_the_offset_and_stops_at_the_limit() {
    let lines: Vec<String> = (0..6)
        .map(|i| {
            format!(
                r#"{{"_id":"d{}","title":"Common {}","text":{{"body":"some common words {}"}}}}"#,
                i,
                i,
                if i % 2 == 0 { "even" } else { "odd" }
            )
        })
        .collect();
    let text = lines.join("\n");
    let v1 = AnyImage::V1(JsonSegmentWriter::default().write_segment(&text).unwrap());
    let v2 = AnyImage::V2(BinSegmentWriter::default().write_segment(&text).unwrap());
    for img in [v1, v2] {
        let mut r = AnySegmentReader::open_segment(img).unwrap();
        let eng = RegexVerify::compile_wildcard("*common*").unwrap();
        let out = search_one_segment_cli(&mut r, &eng, "*Common*", None, 10, 0).unwrap();
        assert_eq!(out.lines.len(), 6);
        assert_eq!(out.candidates, 6);
        assert_eq!(out.lines[0].ext_id, "d0");
        assert_eq!(out.lines[0].matched_field, "text.body");
        assert_eq!(out.lines[0].label, "text.body");
        assert_eq!(out.lines[0].preview, "some [common] words even");
        assert_eq!(out.by_field.entries(), &vec![("text.body".to_string(), 6usize)]);

        // the offset counts candidates; the candidate after the last line is counted too
        let out = search_one_segment_cli(&mut r, &eng, "*common*", None, 2, 1).unwrap();
        let ids: Vec<u32> = out.lines.iter().map(|l| l.doc_id).collect();
        assert_eq!(ids, vec![1, 2]);
        assert_eq!(out.candidates, 4);
        let out = search_one_segment_cli(&mut r, &eng, "*common*", None, 2, 4).unwrap();
        let ids: Vec<u32> = out.lines.iter().map(|l| l.doc_id).collect();
        assert_eq!(ids, vec![4, 5]);
        assert_eq!(out.candidates, 6);
        let out = search_one_segment_cli(&mut r, &eng, "*common*", None, 0, 0).unwrap();
        assert!(out.lines.is_empty());
        assert_eq!(out.candidates, 1);
        assert!(out.by_field.entries().is_empty());
        let out = search_one_segment_cli(&mut r, &eng, "*common*", None, 3, 9).unwrap();
        assert!(out.lines.is_empty());
        assert_eq!(out.candidates, 6);

        // the prefilter leaves the documents that hold every trigram
        let even = RegexVerify::compile_wildcard("*common*even*").unwrap();
        let out = search_one_segment_cli(&mut r, &even, "*common*even*", None, 10, 0).unwrap();
        let ids: Vec<u32> = out.lines.iter().map(|l| l.doc_id).collect();
        assert_eq!(ids, vec![0, 2, 4]);
        assert_eq!(out.candidates, 3);
        // the needle is the longest literal run
        assert_eq!(out.lines[0].preview, "some [common] words even");
        // a candidate that does not verify takes no line
        let turned = RegexVerify::compile_wildcard("*words*common*").unwrap();
        let out = search_one_segment_cli(&mut r, &turned, "*words*common*", None, 10, 0).unwrap();
        assert!(out.lines.is_empty());
        assert_eq!(out.candidates, 6);

        // with a field: the label is the field, the preview is taken as always
        let out = search_one_segment_cli(&mut r, &eng, "*common*", Some("title"), 1, 0).unwrap();
        assert_eq!(out.lines.len(), 1);
        assert_eq!(out.lines[0].matched_field, "title");
        assert_eq!(out.lines[0].label, "title");
        assert_eq!(out.lines[0].preview, "some [common] words even");
        assert_eq!(out.by_field.entries(), &vec![("title".to_string(), 1usize)]);
        assert_eq!(out.candidates, 2);

        assert_eq!(
            search_one_segment_cli(&mut r, &eng, "*co*", None, 1, 0).err(),
            Some(SearchError::PatternTooWeak)
        );
    }
}

#[test]
fn lines_are_counted_by_field() {
    let hit = |f: &str| ListedHit {
        ext_id: String::new(),
        doc_id: 0,
        matched_field: f.to_string(),
        label: String::new(),
        preview: String::new(),
    };
    let counts = count_by_field(&vec![hit("b"), hit("a"), hit("b"), hit("c"), hit("b")]);
    assert_eq!(
        counts.entries(),
        &vec![("a".to_string(), 1usize), ("b".to_string(), 3), ("c".to_string(), 1)]
    );
    assert!(count_by_field(&vec![]).entries().is_empty());
}

#[test]
fn segment_search_names_a_pattern_that_does_not_compile() {
    let img = JsonSegmentWriter::default().write_segment(PETS).unwrap();
    let mut r = JsonSegmentReader::open_segment(img).unwrap();
    let huge = "играет?".repeat(50_000);
    assert_eq!(
        search_one_segment(&mut r, None, &huge, None, 10).err(),
        Some(SearchError::BadPattern)
    );
}
