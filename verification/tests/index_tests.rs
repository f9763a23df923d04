use grepzilla::doc::StoredDoc;
use grepzilla::gram::BooleanOp;
use grepzilla::index::{get_general_category, Category, InMemoryIndex, IndexError, InvertedIndex};
use grepzilla::json::Json;
use grepzilla::preview::pick_preview_field_name;
use grepzilla::query::{compile_pattern, parse_query, required_grams, ExecPlan};
use grepzilla::verify::VerifyEngine;

fn doc(text: &str) -> Json {
    Json::parse(text).unwrap()
}

#[test]
fn test_basic_insert_search() {
    let mut idx = InMemoryIndex::new();
    let d = doc(r#"{"_id": "1", "text.title": "Кошки", "text.body": "котёнок играет с клубком"}"#);
    idx.add_json_doc(&d);

    let (plan, opts) = parse_query("*кот*").unwrap();
    let hits = idx.search(&plan, opts.limit, opts.offset).unwrap();
    assert!(!hits.is_empty());
    assert_eq!(hits[0].doc_id, "1");
    assert_eq!(hits[0].preview, "котенок играет с клубком");
}

#[test]
fn query_line_is_read() {
    let (plan, opts) = parse_query("  --limit 5 title:*Кошк*  AND  *игра* --offset 2 ").unwrap();
    assert_eq!(plan.op, BooleanOp::And);
    assert_eq!(plan.grams, vec!["кош", "ошк", "игр", "гра"]);
    assert_eq!(plan.matcher, "*кошк*");
    assert_eq!(plan.field.as_deref(), Some("title"));
    assert_eq!((opts.limit, opts.offset), (5, 2));

    let (plan, opts) = parse_query("*abc* OR body:*def*").unwrap();
    assert_eq!(plan.op, BooleanOp::Or);
    assert_eq!(plan.grams, vec!["abc", "def"]);
    assert_eq!(plan.matcher, "*abc*");
    assert_eq!(plan.field.as_deref(), Some("body"));
    assert_eq!((opts.limit, opts.offset), (10, 0));

    let (plan, _) = parse_query("*abc* NOT *xyz*").unwrap();
    assert_eq!(plan.op, BooleanOp::Not);
    assert_eq!(plan.grams, vec!["abc", "xyz"]);

    // AND is looked for first, wherever it stands
    let (plan, _) = parse_query("*aaa* OR *bbb* AND *ccc*").unwrap();
    assert_eq!(plan.op, BooleanOp::And);
    assert_eq!(plan.matcher, "*aaa* or *bbb*");
    assert_eq!(plan.grams, vec!["aaa", " or", "or ", "bbb", "ccc"]);

    // a value that is no number gives the default; a lone option is a word
    let (plan, opts) = parse_query("*abc* --limit x --offset -1 --limit").unwrap();
    assert_eq!((opts.limit, opts.offset), (10, 0));
    assert_eq!(plan.matcher, "*abc* --limit");
    let (_, opts) = parse_query("*abc* --limit 4294967296").unwrap();
    assert_eq!(opts.limit, 10);
    let (_, opts) = parse_query("*abc* --limit 4294967295 --offset +7").unwrap();
    assert_eq!((opts.limit, opts.offset), (u32::MAX, 7));

    assert!(parse_query("*ab*").is_err());
    assert!(parse_query("").is_err());
    assert!(parse_query("   --limit 3").is_err());
    // the side without a pattern of its own gives the matcher of the other
    let (plan, _) = parse_query("f: AND *abc*").unwrap();
    assert_eq!(plan.matcher, "*abc*");
    assert_eq!(plan.field.as_deref(), Some("f"));
}

#[test]
fn required_grams_without_normalising() {
    assert_eq!(required_grams("abcd*ef?ghi"), vec!["abc", "bcd", "ghi"]);
    assert!(required_grams("ab*cd").is_empty());
    assert_eq!(required_grams("ABC"), vec!["ABC"]);
}

#[test]
fn compiled_pattern_minds_the_case() {
    let e = compile_pattern("a*c?").unwrap();
    assert!(e.is_match("xxabbbcd"));
    assert!(!e.is_match("ABCD"));
    assert!(e.is_match("a\nc\n"));
    let e = compile_pattern("1+1").unwrap();
    assert!(e.is_match("1+1"));
    assert!(!e.is_match("11"));
}

#[test]
fn inverted_index_algebra() {
    let mut inv = InvertedIndex::new();
    assert_eq!(inv.map_ext_id("a"), 0);
    assert_eq!(inv.map_ext_id("b"), 1);
    assert_eq!(inv.map_ext_id("a"), 0);
    assert_eq!(inv.map_ext_id("c"), 2);
    assert_eq!(inv.reverse_id(1), "b");
    inv.add_text(0, "abcd");
    inv.add_text(1, "bcde");
    inv.add_text(2, "xyz");
    let plan = |op, grams: &[&str]| ExecPlan {
        op,
        grams: grams.iter().map(|g| g.to_string()).collect(),
        matcher: String::new(),
        field: None,
    };
    let ids = |p: &ExecPlan| inv.execute(p).unwrap().to_vec();
    assert_eq!(ids(&plan(BooleanOp::And, &["bcd"])), vec![0, 1]);
    assert_eq!(ids(&plan(BooleanOp::And, &["abc", "bcd"])), vec![0]);
    assert_eq!(ids(&plan(BooleanOp::And, &["abc", "nop"])), Vec::<u32>::new());
    assert_eq!(ids(&plan(BooleanOp::And, &["nop", "abc"])), Vec::<u32>::new());
    assert_eq!(ids(&plan(BooleanOp::Or, &["abc", "xyz", "nop"])), vec![0, 2]);
    assert_eq!(ids(&plan(BooleanOp::Or, &[])), Vec::<u32>::new());
    assert_eq!(ids(&plan(BooleanOp::Not, &["bcd"])), vec![2]);
    assert_eq!(ids(&plan(BooleanOp::Not, &[])), vec![0, 1, 2]);
    assert!(inv.execute(&plan(BooleanOp::And, &[])).is_err());
    let lists = inv.dump();
    let keys: Vec<&str> = lists.iter().map(|(k, _)| k.as_str()).collect();
    assert_eq!(keys, vec!["abc", "bcd", "cde", "xyz"]);
    assert_eq!(lists[1].1, vec![0, 1]);
    inv.put_list("bcd", &vec![7, 3, 7]);
    assert_eq!(inv.execute(&plan(BooleanOp::And, &["bcd"])).unwrap().to_vec(), vec![3, 7]);
}

#[test]
fn in_memory_search_pages_and_fields() {
    let mut idx = InMemoryIndex::new();
    for i in 0..5 {
        let d = doc(&format!(
            r#"{{"_id":"d{}","text":{{"title":"Title {}","body":"common words {}"}},"note":"common"}}"#,
            i,
            i,
            if i % 2 == 0 { "even" } else { "odd" }
        ));
        assert_eq!(idx.add_json_doc(&d), i);
    }
    let (plan, _) = parse_query("*common*").unwrap();
    let all = idx.search(&plan, 10, 0).unwrap();
    assert_eq!(all.len(), 5);
    assert_eq!(all[0].preview, "common words even");
    let ids = |hits: &Vec<grepzilla::query::Hit>| hits.iter().map(|h| h.doc_id.clone()).collect::<Vec<_>>();
    assert_eq!(ids(&idx.search(&plan, 2, 1).unwrap()), vec!["d1", "d2"]);
    assert!(idx.search(&plan, 0, 0).unwrap().is_empty());
    assert!(idx.search(&plan, 5, 9).unwrap().is_empty());
    // the offset counts candidates, not hits
    let (even, _) = parse_query("text.body:*common*even*").unwrap();
    assert_eq!(ids(&idx.search(&even, 10, 0).unwrap()), vec!["d0", "d2", "d4"]);
    assert_eq!(ids(&idx.search(&even, 10, 1).unwrap()), vec!["d2", "d4"]);
    // a field that the documents do not have
    let (nowhere, _) = parse_query("nope:*common*").unwrap();
    assert!(idx.search(&nowhere, 10, 0).unwrap().is_empty());
    // the same id again replaces the stored fields
    let again = doc(r#"{"_id":"d0","text":{"body":"fresh text"}}"#);
    assert_eq!(idx.add_json_doc(&again), 0);
    assert_eq!(idx.docs.len(), 5);
    let (fresh, _) = parse_query("*fresh*").unwrap();
    assert_eq!(ids(&idx.search(&fresh, 10, 0).unwrap()), vec!["d0"]);
    // a document without id gets a random one
    let anon = doc(r#"{"t":"nameless thing"}"#);
    let id = idx.add_json_doc(&anon);
    assert_eq!(id, 5);
    let ext = idx.docs[5].ext_id.clone();
    assert_eq!(ext.len(), 36);
    for (i, c) in ext.chars().enumerate() {
        if i == 8 || i == 13 || i == 18 || i == 23 {
            assert_eq!(c, '-');
        } else {
            assert!(c.is_ascii_digit() || ('a'..='f').contains(&c));
        }
    }
    assert_eq!(idx.inv.reverse_id(5), ext);
    // a plan without grams, and a pattern that does not compile
    let empty = ExecPlan { op: BooleanOp::And, grams: vec![], matcher: "x".into(), field: None };
    assert_eq!(idx.search(&empty, 1, 0).err(), Some(IndexError::NoGrams));
}

#[test]
fn categories() {
    assert_eq!(get_general_category('\u{0301}'), Category::Mark);
    assert_eq!(get_general_category('\u{0300}'), Category::Mark);
    assert_eq!(get_general_category('\u{036F}'), Category::Mark);
    assert_eq!(get_general_category('\u{0370}'), Category::Other);
    assert_eq!(get_general_category('a'), Category::Other);
    assert!(Category::Mark.is_mark());
    assert!(!Category::Other.is_mark());
}

#[test]
fn preview_field_names() {
    let mk = |fields: &[(&str, &str)]| {
        let pairs: Vec<(String, String)> =
            fields.iter().map(|(k, v)| (k.to_string(), v.to_string())).collect();
        StoredDoc::from_pairs(0, String::new(), &pairs)
    };
    let d = mk(&[("title", "t"), ("text.title", "tt"), ("zzz", "z")]);
    assert_eq!(pick_preview_field_name(&d, Some("zzz")).as_deref(), Some("zzz"));
    assert_eq!(pick_preview_field_name(&d, Some("nope")).as_deref(), Some("text.title"));
    assert_eq!(pick_preview_field_name(&d, None).as_deref(), Some("text.title"));
    assert_eq!(pick_preview_field_name(&mk(&[("body", "b"), ("title", "t")]), None).as_deref(), Some("body"));
    assert_eq!(pick_preview_field_name(&mk(&[("b", "1"), ("a", "2")]), None).as_deref(), Some("a"));
    assert_eq!(pick_preview_field_name(&mk(&[]), Some("a")), None);
}

#[test]
fn a_pattern_too_large_to_compile_is_refused() {
    let mut idx = InMemoryIndex::new();
    idx.add_json_doc(&doc(r#"{"_id":"1","t":"abcdef"}"#));
    let huge = "abc?".repeat(100_000);
    let plan = ExecPlan {
        op: BooleanOp::And,
        grams: vec!["abc".to_string()],
        matcher: huge.clone(),
        field: None,
    };
    assert_eq!(idx.search(&plan, 10, 0).err(), Some(IndexError::BadPattern));
    // without a candidate to look at the pattern is not compiled
    assert!(idx.search(&plan, 10, 1).unwrap().is_empty());
    assert!(idx.search(&plan, 0, 0).unwrap().is_empty());
    assert!(compile_pattern(&huge).is_err());
}

#[test]
fn a_new_index_is_empty() {
    let inv = InvertedIndex::new();
    assert_eq!(inv.next_id, 0);
    assert_eq!(inv.ext2int.len(), 0);
    assert!(inv.int2ext.is_empty());
    assert_eq!(inv.gram_slots.len(), 0);
    assert!(inv.bitmaps.is_empty());
    assert!(inv.dump().is_empty());
    let idx = InMemoryIndex::new();
    assert!(idx.docs.is_empty());
    assert_eq!(idx.inv.next_id, 0);
}
