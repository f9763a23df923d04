use grepzilla::config::{default_hot_cap, default_parallelism, BrokerConfig, ConfigValues};
use grepzilla::ingest::compactor::{
    sidecar_kind, validate_wal_checksum_best_effort, ChecksumVerdict, Compactor, SidecarKind,
};
use grepzilla::ingest::coordinator::{
    after_append_failure, after_hot, after_segment, persisted, refused, replayed, HotStep,
    PublishStep, RetryStep,
};
use grepzilla::ingest::flusher::Flusher;
use grepzilla::ingest::hot::{ApplyResult, Backpressure, HotMem};
use grepzilla::ingest::wal::{
    checksum_hex, checksum_matches, new_batch_id, wal_fsync_mode_of, Wal,
    WalFsyncMode,
};
use grepzilla::json::{collect_strings, Json};
use grepzilla::text::trim_chars;

fn doc(id: &str, body: &str) -> Json {
    Json::Object(vec![
        ("_id".to_string(), Json::Str(id.to_string())),
        (
            "text".to_string(),
            Json::Object(vec![("body".to_string(), Json::Str(body.to_string()))]),
        ),
    ])
}

#[test]
fn same_key_is_applied_once() {
    let mut hot = HotMem::new();
    let first = hot.apply(vec![doc("1", "Один")], Some("K".to_string())).ok().unwrap();
    assert_eq!(first, ApplyResult { added: 1, idempotent: false, backlog_ms: None });
    let second = hot.apply(vec![doc("1", "Один")], Some("K".to_string())).ok().unwrap();
    assert_eq!(second, ApplyResult { added: 0, idempotent: true, backlog_ms: None });
    assert_eq!(hot.len(), 1);
    // another key, and no key, are applied
    assert!(!hot.apply(vec![doc("1", "x")], Some("L".to_string())).ok().unwrap().idempotent);
    assert!(!hot.apply(vec![doc("1", "x")], None).ok().unwrap().idempotent);
    assert!(!hot.apply(vec![doc("1", "x")], None).ok().unwrap().idempotent);
    assert_eq!(hot.len(), 4);
    hot.clear();
    assert_eq!(hot.len(), 0);
    assert!(!hot.apply(vec![], Some("K".to_string())).ok().unwrap().idempotent);
}

#[test]
fn hot_buffer_keeps_the_newest_and_refuses_when_full() {
    let mut hot = HotMem::new().with_cap(3);
    assert_eq!(hot.metrics(), (0, 3));
    let batch: Vec<Json> = (0..5).map(|i| doc(&format!("d{}", i), "Текст")).collect();
    let res = hot.apply(batch, None).ok().unwrap();
    assert_eq!(res.added, 5);
    let snap = hot.snapshot();
    let ids: Vec<&str> = snap.iter().map(|d| d.ext_id.as_str()).collect();
    assert_eq!(ids, vec!["d2", "d3", "d4"]);
    // the doc id is the length of the buffer when the document came
    let doc_ids: Vec<u32> = snap.iter().map(|d| d.doc_id).collect();
    assert_eq!(doc_ids, vec![2, 3, 3]);
    assert_eq!(snap[0].fields.get("text.body").unwrap(), "текст");
    // full: the next batch is refused, and nothing changes
    let err = hot.apply(vec![doc("x", "y")], Some("key".to_string())).err().unwrap();
    assert_eq!(err, Backpressure { retry_after_ms: 1500 });
    assert_eq!(hot.len(), 3);
    assert_eq!(hot.metrics(), (3, 3));
    // a capacity of zero changes nothing
    let hot = HotMem::new().with_cap(0);
    assert_eq!(hot.metrics(), (0, 10_000));
}

#[test]
fn documents_without_id_get_the_empty_one() {
    let mut hot = HotMem::new();
    let j = Json::parse(r#"{"a":["X",{"b":"Y"}],"n":1,"_id":5}"#).unwrap();
    hot.apply(vec![j], None).ok().unwrap();
    let snap = hot.snapshot();
    assert_eq!(snap[0].ext_id, "");
    let fields: Vec<(String, String)> = snap[0].fields.entries().clone();
    assert_eq!(
        fields,
        vec![
            ("a[0]".to_string(), "x".to_string()),
            ("a[1].b".to_string(), "y".to_string()),
        ]
    );
}

#[test]
fn string_leaves_have_dotted_paths() {
    let j = Json::parse(r#"{"text":{"title":"T","body":"B"},"tags":["p","q"],"n":3,"deep":[[{"k":"v"}]]}"#).unwrap();
    let got = collect_strings(&j);
    let want: Vec<(String, String)> = [
        ("deep[0][0].k", "v"),
        ("tags[0]", "p"),
        ("tags[1]", "q"),
        ("text.body", "B"),
        ("text.title", "T"),
    ]
    .iter()
    .map(|(a, b)| (a.to_string(), b.to_string()))
    .collect();
    assert_eq!(got, want);
    assert_eq!(collect_strings(&Json::Str("s".to_string())), vec![(String::new(), "s".to_string())]);
    assert_eq!(
        collect_strings(&Json::Array(vec![Json::Str("s".to_string())])),
        vec![("[0]".to_string(), "s".to_string())]
    );
    assert!(Json::parse("{").is_none());
    assert_eq!(Json::parse(r#"{"b":[1,"x",null,true]}"#).unwrap().render(), r#"{"b":[1,"x",null,true]}"#);
}

#[test]
fn wal_names_and_checksum() {
    let wal = Wal::new("wal");
    assert_eq!(wal.fsync_mode, WalFsyncMode::Batch);
    let batch = vec![doc("1", "a"), doc("2", "b")];
    let plan = wal.plan_batch(1234, "abc", &batch);
    assert_eq!(plan.final_name, "0000000000001234-abc.jsonl");
    assert_eq!(plan.tmp_name, "0000000000001234-abc.jsonl.tmp");
    assert_eq!(plan.sidecar_name, "0000000000001234-abc.xxh3");
    assert_eq!(
        plan.content,
        "{\"_id\":\"1\",\"text\":{\"body\":\"a\"}}\n{\"_id\":\"2\",\"text\":{\"body\":\"b\"}}\n"
    );
    assert_eq!(plan.count, 2);
    assert!(plan.sync);
    assert_eq!(plan.checksum.len(), 16);
    assert_eq!(plan.checksum, checksum_hex(plan.content.as_bytes()));
    assert!(checksum_matches(plan.content.as_bytes(), &format!(" {}\n", plan.checksum)));
    assert!(!checksum_matches(b"other", &plan.checksum));
    // more digits than sixteen are kept
    let plan = wal.with_mode(WalFsyncMode::Disabled).plan_batch(u64::MAX, "x", &vec![]);
    assert_eq!(plan.final_name, "18446744073709551615-x.jsonl");
    assert!(!plan.sync);
    assert_eq!(plan.content, "");
    // the XXH3 of the empty input
    assert_eq!(checksum_hex(b""), "2d06800538d394c2");
    assert_eq!(checksum_hex(b"a").len(), 16);
    assert_ne!(checksum_hex(b"a"), checksum_hex(b"b"));
}

#[test]
fn wal_modes_and_ids() {
    assert_eq!(wal_fsync_mode_of(Some("always")), WalFsyncMode::Always);
    assert_eq!(wal_fsync_mode_of(Some("disabled")), WalFsyncMode::Disabled);
    assert_eq!(wal_fsync_mode_of(Some("batch")), WalFsyncMode::Batch);
    assert_eq!(wal_fsync_mode_of(Some("ALWAYS")), WalFsyncMode::Batch);
    assert_eq!(wal_fsync_mode_of(None), WalFsyncMode::Batch);
    let a = new_batch_id();
    let b = new_batch_id();
    assert_eq!(a.chars().count(), 21);
    assert!(a.chars().all(|c| c.is_ascii_alphanumeric() || c == '_' || c == '-'));
    assert_ne!(a, b);
    assert_eq!(trim_chars(" \t a b \r\n").iter().collect::<String>(), "a b");
    assert_eq!(trim_chars(" \u{3000} ").len(), 0);
    assert_eq!(trim_chars("").len(), 0);
}

#[test]
fn compactor_judges_the_sidecar() {
    let data = b"line\n";
    let good = checksum_hex(data);
    assert_eq!(sidecar_kind(Some("xxh3")), Some(SidecarKind::Xxh3));
    assert_eq!(sidecar_kind(Some("crc32c")), Some(SidecarKind::Crc32c));
    assert_eq!(sidecar_kind(Some("md5")), None);
    assert_eq!(sidecar_kind(None), None);
    assert_eq!(
        validate_wal_checksum_best_effort(Some((Some("xxh3"), &format!("{}\n", good))), data),
        ChecksumVerdict::Valid
    );
    assert_eq!(
        validate_wal_checksum_best_effort(Some((Some("xxh3"), "0000000000000000")), data),
        ChecksumVerdict::Mismatch
    );
    assert_eq!(validate_wal_checksum_best_effort(None, data), ChecksumVerdict::Missing);
    assert_eq!(
        validate_wal_checksum_best_effort(Some((Some("sha"), &good)), data),
        ChecksumVerdict::UnknownKind
    );
    assert_eq!(
        validate_wal_checksum_best_effort(Some((None, &good)), data),
        ChecksumVerdict::UnknownKind
    );
    // the CRC-32 of "123456789" is cbf43926
    assert_eq!(
        validate_wal_checksum_best_effort(Some((Some("crc32c"), "cbf43926")), b"123456789"),
        ChecksumVerdict::Valid
    );
    let c = Compactor::new("out".to_string());
    assert_eq!(c.segment_dir_name(1_700_000_000_000), "001700000000000");
    assert_eq!(c.segment_dir_name(0), "000000000000000");
    let f = Flusher::new("segments");
    assert_eq!(f.choose_segment_path(42), "segments/0000000000042");
    assert_eq!(Flusher::new("segments/").choose_segment_path(42), "segments/0000000000042");
    assert_eq!(Flusher::new("").choose_segment_path(1_700_000_000_000), "1700000000000");
}

#[test]
fn ingest_decisions() {
    assert_eq!(
        after_hot(Err(Backpressure { retry_after_ms: 1500 })),
        HotStep::Refuse { retry_after_ms: 1500 }
    );
    assert_eq!(
        after_hot(Ok(ApplyResult { added: 0, idempotent: true, backlog_ms: None })),
        HotStep::Replay
    );
    assert_eq!(
        after_hot(Ok(ApplyResult { added: 2, idempotent: false, backlog_ms: Some(4) })),
        HotStep::Persist { added: 2, backlog_ms: Some(4) }
    );
    assert_eq!(after_segment(true, true), PublishStep::Append);
    assert_eq!(after_segment(true, false), PublishStep::Skip);
    assert_eq!(after_segment(false, true), PublishStep::Skip);
    assert_eq!(after_append_failure(false), RetryStep::CreateAndRetry);
    assert_eq!(after_append_failure(true), RetryStep::Report);
    let r = refused(1500);
    assert_eq!((r.status, r.ok, r.hot_added, r.idempotent, r.backlog_ms), (503, false, 0, false, Some(1500)));
    let r = replayed();
    assert_eq!((r.status, r.ok, r.hot_added, r.idempotent), (200, true, 0, true));
    let r = persisted(3, None, Some("disk".to_string()), None);
    assert_eq!((r.status, r.ok, r.hot_added, r.idempotent), (200, true, 3, false));
    assert_eq!(r.segment_error.as_deref(), Some("disk"));
    assert!(r.manifest_error.is_none());
}

#[test]
fn config_defaults() {
    assert_eq!(default_parallelism(), 4);
    assert_eq!(default_hot_cap(), 10_000);
    let none = ConfigValues {
        addr: None,
        wal_dir: None,
        segment_out_dir: None,
        parallelism: None,
        hot_cap: None,
        manifest_path: None,
        shard: None,
    };
    let c = BrokerConfig::from_values(none);
    assert_eq!(c.addr, "0.0.0.0:8080");
    assert_eq!(c.wal_dir, "wal");
    assert_eq!(c.segment_out_dir, "segments");
    assert_eq!((c.parallelism, c.hot_cap, c.shard), (4, 10_000, 0));
    assert!(c.manifest_path.is_none());
    let some = ConfigValues {
        addr: Some("127.0.0.1:9999".to_string()),
        wal_dir: Some("/tmp/walx".to_string()),
        segment_out_dir: Some("/tmp/segx".to_string()),
        parallelism: Some("1234".to_string()),
        hot_cap: Some("77".to_string()),
        manifest_path: Some("/tmp/shards.json".to_string()),
        shard: Some("x".to_string()),
    };
    let c = BrokerConfig::from_values(some);
    assert_eq!(c.addr, "127.0.0.1:9999");
    assert_eq!(c.wal_dir, "/tmp/walx");
    assert_eq!(c.segment_out_dir, "/tmp/segx");
    assert_eq!(c.parallelism, 1234);
    assert_eq!(c.hot_cap, 77);
    assert_eq!(c.manifest_path.as_deref(), Some("/tmp/shards.json"));
    assert_eq!(c.shard, 0);
}
