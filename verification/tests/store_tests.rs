use grepzilla::listmap::ListMap;
use grepzilla::manifest::{format_key, parse_key, ManifestFlat, ManifestUnified, ManifestV1, ShardEntry};
use grepzilla::manifest_ptr::ManifestPtr;
use grepzilla::manifest_store::{InMemoryManifestStore, ManifestStore, StoreError};
use grepzilla::strmap::StrMap;

fn sample(gen: u64) -> ManifestPtr {
    ManifestPtr {
        epoch: 1,
        gen,
        url: format!("mem://m/{}", gen),
        checksum: "sha256:x".into(),
        updated_at: "2025-08-20T12:00:00Z".into(),
    }
}

#[test]
fn get_and_cas_ok() {
    let mut store = InMemoryManifestStore::new();
    store.insert(7, sample(1));
    let cur = store.get_ptr(7).unwrap();
    assert_eq!(cur.gen, 1);
    store.cas_ptr(7, 1, &sample(2)).unwrap();
    let cur2 = store.get_ptr(7).unwrap();
    assert_eq!(cur2.gen, 2);
}

#[test]
fn cas_fails_on_wrong_gen() {
    let mut store = InMemoryManifestStore::new();
    store.insert(7, sample(5));
    let err = store.cas_ptr(7, 4, &sample(6)).unwrap_err();
    let msg = format!("{}", err.message());
    assert!(msg.contains("CAS failed"));
}

#[test]
fn store_errors_say_what_failed() {
    let mut store = InMemoryManifestStore::new();
    assert_eq!(store.get_ptr(3).err(), Some(StoreError::NotFound { shard: 3 }));
    assert_eq!(
        store.cas_ptr(3, 0, &sample(1)).err(),
        Some(StoreError::CasMissing { shard: 3 })
    );
    store.insert(3, sample(5));
    let e = store.cas_ptr(3, 4, &sample(6)).unwrap_err();
    assert_eq!(e, StoreError::CasMismatch { current: 5, expected: 4 });
    assert_eq!(e.message(), "CAS failed: current gen=5, expected 4");
    assert_eq!(
        StoreError::NotFound { shard: 12 }.message(),
        "manifest_ptr not found for shard 12"
    );
    assert_eq!(
        StoreError::CasMissing { shard: 0 }.message(),
        "CAS failed: no current pointer for shard 0"
    );
    assert_eq!(store.get_ptr(3).unwrap().gen, 5);
}

#[test]
fn keys_are_read_and_written() {
    assert_eq!(format_key(0, 1), "0:1");
    assert_eq!(format_key(17, 123), "17:123");
    let k = parse_key("17:123").unwrap();
    assert_eq!((k.shard, k.generation), (17, 123));
    let k = parse_key("+1:007").unwrap();
    assert_eq!((k.shard, k.generation), (1, 7));
    assert!(parse_key("17").is_none());
    assert!(parse_key("a:1").is_none());
    assert!(parse_key("1:").is_none());
    assert!(parse_key(":1").is_none());
    assert!(parse_key("1:2:3").is_none());
    assert!(parse_key("1:-2").is_none());
    assert!(parse_key("1:18446744073709551616").is_none());
    assert_eq!(parse_key("1:18446744073709551615").unwrap().generation, u64::MAX);
}

#[test]
fn append_segment_counts_generations_up() {
    let mut m = ManifestFlat::empty();
    assert_eq!(m.append_segment(0, "seg/a".to_string()), 1);
    assert_eq!(m.append_segment(0, "seg/b".to_string()), 2);
    assert_eq!(m.append_segment(5, "seg/c".to_string()), 1);
    assert_eq!(m.shards.get(&0), Some(&2));
    assert_eq!(m.shards.get(&5), Some(&1));
    assert_eq!(m.segments.get("0:1"), Some(&vec!["seg/a".to_string()]));
    assert_eq!(m.segments.get("0:2"), Some(&vec!["seg/b".to_string()]));
    assert_eq!(m.segments.get("5:1"), Some(&vec!["seg/c".to_string()]));

    // a segment key above the shard's generation counts
    let mut m = ManifestFlat::empty();
    m.shards.insert(1, 3);
    m.segments.insert("1:9".to_string(), vec!["old".to_string()]);
    m.segments.insert("2:50".to_string(), vec!["other".to_string()]);
    assert_eq!(m.current_generation(1), 9);
    assert_eq!(m.append_segment(1, "new".to_string()), 10);
    // the largest generation stays
    let mut m = ManifestFlat::empty();
    m.shards.insert(1, u64::MAX);
    m.segments
        .insert(format_key(1, u64::MAX), vec!["last".to_string()]);
    assert_eq!(m.append_segment(1, "more".to_string()), u64::MAX);
    assert_eq!(
        m.segments.get(&format_key(1, u64::MAX)),
        Some(&vec!["last".to_string(), "more".to_string()])
    );
}

#[test]
fn resolve_gives_the_pinned_generation_only() {
    let mut shards: ListMap<u64, u64> = ListMap::new();
    shards.insert(0, 1);
    shards.insert(1, 7);
    shards.insert(2, 4);
    let mut segments: StrMap<Vec<String>> = StrMap::new();
    segments.insert("0:1".to_string(), vec!["seg1".to_string()]);
    segments.insert("1:6".to_string(), vec!["old".to_string()]);
    segments.insert("1:7".to_string(), vec!["seg2".to_string(), "seg3".to_string()]);
    segments.insert("junk".to_string(), vec!["x".to_string()]);
    let uni = ManifestUnified::from_flat(ManifestFlat { shards, segments });
    let (refs, pin) = uni.resolve(&[1, 0, 9, 2]);
    let got: Vec<(u64, u64, &str)> = refs.iter().map(|r| (r.shard, r.gen, r.path.as_str())).collect();
    assert_eq!(got, vec![(1, 7, "seg2"), (1, 7, "seg3"), (0, 1, "seg1")]);
    assert_eq!(pin.entries(), &vec![(1u64, 7u64), (0, 1), (2, 4)]);

    let mut v1: ListMap<u64, ShardEntry> = ListMap::new();
    v1.insert(3, ShardEntry { generation: 2, segments: vec!["a".to_string()] });
    let uni = ManifestUnified::from_v1(ManifestV1 { version: 1, shards: v1 });
    let (refs, pin) = uni.resolve(&[3]);
    assert_eq!(refs.len(), 1);
    assert_eq!((refs[0].shard, refs[0].gen, refs[0].path.as_str()), (3, 2, "a"));
    assert_eq!(pin.get(&3), Some(&2));
}

#[test]
fn a_versioned_manifest_counts_on_in_the_flat_shape() {
    let mut shards: ListMap<u64, ShardEntry> = ListMap::new();
    shards.insert(3, ShardEntry { generation: 7, segments: vec!["a".to_string(), "b".to_string()] });
    shards.insert(1, ShardEntry { generation: 2, segments: vec![] });
    let v1 = ManifestV1 { version: 1, shards };
    let mut flat = ManifestFlat::from_v1(&v1);
    assert_eq!(flat.shards.get(&3), Some(&7));
    assert_eq!(flat.shards.get(&1), Some(&2));
    assert_eq!(flat.segments.len(), 2);
    assert_eq!(flat.segments.get("3:7"), Some(&vec!["a".to_string(), "b".to_string()]));
    assert_eq!(flat.segments.get("1:2"), Some(&vec![]));
    assert_eq!(flat.append_segment(3, "c".to_string()), 8);
    assert_eq!(flat.segments.get("3:8"), Some(&vec!["c".to_string()]));
    assert_eq!(flat.segments.get("3:7"), Some(&vec!["a".to_string(), "b".to_string()]));
}
