use grepzilla::gram::{required_grams_from_wildcard, BooleanOp};
use grepzilla::search::error::SearchError;
use grepzilla::search::executor::SegmentTaskInput;
use grepzilla::search::segment_task::search_one_segment;
use grepzilla::segment::bytes::seal;
use grepzilla::segment::error::{SegmentError, SegmentFile};
use grepzilla::segment::meta::{read_meta, write_meta_with_crc};
use grepzilla::segment::reader::BinSegmentReader;
use grepzilla::segment::traits::AnySegmentReader;
use grepzilla::verify::{compile_wildcard_engine, RegexVerify, VerifyError};
use grepzilla::segment::writer::{BinSegmentWriter, SegmentImage};
use grepzilla::varint::{get_varint, put_varint, read_uvarint, VarintError};

fn build(lines: &[String]) -> SegmentImage {
    let text = lines.join("\n") + "\n";
    BinSegmentWriter::default()
        .write_segment(&text)
        .expect("writer failed")
}

fn copy(img: &SegmentImage) -> SegmentImage {
    SegmentImage {
        meta: img.meta.clone(),
        grams_idx: img.grams_idx.clone(),
        grams_dat: img.grams_dat.clone(),
        fields_idx: img.fields_idx.clone(),
        fields_dat: img.fields_dat.clone(),
        docs_dat: img.docs_dat.clone(),
    }
}

#[test]
fn v2_docs_roundtrip_and_crc() {
    let lines = vec![
        r#"{"_id":"A1","title":"Hello","text":{"body":"World"}}"#.to_string(),
        r#"{"_id":"B2","title":"Привет","text":{"body":"мир 🌍"}}"#.to_string(),
        format!(r#"{{"_id":"C3","notes":"{}"}}"#, "X".repeat(8192)),
    ];
    let img = build(&lines);

    let mut r = BinSegmentReader::open_segment(copy(&img)).expect("open_segment");
    assert_eq!(r.doc_count(), 3);

    let d0 = r.get_doc(0).expect("doc 0");
    assert_eq!(d0.doc_id, 0);
    assert_eq!(d0.ext_id, "A1");
    assert!(d0.fields.contains_key("title"));
    assert!(d0.fields.contains_key("text.body"));
    assert!(d0.fields.get("title").unwrap().contains("hello"));
    assert!(d0
        .fields
        .get("text.body")
        .unwrap()
        .to_lowercase()
        .contains("world"));

    let d1 = r.get_doc(1).expect("doc 1");
    assert_eq!(d1.doc_id, 1);
    assert_eq!(d1.ext_id, "B2");
    assert!(d1.fields.get("title").unwrap().contains("привет"));
    assert!(d1
        .fields
        .get("text.body")
        .unwrap()
        .to_lowercase()
        .contains("мир"));

    let d2 = r.get_doc(2).expect("doc 2");
    assert_eq!(d2.doc_id, 2);
    assert_eq!(d2.ext_id, "C3");
    assert!(d2.fields.contains_key("notes"));
    assert!(d2.fields.get("notes").unwrap().len() >= 8192);

    let mut bad_img = copy(&img);
    let n = bad_img.docs_dat.len();
    bad_img.docs_dat[n - 1] ^= 0xFF;
    let bad = BinSegmentReader::open_segment(bad_img);
    assert!(bad.is_err(), "open must fail on corrupted docs.dat CRC");
}

#[test]
fn v2_prefilter_then_get_doc() {
    let lines = vec![
        r#"{"_id":"X1","title":"Ignore","text":{"body":"No match here"}}"#.to_string(),
        r#"{"_id":"X2","title":"Русский","text":{"body":"привет, мир!"}}"#.to_string(),
    ];
    let img = build(&lines);
    let mut r = BinSegmentReader::open_segment(img).expect("open_segment");
    assert_eq!(r.doc_count(), 2);

    let grams = vec!["мир".to_string()];
    let bm = r
        .prefilter(BooleanOp::And, &grams, Some("text.body"))
        .expect("prefilter");
    let ids: Vec<u32> = bm.iter().collect();
    assert_eq!(ids, vec![1]);

    let d = r.get_doc(1).expect("doc 1");
    assert_eq!(d.ext_id, "X2");
    assert!(d
        .fields
        .get("text.body")
        .unwrap()
        .to_lowercase()
        .contains("мир"));
}

#[test]
fn v2_prefilter_and_field_mask_roundtrip() {
    let lines = vec![
        r#"{"_id":"1","text":{"body":"котенок играет с клубком"}}"#.to_string(),
        r#"{"_id":"2","text":{"body":"щенок играет с мячиком"}}"#.to_string(),
    ];
    let img = build(&lines);
    let r = BinSegmentReader::open_segment(img).unwrap();
    assert_eq!(r.doc_count(), 2);

    let grams = required_grams_from_wildcard("*игра*").unwrap();
    let bm = r
        .prefilter(BooleanOp::And, &grams, Some("text.body"))
        .unwrap();
    let ids: Vec<u32> = bm.iter().collect();
    assert_eq!(ids, vec![0, 1]);

    let bm_empty = r
        .prefilter(BooleanOp::And, &grams, Some("no.such.field"))
        .unwrap();
    assert!(bm_empty.is_empty());
}

#[test]
fn roundtrip_keeps_ids_order_and_normal_forms() {
    let lines = vec![
        r#"{"_id":"first","a":"ÀbC","n":{"x":"Ёж","y":[ "One", {"z":"Two"} ]},"num":5}"#
            .to_string(),
        "   ".to_string(),
        r#"{"_id":"second","a":"zzz"}"#.to_string(),
    ];
    let img = build(&lines);
    let mut r = BinSegmentReader::open_segment(img).unwrap();
    assert_eq!(r.doc_count(), 2);
    let d0 = r.get_doc(0).unwrap();
    assert_eq!(d0.ext_id, "first");
    let got: Vec<(String, String)> = d0.fields.entries().clone();
    assert_eq!(
        got,
        vec![
            ("_id".to_string(), "first".to_string()),
            ("a".to_string(), "abc".to_string()),
            ("n.x".to_string(), "еж".to_string()),
            ("n.y[0]".to_string(), "one".to_string()),
            ("n.y[1].z".to_string(), "two".to_string()),
        ]
    );
    let d1 = r.get_doc(1).unwrap();
    assert_eq!(d1.ext_id, "second");
    assert_eq!(d1.doc_id, 1);
    assert!(r.get_doc(2).is_none());
}

#[test]
fn prefilter_and_or_not() {
    let lines = vec![
        r#"{"_id":"0","t":"alpha beta"}"#.to_string(),
        r#"{"_id":"1","t":"beta gamma"}"#.to_string(),
        r#"{"_id":"2","t":"delta"}"#.to_string(),
    ];
    let r = BinSegmentReader::open_segment(build(&lines)).unwrap();
    let g = |v: &[&str]| v.iter().map(|s| s.to_string()).collect::<Vec<String>>();
    let ids = |b: croaring::Bitmap| b.iter().collect::<Vec<u32>>();

    assert_eq!(ids(r.prefilter(BooleanOp::And, &g(&["bet", "eta"]), None).unwrap()), vec![0, 1]);
    assert_eq!(ids(r.prefilter(BooleanOp::And, &g(&["alp", "gam"]), None).unwrap()), Vec::<u32>::new());
    assert_eq!(ids(r.prefilter(BooleanOp::Or, &g(&["alp", "gam"]), None).unwrap()), vec![0, 1]);
    assert_eq!(ids(r.prefilter(BooleanOp::Not, &g(&["bet"]), None).unwrap()), vec![2]);
    // a gram the index does not have
    assert_eq!(ids(r.prefilter(BooleanOp::And, &g(&["bet", "zzz"]), None).unwrap()), Vec::<u32>::new());
    assert_eq!(ids(r.prefilter(BooleanOp::Or, &g(&["bet", "zzz"]), None).unwrap()), vec![0, 1]);
    assert_eq!(ids(r.prefilter(BooleanOp::Not, &g(&["zzz"]), None).unwrap()), vec![0, 1, 2]);
    // grams shorter than three bytes are ignored: every document is a candidate
    assert_eq!(ids(r.prefilter(BooleanOp::And, &g(&["ab", ""]), None).unwrap()), vec![0, 1, 2]);
    assert_eq!(ids(r.prefilter(BooleanOp::And, &g(&[]), Some("t")).unwrap()), vec![0, 1, 2]);
    assert_eq!(ids(r.prefilter(BooleanOp::And, &g(&[]), Some("u")).unwrap()), Vec::<u32>::new());
}

#[test]
fn any_flipped_byte_is_refused() {
    let lines = vec![
        r#"{"_id":"1","text":{"body":"котенок играет с клубком"}}"#.to_string(),
        r#"{"_id":"2","text":{"body":"щенок играет с мячиком"}}"#.to_string(),
    ];
    let img = build(&lines);
    assert!(BinSegmentReader::open_segment(copy(&img)).is_ok());
    for file in 0..6 {
        let len = match file {
            0 => img.meta.len(),
            1 => img.grams_idx.len(),
            2 => img.grams_dat.len(),
            3 => img.fields_idx.len(),
            4 => img.fields_dat.len(),
            _ => img.docs_dat.len(),
        };
        for at in 0..len {
            let mut bad = copy(&img);
            let buf = match file {
                0 => &mut bad.meta,
                1 => &mut bad.grams_idx,
                2 => &mut bad.grams_dat,
                3 => &mut bad.fields_idx,
                4 => &mut bad.fields_dat,
                _ => &mut bad.docs_dat,
            };
            buf[at] ^= 0x01;
            assert!(
                BinSegmentReader::open_segment(bad).is_err(),
                "file {} byte {}",
                file,
                at
            );
        }
    }
}

#[test]
fn open_names_the_fault() {
    let img = build(&[r#"{"_id":"1","t":"abcdef"}"#.to_string()]);
    let mut short = copy(&img);
    short.meta.truncate(10);
    assert_eq!(
        BinSegmentReader::open_segment(short).err(),
        Some(SegmentError::TooSmall { file: SegmentFile::Meta })
    );
    let mut magic = copy(&img);
    magic.meta[0] = 0;
    assert_eq!(
        BinSegmentReader::open_segment(magic).err(),
        Some(SegmentError::BadMagic { file: SegmentFile::Meta })
    );
    let mut crc = copy(&img);
    let n = crc.grams_dat.len();
    crc.grams_dat[n - 1] ^= 1;
    assert_eq!(
        BinSegmentReader::open_segment(crc).err(),
        Some(SegmentError::BadCrc { file: SegmentFile::GramsDat })
    );
    let mut tiny = copy(&img);
    tiny.fields_dat.truncate(3);
    assert_eq!(
        BinSegmentReader::open_segment(tiny).err(),
        Some(SegmentError::TooSmall { file: SegmentFile::FieldsDat })
    );
}

#[test]
fn writer_refuses_bad_lines() {
    let mut w = BinSegmentWriter::default();
    assert_eq!(
        w.write_segment("{\"_id\":\"1\"}\nnot json\n").err(),
        Some(SegmentError::BadJson { line: 1 })
    );
    assert_eq!(
        w.write_segment("\n{\"id\":\"1\"}\n").err(),
        Some(SegmentError::MissingId { line: 1 })
    );
    assert_eq!(
        w.write_segment("{\"_id\":7}").err(),
        Some(SegmentError::MissingId { line: 0 })
    );
    let empty = w.write_segment("").unwrap();
    let r = BinSegmentReader::open_segment(empty).unwrap();
    assert_eq!(r.doc_count(), 0);
}

#[test]
fn segment_layout_is_as_the_format_says() {
    let img = build(&[r#"{"_id":"1","t":"abcd"}"#.to_string()]);
    // meta.bin: magic GZSG, version 2, header length 48, one document
    assert_eq!(&img.meta[0..4], &0x475A5347u32.to_le_bytes());
    assert_eq!(&img.meta[4..6], &2u16.to_le_bytes());
    assert_eq!(&img.meta[6..8], &48u16.to_le_bytes());
    assert_eq!(&img.meta[8..16], &1u64.to_le_bytes());
    assert_eq!(img.meta.len(), 72);
    // grams.idx: header and two records of 24 bytes, keys abc and bcd
    assert_eq!(&img.grams_idx[0..4], &0x475A4944u32.to_le_bytes());
    assert_eq!(&img.grams_idx[8..12], &2u32.to_le_bytes());
    assert_eq!(&img.grams_idx[12..16], &24u32.to_le_bytes());
    assert_eq!(img.grams_idx.len(), 16 + 2 * 24 + 8);
    assert_eq!(&img.grams_idx[16..19], b"abc");
    assert_eq!(&img.grams_idx[40..43], b"bcd");
    // grams.dat: per list the tag byte 1, the count 1, the id 0 as one varint
    assert_eq!(&img.grams_dat[0..6], &[1u8, 1, 0, 0, 0, 0]);
    assert_eq!(img.grams_dat.len(), 12 + 8);
    // docs.dat: magic, counts, two offsets
    assert_eq!(&img.docs_dat[0..8], b"GZDOCS2\0");
    assert_eq!(&img.docs_dat[8..16], &1u64.to_le_bytes());
    assert_eq!(&img.docs_dat[16..24], &2u64.to_le_bytes());
    assert_eq!(&img.docs_dat[24..32], &0u64.to_le_bytes());
    // payload: ext id "1", two fields (_id, t) with ids 0 and 1
    let payload = &img.docs_dat[40..img.docs_dat.len() - 8];
    assert_eq!(payload, &[1, b'1', 2, 0, 1, b'1', 1, 4, b'a', b'b', b'c', b'd'][..]);
    assert_eq!(&img.docs_dat[32..40], &(payload.len() as u64).to_le_bytes());
    // fields.idx: magic GZFI, two names
    assert_eq!(&img.fields_idx[0..4], &0x475A4649u32.to_le_bytes());
    assert_eq!(&img.fields_idx[8..12], &2u32.to_le_bytes());
    assert_eq!(&img.fields_idx[16..22], &[3, b'_', b'i', b'd', 1, b't']);
    // every file ends in the CRC-64 of its body
    for f in [&img.meta, &img.grams_idx, &img.grams_dat, &img.fields_idx, &img.fields_dat, &img.docs_dat] {
        let n = f.len() - 8;
        let crc = grepzilla::crc::crc64_ecma(&f[..n]);
        assert_eq!(&f[n..], &crc.to_le_bytes());
    }
}

#[test]
fn crc_known_values() {
    // the check value of the crate's own documentation
    assert_eq!(grepzilla::crc::crc64_ecma(b"hello world!"), 0x8483_c0fa_3260_7d61);
    assert_eq!(grepzilla::crc::crc32(b"123456789"), 0xCBF4_3926);
}

#[test]
fn varint_roundtrip_and_errors() {
    for x in [0u64, 1, 127, 128, 300, 16383, 16384, u32::MAX as u64, u64::MAX] {
        let mut out = vec![0xAAu8];
        put_varint(x, &mut out);
        out.push(0x55);
        let (v, rest) = get_varint(&out[1..]).unwrap();
        assert_eq!(v, x);
        assert_eq!(rest, &[0x55u8][..]);
    }
    let mut out = Vec::new();
    put_varint(300, &mut out);
    assert_eq!(out, vec![0xAC, 0x02]);
    let mut out = Vec::new();
    put_varint(u64::MAX, &mut out);
    assert_eq!(out.len(), 10);
    assert_eq!(read_uvarint(&[0x80, 0x80]), Err(VarintError::Truncated));
    assert_eq!(read_uvarint(&[]), Err(VarintError::Truncated));
    assert_eq!(read_uvarint(&[0xFF; 10]), Err(VarintError::TooLong));
    assert_eq!(read_uvarint(&[0xFF; 11]), Err(VarintError::TooLong));
    assert_eq!(read_uvarint(&[0x80, 0x00]), Ok(0));
    assert!(get_varint(&[0x80]).is_none());
}

fn resealed(file: &[u8], change: impl FnOnce(&mut Vec<u8>)) -> Vec<u8> {
    let mut body = file[..file.len() - 8].to_vec();
    change(&mut body);
    seal(body)
}

#[test]
fn faults_behind_a_good_checksum_are_named() {
    let img = build(&[r#"{"_id":"1","t":"abcd"}"#.to_string()]);
    let open = |bad: SegmentImage| BinSegmentReader::open_segment(bad).err();

    // more documents than a doc id can number
    let mut hdr = read_meta(&img.meta).unwrap();
    hdr.doc_count = 1u64 << 32;
    let mut bad = copy(&img);
    bad.meta = write_meta_with_crc(&hdr);
    assert_eq!(open(bad), Some(SegmentError::TooLarge));

    let mut bad = copy(&img);
    bad.docs_dat = resealed(&img.docs_dat, |b| b[8] = 5);
    assert_eq!(open(bad), Some(SegmentError::DocCountMismatch));

    let mut bad = copy(&img);
    bad.docs_dat = resealed(&img.docs_dat, |b| b[16] = 3);
    assert_eq!(open(bad), Some(SegmentError::OffsetsCountMismatch));

    let mut bad = copy(&img);
    bad.docs_dat = resealed(&img.docs_dat, |b| b.truncate(30));
    assert_eq!(open(bad), Some(SegmentError::BadIndex { file: SegmentFile::DocsDat }));

    let mut bad = copy(&img);
    bad.docs_dat = resealed(&img.docs_dat, |b| b[0] = b'X');
    assert_eq!(open(bad), Some(SegmentError::BadMagic { file: SegmentFile::DocsDat }));

    // grams.idx: the record length, the count, the order of the keys
    let mut bad = copy(&img);
    bad.grams_idx = resealed(&img.grams_idx, |b| b[12] = 25);
    assert_eq!(open(bad), Some(SegmentError::BadIndex { file: SegmentFile::GramsIdx }));
    let mut bad = copy(&img);
    bad.grams_idx = resealed(&img.grams_idx, |b| b[8] = 9);
    assert_eq!(open(bad), Some(SegmentError::BadIndex { file: SegmentFile::GramsIdx }));
    let mut bad = copy(&img);
    bad.grams_idx = resealed(&img.grams_idx, |b| b[16] = b'z');
    assert_eq!(open(bad), Some(SegmentError::BadIndex { file: SegmentFile::GramsIdx }));
    let mut bad = copy(&img);
    bad.grams_idx = resealed(&img.grams_idx, |b| b[4] = 9);
    assert_eq!(open(bad), Some(SegmentError::BadMagic { file: SegmentFile::GramsIdx }));

    // fields.idx: the magic, a dictionary that ends too early, a record of no field
    let mut bad = copy(&img);
    bad.fields_idx = resealed(&img.fields_idx, |b| b[0] = 0);
    assert_eq!(open(bad), Some(SegmentError::BadMagic { file: SegmentFile::FieldsIdx }));
    let mut bad = copy(&img);
    bad.fields_idx = resealed(&img.fields_idx, |b| b[8] = 7);
    assert_eq!(open(bad), Some(SegmentError::BadIndex { file: SegmentFile::FieldsIdx }));
    let mut bad = copy(&img);
    bad.fields_idx = resealed(&img.fields_idx, |b| {
        let at = b.len() - 40;
        b[at] = 9;
    });
    assert_eq!(open(bad), Some(SegmentError::BadIndex { file: SegmentFile::FieldsIdx }));
}

#[test]
fn faults_of_the_lists_show_at_the_prefilter() {
    let img = build(&[r#"{"_id":"1","t":"abcd"}"#.to_string()]);
    let grams = vec!["abc".to_string()];

    // a posting list of another kind
    let mut bad = copy(&img);
    bad.grams_dat = resealed(&img.grams_dat, |b| b[0] = 2);
    let r = BinSegmentReader::open_segment(bad).unwrap();
    assert_eq!(r.prefilter(BooleanOp::And, &grams, None).err(), Some(SegmentError::BadPostings));
    assert_eq!(r.prefilter(BooleanOp::Or, &grams, None).err(), Some(SegmentError::BadPostings));
    // the second list is whole
    assert!(r.prefilter(BooleanOp::And, &vec!["bcd".to_string()], None).is_ok());
    let mut any = AnySegmentReader::V2(r);
    let eng = RegexVerify::compile_wildcard("*abc*").unwrap();
    let input = SegmentTaskInput {
        seg_path: "s".to_string(),
        wildcard: "*abc*".to_string(),
        field: String::new(),
        cursor_docid: None,
        max_candidates: 10,
        page_size: 10,
    };
    assert_eq!(
        search_one_segment(&input, &mut any, &eng).err(),
        Some(SearchError::BadSegment(SegmentError::BadPostings))
    );

    // a posting list that ends too early: one id is promised, none is there
    let mut bad = copy(&img);
    bad.grams_dat = resealed(&img.grams_dat, |b| b[5] = 0x80);
    let r = BinSegmentReader::open_segment(bad).unwrap();
    assert_eq!(r.prefilter(BooleanOp::Not, &grams, None).err(), Some(SegmentError::BadPostings));

    // a list that lies outside the file
    let mut bad = copy(&img);
    bad.grams_dat = resealed(&img.grams_dat, |b| b.truncate(3));
    let r = BinSegmentReader::open_segment(bad).unwrap();
    assert_eq!(
        r.prefilter(BooleanOp::And, &grams, None).err(),
        Some(SegmentError::BadIndex { file: SegmentFile::GramsDat })
    );

    // a mask of another kind, and one that lies outside the file
    let mut bad = copy(&img);
    bad.fields_dat = resealed(&img.fields_dat, |b| b[0] = 2);
    let r = BinSegmentReader::open_segment(bad).unwrap();
    assert_eq!(
        r.prefilter(BooleanOp::And, &grams, Some("_id")).err(),
        Some(SegmentError::BadFieldMask)
    );
    assert!(r.prefilter(BooleanOp::And, &grams, None).is_ok());
    assert!(r.prefilter(BooleanOp::And, &grams, Some("nope")).unwrap().is_empty());
    let mut bad = copy(&img);
    bad.fields_dat = resealed(&img.fields_dat, |b| b.truncate(3));
    let r = BinSegmentReader::open_segment(bad).unwrap();
    assert_eq!(
        r.prefilter(BooleanOp::And, &grams, Some("_id")).err(),
        Some(SegmentError::BadIndex { file: SegmentFile::FieldsDat })
    );
}

#[test]
fn a_document_that_cannot_be_read_is_none() {
    let img = build(&[r#"{"_id":"1","t":"abcd"}"#.to_string(), r#"{"_id":"2","t":"bcde"}"#.to_string()]);
    // header 24, three offsets, then the first document: the length of
    // its id, the id, the number of fields, the id of the first field
    let doc0 = 24 + 3 * 8;
    // a field that the segment does not have is left out
    let mut odd = copy(&img);
    odd.docs_dat = resealed(&img.docs_dat, |b| b[doc0 + 3] = 9);
    let mut r = BinSegmentReader::open_segment(odd).unwrap();
    let d = r.get_doc(0).unwrap();
    assert_eq!(d.fields.len(), 1);
    assert_eq!(d.fields.get("t").unwrap(), "abcd");
    // an id that is longer than the document
    let mut bad = copy(&img);
    bad.docs_dat = resealed(&img.docs_dat, |b| b[doc0] = 0x7f);
    let mut r = BinSegmentReader::open_segment(bad).unwrap();
    assert!(r.get_doc(0).is_none());
    assert_eq!(r.get_doc(1).unwrap().ext_id, "2");
    assert!(r.get_doc(2).is_none());
    // offsets that run backwards
    let mut bad = copy(&img);
    bad.docs_dat = resealed(&img.docs_dat, |b| b[24] = 200);
    let mut r = BinSegmentReader::open_segment(bad).unwrap();
    assert!(r.get_doc(0).is_none());
    assert_eq!(r.get_doc(1).unwrap().ext_id, "2");
}

#[test]
fn patterns_that_do_not_compile() {
    assert_eq!(RegexVerify::compile_regex("(").err(), Some(VerifyError::BadPattern));
    assert!(RegexVerify::compile_regex("a(b)c").is_ok());
    // a wildcard pattern always escapes what the regular expression would read
    assert!(RegexVerify::compile_wildcard("(*[?").is_ok());
    // one that is too large for the compiler of regular expressions
    let huge = "a?".repeat(200_000);
    assert_eq!(RegexVerify::compile_wildcard(&huge).err(), Some(VerifyError::BadPattern));
    assert_eq!(compile_wildcard_engine(&huge).err(), Some(VerifyError::BadPattern));
}

#[test]
fn reading_ahead_keeps_the_documents_it_was_asked_for() {
    let img = build(&[
        r#"{"_id":"1","t":"abcd"}"#.to_string(),
        r#"{"_id":"2","t":"bcde"}"#.to_string(),
        r#"{"_id":"3","t":"cdef"}"#.to_string(),
    ]);
    let mut r = BinSegmentReader::open_segment(copy(&img)).unwrap();
    assert!(r.cells.iter().all(|c| c.is_none()));
    // an id that the segment does not have is passed over
    r.prefetch_docs(&vec![2, 0, 9, 2]);
    assert_eq!(r.cells[0].as_ref().unwrap().ext_id, "1");
    assert!(r.cells[1].is_none());
    assert_eq!(r.cells[2].as_ref().unwrap().ext_id, "3");
    r.warm(1);
    assert_eq!(r.cells[1].as_ref().unwrap().ext_id, "2");
    assert_eq!(r.cells[0].as_ref().unwrap().ext_id, "1");

    // a document that cannot be read stays unread
    let mut bad = copy(&img);
    bad.docs_dat = resealed(&img.docs_dat, |b| b[24 + 4 * 8] = 0x7f);
    let mut r = BinSegmentReader::open_segment(bad).unwrap();
    r.prefetch_docs(&vec![0, 1]);
    assert!(r.cells[0].is_none());
    assert!(r.cells[1].is_some());

    // through the reader of either format
    let mut any = AnySegmentReader::V2(BinSegmentReader::open_segment(copy(&img)).unwrap());
    any.warm(2);
    any.warm(5);
    match &any {
        AnySegmentReader::V2(r) => {
            assert!(r.cells[2].is_some());
            assert!(r.cells[0].is_none() && r.cells[1].is_none());
        }
        AnySegmentReader::V1(_) => unreachable!(),
    }
}
