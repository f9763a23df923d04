//! `docs.dat`: the documents, each a run of length-prefixed strings, behind
//! a table of offsets that finds a document by its id.

use vstd::prelude::*;
use vstd::slice::slice_subrange;
use vstd::utf8::{decode_utf8, encode_utf8, valid_utf8};
use crate::doc::{folded, StoredDoc};
use crate::json::leaves_view;
use crate::segment::bytes::{le64, le64_at, push_bytes, push_u64, read_u64};
use crate::segment::error::{SegmentError, SegmentFile};
use crate::segment::fields::names_view;
use crate::strmap::{has_key, index_of_key, keys_sorted, lemma_rank_is, StrMap, upserted};
use crate::text::utf8_to_string;
use crate::varint::{
    decode_varint, lemma_varint_roundtrip, put_varint, varint_bytes, varint_decoded,
};

verus! {

/// The length of the fixed part of `docs.dat`: magic and two counts.
pub const DOCS_HEADER_LEN: usize = 24;

/// The magic of `docs.dat`: the letters GZDOCS2 and a zero byte.
pub open spec fn docs_magic() -> Seq<u8> {
    seq![0x47u8, 0x5Au8, 0x44u8, 0x4Fu8, 0x43u8, 0x53u8, 0x32u8, 0x00u8]
}

/// One string as it stands in a document: the length of its UTF-8 bytes,
/// then the bytes.
pub open spec fn string_bytes(s: Seq<char>) -> Seq<u8> {
    varint_bytes(encode_utf8(s).len() as u64) + encode_utf8(s)
}

/// The id of the field `name`: its index among the sorted field names
/// `ids`, or zero where it is not among them.
pub open spec fn id_of(ids: Seq<(Seq<char>, ())>, name: Seq<char>) -> int {
    if has_key(ids, name) {
        index_of_key(ids, name)
    } else {
        0
    }
}

/// A document as `docs.dat` stores it: the external id and the fields.
pub struct DocModel {
    pub ext_id: Seq<char>,
    pub texts: Seq<(Seq<char>, Seq<char>)>,
}

/// What `docs.dat` stores of a document.
pub open spec fn model_of(d: StoredDoc) -> DocModel {
    DocModel { ext_id: d.ext_id@, texts: d.texts() }
}

/// What `docs.dat` stores of each document.
pub open spec fn models_of(docs: Seq<StoredDoc>) -> Seq<DocModel> {
    docs.map_values(|d: StoredDoc| model_of(d))
}

/// The first `n` fields of a document: for each its id, then its text.
pub open spec fn fields_bytes(
    texts: Seq<(Seq<char>, Seq<char>)>,
    ids: Seq<(Seq<char>, ())>,
    n: int,
) -> Seq<u8>
    decreases n,
{
    if n <= 0 || n > texts.len() {
        Seq::empty()
    } else {
        fields_bytes(texts, ids, n - 1) + varint_bytes(id_of(ids, texts[n - 1].0) as u64)
            + string_bytes(texts[n - 1].1)
    }
}

/// One document as it stands in `docs.dat`: the external id, the number of
/// fields, the fields by increasing name.
pub open spec fn doc_bytes(doc: DocModel, ids: Seq<(Seq<char>, ())>) -> Seq<u8> {
    string_bytes(doc.ext_id) + varint_bytes(doc.texts.len() as u64) + fields_bytes(
        doc.texts,
        ids,
        doc.texts.len() as int,
    )
}

/// The first `n` documents, one after another.
pub open spec fn payload_bytes(docs: Seq<DocModel>, ids: Seq<(Seq<char>, ())>, n: int) -> Seq<u8>
    decreases n,
{
    if n <= 0 || n > docs.len() {
        Seq::empty()
    } else {
        payload_bytes(docs, ids, n - 1) + doc_bytes(docs[n - 1], ids)
    }
}

/// The first `n` offsets: where each document starts in the payload, the
/// offset after the last document being where the payload ends.
pub open spec fn offsets_bytes(docs: Seq<DocModel>, ids: Seq<(Seq<char>, ())>, n: int) -> Seq<u8>
    decreases n,
{
    if n <= 0 || n > docs.len() + 1 {
        Seq::empty()
    } else {
        offsets_bytes(docs, ids, n - 1) + le64(payload_bytes(docs, ids, n - 1).len() as u64)
    }
}

/// The body of `docs.dat`: magic, the number of documents, the number of
/// offsets, the offsets, the documents.
pub open spec fn docs_dat_bytes(docs: Seq<DocModel>, ids: Seq<(Seq<char>, ())>) -> Seq<u8> {
    docs_magic() + le64(docs.len() as u64) + le64((docs.len() + 1) as u64) + offsets_bytes(
        docs,
        ids,
        (docs.len() + 1) as int,
    ) + payload_bytes(docs, ids, docs.len() as int)
}

/// Appends one string: the length of its bytes, then the bytes.
fn put_string(out: &mut Vec<u8>, s: &str)
    ensures
        final(out)@ == old(out)@ + string_bytes(s@),
        encode_utf8(s@).len() <= usize::MAX,
{
    let b = s.as_bytes();
    put_varint(b.len() as u64, out);
    push_bytes(out, b);
    proof {
        assert(out@ =~= old(out)@ + string_bytes(s@));
    }
}

/// Whether the lengths of a document fit the width they are written in.
pub open spec fn doc_sizes_fit(doc: DocModel) -> bool {
    &&& encode_utf8(doc.ext_id).len() <= u64::MAX
    &&& doc.texts.len() <= u64::MAX
    &&& forall|i: int|
        0 <= i < doc.texts.len() ==> encode_utf8((#[trigger] doc.texts[i]).1).len() <= u64::MAX
}

/// Appends one document to the payload.
pub fn encode_doc(out: &mut Vec<u8>, doc: &StoredDoc, ids: &StrMap<()>)
    requires
        ids.pairs().len() <= u32::MAX,
    ensures
        final(out)@ == old(out)@ + doc_bytes(model_of(*doc), ids.pairs()),
        doc_sizes_fit(model_of(*doc)),
{
    put_string(out, doc.ext_id.as_str());
    let fields = doc.fields.entries();
    put_varint(fields.len() as u64, out);
    let ghost head = out@;
    let ghost texts = doc.texts();
    let mut i: usize = 0;
    proof {
        assert(head + fields_bytes(texts, ids.pairs(), 0) =~= head);
        assert(texts.len() == fields.len());
    }
    while i < fields.len()
        invariant
            i <= fields.len(),
            texts == doc.texts(),
            texts.len() == fields.len(),
            ids.pairs().len() <= u32::MAX,
            forall|k: int| 0 <= k < fields.len() ==> texts[k] == (
                (#[trigger] fields@[k]).0@,
                fields@[k].1@,
            ),
            forall|k: int| 0 <= k < i ==> encode_utf8((#[trigger] texts[k]).1).len() <= u64::MAX,
            out@ == head + fields_bytes(texts, ids.pairs(), i as int),
        decreases fields.len() - i,
    {
        let id: usize = match ids.position(fields[i].0.as_str()) {
            Some(v) => v,
            None => 0,
        };
        let ghost before = out@;
        put_varint(id as u64, out);
        put_string(out, fields[i].1.as_str());
        proof {
            assert(texts[i as int] == (fields@[i as int].0@, fields@[i as int].1@));
            assert(out@ =~= head + fields_bytes(texts, ids.pairs(), i + 1));
        }
        i += 1;
    }
    proof {
        assert(out@ =~= old(out)@ + doc_bytes(model_of(*doc), ids.pairs()));
    }
}

/// Writes the body of `docs.dat`.
pub fn encode_docs_dat(docs: &Vec<StoredDoc>, ids: &StrMap<()>) -> (r: Vec<u8>)
    requires
        docs.len() <= u32::MAX,
        ids.pairs().len() <= u32::MAX,
    ensures
        r@ == docs_dat_bytes(models_of(docs@), ids.pairs()),
        payload_bytes(models_of(docs@), ids.pairs(), docs@.len() as int).len() <= u64::MAX,
        forall|d: int| 0 <= d < docs@.len() ==> doc_sizes_fit(#[trigger] models_of(docs@)[d]),
{
    let mut payload: Vec<u8> = Vec::new();
    let mut offsets: Vec<u8> = Vec::new();
    let mut i: usize = 0;
    while i < docs.len()
        invariant
            i <= docs.len(),
            ids.pairs().len() <= u32::MAX,
            payload@ == payload_bytes(models_of(docs@), ids.pairs(), i as int),
            offsets@ == offsets_bytes(models_of(docs@), ids.pairs(), i as int),
            forall|d: int| 0 <= d < i ==> doc_sizes_fit(#[trigger] models_of(docs@)[d]),
        decreases docs.len() - i,
    {
        push_u64(&mut offsets, payload.len() as u64);
        encode_doc(&mut payload, &docs[i], ids);
        i += 1;
    }
    push_u64(&mut offsets, payload.len() as u64);
    proof {
        assert(offsets@ == offsets_bytes(models_of(docs@), ids.pairs(), docs.len() + 1));
    }
    let mut out: Vec<u8> = Vec::new();
    out.push(0x47);
    out.push(0x5A);
    out.push(0x44);
    out.push(0x4F);
    out.push(0x43);
    out.push(0x53);
    out.push(0x32);
    out.push(0x00);
    proof {
        assert(out@ =~= docs_magic());
    }
    push_u64(&mut out, docs.len() as u64);
    push_u64(&mut out, docs.len() as u64 + 1);
    push_bytes(&mut out, offsets.as_slice());
    push_bytes(&mut out, payload.as_slice());
    out
}

/// What is wrong with the body `b` of `docs.dat` in a segment of
/// `doc_count` documents, if anything.
pub open spec fn docs_fault(b: Seq<u8>, doc_count: u32) -> Option<SegmentError> {
    if b.len() < 24 {
        Some(SegmentError::TooSmall { file: SegmentFile::DocsDat })
    } else if b.take(8) != docs_magic() {
        Some(SegmentError::BadMagic { file: SegmentFile::DocsDat })
    } else if le64_at(b, 8) != doc_count {
        Some(SegmentError::DocCountMismatch)
    } else if le64_at(b, 16) != doc_count + 1 {
        Some(SegmentError::OffsetsCountMismatch)
    } else if 24 + (doc_count + 1) * 8 > b.len() {
        Some(SegmentError::BadIndex { file: SegmentFile::DocsDat })
    } else {
        None
    }
}

/// Checks the fixed part of the body of `docs.dat` and gives the position
/// at which the documents start.
pub fn check_docs_dat(b: &[u8], doc_count: u32) -> (r: Result<usize, SegmentError>)
    ensures
        match r {
            Ok(start) => docs_fault(b@, doc_count) is None && start == 24 + (doc_count + 1) * 8,
            Err(e) => docs_fault(b@, doc_count) == Some(e),
        },
{
    if b.len() < DOCS_HEADER_LEN {
        return Err(SegmentError::TooSmall { file: SegmentFile::DocsDat });
    }
    if !(b[0] == 0x47 && b[1] == 0x5A && b[2] == 0x44 && b[3] == 0x4F && b[4] == 0x43 && b[5]
        == 0x53 && b[6] == 0x32 && b[7] == 0x00) {
        proof {
            if b@.take(8) == docs_magic() {
                assert(b@.take(8)[0] == b@[0] && b@.take(8)[1] == b@[1] && b@.take(8)[2] == b@[2]
                    && b@.take(8)[3] == b@[3] && b@.take(8)[4] == b@[4] && b@.take(8)[5] == b@[5]
                    && b@.take(8)[6] == b@[6] && b@.take(8)[7] == b@[7]);
            }
        }
        return Err(SegmentError::BadMagic { file: SegmentFile::DocsDat });
    }
    proof {
        assert(b@.take(8) =~= docs_magic());
    }
    if read_u64(b, 8) != doc_count as u64 {
        return Err(SegmentError::DocCountMismatch);
    }
    if read_u64(b, 16) != doc_count as u64 + 1 {
        return Err(SegmentError::OffsetsCountMismatch);
    }
    if (((b.len() - 24) / 8) as u64) < doc_count as u64 + 1 {
        proof {
            assert(24 + (doc_count + 1) * 8 > b.len());
        }
        return Err(SegmentError::BadIndex { file: SegmentFile::DocsDat });
    }
    proof {
        assert(24 + (doc_count + 1) * 8 <= b.len());
    }
    Ok(24 + (doc_count as usize + 1) * 8)
}

/// The string that stands at `at` in `b`, with the position after it;
/// `None` where the length is broken, runs past the end, or the bytes are
/// no UTF-8.
pub open spec fn string_at(b: Seq<u8>, at: int) -> Option<(Seq<char>, int)> {
    if at < 0 || at > b.len() {
        None
    } else {
        match varint_decoded(b.skip(at)) {
            None => None,
            Some((len, n)) => {
                let from = at + n;
                let to = from + len;
                if to > b.len() || !valid_utf8(b.subrange(from, to)) {
                    None
                } else {
                    Some((decode_utf8(b.subrange(from, to)), to))
                }
            },
        }
    }
}

/// The `count` fields that stand at `at` in `b`, as name and text, in the
/// order they stand in; a field whose id `names` does not have is left
/// out. `None` where an id or a string is broken.
pub open spec fn fields_at(b: Seq<u8>, at: int, count: nat, names: Seq<Seq<char>>) -> Option<
    Seq<(Seq<char>, Seq<char>)>,
>
    decreases count,
{
    if count == 0 {
        Some(Seq::empty())
    } else if at < 0 || at > b.len() {
        None
    } else {
        match varint_decoded(b.skip(at)) {
            None => None,
            Some((fid, n)) => match string_at(b, at + n) {
                None => None,
                Some((text, next)) => match fields_at(b, next, (count - 1) as nat, names) {
                    None => None,
                    Some(rest) => if fid < names.len() {
                        Some(seq![(names[fid as int], text)] + rest)
                    } else {
                        Some(rest)
                    },
                },
            },
        }
    }
}

/// The external id and the fields of the document that fills `b`; a field
/// that occurs twice keeps its last text.
pub open spec fn doc_decoded(b: Seq<u8>, names: Seq<Seq<char>>) -> Option<
    (Seq<char>, Seq<(Seq<char>, Seq<char>)>),
> {
    match string_at(b, 0) {
        None => None,
        Some((ext, at)) => match varint_decoded(b.skip(at)) {
            None => None,
            Some((count, n)) => match fields_at(b, at + n, count as nat, names) {
                None => None,
                Some(pairs) => Some((ext, folded(pairs))),
            },
        },
    }
}

/// A string that was written reads back, wherever it stands.
pub proof fn lemma_string_roundtrip(before: Seq<u8>, s: Seq<char>, after: Seq<u8>)
    requires
        encode_utf8(s).len() <= u64::MAX,
    ensures
        string_at(before + string_bytes(s) + after, before.len() as int) == Some(
            (s, (before.len() + string_bytes(s).len()) as int),
        ),
{
    let b = before + string_bytes(s) + after;
    let len = encode_utf8(s).len() as u64;
    let tail = encode_utf8(s) + after;
    lemma_varint_roundtrip(len, tail);
    assert(b.skip(before.len() as int) =~= varint_bytes(len) + tail);
    let n = varint_bytes(len).len() as int;
    let from = before.len() + n;
    let to = from + len;
    assert(b.subrange(from, to) =~= encode_utf8(s));
    vstd::utf8::encode_utf8_valid_utf8(s);
    vstd::utf8::encode_utf8_decode_utf8(s);
}

/// The fields of a document from the field `i` on, as `fields_bytes`
/// writes them.
pub open spec fn fields_bytes_from(
    texts: Seq<(Seq<char>, Seq<char>)>,
    ids: Seq<(Seq<char>, ())>,
    i: int,
) -> Seq<u8>
    decreases texts.len() - i,
{
    if i < 0 || i >= texts.len() {
        Seq::empty()
    } else {
        varint_bytes(id_of(ids, texts[i].0) as u64) + string_bytes(texts[i].1) + fields_bytes_from(
            texts,
            ids,
            i + 1,
        )
    }
}

proof fn lemma_fields_bytes_split(
    texts: Seq<(Seq<char>, Seq<char>)>,
    ids: Seq<(Seq<char>, ())>,
    n: int,
)
    requires
        0 <= n <= texts.len(),
    ensures
        fields_bytes(texts, ids, texts.len() as int) == fields_bytes(texts, ids, n)
            + fields_bytes_from(texts, ids, n),
    decreases texts.len() - n,
{
    if n == texts.len() {
        assert(fields_bytes(texts, ids, n) + fields_bytes_from(texts, ids, n) =~= fields_bytes(
            texts,
            ids,
            n,
        ));
    } else {
        lemma_fields_bytes_split(texts, ids, n + 1);
        assert(fields_bytes(texts, ids, n + 1) + fields_bytes_from(texts, ids, n + 1)
            =~= fields_bytes(texts, ids, n) + fields_bytes_from(texts, ids, n));
    }
}

/// Whether a document can be written: its fields are in name order, each
/// name is one of `ids`, and every length fits the width it is written in.
pub open spec fn writable_doc(doc: DocModel, ids: Seq<(Seq<char>, ())>) -> bool {
    &&& keys_sorted(doc.texts)
    &&& keys_sorted(ids)
    &&& ids.len() <= u32::MAX
    &&& doc.texts.len() <= u64::MAX
    &&& encode_utf8(doc.ext_id).len() <= u64::MAX
    &&& forall|i: int|
        0 <= i < doc.texts.len() ==> has_key(ids, (#[trigger] doc.texts[i]).0) && encode_utf8(
            doc.texts[i].1,
        ).len() <= u64::MAX
}

/// The names of the fields `ids`, by field id.
pub open spec fn names_of_ids(ids: Seq<(Seq<char>, ())>) -> Seq<Seq<char>> {
    ids.map_values(|e: (Seq<char>, ())| e.0)
}

proof fn lemma_fields_roundtrip(
    before: Seq<u8>,
    doc: DocModel,
    ids: Seq<(Seq<char>, ())>,
    i: int,
)
    requires
        writable_doc(doc, ids),
        0 <= i <= doc.texts.len(),
    ensures
        fields_at(
            before + fields_bytes_from(doc.texts, ids, i),
            before.len() as int,
            (doc.texts.len() - i) as nat,
            names_of_ids(ids),
        ) == Some(doc.texts.skip(i)),
    decreases doc.texts.len() - i,
{
    let texts = doc.texts;
    let names = names_of_ids(ids);
    if i == texts.len() {
        assert(texts.skip(i) =~= Seq::<(Seq<char>, Seq<char>)>::empty());
    } else {
        let fid = id_of(ids, texts[i].0) as u64;
        let rest = fields_bytes_from(texts, ids, i + 1);
        let b = before + fields_bytes_from(texts, ids, i);
        let tail = string_bytes(texts[i].1) + rest;
        assert(has_key(ids, texts[i].0));
        lemma_varint_roundtrip(fid, tail);
        assert(b.skip(before.len() as int) =~= varint_bytes(fid) + tail);
        let n = varint_bytes(fid).len() as int;
        let before2 = before + varint_bytes(fid);
        lemma_string_roundtrip(before2, texts[i].1, rest);
        assert(b =~= before2 + string_bytes(texts[i].1) + rest);
        let before3 = before2 + string_bytes(texts[i].1);
        lemma_fields_roundtrip(before3, doc, ids, i + 1);
        assert(b =~= before3 + rest);
        assert(fid < names.len());
        assert(names[fid as int] == texts[i].0) by {
            let k = index_of_key(ids, texts[i].0);
            assert(ids[k].0 == texts[i].0);
        }
        assert(seq![(names[fid as int], texts[i].1)] + texts.skip(i + 1) =~= texts.skip(i));
    }
}

/// Binding the pairs of a list that is in name order already gives the
/// list back.
pub proof fn lemma_folded_sorted(texts: Seq<(Seq<char>, Seq<char>)>, n: int)
    requires
        keys_sorted(texts),
        0 <= n <= texts.len(),
    ensures
        folded(texts.take(n)) == texts.take(n),
    decreases n,
{
    if n == 0 {
        assert(texts.take(0) =~= Seq::<(Seq<char>, Seq<char>)>::empty());
    } else {
        lemma_folded_sorted(texts, n - 1);
        let t = texts.take(n);
        let prev = texts.take(n - 1);
        assert(t.drop_last() =~= prev);
        assert(t.last() == texts[n - 1]);
        assert forall|i: int| 0 <= i < prev.len() implies crate::strmap::lex_lt(
            #[trigger] prev[i].0,
            texts[n - 1].0,
        ) by {
            assert(prev[i] == texts[i]);
        }
        lemma_rank_is(prev, texts[n - 1].0, prev.len() as int);
        assert(upserted(prev, texts[n - 1].0, texts[n - 1].1) =~= t);
    }
}

/// A document that was written reads back as it was: the same external
/// id and the same fields.
pub proof fn lemma_doc_roundtrip(doc: DocModel, ids: Seq<(Seq<char>, ())>)
    requires
        writable_doc(doc, ids),
    ensures
        doc_decoded(doc_bytes(doc, ids), names_of_ids(ids)) == Some((doc.ext_id, doc.texts)),
{
    let b = doc_bytes(doc, ids);
    let count = doc.texts.len() as u64;
    let fields = fields_bytes(doc.texts, ids, doc.texts.len() as int);
    lemma_fields_bytes_split(doc.texts, ids, 0);
    assert(fields_bytes(doc.texts, ids, 0) + fields_bytes_from(doc.texts, ids, 0)
        =~= fields_bytes_from(doc.texts, ids, 0));
    let tail = varint_bytes(count) + fields;
    lemma_string_roundtrip(Seq::empty(), doc.ext_id, tail);
    assert(b =~= Seq::<u8>::empty() + string_bytes(doc.ext_id) + tail);
    let at = string_bytes(doc.ext_id).len() as int;
    lemma_varint_roundtrip(count, fields);
    assert(b.skip(at) =~= varint_bytes(count) + fields);
    let before = string_bytes(doc.ext_id) + varint_bytes(count);
    lemma_fields_roundtrip(before, doc, ids, 0);
    assert(b =~= before + fields_bytes_from(doc.texts, ids, 0));
    assert(doc.texts.skip(0) =~= doc.texts);
    lemma_folded_sorted(doc.texts, doc.texts.len() as int);
    assert(doc.texts.take(doc.texts.len() as int) =~= doc.texts);
}

/// Reads the string that stands at `at`.
fn read_string(b: &[u8], at: usize) -> (r: Option<(String, usize)>)
    requires
        at <= b.len(),
    ensures
        match r {
            Some((s, next)) => string_at(b@, at as int) == Some((s@, next as int)) && next
                <= b.len(),
            None => string_at(b@, at as int) is None,
        },
{
    match decode_varint(b, at) {
        Err(_) => None,
        Ok((len, n)) => {
            let from: usize = at + n;
            if len > (b.len() - from) as u64 {
                return None;
            }
            let to: usize = from + len as usize;
            match utf8_to_string(slice_subrange(b, from, to)) {
                None => None,
                Some(s) => {
                    proof {
                        vstd::utf8::encode_utf8_decode_utf8(s@);
                    }
                    Some((s, to))
                },
            }
        },
    }
}

/// Reads the document that fills `payload`; `None` where it is broken.
pub fn parse_doc(doc_id: u32, payload: &[u8], names: &Vec<String>) -> (r: Option<StoredDoc>)
    ensures
        match r {
            Some(d) => d.doc_id == doc_id && doc_decoded(payload@, names_view(names@)) == Some(
                (d.ext_id@, d.texts()),
            ) && keys_sorted(d.texts()),
            None => doc_decoded(payload@, names_view(names@)) is None,
        },
{
    let (ext_id, at) = match read_string(payload, 0) {
        None => {
            return None;
        },
        Some(x) => x,
    };
    let (count, n) = match decode_varint(payload, at) {
        Err(_) => {
            return None;
        },
        Ok(x) => x,
    };
    let mut p: usize = at + n;
    let mut pairs: Vec<(String, String)> = Vec::new();
    let mut k: u64 = 0;
    let ghost nv = names_view(names@);
    proof {
        assert(leaves_view(pairs@) + Seq::<(Seq<char>, Seq<char>)>::empty() =~= Seq::<
            (Seq<char>, Seq<char>),
        >::empty());
    }
    while k < count
        invariant
            k <= count,
            p <= payload.len(),
            nv == names_view(names@),
            string_at(payload@, 0) == Some((ext_id@, at as int)),
            varint_decoded(payload@.skip(at as int)) == Some((count, n as int)),
            match fields_at(payload@, p as int, (count - k) as nat, nv) {
                Some(rest) => fields_at(payload@, at + n, count as nat, nv) == Some(
                    leaves_view(pairs@) + rest,
                ),
                None => fields_at(payload@, at + n, count as nat, nv) is None,
            },
        decreases count - k,
    {
        let (fid, m) = match decode_varint(payload, p) {
            Err(_) => {
                return None;
            },
            Ok(x) => x,
        };
        let (text, next) = match read_string(payload, p + m) {
            None => {
                return None;
            },
            Some(x) => x,
        };
        let ghost before = pairs@;
        if fid < names.len() as u64 {
            pairs.push((names[fid as usize].clone(), text));
        }
        proof {
            match fields_at(payload@, next as int, (count - k - 1) as nat, nv) {
                Some(rest) => {
                    if fid < names.len() {
                        assert(nv[fid as int] == names@[fid as int]@);
                        assert(leaves_view(pairs@) + rest =~= leaves_view(before) + (seq![
                            (nv[fid as int], text@),
                        ] + rest));
                    }
                },
                None => {},
            }
        }
        p = next;
        k += 1;
    }
    proof {
        assert(leaves_view(pairs@) + Seq::<(Seq<char>, Seq<char>)>::empty() =~= leaves_view(
            pairs@,
        ));
    }
    Some(StoredDoc::from_pairs(doc_id, ext_id, &pairs))
}

} // verus!
