//! What writing a segment and reading it back give together: a document
//! comes back as it was stored, and the index lists every document under
//! each of its trigrams.

use vstd::bytes::*;
use vstd::prelude::*;
use vstd::utf8::encode_utf8;
use crate::bitmap::strictly_increasing;
use crate::doc::folded;
use crate::gram::{BooleanOp, lemma_windows_of_substring, trigram_windows};
use crate::segment::bytes::{body_of, le16, le32, le64, le64_at, lemma_sealed, sealed};
use crate::segment::docs::{
    doc_bytes, DocModel, docs_dat_bytes, docs_fault, docs_magic, lemma_doc_roundtrip,
    lemma_string_roundtrip, names_of_ids, offsets_bytes, payload_bytes, string_bytes, writable_doc,
};
use crate::segment::error::SegmentError;
use crate::segment::fields::{
    dict_bytes, field_record_at, field_records_at, field_records_bytes, FieldRecord,
    fields_idx_bytes, fields_idx_decoded, FIELDS_IDX_MAGIC, FIELDS_IDX_VERSION, masks_stored,
    names_decoded, names_view, records_in_range,
};
use crate::segment::grams::{
    doc_part, docs_of, gram_key, GRAM_RECORD_LEN, gram_records, GramRecord, grams_idx_bytes,
    grams_idx_fault, GRAMS_IDX_MAGIC, GRAMS_IDX_VERSION, group_end, groups_fit, increasing, key_at,
    key_bytes, key_part, keys_increasing, lemma_group_end, pack, postings_blob, record_at,
    record_bytes, records_bytes, sorted_unique_of, table_of,
};
use crate::segment::input::InputModel;
use crate::segment::meta::{
    meta_at, meta_bytes, meta_fault, META_HEADER_LEN, META_MAGIC, META_VERSION, MetaHeader,
};
use crate::segment::postings::{lemma_postings_roundtrip, postings_bytes};
use crate::segment::reader::{
    BinSegmentReader, inter_all, open_fault, opened_from, places_of, usable_keys,
};
use crate::segment::writer::{
    docs_grams, has_leaf, image_holds, image_holds_with, leaves_grams, lemma_gram_in_text_is_listed,
    mask_of, masks_of, names_of, occurs_upto, SegmentImage, stored_models, text_grams, window_key,
};
use crate::strmap::{has_key, keys_sorted, lemma_upserted_lookup, lemma_upserted_sorted, lookup};

verus! {

/// Binding pairs one after another always gives a list in name order.
pub proof fn lemma_folded_is_sorted(pairs: Seq<(Seq<char>, Seq<char>)>)
    ensures
        keys_sorted(folded(pairs)),
    decreases pairs.len(),
{
    if pairs.len() > 0 {
        lemma_folded_is_sorted(pairs.drop_last());
        lemma_upserted_sorted(folded(pairs.drop_last()), pairs.last().0, pairs.last().1);
    }
}

/// Every name of a list made by binding pairs is the name of one of the
/// pairs.
pub proof fn lemma_folded_names(pairs: Seq<(Seq<char>, Seq<char>)>, name: Seq<char>)
    requires
        has_key(folded(pairs), name),
    ensures
        exists|i: int| 0 <= i < pairs.len() && (#[trigger] pairs[i]).0 == name,
    decreases pairs.len(),
{
    if pairs.len() > 0 {
        let prev = pairs.drop_last();
        lemma_folded_is_sorted(prev);
        lemma_upserted_lookup(folded(prev), pairs.last().0, pairs.last().1, name);
        if name == pairs.last().0 {
            assert(pairs[pairs.len() - 1].0 == name);
        } else {
            assert(has_key(folded(prev), name));
            lemma_folded_names(prev, name);
            let i = choose|i: int| 0 <= i < prev.len() && (#[trigger] prev[i]).0 == name;
            assert(pairs[i].0 == name);
        }
    }
}

/// Whether the documents are small enough to be written: there are no
/// more of them than a doc id can count, and every length fits 64 bits.
pub open spec fn docs_fit(docs: Seq<InputModel>, ids: Seq<(Seq<char>, ())>) -> bool {
    &&& docs.len() <= u32::MAX
    &&& ids.len() <= u32::MAX
    &&& payload_bytes(stored_models(docs), ids, docs.len() as int).len() <= u64::MAX
    &&& forall|d: int|
        0 <= d < docs.len() ==> encode_utf8((#[trigger] docs[d]).ext_id).len() <= u64::MAX
            && folded(docs[d].leaves).len() <= u64::MAX
    &&& forall|d: int, l: int|
        0 <= d < docs.len() && 0 <= l < folded(docs[d].leaves).len() ==> encode_utf8(
            (#[trigger] folded(docs[d].leaves)[l]).1,
        ).len() <= u64::MAX
}

/// A stored document of a segment's input can be written.
pub proof fn lemma_stored_is_writable(docs: Seq<InputModel>, ids: Seq<(Seq<char>, ())>, d: int)
    requires
        names_of(ids, docs),
        docs_fit(docs, ids),
        0 <= d < docs.len(),
    ensures
        writable_doc(stored_models(docs)[d], ids),
{
    let doc = stored_models(docs)[d];
    assert(doc.texts == folded(docs[d].leaves));
    assert(doc.ext_id == docs[d].ext_id);
    assert(encode_utf8(docs[d].ext_id).len() <= u64::MAX);
    lemma_folded_is_sorted(docs[d].leaves);
    assert forall|i: int| 0 <= i < doc.texts.len() implies has_key(ids, (#[trigger] doc.texts[i]).0)
        && encode_utf8(doc.texts[i].1).len() <= u64::MAX by {
        let name = doc.texts[i].0;
        assert(has_key(doc.texts, name));
        lemma_folded_names(docs[d].leaves, name);
        let l = choose|l: int| 0 <= l < docs[d].leaves.len() && (#[trigger] docs[d].leaves[l]).0
            == name;
        assert(docs[d].leaves[l].0 == name);
        assert(occurs_upto(docs, docs.len() as int, 0, name));
        assert(folded(docs[d].leaves)[i] == doc.texts[i]);
    }
}

/// The first `n` offsets take eight bytes each.
pub proof fn lemma_offsets_len(docs: Seq<DocModel>, ids: Seq<(Seq<char>, ())>, n: int)
    requires
        0 <= n <= docs.len() + 1,
    ensures
        offsets_bytes(docs, ids, n).len() == 8 * n,
    decreases n,
{
    lemma_auto_spec_u64_to_from_le_bytes();
    if n > 0 {
        lemma_offsets_len(docs, ids, n - 1);
    }
}

/// The offset `k` says where document `k` starts in the payload.
pub proof fn lemma_offsets_entry(docs: Seq<DocModel>, ids: Seq<(Seq<char>, ())>, n: int, k: int)
    requires
        0 <= k < n <= docs.len() + 1,
        payload_bytes(docs, ids, k).len() <= u64::MAX,
    ensures
        le64_at(offsets_bytes(docs, ids, n), 8 * k) == payload_bytes(docs, ids, k).len(),
    decreases n,
{
    lemma_auto_spec_u64_to_from_le_bytes();
    lemma_offsets_len(docs, ids, n - 1);
    lemma_offsets_len(docs, ids, n);
    let all = offsets_bytes(docs, ids, n);
    let prev = offsets_bytes(docs, ids, n - 1);
    if k < n - 1 {
        lemma_offsets_entry(docs, ids, n - 1, k);
        assert(all.subrange(8 * k, 8 * k + 8) =~= prev.subrange(8 * k, 8 * k + 8));
    } else {
        assert(all.subrange(8 * k, 8 * k + 8) =~= le64(payload_bytes(docs, ids, k).len() as u64));
    }
}

/// The payload grows document by document, and document `k` stands
/// where the first `k` documents end.
pub proof fn lemma_payload_slice(docs: Seq<DocModel>, ids: Seq<(Seq<char>, ())>, n: int, k: int)
    requires
        0 <= k < n <= docs.len(),
    ensures
        payload_bytes(docs, ids, k).len() <= payload_bytes(docs, ids, k + 1).len()
            <= payload_bytes(docs, ids, n).len(),
        payload_bytes(docs, ids, n).subrange(
            payload_bytes(docs, ids, k).len() as int,
            payload_bytes(docs, ids, k + 1).len() as int,
        ) == doc_bytes(docs[k], ids),
    decreases n,
{
    let all = payload_bytes(docs, ids, n);
    let prev = payload_bytes(docs, ids, n - 1);
    let a = payload_bytes(docs, ids, k).len() as int;
    let b = payload_bytes(docs, ids, k + 1).len() as int;
    if k < n - 1 {
        lemma_payload_slice(docs, ids, n - 1, k);
        assert(all.subrange(a, b) =~= prev.subrange(a, b));
    } else {
        assert(all.subrange(a, b) =~= doc_bytes(docs[k], ids));
    }
}

/// The payload of the first `k` documents is no longer than that of all.
pub proof fn lemma_payload_grows(docs: Seq<DocModel>, ids: Seq<(Seq<char>, ())>, n: int, k: int)
    requires
        0 <= k <= n <= docs.len(),
    ensures
        payload_bytes(docs, ids, k).len() <= payload_bytes(docs, ids, n).len(),
    decreases n - k,
{
    if k < n {
        lemma_payload_grows(docs, ids, n, k + 1);
    }
}

/// The fixed part of a written `docs.dat` passes the checks.
pub proof fn lemma_docs_dat_header(docs: Seq<DocModel>, ids: Seq<(Seq<char>, ())>)
    requires
        docs.len() <= u32::MAX,
    ensures
        docs_fault(docs_dat_bytes(docs, ids), docs.len() as u32) is None,
{
    lemma_auto_spec_u64_to_from_le_bytes();
    let n = docs.len() as int;
    let b = docs_dat_bytes(docs, ids);
    let offs = offsets_bytes(docs, ids, n + 1);
    let pay = payload_bytes(docs, ids, n);
    lemma_offsets_len(docs, ids, n + 1);
    let head = docs_magic() + le64(n as u64) + le64((n + 1) as u64);
    assert(head.len() == 24);
    assert(b =~= head + offs + pay);
    assert(b.take(8) =~= docs_magic());
    assert(b.subrange(8, 16) =~= le64(n as u64));
    assert(b.subrange(16, 24) =~= le64((n + 1) as u64));
}

/// The layout of a written `docs.dat`: its fixed part holds, every
/// offset says where its document starts, and every document stands
/// where its offsets say.
pub proof fn lemma_docs_dat_layout(docs: Seq<DocModel>, ids: Seq<(Seq<char>, ())>, k: int)
    requires
        docs.len() <= u32::MAX,
        payload_bytes(docs, ids, docs.len() as int).len() <= u64::MAX,
        0 <= k < docs.len(),
    ensures
        ({
            let b = docs_dat_bytes(docs, ids);
            let start = 24 + (docs.len() + 1) * 8;
            let from = payload_bytes(docs, ids, k).len() as int;
            let to = payload_bytes(docs, ids, k + 1).len() as int;
            &&& docs_fault(b, docs.len() as u32) is None
            &&& b.len() == start + payload_bytes(docs, ids, docs.len() as int).len()
            &&& le64_at(b, 24 + k * 8) == from
            &&& le64_at(b, 24 + (k + 1) * 8) == to
            &&& from <= to
            &&& start + to <= b.len()
            &&& b.subrange(start + from, start + to) == doc_bytes(docs[k], ids)
        }),
{
    lemma_auto_spec_u64_to_from_le_bytes();
    let n = docs.len() as int;
    let b = docs_dat_bytes(docs, ids);
    let offs = offsets_bytes(docs, ids, n + 1);
    let pay = payload_bytes(docs, ids, n);
    lemma_offsets_len(docs, ids, n + 1);
    lemma_payload_grows(docs, ids, n, k);
    lemma_payload_grows(docs, ids, n, k + 1);
    lemma_offsets_entry(docs, ids, n + 1, k);
    lemma_offsets_entry(docs, ids, n + 1, k + 1);
    lemma_payload_slice(docs, ids, n, k);
    let head = docs_magic() + le64(n as u64) + le64((n + 1) as u64);
    assert(head.len() == 24);
    assert(b =~= head + offs + pay);
    assert(b.take(8) =~= docs_magic());
    assert(b.subrange(8, 16) =~= le64(n as u64));
    assert(b.subrange(16, 24) =~= le64((n + 1) as u64));
    assert(b.subrange(24 + k * 8, 24 + k * 8 + 8) =~= offs.subrange(8 * k, 8 * k + 8));
    assert(b.subrange(24 + (k + 1) * 8, 24 + (k + 1) * 8 + 8) =~= offs.subrange(
        8 * (k + 1),
        8 * (k + 1) + 8,
    ));
    let start = 24 + (n + 1) * 8;
    let from = payload_bytes(docs, ids, k).len() as int;
    let to = payload_bytes(docs, ids, k + 1).len() as int;
    assert(b.subrange(start + from, start + to) =~= pay.subrange(from, to));
}

/// A written header reads back as it was, and passes the checks of
/// `meta.bin` where it has the magic and the version of the format.
pub proof fn lemma_meta_roundtrip(h: MetaHeader)
    ensures
        meta_bytes(h).len() == 64,
        meta_at(sealed(meta_bytes(h))) == h,
        h.magic == META_MAGIC && h.version == META_VERSION ==> meta_fault(sealed(meta_bytes(h)))
            is None,
{
    lemma_auto_spec_u16_to_from_le_bytes();
    lemma_auto_spec_u32_to_from_le_bytes();
    lemma_auto_spec_u64_to_from_le_bytes();
    let body = meta_bytes(h);
    let b = sealed(body);
    lemma_sealed(body);
    assert(b.subrange(0, 4) =~= le32(h.magic));
    assert(b.subrange(4, 6) =~= le16(h.version));
    assert(b.subrange(6, 8) =~= le16(h.header_len));
    assert(b.subrange(8, 16) =~= le64(h.doc_count));
    assert(b.subrange(16, 24) =~= le64(h.gram_count));
    assert(b.subrange(24, 32) =~= le64(h.grams_idx_len));
    assert(b.subrange(32, 40) =~= le64(h.grams_dat_len));
    assert(b.subrange(40, 48) =~= le64(h.fields_idx_len));
    assert(b.subrange(48, 56) =~= le64(h.fields_dat_len));
    assert(b.subrange(56, 64) =~= le64(h.docs_dat_len));
}

/// The names of a dictionary from the name `i` on, as `dict_bytes`
/// writes them.
pub open spec fn dict_bytes_from(names: Seq<Seq<char>>, i: int) -> Seq<u8>
    decreases names.len() - i,
{
    if i < 0 || i >= names.len() {
        Seq::empty()
    } else {
        string_bytes(names[i]) + dict_bytes_from(names, i + 1)
    }
}

proof fn lemma_dict_split(names: Seq<Seq<char>>, n: int)
    requires
        0 <= n <= names.len(),
    ensures
        dict_bytes(names) == dict_bytes(names.take(n)) + dict_bytes_from(names, n),
    decreases names.len() - n,
{
    if n == names.len() {
        assert(names.take(n) =~= names);
        assert(dict_bytes(names) + Seq::<u8>::empty() =~= dict_bytes(names));
    } else {
        lemma_dict_split(names, n + 1);
        let t = names.take(n + 1);
        assert(t.drop_last() =~= names.take(n));
        assert(t.last() == names[n]);
        assert(dict_bytes(t) =~= dict_bytes(names.take(n)) + string_bytes(names[n]));
        assert(dict_bytes(t) + dict_bytes_from(names, n + 1) =~= dict_bytes(names.take(n))
            + dict_bytes_from(names, n));
    }
}

proof fn lemma_names_roundtrip(before: Seq<u8>, names: Seq<Seq<char>>, i: int, after: Seq<u8>)
    requires
        0 <= i <= names.len(),
        forall|k: int| 0 <= k < names.len() ==> encode_utf8(#[trigger] names[k]).len() <= u64::MAX,
    ensures
        names_decoded(
            before + dict_bytes_from(names, i) + after,
            before.len() as int,
            (names.len() - i) as nat,
        ) == Some((names.skip(i), (before.len() + dict_bytes_from(names, i).len()) as int)),
    decreases names.len() - i,
{
    let b = before + dict_bytes_from(names, i) + after;
    if i == names.len() {
        assert(names.skip(i) =~= Seq::<Seq<char>>::empty());
    } else {
        let rest = dict_bytes_from(names, i + 1) + after;
        lemma_string_roundtrip(before, names[i], rest);
        assert(b =~= before + string_bytes(names[i]) + rest);
        let before2 = before + string_bytes(names[i]);
        lemma_names_roundtrip(before2, names, i + 1, after);
        assert(b =~= before2 + dict_bytes_from(names, i + 1) + after);
        assert(seq![names[i]] + names.skip(i + 1) =~= names.skip(i));
    }
}

/// The records of `fields.idx` take twenty bytes each, and each reads
/// back as it was written.
pub proof fn lemma_field_records(prefix: Seq<u8>, recs: Seq<FieldRecord>, i: int)
    requires
        0 <= i < recs.len(),
    ensures
        field_records_bytes(recs).len() == 20 * recs.len(),
        field_record_at(prefix + field_records_bytes(recs), prefix.len() + i * 20) == recs[i],
    decreases recs.len(),
{
    lemma_auto_spec_u32_to_from_le_bytes();
    lemma_auto_spec_u64_to_from_le_bytes();
    let prev = recs.drop_last();
    let all = prefix + field_records_bytes(recs);
    lemma_field_records_len(prev);
    lemma_field_records_len(recs);
    let at = prefix.len() + i * 20;
    if i < recs.len() - 1 {
        lemma_field_records(prefix, prev, i);
        let old_all = prefix + field_records_bytes(prev);
        assert(prev[i] == recs[i]);
        assert(all.subrange(at, at + 4) =~= old_all.subrange(at, at + 4));
        assert(all.subrange(at + 4, at + 12) =~= old_all.subrange(at + 4, at + 12));
        assert(all.subrange(at + 12, at + 20) =~= old_all.subrange(at + 12, at + 20));
    } else {
        let r = recs.last();
        assert(all.subrange(at, at + 4) =~= le32(r.field_id));
        assert(all.subrange(at + 4, at + 12) =~= le64(r.offset));
        assert(all.subrange(at + 12, at + 20) =~= le64(r.length));
    }
}

proof fn lemma_field_records_len(recs: Seq<FieldRecord>)
    ensures
        field_records_bytes(recs).len() == 20 * recs.len(),
    decreases recs.len(),
{
    lemma_auto_spec_u32_to_from_le_bytes();
    lemma_auto_spec_u64_to_from_le_bytes();
    if recs.len() > 0 {
        lemma_field_records_len(recs.drop_last());
    }
}

/// Whether the names and records of `fields.idx` can be written.
pub open spec fn fields_idx_fit(names: Seq<Seq<char>>, recs: Seq<FieldRecord>) -> bool {
    &&& names.len() <= u32::MAX
    &&& dict_bytes(names).len() <= u32::MAX
    &&& recs.len() == names.len()
    &&& records_in_range(recs, names.len())
    &&& forall|k: int| 0 <= k < names.len() ==> encode_utf8(#[trigger] names[k]).len() <= u64::MAX
}

/// A written `fields.idx` reads back as the names and the records that
/// were written.
pub proof fn lemma_fields_idx_roundtrip(names: Seq<Seq<char>>, recs: Seq<FieldRecord>)
    requires
        fields_idx_fit(names, recs),
    ensures
        fields_idx_decoded(fields_idx_bytes(names, recs)) == Ok::<_, SegmentError>((names, recs)),
{
    lemma_auto_spec_u16_to_from_le_bytes();
    lemma_auto_spec_u32_to_from_le_bytes();
    let b = fields_idx_bytes(names, recs);
    let dict = dict_bytes(names);
    let head = le32(FIELDS_IDX_MAGIC) + le16(FIELDS_IDX_VERSION) + le16(0) + le32(
        names.len() as u32,
    ) + le32(dict.len() as u32);
    assert(head.len() == 16);
    assert(b =~= head + dict + field_records_bytes(recs));
    assert(b.subrange(0, 4) =~= le32(FIELDS_IDX_MAGIC));
    assert(b.subrange(8, 12) =~= le32(names.len() as u32));
    assert(b.subrange(12, 16) =~= le32(dict.len() as u32));
    lemma_dict_split(names, 0);
    assert(names.take(0) =~= Seq::<Seq<char>>::empty());
    assert(dict_bytes(names.take(0)) + dict_bytes_from(names, 0) =~= dict_bytes_from(names, 0));
    lemma_names_roundtrip(head, names, 0, field_records_bytes(recs));
    assert(names.skip(0) =~= names);
    lemma_field_records_len(recs);
    let recs_at = 16 + dict.len();
    let prefix = head + dict;
    let got = field_records_at(b, recs_at as int, names.len());
    assert forall|i: int| 0 <= i < recs.len() implies got[i] == recs[i] by {
        lemma_field_records(prefix, recs, i);
    }
    assert(got =~= recs);
}

proof fn lemma_records_len(recs: Seq<GramRecord>)
    ensures
        records_bytes(recs).len() == 24 * recs.len(),
    decreases recs.len(),
{
    lemma_auto_spec_u64_to_from_le_bytes();
    if recs.len() > 0 {
        lemma_records_len(recs.drop_last());
    }
}

/// A record of `grams.idx` reads back as it was written.
pub proof fn lemma_gram_record(prefix: Seq<u8>, recs: Seq<GramRecord>, i: int)
    requires
        0 <= i < recs.len(),
        prefix.len() == 16,
        forall|k: int| 0 <= k < recs.len() ==> (#[trigger] recs[k]).key < 0x100_0000,
    ensures
        record_at(prefix + records_bytes(recs), i) == recs[i],
    decreases recs.len(),
{
    lemma_auto_spec_u64_to_from_le_bytes();
    let prev = recs.drop_last();
    let all = prefix + records_bytes(recs);
    lemma_records_len(prev);
    lemma_records_len(recs);
    let at = 16 + i * 24;
    if i < recs.len() - 1 {
        assert forall|k: int| 0 <= k < prev.len() implies (#[trigger] prev[k]).key
            < 0x100_0000 by {
            assert(prev[k] == recs[k]);
        }
        lemma_gram_record(prefix, prev, i);
        let old_all = prefix + records_bytes(prev);
        assert(prev[i] == recs[i]);
        assert(all[at] == old_all[at] && all[at + 1] == old_all[at + 1] && all[at + 2]
            == old_all[at + 2]);
        assert(all.subrange(at + 3, at + 11) =~= old_all.subrange(at + 3, at + 11));
        assert(all.subrange(at + 11, at + 19) =~= old_all.subrange(at + 11, at + 19));
    } else {
        let r = recs.last();
        let rb = record_bytes(r);
        assert(rb.len() == 24);
        assert(all =~= (prefix + records_bytes(prev)) + rb);
        assert(all[at] == rb[0] && all[at + 1] == rb[1] && all[at + 2] == rb[2]);
        assert(rb[0] == key_bytes(r.key)[0] && rb[1] == key_bytes(r.key)[1] && rb[2]
            == key_bytes(r.key)[2]);
        assert(all.subrange(at + 3, at + 11) =~= le64(r.offset));
        assert(all.subrange(at + 11, at + 19) =~= le64(r.length));
        let k = r.key;
        assert(key_at(all, at) == k) by {
            assert((k / 65536 % 256) * 65536 + (k / 256 % 256) * 256 + k % 256 == k) by {
                assert(k < 0x100_0000);
            }
        }
    }
}

/// A written `grams.idx` reads back as the table that was written, and
/// passes the checks where its keys are in order.
pub proof fn lemma_grams_idx_roundtrip(recs: Seq<GramRecord>)
    requires
        recs.len() <= u32::MAX,
        forall|k: int| 0 <= k < recs.len() ==> (#[trigger] recs[k]).key < 0x100_0000,
    ensures
        table_of(grams_idx_bytes(recs)) == recs,
        keys_increasing(recs) ==> grams_idx_fault(grams_idx_bytes(recs)) is None,
{
    lemma_auto_spec_u16_to_from_le_bytes();
    lemma_auto_spec_u32_to_from_le_bytes();
    let b = grams_idx_bytes(recs);
    let head = le32(GRAMS_IDX_MAGIC) + le16(GRAMS_IDX_VERSION) + le16(0) + le32(recs.len() as u32)
        + le32(GRAM_RECORD_LEN);
    assert(head.len() == 16);
    assert(b =~= head + records_bytes(recs));
    lemma_records_len(recs);
    assert(b.subrange(0, 4) =~= le32(GRAMS_IDX_MAGIC));
    assert(b.subrange(4, 6) =~= le16(GRAMS_IDX_VERSION));
    assert(b.subrange(8, 12) =~= le32(recs.len() as u32));
    assert(b.subrange(12, 16) =~= le32(GRAM_RECORD_LEN));
    let got = table_of(b);
    assert forall|i: int| 0 <= i < recs.len() implies got[i] == recs[i] by {
        lemma_gram_record(head, recs, i);
    }
    assert(got =~= recs);
}

/// The index, among the records of the pairs `p[i..]`, of the record of
/// the key that the pair `m` has.
pub open spec fn record_index(p: Seq<u64>, i: int, m: int) -> int
    decreases p.len() - i,
{
    if 0 <= i < p.len() {
        let e = group_end(p, i);
        if i < e <= p.len() && m >= e {
            1 + record_index(p, e, m)
        } else {
            0
        }
    } else {
        0
    }
}

/// The bounds, among the pairs `p[i..]`, of the run of pairs that have
/// the key of the pair `m`.
pub open spec fn group_of(p: Seq<u64>, i: int, m: int) -> (int, int)
    decreases p.len() - i,
{
    if 0 <= i < p.len() {
        let e = group_end(p, i);
        if i < e <= p.len() && m >= e {
            group_of(p, e, m)
        } else {
            (i, e)
        }
    } else {
        (i, i)
    }
}

/// The key of a pair does not fall as the pair grows.
pub proof fn lemma_key_part_monotonic(x: u64, y: u64)
    requires
        x <= y,
    ensures
        key_part(x) <= key_part(y),
{
}

/// What the records and the posting lists of the pairs `p[i..]` hold for
/// the pair `m`: a record with the key of the pair, which finds in the
/// lists the posting list of the run of pairs with that key.
pub proof fn lemma_group_record(p: Seq<u64>, i: int, off: int, m: int)
    requires
        increasing(p),
        0 <= i <= m < p.len(),
        0 <= off,
        groups_fit(p, i),
        off + postings_blob(p, i).len() <= u64::MAX,
        i > 0 ==> key_part(p[i - 1]) != key_part(p[i]),
    ensures
        ({
            let recs = gram_records(p, i, off);
            let j = record_index(p, i, m);
            let (gs, ge) = group_of(p, i, m);
            let blob = postings_blob(p, i);
            &&& 0 <= j < recs.len()
            &&& recs[j].key == key_part(p[m])
            &&& i <= gs <= m < ge <= p.len()
            &&& ge - gs <= u32::MAX
            &&& off <= recs[j].offset
            &&& recs[j].offset - off + recs[j].length <= blob.len()
            &&& blob.subrange(recs[j].offset - off, recs[j].offset - off + recs[j].length)
                == postings_bytes(docs_of(p, gs, ge))
            &&& forall|k: int| gs <= k < ge ==> key_part(#[trigger] p[k]) == key_part(p[m])
            &&& forall|k: int| 0 <= k < recs.len() ==> key_part(p[i]) <= (#[trigger] recs[k]).key
            &&& keys_increasing(recs)
        }),
    decreases p.len() - i,
{
    lemma_group_end(p, i);
    let e = group_end(p, i);
    let first = postings_bytes(docs_of(p, i, e));
    let len = first.len() as int;
    let recs = gram_records(p, i, off);
    let blob = postings_blob(p, i);
    let rest_recs = gram_records(p, e, off + len);
    let rest_blob = postings_blob(p, e);
    let head = GramRecord { key: key_part(p[i]), offset: off as u64, length: len as u64 };
    assert(blob =~= first + rest_blob);
    assert(recs =~= seq![head] + rest_recs);
    if e < p.len() {
        lemma_group_record(p, e, off + len, if m >= e {
            m
        } else {
            e
        });
        lemma_key_part_monotonic(p[i], p[e]);
        assert(p[i] < p[e]);
        assert forall|k: int| 0 <= k < recs.len() implies key_part(p[i]) <= (
        #[trigger] recs[k]).key by {
            if k > 0 {
                assert(recs[k] == rest_recs[k - 1]);
            }
        }
        assert forall|a: int, b: int| 0 <= a < b < recs.len() implies recs[a].key
            < recs[b].key by {
            assert(recs[b] == rest_recs[b - 1]);
            if a > 0 {
                assert(recs[a] == rest_recs[a - 1]);
            }
        }
    } else {
        assert(rest_recs =~= Seq::<GramRecord>::empty());
        assert(rest_blob =~= Seq::<u8>::empty());
    }
    if m >= e {
        let j = record_index(p, e, m);
        assert(recs[j + 1] == rest_recs[j]);
        let r = rest_recs[j];
        assert(blob.subrange(r.offset - off, r.offset - off + r.length) =~= rest_blob.subrange(
            r.offset - (off + len),
            r.offset - (off + len) + r.length,
        ));
    } else {
        assert(recs[0] == head);
        assert(blob.subrange(0, len) =~= first);
        assert(key_part(p[m]) == key_part(p[i]));
    }
}

/// The doc ids of a run of pairs with one key are in increasing order.
pub proof fn lemma_group_docs_increase(p: Seq<u64>, gs: int, ge: int)
    requires
        increasing(p),
        0 <= gs <= ge <= p.len(),
        forall|k: int| gs <= k < ge ==> key_part(#[trigger] p[k]) == key_part(p[gs]),
    ensures
        strictly_increasing(docs_of(p, gs, ge)),
{
    let d = docs_of(p, gs, ge);
    assert forall|a: int, b: int| 0 <= a < b < d.len() implies d[a] < d[b] by {
        let x = p[gs + a];
        let y = p[gs + b];
        assert(x < y);
        assert(key_part(x) == key_part(p[gs]));
        assert(key_part(y) == key_part(p[gs]));
        assert(d[a] == doc_part(x) && d[b] == doc_part(y));
    }
}

/// The parts of a pair are the key and the doc id it was made of.
pub proof fn lemma_pack_parts(k: u32, d: u32)
    requires
        k < 0x100_0000,
    ensures
        key_part(pack(k, d)) == k,
        doc_part(pack(k, d)) == d,
{
}

/// The key of a window fits three bytes.
pub proof fn lemma_window_key_fits(w: Seq<char>)
    ensures
        window_key(w) < 0x100_0000,
{
}

/// What the reader finds for a pair of the index: the posting list of
/// the pair's key, and the pair's doc id in it.
pub proof fn lemma_pair_is_posted(rd: BinSegmentReader, p: Seq<u64>, m: int)
    requires
        rd.grams@ == gram_records(p, 0, 0),
        rd.grams_dat@ == postings_blob(p, 0),
        increasing(p),
        groups_fit(p, 0),
        postings_blob(p, 0).len() <= u64::MAX,
        0 <= m < p.len(),
    ensures
        rd.postings_of(key_part(p[m])) matches Ok(Some(ids)) && ids.contains(doc_part(p[m])),
{
    lemma_group_record(p, 0, 0, m);
    let recs = gram_records(p, 0, 0);
    let j = record_index(p, 0, m);
    let (gs, ge) = group_of(p, 0, m);
    let key = key_part(p[m]);
    assert(recs[j].key == key);
    let c = choose|c: int| 0 <= c < recs.len() && recs[c].key == key;
    if c < j {
        assert(recs[c].key < recs[j].key);
    } else if j < c {
        assert(recs[j].key < recs[c].key);
    }
    let docs = docs_of(p, gs, ge);
    lemma_group_docs_increase(p, gs, ge);
    lemma_postings_roundtrip(docs);
    assert(docs[m - gs] == doc_part(p[m]));
}

/// The index of a written segment lists every document under each of
/// its trigrams: where a trigram stands in a field value of a document,
/// the reader finds the document in the posting list of the trigram's key.
pub proof fn lemma_gram_of_document_is_posted(
    rd: BinSegmentReader,
    docs: Seq<InputModel>,
    p: Seq<u64>,
    d: int,
    l: int,
    gram: Seq<char>,
    at: int,
)
    requires
        rd.grams@ == gram_records(p, 0, 0),
        rd.grams_dat@ == postings_blob(p, 0),
        sorted_unique_of(p, docs_grams(docs, docs.len() as int)),
        groups_fit(p, 0),
        postings_blob(p, 0).len() <= u64::MAX,
        0 <= d < docs.len() <= u32::MAX,
        0 <= l < docs[d].leaves.len(),
        gram.len() == 3,
        0 <= at,
        at + 3 <= docs[d].leaves[l].1.len(),
        docs[d].leaves[l].1.subrange(at, at + 3) == gram,
    ensures
        rd.postings_of(window_key(gram)) matches Ok(Some(ids)) && ids.contains(d as u32),
{
    lemma_gram_in_text_is_listed(docs, p, d, l, gram, at);
    let x = pack(window_key(gram), d as u32);
    let m = choose|m: int| 0 <= m < p.len() && p[m] == x;
    lemma_window_key_fits(gram);
    lemma_pack_parts(window_key(gram), d as u32);
    lemma_pair_is_posted(rd, p, m);
}

proof fn lemma_usable_keys(grams: Seq<Seq<char>>, n: int, i: int)
    requires
        0 <= n <= grams.len(),
        0 <= i < usable_keys(grams, n).len(),
    ensures
        exists|g: int| 0 <= g < n && gram_key(#[trigger] grams[g]) == Some(usable_keys(grams, n)[i]),
    decreases n,
{
    if n > 0 {
        let prev = usable_keys(grams, n - 1);
        if i < prev.len() {
            lemma_usable_keys(grams, n - 1, i);
            let g = choose|g: int| 0 <= g < n - 1 && gram_key(#[trigger] grams[g]) == Some(prev[i]);
            assert(gram_key(grams[g]) == Some(usable_keys(grams, n)[i]));
        } else {
            assert(gram_key(grams[n - 1]) == Some(usable_keys(grams, n)[i]));
        }
    }
}

proof fn lemma_gathered_holds(rd: BinSegmentReader, keys: Seq<u32>, n: int, d: u32)
    requires
        0 <= n <= keys.len(),
        forall|i: int|
            0 <= i < keys.len() ==> (rd.postings_of(#[trigger] keys[i]) matches Ok(Some(ids))
                && ids.contains(d)),
    ensures
        rd.gathered(BooleanOp::And, keys, n) matches Ok(Some(sets)) && sets.len() == n && (forall|
            i: int,
        | 0 <= i < sets.len() ==> (#[trigger] sets[i]).contains(d)),
    decreases n,
{
    if n > 0 {
        lemma_gathered_holds(rd, keys, n - 1, d);
        assert(rd.postings_of(keys[n - 1]) matches Ok(Some(ids)) && ids.contains(d));
    }
}

proof fn lemma_inter_all_holds(sets: Seq<Set<u32>>, d: u32)
    requires
        sets.len() > 0,
        forall|i: int| 0 <= i < sets.len() ==> (#[trigger] sets[i]).contains(d),
    ensures
        inter_all(sets).contains(d),
    decreases sets.len(),
{
    if sets.len() > 1 {
        let prev = sets.drop_last();
        assert forall|i: int| 0 <= i < prev.len() implies (#[trigger] prev[i]).contains(d) by {
            assert(prev[i] == sets[i]);
        }
        lemma_inter_all_holds(prev, d);
        assert(sets.last() == sets[sets.len() - 1]);
    } else {
        assert(sets[0].contains(d));
    }
}

/// The prefilter for required trigrams loses no document that holds
/// them: a document that stands in the posting list of every gram of
/// three bytes or more is a candidate.
pub proof fn lemma_prefilter_keeps(rd: BinSegmentReader, grams: Seq<Seq<char>>, d: u32)
    requires
        d < rd.doc_count,
        forall|g: int|
            0 <= g < grams.len() ==> (gram_key(#[trigger] grams[g]) matches Some(k) ==> (
            rd.postings_of(k) matches Ok(Some(ids)) && ids.contains(d))),
    ensures
        rd.prefiltered(BooleanOp::And, grams, None) matches Ok(s) && s.contains(d),
{
    let keys = usable_keys(grams, grams.len() as int);
    if keys.len() > 0 {
        assert forall|i: int| 0 <= i < keys.len() implies (rd.postings_of(#[trigger] keys[i])
            matches Ok(Some(ids)) && ids.contains(d)) by {
            lemma_usable_keys(grams, grams.len() as int, i);
            let g = choose|g: int|
                0 <= g < grams.len() && gram_key(#[trigger] grams[g]) == Some(keys[i]);
            assert(gram_key(grams[g]) == Some(keys[i]));
        }
        lemma_gathered_holds(rd, keys, keys.len() as int, d);
        let sets = rd.gathered(BooleanOp::And, keys, keys.len() as int)->Ok_0->0;
        lemma_inter_all_holds(sets, d);
    }
}

/// Every pair of the documents is made of the key of a window and a doc id.
pub proof fn lemma_docs_grams_are_packs(docs: Seq<InputModel>, n: int, x: u64)
    requires
        0 <= n <= docs.len(),
        docs_grams(docs, n).contains(x),
    ensures
        key_part(x) < 0x100_0000,
    decreases n,
{
    if n > 0 {
        let prev = docs_grams(docs, n - 1);
        let own = leaves_grams(docs[n - 1].leaves, (n - 1) as u32, docs[n - 1].leaves.len() as int);
        let now = docs_grams(docs, n);
        let k = choose|k: int| 0 <= k < now.len() && now[k] == x;
        if k < prev.len() {
            assert(prev[k] == x);
            lemma_docs_grams_are_packs(docs, n - 1, x);
        } else {
            assert(own[k - prev.len()] == x);
            lemma_leaves_grams_are_packs(
                docs[n - 1].leaves,
                (n - 1) as u32,
                docs[n - 1].leaves.len() as int,
                x,
            );
        }
    }
}

proof fn lemma_leaves_grams_are_packs(
    leaves: Seq<(Seq<char>, Seq<char>)>,
    d: u32,
    n: int,
    x: u64,
)
    requires
        0 <= n <= leaves.len(),
        leaves_grams(leaves, d, n).contains(x),
    ensures
        key_part(x) < 0x100_0000,
    decreases n,
{
    if n > 0 {
        let prev = leaves_grams(leaves, d, n - 1);
        let own = text_grams(leaves[n - 1].1, d);
        let now = leaves_grams(leaves, d, n);
        let k = choose|k: int| 0 <= k < now.len() && now[k] == x;
        if k < prev.len() {
            assert(prev[k] == x);
            lemma_leaves_grams_are_packs(leaves, d, n - 1, x);
        } else {
            let w = trigram_windows(leaves[n - 1].1)[k - prev.len()];
            assert(own[k - prev.len()] == x);
            lemma_window_key_fits(w);
            lemma_pack_parts(window_key(w), d);
        }
    }
}

/// Every record of the pairs `p[i..]` has the key of one of the pairs.
pub proof fn lemma_record_keys(p: Seq<u64>, i: int, off: int, k: int)
    requires
        0 <= i <= p.len(),
        0 <= k < gram_records(p, i, off).len(),
    ensures
        exists|m: int| i <= m < p.len() && gram_records(p, i, off)[k].key == key_part(#[trigger] p[m]),
    decreases p.len() - i,
{
    if i < p.len() {
        lemma_group_end(p, i);
        let e = group_end(p, i);
        let len = postings_bytes(docs_of(p, i, e)).len() as int;
        let rest = gram_records(p, e, off + len);
        if k == 0 {
            assert(gram_records(p, i, off)[0].key == key_part(p[i]));
        } else {
            assert(gram_records(p, i, off)[k] == rest[k - 1]);
            lemma_record_keys(p, e, off + len, k - 1);
            let m = choose|m: int| e <= m < p.len() && rest[k - 1].key == key_part(#[trigger] p[m]);
            assert(gram_records(p, i, off)[k].key == key_part(p[m]));
        }
    }
}

/// Whether the parts of a segment are small enough to be written.
pub open spec fn segment_fits(
    docs: Seq<InputModel>,
    ids: Seq<(Seq<char>, ())>,
    p: Seq<u64>,
    frecs: Seq<FieldRecord>,
) -> bool {
    &&& docs_fit(docs, ids)
    &&& fields_idx_fit(names_of_ids(ids), frecs)
    &&& groups_fit(p, 0)
    &&& postings_blob(p, 0).len() <= u64::MAX
    &&& gram_records(p, 0, 0).len() <= u32::MAX
}

/// What the files of a written segment hold, file by file, and that they
/// open.
pub proof fn lemma_written_segment_opens(
    img: SegmentImage,
    docs: Seq<InputModel>,
    ids: Seq<(Seq<char>, ())>,
    p: Seq<u64>,
    frecs: Seq<FieldRecord>,
    fdat: Seq<u8>,
)
    requires
        image_holds_with(img, docs, ids, p, frecs, fdat),
        segment_fits(docs, ids, p, frecs),
    ensures
        open_fault(img) is None,
        meta_at(img.meta@).doc_count == docs.len(),
        table_of(body_of(img.grams_idx@)) == gram_records(p, 0, 0),
        keys_increasing(gram_records(p, 0, 0)),
        body_of(img.grams_dat@) == postings_blob(p, 0),
        fields_idx_decoded(body_of(img.fields_idx@)) == Ok::<_, SegmentError>(
            (names_of_ids(ids), frecs),
        ),
        body_of(img.fields_dat@) == fdat,
        body_of(img.docs_dat@) == docs_dat_bytes(stored_models(docs), ids),
{
    let recs = gram_records(p, 0, 0);
    let hdr = meta_at(img.meta@);
    lemma_sealed(postings_blob(p, 0));
    lemma_sealed(grams_idx_bytes(recs));
    lemma_sealed(fdat);
    lemma_sealed(fields_idx_bytes(names_of_ids(ids), frecs));
    lemma_sealed(docs_dat_bytes(stored_models(docs), ids));
    let h = MetaHeader {
        magic: META_MAGIC,
        version: META_VERSION,
        header_len: META_HEADER_LEN,
        doc_count: docs.len() as u64,
        gram_count: recs.len() as u64,
        grams_idx_len: grams_idx_bytes(recs).len() as u64,
        grams_dat_len: postings_blob(p, 0).len() as u64,
        fields_idx_len: fields_idx_bytes(names_of_ids(ids), frecs).len() as u64,
        fields_dat_len: fdat.len() as u64,
        docs_dat_len: docs_dat_bytes(stored_models(docs), ids).len() as u64,
    };
    lemma_meta_roundtrip(h);
    lemma_sealed(meta_bytes(h));
    assert(hdr == h);
    // grams.idx
    assert forall|k: int| 0 <= k < recs.len() implies (#[trigger] recs[k]).key < 0x100_0000 by {
        lemma_record_keys(p, 0, 0, k);
        let m = choose|m: int| 0 <= m < p.len() && recs[k].key == key_part(#[trigger] p[m]);
        assert(p.contains(p[m]));
        lemma_docs_grams_are_packs(docs, docs.len() as int, p[m]);
    }
    lemma_grams_idx_roundtrip(recs);
    if p.len() > 0 {
        lemma_group_record(p, 0, 0, 0);
    } else {
        assert(recs =~= Seq::<GramRecord>::empty());
    }
    // fields.idx
    lemma_fields_idx_roundtrip(names_of_ids(ids), frecs);
    // docs.dat
    assert(stored_models(docs).len() == docs.len());
    lemma_docs_dat_header(stored_models(docs), ids);
}

/// Where the mask of a field stands, by the name of the field.
pub proof fn lemma_places(
    ids: Seq<(Seq<char>, ())>,
    recs: Seq<FieldRecord>,
    n: int,
    i: int,
)
    requires
        keys_sorted(ids),
        recs.len() == ids.len(),
        forall|k: int| 0 <= k < recs.len() ==> (#[trigger] recs[k]).field_id == k,
        0 <= i < n <= recs.len(),
    ensures
        keys_sorted(places_of(names_of_ids(ids), recs, n)),
        lookup(places_of(names_of_ids(ids), recs, n), ids[i].0) == Some(
            (recs[i].offset, recs[i].length),
        ),
    decreases n,
{
    let names = names_of_ids(ids);
    lemma_places_sorted(ids, recs, n - 1);
    let prev = places_of(names, recs, n - 1);
    let r = recs[n - 1];
    assert(names[r.field_id as int] == ids[n - 1].0);
    lemma_upserted_sorted(prev, ids[n - 1].0, (r.offset, r.length));
    lemma_upserted_lookup(prev, ids[n - 1].0, (r.offset, r.length), ids[i].0);
    if i < n - 1 {
        lemma_places(ids, recs, n - 1, i);
        assert(ids[i].0 != ids[n - 1].0) by {
            crate::strmap::lemma_lex_lt_asymmetric(ids[i].0, ids[n - 1].0);
        }
    }
}

proof fn lemma_places_sorted(ids: Seq<(Seq<char>, ())>, recs: Seq<FieldRecord>, n: int)
    requires
        recs.len() == ids.len(),
        forall|k: int| 0 <= k < recs.len() ==> (#[trigger] recs[k]).field_id == k,
        0 <= n <= recs.len(),
    ensures
        keys_sorted(places_of(names_of_ids(ids), recs, n)),
    decreases n,
{
    if n > 0 {
        lemma_places_sorted(ids, recs, n - 1);
        let r = recs[n - 1];
        lemma_upserted_sorted(
            places_of(names_of_ids(ids), recs, n - 1),
            names_of_ids(ids)[r.field_id as int],
            (r.offset, r.length),
        );
    }
}

/// The mask that the reader finds for a field of a written segment is
/// the set of the documents that have the field.
pub proof fn lemma_mask_reads_back(
    rd: BinSegmentReader,
    docs: Seq<InputModel>,
    ids: Seq<(Seq<char>, ())>,
    frecs: Seq<FieldRecord>,
    i: int,
)
    requires
        keys_sorted(ids),
        masks_stored(rd.fields_dat@, frecs, masks_of(docs, ids)),
        rd.field_places.pairs() == places_of(names_of_ids(ids), frecs, frecs.len() as int),
        0 <= i < ids.len(),
    ensures
        rd.mask_of_field(ids[i].0) == Ok::<_, SegmentError>(Some(mask_of(docs, ids[i].0))),
{
    assert(frecs.len() == ids.len());
    assert forall|k: int| 0 <= k < frecs.len() implies (#[trigger] frecs[k]).field_id == k by {}
    lemma_places(ids, frecs, frecs.len() as int, i);
    assert(masks_of(docs, ids)[i] == mask_of(docs, ids[i].0));
    assert(frecs[i].offset + frecs[i].length <= rd.fields_dat@.len());
}

/// A document of a written `docs.dat` reads back as it was stored.
pub proof fn lemma_docs_read_back(
    rd: BinSegmentReader,
    docs: Seq<InputModel>,
    ids: Seq<(Seq<char>, ())>,
    d: int,
)
    requires
        rd.docs_dat@ == docs_dat_bytes(stored_models(docs), ids),
        rd.doc_count == docs.len(),
        rd.payload_start == 24 + (rd.doc_count + 1) * 8,
        names_view(rd.field_names@) == names_of_ids(ids),
        names_of(ids, docs),
        docs_fit(docs, ids),
        0 <= d < docs.len(),
    ensures
        rd.doc_model(d as u32) == Some(stored_models(docs)[d]),
{
    let stored = stored_models(docs);
    assert(stored.len() == docs.len());
    lemma_docs_dat_layout(stored, ids, d);
    lemma_stored_is_writable(docs, ids, d);
    lemma_doc_roundtrip(stored[d], ids);
}

/// Writing a segment and reading it back gives every document as the
/// input had it: the document at the place `d` of the input has the doc
/// id `d`, its external id and its fields in their normal form.
pub proof fn lemma_written_documents_read_back(
    img: SegmentImage,
    rd: BinSegmentReader,
    docs: Seq<InputModel>,
    ids: Seq<(Seq<char>, ())>,
    p: Seq<u64>,
    frecs: Seq<FieldRecord>,
    fdat: Seq<u8>,
    d: int,
)
    requires
        image_holds_with(img, docs, ids, p, frecs, fdat),
        segment_fits(docs, ids, p, frecs),
        opened_from(rd, img),
        0 <= d < docs.len(),
    ensures
        rd.doc_count == docs.len(),
        rd.doc_model(d as u32) == Some(
            DocModel { ext_id: docs[d].ext_id, texts: folded(docs[d].leaves) },
        ),
{
    lemma_written_segment_opens(img, docs, ids, p, frecs, fdat);
    lemma_docs_read_back(rd, docs, ids, d);
}

/// The prefilter over a written segment loses no document that holds
/// the required trigrams: a document in whose field values every gram
/// stands, and which has the field if one is named, is a candidate.
pub proof fn lemma_written_segment_keeps_matches(
    img: SegmentImage,
    rd: BinSegmentReader,
    docs: Seq<InputModel>,
    ids: Seq<(Seq<char>, ())>,
    p: Seq<u64>,
    frecs: Seq<FieldRecord>,
    fdat: Seq<u8>,
    grams: Seq<Seq<char>>,
    field: Option<Seq<char>>,
    d: int,
)
    requires
        image_holds_with(img, docs, ids, p, frecs, fdat),
        segment_fits(docs, ids, p, frecs),
        opened_from(rd, img),
        0 <= d < docs.len(),
        forall|g: int|
            0 <= g < grams.len() ==> (#[trigger] grams[g]).len() == 3 && exists|l: int, at: int|
                0 <= l < docs[d].leaves.len() && 0 <= at && at + 3 <= docs[d].leaves[l].1.len()
                    && #[trigger] docs[d].leaves[l].1.subrange(at, at + 3) == grams[g],
        field matches Some(f) ==> has_leaf(docs[d], f),
    ensures
        rd.prefiltered(BooleanOp::And, grams, field) matches Ok(s) && s.contains(d as u32),
{
    lemma_written_segment_opens(img, docs, ids, p, frecs, fdat);
    assert forall|g: int| 0 <= g < grams.len() implies (gram_key(#[trigger] grams[g])
        matches Some(k) ==> (rd.postings_of(k) matches Ok(Some(ids2)) && ids2.contains(d as u32))) by {
        let (l, at) = choose|l: int, at: int|
            0 <= l < docs[d].leaves.len() && 0 <= at && at + 3 <= docs[d].leaves[l].1.len()
                && #[trigger] docs[d].leaves[l].1.subrange(at, at + 3) == grams[g];
        lemma_gram_of_document_is_posted(rd, docs, p, d, l, grams[g], at);
        crate::segment::writer::lemma_window_key(grams[g]);
    }
    lemma_prefilter_keeps(rd, grams, d as u32);
    match field {
        Some(f) => {
            let y = choose|y: int| 0 <= y < docs[d].leaves.len() && #[trigger] docs[d].leaves[y].0
                == f;
            assert(docs[d].leaves[y].0 == f);
            assert(occurs_upto(docs, docs.len() as int, 0, f));
            assert(has_key(ids, f));
            let i = crate::strmap::index_of_key(ids, f);
            lemma_mask_reads_back(rd, docs, ids, frecs, i);
            assert(mask_of(docs, f).contains(d as u32));
        },
        None => {},
    }
}

/// A segment that the writer has built opens.
pub proof fn lemma_segment_opens(img: SegmentImage, docs: Seq<InputModel>)
    requires
        image_holds(img, docs),
    ensures
        open_fault(img) is None,
{
    let (ids, p, frecs, fdat) = choose|
        ids: Seq<(Seq<char>, ())>,
        p: Seq<u64>,
        frecs: Seq<FieldRecord>,
        fdat: Seq<u8>,
    | image_holds_with(img, docs, ids, p, frecs, fdat) && segment_fits(docs, ids, p, frecs);
    lemma_written_segment_opens(img, docs, ids, p, frecs, fdat);
}

/// Round trip: a reader that has opened a segment built from documents
/// gives, for the place `d` of the input, the document with the doc id
/// `d`, with the external id of the input document and with its string
/// leaves in their normal form as its fields.
pub proof fn lemma_segment_round_trip(
    img: SegmentImage,
    rd: BinSegmentReader,
    docs: Seq<InputModel>,
    d: int,
)
    requires
        image_holds(img, docs),
        opened_from(rd, img),
        0 <= d < docs.len(),
    ensures
        rd.doc_count == docs.len(),
        rd.doc_model(d as u32) == Some(
            DocModel { ext_id: docs[d].ext_id, texts: folded(docs[d].leaves) },
        ),
{
    let (ids, p, frecs, fdat) = choose|
        ids: Seq<(Seq<char>, ())>,
        p: Seq<u64>,
        frecs: Seq<FieldRecord>,
        fdat: Seq<u8>,
    | image_holds_with(img, docs, ids, p, frecs, fdat) && segment_fits(docs, ids, p, frecs);
    lemma_written_documents_read_back(img, rd, docs, ids, p, frecs, fdat, d);
}

/// No false negatives: the prefilter of a reader that has opened a
/// segment built from documents keeps every document in whose field
/// values all the grams stand, and which has the field if one is named.
pub proof fn lemma_segment_keeps_matches(
    img: SegmentImage,
    rd: BinSegmentReader,
    docs: Seq<InputModel>,
    grams: Seq<Seq<char>>,
    field: Option<Seq<char>>,
    d: int,
)
    requires
        image_holds(img, docs),
        opened_from(rd, img),
        0 <= d < docs.len(),
        forall|g: int|
            0 <= g < grams.len() ==> (#[trigger] grams[g]).len() == 3 && exists|l: int, at: int|
                0 <= l < docs[d].leaves.len() && 0 <= at && at + 3 <= docs[d].leaves[l].1.len()
                    && #[trigger] docs[d].leaves[l].1.subrange(at, at + 3) == grams[g],
        field matches Some(f) ==> has_leaf(docs[d], f),
    ensures
        rd.prefiltered(BooleanOp::And, grams, field) matches Ok(s) && s.contains(d as u32),
{
    let (ids, p, frecs, fdat) = choose|
        ids: Seq<(Seq<char>, ())>,
        p: Seq<u64>,
        frecs: Seq<FieldRecord>,
        fdat: Seq<u8>,
    | image_holds_with(img, docs, ids, p, frecs, fdat) && segment_fits(docs, ids, p, frecs);
    lemma_written_segment_keeps_matches(img, rd, docs, ids, p, frecs, fdat, grams, field, d);
}

/// No false negatives for a literal text: where a text of three
/// characters or more stands in a field value of a document, the
/// prefilter for the trigrams of that text keeps the document.
pub proof fn lemma_segment_keeps_literal(
    img: SegmentImage,
    rd: BinSegmentReader,
    docs: Seq<InputModel>,
    literal: Seq<char>,
    d: int,
    l: int,
    at: int,
)
    requires
        image_holds(img, docs),
        opened_from(rd, img),
        0 <= d < docs.len(),
        0 <= l < docs[d].leaves.len(),
        0 <= at,
        at + literal.len() <= docs[d].leaves[l].1.len(),
        docs[d].leaves[l].1.subrange(at, at + literal.len()) == literal,
        literal.len() >= 3,
    ensures
        trigram_windows(literal).len() > 0,
        rd.prefiltered(BooleanOp::And, trigram_windows(literal), None) matches Ok(s) && s.contains(
            d as u32,
        ),
{
    let v = docs[d].leaves[l].1;
    let grams = trigram_windows(literal);
    assert forall|g: int| 0 <= g < grams.len() implies (#[trigger] grams[g]).len() == 3 && exists|
        l2: int,
        at2: int,
    |
        0 <= l2 < docs[d].leaves.len() && 0 <= at2 && at2 + 3 <= docs[d].leaves[l2].1.len()
            && #[trigger] docs[d].leaves[l2].1.subrange(at2, at2 + 3) == grams[g] by {
        lemma_windows_of_substring(v, literal, at, g);
        assert(docs[d].leaves[l].1.subrange(at + g, at + g + 3) == grams[g]);
    }
    lemma_segment_keeps_matches(img, rd, docs, grams, None, d);
}

} // verus!
