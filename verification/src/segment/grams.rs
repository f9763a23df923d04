//! The trigram index: `grams.dat`, the posting lists one after another in
//! key order, and `grams.idx`, the sorted table that finds them.

use vstd::prelude::*;
use vstd::utf8::encode_utf8;
use crate::segment::bytes::{
    le16, le16_at, le32, le32_at, le64, le64_at, push_u16, push_u32, push_u64, read_u16, read_u32,
    read_u64,
};
use crate::segment::error::{SegmentError, SegmentFile};
use crate::segment::postings::{encode_postings, postings_bytes};

verus! {

/// The magic of `grams.idx`: the letters GZID.
pub const GRAMS_IDX_MAGIC: u32 = 0x475A4944;

/// The version that `grams.idx` carries.
pub const GRAMS_IDX_VERSION: u16 = 1;

/// The length of one record of `grams.idx`.
pub const GRAM_RECORD_LEN: u32 = 24;

/// The length of the header of `grams.idx`.
pub const GRAMS_IDX_HEADER_LEN: usize = 16;

/// One record of `grams.idx`: the key, which is the first three bytes of a
/// trigram read as one number, and where its posting list stands in the
/// body of `grams.dat`.
#[derive(Debug, Clone, Copy, PartialEq, Eq, Structural)]
pub struct GramRecord {
    pub key: u32,
    pub offset: u64,
    pub length: u64,
}

/// The key of a gram: the first three bytes of its UTF-8 encoding, the
/// first byte weighing most; `None` where it has fewer than three bytes.
pub open spec fn gram_key(g: Seq<char>) -> Option<u32> {
    let b = encode_utf8(g);
    if b.len() < 3 {
        None
    } else {
        Some((b[0] as u32 * 65536 + b[1] as u32 * 256 + b[2] as u32) as u32)
    }
}

/// The key of a gram.
pub fn key_of_gram(g: &str) -> (r: Option<u32>)
    ensures
        r == gram_key(g@),
        r matches Some(k) ==> k < 0x100_0000,
{
    let b = g.as_bytes();
    if b.len() < 3 {
        None
    } else {
        Some(b[0] as u32 * 65536 + b[1] as u32 * 256 + b[2] as u32)
    }
}

/// A key and a doc id as one number, the key weighing most.
pub open spec fn pack(key: u32, doc: u32) -> u64 {
    (key as u64 * 0x1_0000_0000 + doc as u64) as u64
}

/// The key of a packed pair.
pub open spec fn key_part(x: u64) -> u32 {
    (x / 0x1_0000_0000) as u32
}

/// The doc id of a packed pair.
pub open spec fn doc_part(x: u64) -> u32 {
    (x % 0x1_0000_0000) as u32
}

/// A key and a doc id as one number.
pub(crate) fn pack_pair(key: u32, doc: u32) -> (x: u64)
    ensures
        x == pack(key, doc),
        key_part(x) == key,
        doc_part(x) == doc,
{
    key as u64 * 0x1_0000_0000 + doc as u64
}

/// Whether `v` is strictly increasing.
pub open spec fn increasing(v: Seq<u64>) -> bool {
    forall|i: int, j: int| 0 <= i < j < v.len() ==> v[i] < v[j]
}

/// Whether `v` never decreases.
pub open spec fn non_decreasing(v: Seq<u64>) -> bool {
    forall|i: int, j: int| 0 <= i <= j < v.len() ==> v[i] <= v[j]
}

/// Whether `p` lists, in increasing order and each once, exactly the
/// numbers that occur in `s`.
pub open spec fn sorted_unique_of(p: Seq<u64>, s: Seq<u64>) -> bool {
    increasing(p) && forall|x: u64| p.contains(x) <==> s.contains(x)
}

/// `<[u64]>::sort_unstable` reorders the vector so that it never
/// decreases; it holds the same numbers as before, each as often.
#[verifier::external_body]
fn sort_u64(v: &mut Vec<u64>)
    ensures
        final(v)@.to_multiset() == old(v)@.to_multiset(),
        non_decreasing(final(v)@),
{
    v.sort_unstable()
}

/// The numbers of `pairs`, each once, in increasing order.
pub fn sorted_unique(pairs: Vec<u64>) -> (p: Vec<u64>)
    ensures
        sorted_unique_of(p@, pairs@),
{
    let mut v = pairs;
    sort_u64(&mut v);
    proof {
        v@.to_multiset_ensures();
        pairs@.to_multiset_ensures();
    }
    let mut out: Vec<u64> = Vec::new();
    let mut i: usize = 0;
    while i < v.len()
        invariant
            i <= v.len(),
            non_decreasing(v@),
            increasing(out@),
            forall|x: u64| out@.contains(x) <==> v@.take(i as int).contains(x),
            out@.len() > 0 ==> i > 0 && out@.last() == v@[i - 1],
            i > 0 ==> out@.len() > 0,
        decreases v.len() - i,
    {
        let x = v[i];
        let ghost before = out@;
        let fresh = i == 0 || v[i - 1] != x;
        if fresh {
            out.push(x);
        }
        proof {
            let t = v@.take(i + 1);
            assert(t =~= v@.take(i as int).push(x));
            assert forall|y: u64| out@.contains(y) <==> t.contains(y) by {
                if out@.contains(y) {
                    let k = choose|k: int| 0 <= k < out@.len() && out@[k] == y;
                    if k < before.len() {
                        assert(before.contains(y));
                        let m = choose|m: int| 0 <= m < i && v@.take(i as int)[m] == y;
                        assert(t[m] == y);
                    } else {
                        assert(t[i as int] == y);
                    }
                }
                if t.contains(y) {
                    let m = choose|m: int| 0 <= m < t.len() && t[m] == y;
                    if m < i {
                        assert(v@.take(i as int)[m] == y);
                        assert(before.contains(y));
                        let k = choose|k: int| 0 <= k < before.len() && before[k] == y;
                        assert(out@[k] == y);
                    } else if fresh {
                        assert(out@[out@.len() - 1] == y);
                    } else {
                        assert(v@.take(i as int)[i - 1] == y);
                        assert(before.contains(y));
                        let k = choose|k: int| 0 <= k < before.len() && before[k] == y;
                        assert(out@[k] == y);
                    }
                }
            }
            if fresh && i > 0 {
                assert forall|a: int, b: int| 0 <= a < b < out@.len() implies out@[a] < out@[b] by {
                    if b == out@.len() - 1 {
                        assert(before[a] <= before.last());
                    }
                }
            }
        }
        i += 1;
    }
    proof {
        assert(v@.take(v.len() as int) =~= v@);
        assert forall|x: u64| out@.contains(x) <==> pairs@.contains(x) by {
            assert(v@.contains(x) <==> v@.to_multiset().count(x) > 0);
            assert(pairs@.contains(x) <==> pairs@.to_multiset().count(x) > 0);
        }
    }
    out
}

/// The index one past the last pair of `p` that has the key of `p[i]`.
pub open spec fn group_end(p: Seq<u64>, i: int) -> int
    decreases p.len() - i,
{
    if 0 <= i < p.len() {
        if i + 1 < p.len() && key_part(p[i + 1]) == key_part(p[i]) {
            group_end(p, i + 1)
        } else {
            i + 1
        }
    } else {
        i
    }
}

/// The doc ids of the pairs `p[i..e]`.
pub open spec fn docs_of(p: Seq<u64>, i: int, e: int) -> Seq<u32> {
    p.subrange(i, e).map_values(|x: u64| doc_part(x))
}

/// The body of `grams.dat` for the pairs `p[i..]`: one posting list per
/// key, in key order.
pub open spec fn postings_blob(p: Seq<u64>, i: int) -> Seq<u8>
    decreases p.len() - i,
{
    if 0 <= i < p.len() {
        let e = group_end(p, i);
        if i < e <= p.len() {
            postings_bytes(docs_of(p, i, e)) + postings_blob(p, e)
        } else {
            Seq::empty()
        }
    } else {
        Seq::empty()
    }
}

/// The records of `grams.idx` for the pairs `p[i..]`, the first list
/// standing at `offset`.
pub open spec fn gram_records(p: Seq<u64>, i: int, offset: int) -> Seq<GramRecord>
    decreases p.len() - i,
{
    if 0 <= i < p.len() {
        let e = group_end(p, i);
        if i < e <= p.len() {
            let len = postings_bytes(docs_of(p, i, e)).len();
            seq![
                GramRecord { key: key_part(p[i]), offset: offset as u64, length: len as u64 },
            ] + gram_records(p, e, offset + len)
        } else {
            Seq::empty()
        }
    } else {
        Seq::empty()
    }
}

/// Whether no key of `p[i..]` has more doc ids than a count can say.
pub open spec fn groups_fit(p: Seq<u64>, i: int) -> bool
    decreases p.len() - i,
{
    if 0 <= i < p.len() {
        let e = group_end(p, i);
        i < e <= p.len() && e - i <= u32::MAX && groups_fit(p, e)
    } else {
        true
    }
}

pub proof fn lemma_group_end(p: Seq<u64>, i: int)
    requires
        0 <= i < p.len(),
    ensures
        i < group_end(p, i) <= p.len(),
        forall|k: int| i <= k < group_end(p, i) ==> key_part(#[trigger] p[k]) == key_part(p[i]),
        group_end(p, i) < p.len() ==> key_part(p[group_end(p, i)]) != key_part(p[i]),
    decreases p.len() - i,
{
    if i + 1 < p.len() && key_part(p[i + 1]) == key_part(p[i]) {
        lemma_group_end(p, i + 1);
    }
}

/// Writes the posting lists of the pairs `p` and gives the body of
/// `grams.dat` with the records that find each list in it.
pub fn encode_grams(p: &Vec<u64>) -> (r: Result<(Vec<u8>, Vec<GramRecord>), SegmentError>)
    requires
        increasing(p@),
    ensures
        match r {
            Ok((dat, recs)) => groups_fit(p@, 0) && dat@ == postings_blob(p@, 0) && recs@
                == gram_records(p@, 0, 0),
            Err(e) => e == SegmentError::TooLarge && !groups_fit(p@, 0),
        },
{
    let mut dat: Vec<u8> = Vec::new();
    let mut recs: Vec<GramRecord> = Vec::new();
    let mut i: usize = 0;
    proof {
        assert(dat@ + postings_blob(p@, 0) =~= postings_blob(p@, 0));
        assert(recs@ + gram_records(p@, 0, 0) =~= gram_records(p@, 0, 0));
    }
    while i < p.len()
        invariant
            i <= p.len(),
            increasing(p@),
            groups_fit(p@, 0) == groups_fit(p@, i as int),
            dat@ + postings_blob(p@, i as int) == postings_blob(p@, 0),
            recs@ + gram_records(p@, i as int, dat@.len() as int) == gram_records(p@, 0, 0),
        decreases p.len() - i,
    {
        let key: u32 = (p[i] / 0x1_0000_0000) as u32;
        let mut docs: Vec<u32> = Vec::new();
        let mut e: usize = i;
        proof {
            lemma_group_end(p@, i as int);
            assert(docs_of(p@, i as int, i as int) =~= Seq::<u32>::empty());
        }
        while e < p.len() && (p[e] / 0x1_0000_0000) as u32 == key
            invariant
                i <= e <= p.len(),
                e <= group_end(p@, i as int),
                key == key_part(p@[i as int]),
                i < p.len(),
                docs@ == docs_of(p@, i as int, e as int),
                forall|k: int| i <= k < group_end(p@, i as int) ==> key_part(#[trigger] p@[k])
                    == key_part(p@[i as int]),
                group_end(p@, i as int) < p.len() ==> key_part(p@[group_end(p@, i as int)])
                    != key_part(p@[i as int]),
                group_end(p@, i as int) <= p.len(),
            decreases p.len() - e,
        {
            docs.push((p[e] % 0x1_0000_0000) as u32);
            proof {
                assert(docs_of(p@, i as int, e + 1) =~= docs_of(p@, i as int, e as int).push(
                    doc_part(p@[e as int]),
                ));
            }
            e += 1;
        }
        proof {
            assert(e == group_end(p@, i as int));
        }
        if docs.len() > 0xFFFF_FFFF {
            return Err(SegmentError::TooLarge);
        }
        proof {
            let d = docs@;
            assert forall|a: int, b: int| 0 <= a < b < d.len() implies d[a] < d[b] by {
                let x = p@[i + a];
                let y = p@[i + b];
                assert(x < y);
                assert(key_part(x) == key_part(y));
                assert(d[a] == doc_part(x) && d[b] == doc_part(y));
            }
            assert(docs@.subrange(0, docs@.len() as int) =~= docs@);
        }
        let offset: usize = dat.len();
        let ghost before = dat@;
        encode_postings(&docs, 0, docs.len(), &mut dat);
        let length: usize = dat.len() - offset;
        let ghost rec = GramRecord { key, offset: offset as u64, length: length as u64 };
        let ghost recs_before = recs@;
        recs.push(GramRecord { key, offset: offset as u64, length: length as u64 });
        proof {
            assert(before + postings_blob(p@, i as int) =~= dat@ + postings_blob(p@, e as int));
            assert(recs_before + gram_records(p@, i as int, before.len() as int) =~= recs@
                + gram_records(p@, e as int, dat@.len() as int));
        }
        i = e;
    }
    proof {
        assert(dat@ + Seq::<u8>::empty() =~= dat@);
        assert(recs@ + Seq::<GramRecord>::empty() =~= recs@);
    }
    Ok((dat, recs))
}

/// The three bytes of a key, the first weighing most.
pub open spec fn key_bytes(key: u32) -> Seq<u8> {
    seq![(key / 65536 % 256) as u8, (key / 256 % 256) as u8, (key % 256) as u8]
}

/// The key that stands at `at` in `b`.
pub open spec fn key_at(b: Seq<u8>, at: int) -> u32 {
    (b[at] as u32 * 65536 + b[at + 1] as u32 * 256 + b[at + 2] as u32) as u32
}

/// One record as it stands in `grams.idx`: key, offset, length and five
/// bytes of padding.
pub open spec fn record_bytes(r: GramRecord) -> Seq<u8> {
    key_bytes(r.key) + le64(r.offset) + le64(r.length) + seq![0u8, 0u8, 0u8, 0u8, 0u8]
}

/// The records of a table, one after another.
pub open spec fn records_bytes(recs: Seq<GramRecord>) -> Seq<u8>
    decreases recs.len(),
{
    if recs.len() == 0 {
        Seq::empty()
    } else {
        records_bytes(recs.drop_last()) + record_bytes(recs.last())
    }
}

/// The body of `grams.idx`: magic, version, flags, the number of records,
/// the record length, then the records.
pub open spec fn grams_idx_bytes(recs: Seq<GramRecord>) -> Seq<u8> {
    le32(GRAMS_IDX_MAGIC) + le16(GRAMS_IDX_VERSION) + le16(0) + le32(recs.len() as u32) + le32(
        GRAM_RECORD_LEN,
    ) + records_bytes(recs)
}

/// Writes the body of `grams.idx`.
pub fn encode_grams_idx(recs: &Vec<GramRecord>) -> (r: Result<Vec<u8>, SegmentError>)
    ensures
        match r {
            Ok(b) => recs.len() <= u32::MAX && b@ == grams_idx_bytes(recs@),
            Err(e) => e == SegmentError::TooLarge && recs.len() > u32::MAX,
        },
{
    if recs.len() > 0xFFFF_FFFF {
        return Err(SegmentError::TooLarge);
    }
    let mut out: Vec<u8> = Vec::new();
    push_u32(&mut out, GRAMS_IDX_MAGIC);
    push_u16(&mut out, GRAMS_IDX_VERSION);
    push_u16(&mut out, 0);
    push_u32(&mut out, recs.len() as u32);
    push_u32(&mut out, GRAM_RECORD_LEN);
    let ghost head = out@;
    let mut i: usize = 0;
    proof {
        assert(recs@.take(0) =~= Seq::<GramRecord>::empty());
        assert(head + records_bytes(recs@.take(0)) =~= head);
        assert(head =~= le32(GRAMS_IDX_MAGIC) + le16(GRAMS_IDX_VERSION) + le16(0) + le32(
            recs.len() as u32,
        ) + le32(GRAM_RECORD_LEN));
    }
    while i < recs.len()
        invariant
            i <= recs.len(),
            out@ == head + records_bytes(recs@.take(i as int)),
        decreases recs.len() - i,
    {
        let r = recs[i];
        let ghost before = out@;
        out.push((r.key / 65536 % 256) as u8);
        out.push((r.key / 256 % 256) as u8);
        out.push((r.key % 256) as u8);
        push_u64(&mut out, r.offset);
        push_u64(&mut out, r.length);
        out.push(0);
        out.push(0);
        out.push(0);
        out.push(0);
        out.push(0);
        proof {
            assert(out@ =~= before + record_bytes(r));
            assert(recs@.take(i + 1).drop_last() =~= recs@.take(i as int));
            assert(recs@.take(i + 1).last() == r);
            assert(out@ =~= head + records_bytes(recs@.take(i + 1)));
        }
        i += 1;
    }
    proof {
        assert(recs@.take(recs.len() as int) =~= recs@);
        assert(out@ =~= grams_idx_bytes(recs@));
    }
    Ok(out)
}

/// Whether the keys of a table are strictly increasing.
pub open spec fn keys_increasing(recs: Seq<GramRecord>) -> bool {
    forall|i: int, j: int| 0 <= i < j < recs.len() ==> recs[i].key < recs[j].key
}

/// The record that stands at index `i` of the table in the body `b`.
pub open spec fn record_at(b: Seq<u8>, i: int) -> GramRecord {
    let at = 16 + i * 24;
    GramRecord { key: key_at(b, at), offset: le64_at(b, at + 3), length: le64_at(b, at + 11) }
}

/// The table that the body `b` of `grams.idx` holds, record by record.
pub open spec fn table_of(b: Seq<u8>) -> Seq<GramRecord> {
    Seq::new(le32_at(b, 8) as nat, |i: int| record_at(b, i))
}

/// What is wrong with the body `b` of `grams.idx`, if anything: it is
/// shorter than its header, has another magic, version or record length,
/// is shorter than its records, or its keys are out of order.
pub open spec fn grams_idx_fault(b: Seq<u8>) -> Option<SegmentError> {
    if b.len() < 16 {
        Some(SegmentError::TooSmall { file: SegmentFile::GramsIdx })
    } else if le32_at(b, 0) != GRAMS_IDX_MAGIC || le16_at(b, 4) != GRAMS_IDX_VERSION {
        Some(SegmentError::BadMagic { file: SegmentFile::GramsIdx })
    } else if le32_at(b, 12) != GRAM_RECORD_LEN || 16 + le32_at(b, 8) * 24 > b.len()
        || !keys_increasing(table_of(b)) {
        Some(SegmentError::BadIndex { file: SegmentFile::GramsIdx })
    } else {
        None
    }
}

/// Reads the table of the body `b` of `grams.idx`.
pub fn parse_grams_idx(b: &[u8]) -> (r: Result<Vec<GramRecord>, SegmentError>)
    ensures
        match r {
            Ok(recs) => grams_idx_fault(b@) is None && recs@ == table_of(b@) && keys_increasing(
                recs@,
            ),
            Err(e) => grams_idx_fault(b@) == Some(e),
        },
{
    if b.len() < GRAMS_IDX_HEADER_LEN {
        return Err(SegmentError::TooSmall { file: SegmentFile::GramsIdx });
    }
    if read_u32(b, 0) != GRAMS_IDX_MAGIC || read_u16(b, 4) != GRAMS_IDX_VERSION {
        return Err(SegmentError::BadMagic { file: SegmentFile::GramsIdx });
    }
    let count: u32 = read_u32(b, 8);
    if read_u32(b, 12) != GRAM_RECORD_LEN {
        return Err(SegmentError::BadIndex { file: SegmentFile::GramsIdx });
    }
    if (b.len() - 16) / 24 < count as usize {
        proof {
            assert(16 + count * 24 > b.len());
        }
        return Err(SegmentError::BadIndex { file: SegmentFile::GramsIdx });
    }
    proof {
        assert(16 + count * 24 <= b.len());
    }
    let mut recs: Vec<GramRecord> = Vec::new();
    let mut i: usize = 0;
    while i < count as usize
        invariant
            i <= count,
            16 + count * 24 <= b.len(),
            count == le32_at(b@, 8),
            le32_at(b@, 0) == GRAMS_IDX_MAGIC,
            le16_at(b@, 4) == GRAMS_IDX_VERSION,
            le32_at(b@, 12) == GRAM_RECORD_LEN,
            recs@ == table_of(b@).take(i as int),
            keys_increasing(recs@),
        decreases count - i,
    {
        let at: usize = 16 + i * 24;
        let key: u32 = b[at] as u32 * 65536 + b[at + 1] as u32 * 256 + b[at + 2] as u32;
        let rec = GramRecord { key, offset: read_u64(b, at + 3), length: read_u64(b, at + 11) };
        proof {
            assert(rec == record_at(b@, i as int));
            assert(table_of(b@).take(i + 1) =~= table_of(b@).take(i as int).push(rec));
        }
        if i > 0 && recs[i - 1].key >= key {
            proof {
                let t = table_of(b@);
                assert(t[i - 1] == recs@[i - 1]);
                assert(t[i as int] == rec);
                assert(!keys_increasing(t));
            }
            return Err(SegmentError::BadIndex { file: SegmentFile::GramsIdx });
        }
        let ghost before = recs@;
        recs.push(rec);
        proof {
            assert forall|x: int, y: int| 0 <= x < y < recs@.len() implies recs@[x].key
                < recs@[y].key by {
                if y == recs@.len() - 1 && x < y - 1 {
                    assert(before[x].key < before[y - 1].key);
                }
            }
        }
        i += 1;
    }
    proof {
        assert(table_of(b@).take(count as int) =~= table_of(b@));
    }
    Ok(recs)
}

/// Where the posting list of `key` stands, if the table has the key.
pub open spec fn gram_place(recs: Seq<GramRecord>, key: u32) -> Option<(u64, u64)> {
    if exists|i: int| 0 <= i < recs.len() && recs[i].key == key {
        let i = choose|i: int| 0 <= i < recs.len() && recs[i].key == key;
        Some((recs[i].offset, recs[i].length))
    } else {
        None
    }
}

/// Finds the posting list of `key` by binary search.
pub fn lookup_gram(recs: &Vec<GramRecord>, key: u32) -> (r: Option<(u64, u64)>)
    requires
        keys_increasing(recs@),
    ensures
        r == gram_place(recs@, key),
{
    let mut lo: usize = 0;
    let mut hi: usize = recs.len();
    while lo < hi
        invariant
            lo <= hi <= recs.len(),
            keys_increasing(recs@),
            forall|i: int| 0 <= i < lo ==> recs@[i].key < key,
            forall|i: int| hi <= i < recs.len() ==> recs@[i].key > key,
        decreases hi - lo,
    {
        let mid: usize = lo + (hi - lo) / 2;
        let k = recs[mid].key;
        if k < key {
            lo = mid + 1;
        } else if k > key {
            hi = mid;
        } else {
            proof {
                let j = choose|i: int| 0 <= i < recs.len() && recs@[i].key == key;
                if j < mid {
                    assert(recs@[j].key < recs@[mid as int].key);
                } else if j > mid {
                    assert(recs@[mid as int].key < recs@[j].key);
                }
            }
            return Some((recs[mid].offset, recs[mid].length));
        }
    }
    None
}

} // verus!
