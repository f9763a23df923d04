//! The per-field document masks: `fields.dat`, one framed roaring bitmap
//! per field, and `fields.idx`, the field names and where each mask stands.

use vstd::prelude::*;
use vstd::slice::slice_subrange;
use vstd::utf8::encode_utf8;
use croaring::Bitmap;
use crate::bitmap::{
    bitmap_deserialize, bitmap_members, bitmap_new, bitmap_portable, bitmap_serialize,
    roaring_decoded,
};
use crate::segment::bytes::{
    le16, le32, le32_at, le64, le64_at, lemma_le_roundtrip, push_bytes, push_u16, push_u32,
    push_u64, read_u32, read_u64,
};
use crate::segment::docs::string_at;
use crate::segment::error::{SegmentError, SegmentFile};
use crate::text::utf8_to_string;
use crate::varint::{decode_varint, put_varint, varint_bytes};

verus! {

/// The magic of `fields.idx`: the letters GZFI.
pub const FIELDS_IDX_MAGIC: u32 = 0x475A4649;

/// The version that `fields.idx` carries.
pub const FIELDS_IDX_VERSION: u16 = 1;

/// The kind byte of a mask stored as a roaring bitmap.
pub const MASK_ROARING: u8 = 1;

/// The length of one record of `fields.idx`.
pub const FIELD_RECORD_LEN: usize = 20;

/// One record of `fields.idx`: the field's id and where its mask stands in
/// the body of `fields.dat`.
#[derive(Debug, Clone, Copy, PartialEq, Eq, Structural)]
pub struct FieldRecord {
    pub field_id: u32,
    pub offset: u64,
    pub length: u64,
}

/// The doc ids of the mask that fills `body`: none for an empty body, the
/// decoded roaring bitmap for a mask of that kind; `None` where the frame
/// is of another kind or shorter than it says.
pub open spec fn mask_decoded(body: Seq<u8>) -> Option<Set<u32>> {
    if body.len() == 0 {
        Some(Set::empty())
    } else if body[0] != 1 || body.len() < 5 || 5 + le32_at(body, 1) > body.len() {
        None
    } else {
        Some(roaring_decoded(body.subrange(5, 5 + le32_at(body, 1))))
    }
}

/// Reads the mask that fills `body`.
pub fn read_field_bitmap(body: &[u8]) -> (r: Result<Bitmap, SegmentError>)
    ensures
        match r {
            Ok(b) => mask_decoded(body@) == Some(bitmap_members(b)),
            Err(e) => mask_decoded(body@) is None && e == SegmentError::BadFieldMask,
        },
{
    if body.len() == 0 {
        return Ok(bitmap_new());
    }
    if body[0] != MASK_ROARING || body.len() < 5 {
        return Err(SegmentError::BadFieldMask);
    }
    let payload_len: usize = read_u32(body, 1) as usize;
    if payload_len > body.len() - 5 {
        return Err(SegmentError::BadFieldMask);
    }
    let payload = slice_subrange(body, 5, 5 + payload_len);
    Ok(bitmap_deserialize(payload))
}

/// The lengths of the first `n` frames together.
pub open spec fn frames_len(recs: Seq<FieldRecord>, n: int) -> int
    decreases n,
{
    if n <= 0 || n > recs.len() {
        0
    } else {
        frames_len(recs, n - 1) + recs[n - 1].length
    }
}

/// Whether `recs` and `dat` hold the masks `masks`, one frame per field in
/// field order, each starting where the one before ends.
pub open spec fn masks_stored(dat: Seq<u8>, recs: Seq<FieldRecord>, masks: Seq<Set<u32>>) -> bool {
    &&& recs.len() == masks.len()
    &&& forall|i: int|
        0 <= i < recs.len() ==> {
            &&& (#[trigger] recs[i]).field_id == i
            &&& recs[i].offset == frames_len(recs, i)
            &&& recs[i].offset + recs[i].length <= dat.len()
            &&& mask_decoded(
                dat.subrange(recs[i].offset as int, recs[i].offset + recs[i].length),
            ) == Some(masks[i])
        }
    &&& dat.len() == frames_len(recs, recs.len() as int)
}

proof fn lemma_frames_len_push(recs: Seq<FieldRecord>, rec: FieldRecord, n: int)
    requires
        0 <= n <= recs.len(),
    ensures
        frames_len(recs.push(rec), n) == frames_len(recs, n),
    decreases n,
{
    if n > 0 {
        lemma_frames_len_push(recs, rec, n - 1);
        assert(recs.push(rec)[n - 1] == recs[n - 1]);
    }
}

/// Storing one more mask after the others keeps them all stored.
pub proof fn lemma_masks_stored_push(
    dat: Seq<u8>,
    recs: Seq<FieldRecord>,
    masks: Seq<Set<u32>>,
    frame: Seq<u8>,
    mask: Set<u32>,
)
    requires
        masks_stored(dat, recs, masks),
        mask_decoded(frame) == Some(mask),
        recs.len() <= u32::MAX,
        dat.len() + frame.len() <= u64::MAX,
    ensures
        masks_stored(
            dat + frame,
            recs.push(
                FieldRecord {
                    field_id: recs.len() as u32,
                    offset: dat.len() as u64,
                    length: frame.len() as u64,
                },
            ),
            masks.push(mask),
        ),
{
    let rec = FieldRecord {
        field_id: recs.len() as u32,
        offset: dat.len() as u64,
        length: frame.len() as u64,
    };
    let dat2 = dat + frame;
    let recs2 = recs.push(rec);
    let masks2 = masks.push(mask);
    lemma_frames_len_push(recs, rec, recs.len() as int);
    assert(recs2[recs.len() as int] == rec);
    assert(frames_len(recs2, recs2.len() as int) == frames_len(recs, recs.len() as int)
        + frame.len());
    assert forall|k: int| 0 <= k < recs2.len() implies {
        &&& (#[trigger] recs2[k]).field_id == k
        &&& recs2[k].offset == frames_len(recs2, k)
        &&& recs2[k].offset + recs2[k].length <= dat2.len()
        &&& mask_decoded(dat2.subrange(recs2[k].offset as int, recs2[k].offset + recs2[k].length))
            == Some(masks2[k])
    } by {
        lemma_frames_len_push(recs, rec, k);
        if k < recs.len() {
            assert(recs2[k] == recs[k]);
            assert(dat2.subrange(recs[k].offset as int, recs[k].offset + recs[k].length)
                =~= dat.subrange(recs[k].offset as int, recs[k].offset + recs[k].length));
        } else {
            assert(dat2.subrange(dat.len() as int, (dat.len() + frame.len()) as int) =~= frame);
        }
    }
}

/// The sets that a sequence of bitmaps holds.
pub open spec fn sets_of(masks: Seq<Bitmap>) -> Seq<Set<u32>> {
    masks.map_values(|b: Bitmap| bitmap_members(b))
}

/// Whether the masks can be framed: every one has a field id of 32
/// bits, and none is longer in its portable form than a length of 32
/// bits can say.
pub open spec fn masks_fit(masks: Seq<Bitmap>) -> bool {
    &&& masks.len() <= 0x1_0000_0000
    &&& forall|i: int| 0 <= i < masks.len() ==> bitmap_portable(#[trigger] masks[i]).len() <= u32::MAX
}

/// Writes the body of `fields.dat` for the masks `masks`, in field order,
/// and gives the records that find each mask in it. `TooLarge` is
/// returned exactly where the masks do not fit.
pub fn encode_fields_dat(masks: &Vec<Bitmap>) -> (r: Result<
    (Vec<u8>, Vec<FieldRecord>),
    SegmentError,
>)
    ensures
        match r {
            Ok((dat, recs)) => masks_fit(masks@) && masks_stored(dat@, recs@, sets_of(masks@)),
            Err(e) => e == SegmentError::TooLarge && !masks_fit(masks@),
        },
{
    let mut dat: Vec<u8> = Vec::new();
    let mut recs: Vec<FieldRecord> = Vec::new();
    let mut i: usize = 0;
    while i < masks.len()
        invariant
            i <= masks.len(),
            i <= 0x1_0000_0000,
            forall|k: int| 0 <= k < i ==> bitmap_portable(#[trigger] masks@[k]).len() <= u32::MAX,
            masks_stored(dat@, recs@, sets_of(masks@).take(i as int)),
        decreases masks.len() - i,
    {
        if i > 0xFFFF_FFFF {
            return Err(SegmentError::TooLarge);
        }
        let payload = bitmap_serialize(&masks[i]);
        if payload.len() > 0xFFFF_FFFF {
            return Err(SegmentError::TooLarge);
        }
        let offset: usize = dat.len();
        let ghost before = dat@;
        let ghost recs_before = recs@;
        dat.push(MASK_ROARING);
        push_u32(&mut dat, payload.len() as u32);
        push_bytes(&mut dat, payload.as_slice());
        let length: usize = dat.len() - offset;
        let rec = FieldRecord { field_id: i as u32, offset: offset as u64, length: length as u64 };
        recs.push(rec);
        proof {
            let frame = seq![1u8] + le32(payload.len() as u32) + payload@;
            assert(dat@ =~= before + frame);
            lemma_le_roundtrip(seq![1u8], payload@);
            assert(frame.subrange(5, 5 + payload.len()) =~= payload@);
            assert(mask_decoded(frame) == Some(bitmap_members(masks@[i as int])));
            let want = sets_of(masks@).take(i + 1);
            assert(want =~= sets_of(masks@).take(i as int).push(bitmap_members(masks@[i as int])));
            lemma_masks_stored_push(
                before,
                recs_before,
                sets_of(masks@).take(i as int),
                frame,
                bitmap_members(masks@[i as int]),
            );
            assert(rec == FieldRecord {
                field_id: recs_before.len() as u32,
                offset: before.len() as u64,
                length: frame.len() as u64,
            });
        }
        i += 1;
    }
    proof {
        assert(sets_of(masks@).take(masks.len() as int) =~= sets_of(masks@));
    }
    Ok((dat, recs))
}

/// The names of the dictionary, each as the length of its UTF-8 bytes and
/// the bytes.
pub open spec fn dict_bytes(names: Seq<Seq<char>>) -> Seq<u8>
    decreases names.len(),
{
    if names.len() == 0 {
        Seq::empty()
    } else {
        dict_bytes(names.drop_last()) + varint_bytes(encode_utf8(names.last()).len() as u64)
            + encode_utf8(names.last())
    }
}

/// One record as it stands in `fields.idx`.
pub open spec fn field_record_bytes(r: FieldRecord) -> Seq<u8> {
    le32(r.field_id) + le64(r.offset) + le64(r.length)
}

/// The records of `fields.idx`, one after another.
pub open spec fn field_records_bytes(recs: Seq<FieldRecord>) -> Seq<u8>
    decreases recs.len(),
{
    if recs.len() == 0 {
        Seq::empty()
    } else {
        field_records_bytes(recs.drop_last()) + field_record_bytes(recs.last())
    }
}

/// The body of `fields.idx`: magic, version, flags, the number of fields,
/// the length of the name dictionary, the dictionary, the records.
pub open spec fn fields_idx_bytes(names: Seq<Seq<char>>, recs: Seq<FieldRecord>) -> Seq<u8> {
    le32(FIELDS_IDX_MAGIC) + le16(FIELDS_IDX_VERSION) + le16(0) + le32(names.len() as u32) + le32(
        dict_bytes(names).len() as u32,
    ) + dict_bytes(names) + field_records_bytes(recs)
}

/// The texts of a sequence of strings.
pub open spec fn names_view(names: Seq<String>) -> Seq<Seq<char>> {
    names.map_values(|s: String| s@)
}

/// Writes the body of `fields.idx`.
pub fn encode_fields_idx(names: &Vec<String>, recs: &Vec<FieldRecord>) -> (r: Result<
    Vec<u8>,
    SegmentError,
>)
    ensures
        match r {
            Ok(b) => b@ == fields_idx_bytes(names_view(names@), recs@) && names.len() <= u32::MAX
                && dict_bytes(names_view(names@)).len() <= u32::MAX && (forall|k: int|
                0 <= k < names.len() ==> encode_utf8(#[trigger] names_view(names@)[k]).len()
                    <= u64::MAX),
            Err(e) => e == SegmentError::TooLarge && (names.len() > u32::MAX || dict_bytes(
                names_view(names@),
            ).len() > u32::MAX),
        },
{
    if names.len() > 0xFFFF_FFFF {
        return Err(SegmentError::TooLarge);
    }
    let mut dict: Vec<u8> = Vec::new();
    let mut i: usize = 0;
    proof {
        assert(names_view(names@).take(0) =~= Seq::<Seq<char>>::empty());
    }
    while i < names.len()
        invariant
            i <= names.len(),
            dict@ == dict_bytes(names_view(names@).take(i as int)),
            forall|k: int|
                0 <= k < i ==> encode_utf8(#[trigger] names_view(names@)[k]).len() <= u64::MAX,
        decreases names.len() - i,
    {
        let b = names[i].as_str().as_bytes();
        put_varint(b.len() as u64, &mut dict);
        push_bytes(&mut dict, b);
        proof {
            let t = names_view(names@).take(i + 1);
            assert(t.drop_last() =~= names_view(names@).take(i as int));
            assert(t.last() == names@[i as int]@);
        }
        i += 1;
    }
    proof {
        assert(names_view(names@).take(names.len() as int) =~= names_view(names@));
    }
    if dict.len() > 0xFFFF_FFFF {
        return Err(SegmentError::TooLarge);
    }
    let mut out: Vec<u8> = Vec::new();
    push_u32(&mut out, FIELDS_IDX_MAGIC);
    push_u16(&mut out, FIELDS_IDX_VERSION);
    push_u16(&mut out, 0);
    push_u32(&mut out, names.len() as u32);
    push_u32(&mut out, dict.len() as u32);
    push_bytes(&mut out, dict.as_slice());
    let ghost head = out@;
    let mut k: usize = 0;
    proof {
        assert(recs@.take(0) =~= Seq::<FieldRecord>::empty());
        assert(head + field_records_bytes(recs@.take(0)) =~= head);
    }
    while k < recs.len()
        invariant
            k <= recs.len(),
            out@ == head + field_records_bytes(recs@.take(k as int)),
        decreases recs.len() - k,
    {
        let r = recs[k];
        let ghost before = out@;
        push_u32(&mut out, r.field_id);
        push_u64(&mut out, r.offset);
        push_u64(&mut out, r.length);
        proof {
            assert(out@ =~= before + field_record_bytes(r));
            assert(recs@.take(k + 1).drop_last() =~= recs@.take(k as int));
            assert(recs@.take(k + 1).last() == r);
            assert(out@ =~= head + field_records_bytes(recs@.take(k + 1)));
        }
        k += 1;
    }
    proof {
        assert(recs@.take(recs.len() as int) =~= recs@);
        assert(out@ =~= fields_idx_bytes(names_view(names@), recs@));
    }
    Ok(out)
}

/// The `count` names that stand at `at` in `b`, each as a length and that
/// many bytes of UTF-8, with the position after the last; `None` where a
/// length is broken, runs past the end, or the bytes are no UTF-8.
pub open spec fn names_decoded(b: Seq<u8>, at: int, count: nat) -> Option<(Seq<Seq<char>>, int)>
    decreases count,
{
    if count == 0 {
        Some((Seq::empty(), at))
    } else {
        match string_at(b, at) {
            None => None,
            Some((name, to)) => match names_decoded(b, to, (count - 1) as nat) {
                None => None,
                Some((rest, end)) => Some((seq![name] + rest, end)),
            },
        }
    }
}

/// The record that stands at `at` in `b`.
pub open spec fn field_record_at(b: Seq<u8>, at: int) -> FieldRecord {
    FieldRecord { field_id: le32_at(b, at), offset: le64_at(b, at + 4), length: le64_at(b, at + 12) }
}

/// The `count` records that start at `at` in `b`.
pub open spec fn field_records_at(b: Seq<u8>, at: int, count: nat) -> Seq<FieldRecord> {
    Seq::new(count, |i: int| field_record_at(b, at + i * 20))
}

/// What the body of `fields.idx` holds: the names by field id, and the
/// records.
pub struct FieldsIndex {
    pub names: Vec<String>,
    pub records: Vec<FieldRecord>,
}

/// What the body `b` of `fields.idx` holds: the names and the records,
/// which start where the header says the dictionary ends; or what is
/// wrong with it.
pub open spec fn fields_idx_decoded(b: Seq<u8>) -> Result<
    (Seq<Seq<char>>, Seq<FieldRecord>),
    SegmentError,
> {
    if b.len() < 16 {
        Err(SegmentError::TooSmall { file: SegmentFile::FieldsIdx })
    } else if le32_at(b, 0) != FIELDS_IDX_MAGIC {
        Err(SegmentError::BadMagic { file: SegmentFile::FieldsIdx })
    } else {
        let count = le32_at(b, 8) as nat;
        let recs_at = 16 + le32_at(b, 12);
        match names_decoded(b, 16, count) {
            None => Err(SegmentError::BadIndex { file: SegmentFile::FieldsIdx }),
            Some((names, end)) => if recs_at + count * 20 > b.len() || !records_in_range(
                field_records_at(b, recs_at, count),
                count,
            ) {
                Err(SegmentError::BadIndex { file: SegmentFile::FieldsIdx })
            } else {
                Ok((names, field_records_at(b, recs_at, count)))
            },
        }
    }
}

/// Whether every record names a field below `count`.
pub open spec fn records_in_range(recs: Seq<FieldRecord>, count: nat) -> bool {
    forall|i: int| 0 <= i < recs.len() ==> (#[trigger] recs[i]).field_id < count
}

/// Reads the body of `fields.idx`.
pub fn parse_fields_index(b: &[u8]) -> (r: Result<FieldsIndex, SegmentError>)
    ensures
        match r {
            Ok(ix) => fields_idx_decoded(b@) == Ok::<_, SegmentError>(
                (names_view(ix.names@), ix.records@),
            ) && ix.records.len() == ix.names.len() && records_in_range(
                ix.records@,
                ix.names.len() as nat,
            ),
            Err(e) => fields_idx_decoded(b@) == Err::<(Seq<Seq<char>>, Seq<FieldRecord>), _>(e),
        },
{
    if b.len() < 16 {
        return Err(SegmentError::TooSmall { file: SegmentFile::FieldsIdx });
    }
    if read_u32(b, 0) != FIELDS_IDX_MAGIC {
        return Err(SegmentError::BadMagic { file: SegmentFile::FieldsIdx });
    }
    let count: usize = read_u32(b, 8) as usize;
    let dict_len: usize = read_u32(b, 12) as usize;
    let mut names: Vec<String> = Vec::new();
    let mut p: usize = 16;
    let mut i: usize = 0;
    let ghost bad = SegmentError::BadIndex { file: SegmentFile::FieldsIdx };
    proof {
        assert(Seq::<Seq<char>>::empty() + Seq::<Seq<char>>::empty() =~= Seq::<Seq<char>>::empty());
    }
    while i < count
        invariant
            i <= count,
            16 <= p <= b.len(),
            names.len() == i,
            count == le32_at(b@, 8),
            le32_at(b@, 0) == FIELDS_IDX_MAGIC,
            match names_decoded(b@, p as int, (count - i) as nat) {
                Some((rest, end)) => names_decoded(b@, 16, count as nat) == Some(
                    (names_view(names@) + rest, end),
                ),
                None => names_decoded(b@, 16, count as nat) is None,
            },
        decreases count - i,
    {
        match decode_varint(b, p) {
            Err(_) => {
                return Err(SegmentError::BadIndex { file: SegmentFile::FieldsIdx });
            },
            Ok((len, n)) => {
                let from: usize = p + n;
                if len > (b.len() - from) as u64 {
                    return Err(SegmentError::BadIndex { file: SegmentFile::FieldsIdx });
                }
                let to: usize = from + len as usize;
                match utf8_to_string(slice_subrange(b, from, to)) {
                    None => {
                        return Err(SegmentError::BadIndex { file: SegmentFile::FieldsIdx });
                    },
                    Some(s) => {
                        proof {
                            vstd::utf8::encode_utf8_decode_utf8(s@);
                            match names_decoded(b@, to as int, (count - i - 1) as nat) {
                                Some((rest, end)) => {
                                    assert(names_view(names@.push(s)) + rest =~= names_view(names@)
                                        + (seq![s@] + rest));
                                },
                                None => {},
                            }
                        }
                        names.push(s);
                        p = to;
                        i += 1;
                    },
                }
            },
        }
    }
    proof {
        assert(names_view(names@) + Seq::<Seq<char>>::empty() =~= names_view(names@));
    }
    let ghost end = match names_decoded(b@, 16, count as nat) {
        Some(d) => d.1,
        None => 0,
    };
    if dict_len > b.len() - 16 {
        return Err(SegmentError::BadIndex { file: SegmentFile::FieldsIdx });
    }
    let recs_at: usize = 16 + dict_len;
    if (b.len() - recs_at) / 20 < count {
        proof {
            assert(recs_at + count * 20 > b.len());
        }
        return Err(SegmentError::BadIndex { file: SegmentFile::FieldsIdx });
    }
    proof {
        assert(recs_at + count * 20 <= b.len());
    }
    let mut records: Vec<FieldRecord> = Vec::new();
    let mut k: usize = 0;
    while k < count
        invariant
            k <= count,
            recs_at + count * 20 <= b.len(),
            b.len() >= 16,
            count == le32_at(b@, 8),
            recs_at == 16 + le32_at(b@, 12),
            le32_at(b@, 0) == FIELDS_IDX_MAGIC,
            names.len() == count,
            names_decoded(b@, 16, count as nat) == Some((names_view(names@), end)),
            records@ == field_records_at(b@, recs_at as int, count as nat).take(k as int),
            records_in_range(records@, count as nat),
        decreases count - k,
    {
        let at: usize = recs_at + k * 20;
        let rec = FieldRecord {
            field_id: read_u32(b, at),
            offset: read_u64(b, at + 4),
            length: read_u64(b, at + 12),
        };
        proof {
            let all = field_records_at(b@, recs_at as int, count as nat);
            assert(all[k as int] == rec);
            assert(all.take(k + 1) =~= all.take(k as int).push(rec));
        }
        if rec.field_id as usize >= count {
            proof {
                let all = field_records_at(b@, recs_at as int, count as nat);
                assert(!records_in_range(all, count as nat));
            }
            return Err(SegmentError::BadIndex { file: SegmentFile::FieldsIdx });
        }
        records.push(rec);
        k += 1;
    }
    proof {
        let all = field_records_at(b@, recs_at as int, count as nat);
        assert(all.take(count as int) =~= all);
    }
    Ok(FieldsIndex { names, records })
}

} // verus!
