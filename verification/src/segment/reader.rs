//! The segment reader: opens the six files of a binary segment, checks
//! them, answers prefilter queries and reads documents on demand.

use vstd::prelude::*;
use vstd::slice::slice_subrange;
use croaring::Bitmap;
use crate::bitmap::{
    bitmap_and, bitmap_andnot, bitmap_clear, bitmap_members, bitmap_new, bitmap_of, bitmap_or,
    bitmap_universe, universe,
};
use crate::doc::StoredDoc;
use crate::gram::{BooleanOp, strings_view};
use crate::segment::bytes::{body_of, check_seal, is_sealed, le64_at, read_u64};
use crate::segment::docs::{check_docs_dat, doc_decoded, DocModel, docs_fault, model_of, parse_doc};
use crate::segment::error::{SegmentError, SegmentFile};
use crate::segment::fields::{
    FieldRecord, fields_idx_decoded, mask_decoded, names_view, parse_fields_index,
    read_field_bitmap,
};
use crate::segment::grams::{
    gram_key, gram_place, GramRecord, grams_idx_fault, key_of_gram, keys_increasing, lookup_gram,
    parse_grams_idx, table_of,
};
use crate::segment::meta::{meta_at, meta_fault, read_meta};
use crate::segment::postings::{postings_decoded, read_postings};
use crate::segment::writer::SegmentImage;
use crate::strmap::{keys_sorted, lookup, StrMap, upserted};

verus! {

/// Where the mask of each field stands: for every record, in order, its
/// place under the name of its field.
pub open spec fn places_of(names: Seq<Seq<char>>, recs: Seq<FieldRecord>, n: int) -> Seq<
    (Seq<char>, (u64, u64)),
>
    decreases n,
{
    if n <= 0 || n > recs.len() {
        Seq::empty()
    } else {
        upserted(
            places_of(names, recs, n - 1),
            names[recs[n - 1].field_id as int],
            (recs[n - 1].offset, recs[n - 1].length),
        )
    }
}

/// The keys of the grams that have three bytes or more, among the first
/// `n` grams.
pub open spec fn usable_keys(grams: Seq<Seq<char>>, n: int) -> Seq<u32>
    decreases n,
{
    if n <= 0 || n > grams.len() {
        Seq::empty()
    } else {
        match gram_key(grams[n - 1]) {
            Some(k) => usable_keys(grams, n - 1).push(k),
            None => usable_keys(grams, n - 1),
        }
    }
}

/// What all of `sets` have in common; nothing for no sets.
pub open spec fn inter_all(sets: Seq<Set<u32>>) -> Set<u32>
    decreases sets.len(),
{
    if sets.len() == 0 {
        Set::empty()
    } else if sets.len() == 1 {
        sets[0]
    } else {
        inter_all(sets.drop_last()).intersect(sets.last())
    }
}

/// What any of `sets` holds.
pub open spec fn union_all(sets: Seq<Set<u32>>) -> Set<u32>
    decreases sets.len(),
{
    if sets.len() == 0 {
        Set::empty()
    } else {
        union_all(sets.drop_last()).union(sets.last())
    }
}

/// The candidates that the posting sets `sets` give under `op` in a
/// segment whose doc ids are `all`.
pub open spec fn combined(op: BooleanOp, sets: Seq<Set<u32>>, all: Set<u32>) -> Set<u32> {
    match op {
        BooleanOp::And => inter_all(sets),
        BooleanOp::Or => union_all(sets),
        BooleanOp::Not => all.difference(union_all(sets)),
    }
}

/// An open binary segment.
pub struct BinSegmentReader {
    pub doc_count: u32,
    /// The table of `grams.idx`.
    pub grams: Vec<GramRecord>,
    /// The body of `grams.dat`.
    pub grams_dat: Vec<u8>,
    /// The field names of `fields.idx`, by field id.
    pub field_names: Vec<String>,
    /// Where the mask of each field stands in the body of `fields.dat`.
    pub field_places: StrMap<(u64, u64)>,
    /// The body of `fields.dat`.
    pub fields_dat: Vec<u8>,
    /// The body of `docs.dat`.
    pub docs_dat: Vec<u8>,
    /// Where the documents start in the body of `docs.dat`.
    pub payload_start: usize,
    /// The documents read so far, by doc id.
    pub cells: Vec<Option<StoredDoc>>,
}

/// What is wrong with a file but for its content: it is shorter than a
/// checksum, or its checksum does not hold.
pub open spec fn seal_fault(file: Seq<u8>, which: SegmentFile) -> Option<SegmentError> {
    if file.len() < 8 {
        Some(SegmentError::TooSmall { file: which })
    } else if !is_sealed(file) {
        Some(SegmentError::BadCrc { file: which })
    } else {
        None
    }
}

/// Why the files `img` do not open, if they do not. The checks come in
/// this order: `meta.bin`; the checksums of `grams.idx`, `grams.dat`,
/// `fields.idx` and `fields.dat`; the content of `fields.idx`; the
/// checksum and the fixed part of `docs.dat`; the content of `grams.idx`.
pub open spec fn open_fault(img: SegmentImage) -> Option<SegmentError> {
    if meta_fault(img.meta@) is Some {
        meta_fault(img.meta@)
    } else if meta_at(img.meta@).doc_count > u32::MAX {
        Some(SegmentError::TooLarge)
    } else if seal_fault(img.grams_idx@, SegmentFile::GramsIdx) is Some {
        seal_fault(img.grams_idx@, SegmentFile::GramsIdx)
    } else if seal_fault(img.grams_dat@, SegmentFile::GramsDat) is Some {
        seal_fault(img.grams_dat@, SegmentFile::GramsDat)
    } else if seal_fault(img.fields_idx@, SegmentFile::FieldsIdx) is Some {
        seal_fault(img.fields_idx@, SegmentFile::FieldsIdx)
    } else if seal_fault(img.fields_dat@, SegmentFile::FieldsDat) is Some {
        seal_fault(img.fields_dat@, SegmentFile::FieldsDat)
    } else if fields_idx_decoded(body_of(img.fields_idx@)) is Err {
        Some(fields_idx_decoded(body_of(img.fields_idx@))->Err_0)
    } else if seal_fault(img.docs_dat@, SegmentFile::DocsDat) is Some {
        seal_fault(img.docs_dat@, SegmentFile::DocsDat)
    } else if docs_fault(body_of(img.docs_dat@), meta_at(img.meta@).doc_count as u32) is Some {
        docs_fault(body_of(img.docs_dat@), meta_at(img.meta@).doc_count as u32)
    } else {
        grams_idx_fault(body_of(img.grams_idx@))
    }
}

/// Whether the reader holds what the files hold: the count of `meta.bin`,
/// the table of `grams.idx`, the names and places of `fields.idx`, and
/// the bodies of the three data files.
pub open spec fn opened_from(rd: BinSegmentReader, image: SegmentImage) -> bool {
    &&& rd.wf()
    &&& rd.doc_count == meta_at(image.meta@).doc_count
    &&& rd.grams@ == table_of(body_of(image.grams_idx@))
    &&& rd.grams_dat@ == body_of(image.grams_dat@)
    &&& rd.fields_dat@ == body_of(image.fields_dat@)
    &&& rd.docs_dat@ == body_of(image.docs_dat@)
    &&& (fields_idx_decoded(body_of(image.fields_idx@)) matches Ok(ix) && names_view(
        rd.field_names@,
    ) == ix.0 && rd.field_places.pairs() == places_of(ix.0, ix.1, ix.1.len() as int))
}

/// Checks the footer of a file and takes it off.
fn unseal(file: Vec<u8>, which: SegmentFile) -> (r: Result<Vec<u8>, SegmentError>)
    ensures
        match r {
            Ok(body) => seal_fault(file@, which) is None && body@ == body_of(file@),
            Err(e) => seal_fault(file@, which) == Some(e),
        },
{
    if file.len() < 8 {
        return Err(SegmentError::TooSmall { file: which });
    }
    if !check_seal(file.as_slice()) {
        return Err(SegmentError::BadCrc { file: which });
    }
    let mut body = file;
    let n: usize = body.len() - 8;
    body.truncate(n);
    proof {
        assert(body@ =~= body_of(file@));
    }
    Ok(body)
}

impl BinSegmentReader {
    /// Whether the reader is what opening a segment gives: the tables are
    /// in order, `docs.dat` has its fixed part, and every document read so
    /// far is the one its bytes hold.
    pub open spec fn wf(&self) -> bool {
        &&& keys_increasing(self.grams@)
        &&& docs_fault(self.docs_dat@, self.doc_count) is None
        &&& self.payload_start == 24 + (self.doc_count + 1) * 8
        &&& self.cells@.len() == self.doc_count
        &&& forall|i: int|
            0 <= i < self.cells@.len() ==> match #[trigger] self.cells@[i] {
                Some(d) => d.doc_id == i && self.doc_model(i as u32) == Some(model_of(d))
                    && keys_sorted(d.texts()),
                None => true,
            }
    }

    /// Whether two readers read the same segment; what they have read of
    /// it so far may differ.
    pub open spec fn same_segment(&self, other: &Self) -> bool {
        &&& self.doc_count == other.doc_count
        &&& self.grams@ == other.grams@
        &&& self.grams_dat@ == other.grams_dat@
        &&& names_view(self.field_names@) == names_view(other.field_names@)
        &&& self.field_places.pairs() == other.field_places.pairs()
        &&& self.fields_dat@ == other.fields_dat@
        &&& self.docs_dat@ == other.docs_dat@
        &&& self.payload_start == other.payload_start
    }

    /// Whether the document `id` was read from its bytes and is kept.
    pub open spec fn is_read(&self, id: u32) -> bool {
        id < self.cells@.len() && self.cells@[id as int] is Some
    }

    /// Whether the reader keeps every document that `other` keeps.
    pub open spec fn keeps_what(&self, other: &Self) -> bool {
        &&& self.cells@.len() == other.cells@.len()
        &&& forall|i: int|
            0 <= i < other.cells@.len() && (#[trigger] other.cells@[i]) is Some ==> self.cells@[i]
                == other.cells@[i]
    }

    /// Whether two readers answer every prefilter query and every request
    /// for a document alike.
    pub open spec fn answers_like(&self, other: &Self) -> bool {
        &&& self.doc_count == other.doc_count
        &&& forall|id: u32| #[trigger] self.doc_model(id) == other.doc_model(id)
        &&& forall|op: BooleanOp, grams: Seq<Seq<char>>, field: Option<Seq<char>>|
            #[trigger] self.prefiltered(op, grams, field) == other.prefiltered(op, grams, field)
    }

    /// The doc ids of the posting list of `key`: `Ok(None)` where the
    /// table has no such key, an error where its list lies outside
    /// `grams.dat` or cannot be decoded.
    pub open spec fn postings_of(&self, key: u32) -> Result<Option<Seq<u32>>, SegmentError> {
        match gram_place(self.grams@, key) {
            None => Ok(None),
            Some((off, len)) => if off + len > self.grams_dat@.len() {
                Err(SegmentError::BadIndex { file: SegmentFile::GramsDat })
            } else {
                match postings_decoded(self.grams_dat@.subrange(off as int, off + len)) {
                    None => Err(SegmentError::BadPostings),
                    Some(ids) => Ok(Some(ids)),
                }
            },
        }
    }

    /// The doc ids that have the field `name`: `Ok(None)` where the
    /// segment has no such field, an error where its mask lies outside
    /// `fields.dat` or cannot be decoded.
    pub open spec fn mask_of_field(&self, name: Seq<char>) -> Result<Option<Set<u32>>, SegmentError> {
        match lookup(self.field_places.pairs(), name) {
            None => Ok(None),
            Some((off, len)) => if off + len > self.fields_dat@.len() {
                Err(SegmentError::BadIndex { file: SegmentFile::FieldsDat })
            } else {
                match mask_decoded(self.fields_dat@.subrange(off as int, off + len)) {
                    None => Err(SegmentError::BadFieldMask),
                    Some(s) => Ok(Some(s)),
                }
            },
        }
    }

    /// The posting sets of the first `n` keys: `Ok(None)` where under AND
    /// one of them is missing, the first error where one is broken.
    pub open spec fn gathered(&self, op: BooleanOp, keys: Seq<u32>, n: int) -> Result<
        Option<Seq<Set<u32>>>,
        SegmentError,
    >
        decreases n,
    {
        if n <= 0 || n > keys.len() {
            Ok(Some(Seq::empty()))
        } else {
            match self.gathered(op, keys, n - 1) {
                Err(e) => Err(e),
                Ok(None) => Ok(None),
                Ok(Some(sets)) => match self.postings_of(keys[n - 1]) {
                    Err(e) => Err(e),
                    Ok(None) => if op == BooleanOp::And {
                        Ok(None)
                    } else {
                        Ok(Some(sets))
                    },
                    Ok(Some(ids)) => Ok(Some(sets.push(ids.to_set()))),
                },
            }
        }
    }

    /// `s` cut down to the documents that have the field, if one is given;
    /// nothing where the segment does not know the field.
    pub open spec fn masked(&self, s: Set<u32>, field: Option<Seq<char>>) -> Result<
        Set<u32>,
        SegmentError,
    > {
        match field {
            None => Ok(s),
            Some(name) => match self.mask_of_field(name) {
                Err(e) => Err(e),
                Ok(None) => Ok(Set::empty()),
                Ok(Some(m)) => Ok(s.intersect(m)),
            },
        }
    }

    /// The candidates of a prefilter query. Grams of fewer than three
    /// bytes are ignored; where none remains, every document is a
    /// candidate. Under AND a gram that the index does not have leaves no
    /// candidate at all; under OR and NOT it adds nothing. The field, if
    /// given, cuts the candidates down to the documents that have it.
    pub open spec fn prefiltered(
        &self,
        op: BooleanOp,
        grams: Seq<Seq<char>>,
        field: Option<Seq<char>>,
    ) -> Result<Set<u32>, SegmentError> {
        let keys = usable_keys(grams, grams.len() as int);
        if keys.len() == 0 {
            self.masked(universe(self.doc_count), field)
        } else {
            match self.gathered(op, keys, keys.len() as int) {
                Err(e) => Err(e),
                Ok(None) => Ok(Set::empty()),
                Ok(Some(sets)) => self.masked(combined(op, sets, universe(self.doc_count)), field),
            }
        }
    }

    /// Where the document `id` starts and ends in the payload.
    pub open spec fn bounds_of(&self, id: u32) -> (u64, u64) {
        (le64_at(self.docs_dat@, 24 + id * 8), le64_at(self.docs_dat@, 24 + (id + 1) * 8))
    }

    /// The document `id` as its bytes hold it; `None` for an id the
    /// segment does not have, for bounds that leave the file, and for
    /// bytes that are no document.
    pub open spec fn doc_model(&self, id: u32) -> Option<DocModel> {
        let (from, to) = self.bounds_of(id);
        if id >= self.doc_count || from > to || self.payload_start + to > self.docs_dat@.len() {
            None
        } else {
            match doc_decoded(
                self.docs_dat@.subrange(self.payload_start + from, self.payload_start + to),
                names_view(self.field_names@),
            ) {
                None => None,
                Some((ext, texts)) => Some(DocModel { ext_id: ext, texts }),
            }
        }
    }

    /// Opens a segment from its six files.
    pub fn open_segment(image: SegmentImage) -> (r: Result<Self, SegmentError>)
        ensures
            match r {
                Ok(rd) => open_fault(image) is None && opened_from(rd, image),
                Err(e) => open_fault(image) == Some(e),
            },
    {
        let SegmentImage { meta, grams_idx, grams_dat, fields_idx, fields_dat, docs_dat } = image;
        let hdr = match read_meta(meta.as_slice()) {
            Ok(h) => h,
            Err(e) => {
                return Err(e);
            },
        };
        if hdr.doc_count > 0xFFFF_FFFF {
            return Err(SegmentError::TooLarge);
        }
        let doc_count: u32 = hdr.doc_count as u32;
        let grams_idx = match unseal(grams_idx, SegmentFile::GramsIdx) {
            Ok(b) => b,
            Err(e) => {
                return Err(e);
            },
        };
        let grams_dat = match unseal(grams_dat, SegmentFile::GramsDat) {
            Ok(b) => b,
            Err(e) => {
                return Err(e);
            },
        };
        let fields_idx = match unseal(fields_idx, SegmentFile::FieldsIdx) {
            Ok(b) => b,
            Err(e) => {
                return Err(e);
            },
        };
        let fields_dat = match unseal(fields_dat, SegmentFile::FieldsDat) {
            Ok(b) => b,
            Err(e) => {
                return Err(e);
            },
        };
        let index = match parse_fields_index(fields_idx.as_slice()) {
            Ok(ix) => ix,
            Err(e) => {
                return Err(e);
            },
        };
        let docs_dat = match unseal(docs_dat, SegmentFile::DocsDat) {
            Ok(b) => b,
            Err(e) => {
                return Err(e);
            },
        };
        let payload_start = match check_docs_dat(docs_dat.as_slice(), doc_count) {
            Ok(s) => s,
            Err(e) => {
                return Err(e);
            },
        };
        let grams = match parse_grams_idx(grams_idx.as_slice()) {
            Ok(g) => g,
            Err(e) => {
                return Err(e);
            },
        };
        let ghost nv = names_view(index.names@);
        let mut field_places: StrMap<(u64, u64)> = StrMap::new();
        let mut k: usize = 0;
        while k < index.records.len()
            invariant
                k <= index.records.len(),
                nv == names_view(index.names@),
                forall|i: int|
                    0 <= i < index.records.len() ==> (#[trigger] index.records@[i]).field_id
                        < index.names.len(),
                field_places.pairs() == places_of(nv, index.records@, k as int),
            decreases index.records.len() - k,
        {
            let rec = index.records[k];
            proof {
                assert(nv[rec.field_id as int] == index.names@[rec.field_id as int]@);
            }
            field_places.insert(
                index.names[rec.field_id as usize].clone(),
                (rec.offset, rec.length),
            );
            k += 1;
        }
        let mut cells: Vec<Option<StoredDoc>> = Vec::new();
        let mut c: u32 = 0;
        while c < doc_count
            invariant
                c <= doc_count,
                cells.len() == c,
                forall|i: int| 0 <= i < c ==> (#[trigger] cells@[i]) is None,
            decreases doc_count - c,
        {
            cells.push(None);
            c += 1;
        }
        Ok(
            BinSegmentReader {
                doc_count,
                grams,
                grams_dat,
                field_names: index.names,
                field_places,
                fields_dat,
                docs_dat,
                payload_start,
                cells,
            },
        )
    }

    /// The number of documents of the segment.
    pub fn doc_count(&self) -> (n: u32)
        ensures
            n == self.doc_count,
    {
        self.doc_count
    }

    /// Reads the posting list of `key`.
    fn read_key(&self, key: u32) -> (r: Result<Option<Vec<u32>>, SegmentError>)
        requires
            self.wf(),
        ensures
            match r {
                Ok(Some(ids)) => self.postings_of(key) == Ok::<_, SegmentError>(Some(ids@)),
                Ok(None) => self.postings_of(key) == Ok::<Option<Seq<u32>>, SegmentError>(None),
                Err(e) => self.postings_of(key) == Err::<Option<Seq<u32>>, _>(e),
            },
    {
        match lookup_gram(&self.grams, key) {
            None => Ok(None),
            Some((off, len)) => {
                let total: u64 = self.grams_dat.len() as u64;
                if off > total || len > total - off {
                    return Err(SegmentError::BadIndex { file: SegmentFile::GramsDat });
                }
                let body = slice_subrange(
                    self.grams_dat.as_slice(),
                    off as usize,
                    (off + len) as usize,
                );
                match read_postings(body) {
                    Ok(ids) => Ok(Some(ids)),
                    Err(e) => Err(e),
                }
            },
        }
    }

    /// Cuts `acc` down to the documents that have the field, if one is
    /// given.
    fn apply_field(&self, acc: Bitmap, field: Option<&str>) -> (r: Result<Bitmap, SegmentError>)
        ensures
            match r {
                Ok(b) => self.masked(
                    bitmap_members(acc),
                    match field {
                        Some(f) => Some(f@),
                        None => None,
                    },
                ) == Ok::<_, SegmentError>(bitmap_members(b)),
                Err(e) => self.masked(
                    bitmap_members(acc),
                    match field {
                        Some(f) => Some(f@),
                        None => None,
                    },
                ) == Err::<Set<u32>, _>(e),
            },
    {
        let mut acc = acc;
        match field {
            None => Ok(acc),
            Some(name) => match self.field_places.get(name) {
                None => {
                    bitmap_clear(&mut acc);
                    Ok(acc)
                },
                Some(place) => {
                    let off: u64 = place.0;
                    let len: u64 = place.1;
                    let total: u64 = self.fields_dat.len() as u64;
                    if off > total || len > total - off {
                        return Err(SegmentError::BadIndex { file: SegmentFile::FieldsDat });
                    }
                    let body = slice_subrange(
                        self.fields_dat.as_slice(),
                        off as usize,
                        (off + len) as usize,
                    );
                    match read_field_bitmap(body) {
                        Err(e) => Err(e),
                        Ok(mask) => {
                            bitmap_and(&mut acc, &mask);
                            Ok(acc)
                        },
                    }
                },
            },
        }
    }

    /// The candidates of a prefilter query: see `prefiltered`.
    pub fn prefilter(&self, op: BooleanOp, grams: &Vec<String>, field: Option<&str>) -> (r: Result<
        Bitmap,
        SegmentError,
    >)
        requires
            self.wf(),
        ensures
            match r {
                Ok(b) => self.prefiltered(
                    op,
                    strings_view(grams@),
                    match field {
                        Some(f) => Some(f@),
                        None => None,
                    },
                ) == Ok::<_, SegmentError>(bitmap_members(b)),
                Err(e) => self.prefiltered(
                    op,
                    strings_view(grams@),
                    match field {
                        Some(f) => Some(f@),
                        None => None,
                    },
                ) == Err::<Set<u32>, _>(e),
            },
    {
        let ghost gv = strings_view(grams@);
        let mut keys: Vec<u32> = Vec::new();
        let mut g: usize = 0;
        while g < grams.len()
            invariant
                g <= grams.len(),
                gv == strings_view(grams@),
                keys@ == usable_keys(gv, g as int),
            decreases grams.len() - g,
        {
            proof {
                assert(gv[g as int] == grams@[g as int]@);
            }
            match key_of_gram(grams[g].as_str()) {
                Some(k) => {
                    keys.push(k);
                },
                None => {},
            }
            g += 1;
        }
        if keys.len() == 0 {
            let all = bitmap_universe(self.doc_count);
            return self.apply_field(all, field);
        }
        let mut sets: Vec<Bitmap> = Vec::new();
        let mut i: usize = 0;
        proof {
            assert(crate::segment::fields::sets_of(sets@) =~= Seq::<Set<u32>>::empty());
        }
        while i < keys.len()
            invariant
                i <= keys.len(),
                self.wf(),
                keys.len() > 0,
                gv == strings_view(grams@),
                keys@ == usable_keys(gv, gv.len() as int),
                self.gathered(op, keys@, i as int) == Ok::<_, SegmentError>(
                    Some(crate::segment::fields::sets_of(sets@)),
                ),
            decreases keys.len() - i,
        {
            match self.read_key(keys[i]) {
                Err(e) => {
                    proof {
                        self.lemma_gathered_stays(op, keys@, i + 1, keys.len() as int);
                    }
                    return Err(e);
                },
                Ok(None) => {
                    match op {
                        BooleanOp::And => {
                            proof {
                                self.lemma_gathered_stays(op, keys@, i + 1, keys.len() as int);
                            }
                            return Ok(bitmap_new());
                        },
                        _ => {},
                    }
                },
                Ok(Some(ids)) => {
                    let bm = bitmap_of(&ids);
                    let ghost before = sets@;
                    sets.push(bm);
                    proof {
                        assert(crate::segment::fields::sets_of(sets@)
                            =~= crate::segment::fields::sets_of(before).push(ids@.to_set()));
                    }
                },
            }
            i += 1;
        }
        let ghost ss = crate::segment::fields::sets_of(sets@);
        let acc = match op {
            BooleanOp::And => {
                if sets.len() == 0 {
                    bitmap_new()
                } else {
                    let mut first = bitmap_new();
                    bitmap_or(&mut first, &sets[0]);
                    proof {
                        assert(bitmap_members(first) =~= ss[0]);
                        assert(ss.take(1).len() == 1);
                        assert(ss.take(1)[0] == ss[0]);
                    }
                    let mut j: usize = 1;
                    while j < sets.len()
                        invariant
                            1 <= j <= sets.len(),
                            ss == crate::segment::fields::sets_of(sets@),
                            bitmap_members(first) == inter_all(ss.take(j as int)),
                        decreases sets.len() - j,
                    {
                        bitmap_and(&mut first, &sets[j]);
                        proof {
                            assert(ss.take(j + 1).drop_last() =~= ss.take(j as int));
                            assert(ss.take(j + 1).last() == bitmap_members(sets@[j as int]));
                        }
                        j += 1;
                    }
                    proof {
                        assert(ss.take(sets.len() as int) =~= ss);
                    }
                    first
                }
            },
            BooleanOp::Or => {
                let out = self.union_of(&sets);
                out
            },
            BooleanOp::Not => {
                let mut all = bitmap_universe(self.doc_count);
                let un = self.union_of(&sets);
                bitmap_andnot(&mut all, &un);
                all
            },
        };
        self.apply_field(acc, field)
    }

    /// A bitmap of what any of `sets` holds.
    fn union_of(&self, sets: &Vec<Bitmap>) -> (out: Bitmap)
        ensures
            bitmap_members(out) == union_all(crate::segment::fields::sets_of(sets@)),
    {
        let ghost ss = crate::segment::fields::sets_of(sets@);
        let mut out = bitmap_new();
        let mut j: usize = 0;
        proof {
            assert(ss.take(0) =~= Seq::<Set<u32>>::empty());
        }
        while j < sets.len()
            invariant
                j <= sets.len(),
                ss == crate::segment::fields::sets_of(sets@),
                bitmap_members(out) == union_all(ss.take(j as int)),
            decreases sets.len() - j,
        {
            bitmap_or(&mut out, &sets[j]);
            proof {
                assert(ss.take(j + 1).drop_last() =~= ss.take(j as int));
                assert(ss.take(j + 1).last() == bitmap_members(sets@[j as int]));
            }
            j += 1;
        }
        proof {
            assert(ss.take(sets.len() as int) =~= ss);
        }
        out
    }

    /// Once gathering has stopped, at an error or at a missing key under
    /// AND, further keys do not change the outcome.
    pub proof fn lemma_gathered_stays(&self, op: BooleanOp, keys: Seq<u32>, k: int, n: int)
        requires
            0 <= k <= n <= keys.len(),
            !(self.gathered(op, keys, k) matches Ok(Some(_))),
        ensures
            self.gathered(op, keys, n) == self.gathered(op, keys, k),
        decreases n - k,
    {
        if k < n {
            self.lemma_gathered_stays(op, keys, k, n - 1);
        }
    }

    /// Reads the document `doc_id` if it was not read before, and keeps it:
    /// from then on it is read exactly if the segment holds it in bytes
    /// that can be read. What was read of other documents stays.
    pub fn warm(&mut self, doc_id: u32)
        requires
            old(self).wf(),
        ensures
            final(self).wf(),
            final(self).same_segment(old(self)),
            final(self).answers_like(old(self)),
            final(self).is_read(doc_id) <==> old(self).doc_model(doc_id) is Some,
            final(self).keeps_what(old(self)),
            forall|i: int|
                0 <= i < old(self).cells@.len() && i != doc_id ==> final(self).cells@[i] == old(self).cells@[i],
    {
        if doc_id >= self.doc_count {
            return ;
        }
        let i: usize = doc_id as usize;
        if self.cells[i].is_some() {
            return ;
        }
        let at: usize = 24 + i * 8;
        let from: u64 = read_u64(self.docs_dat.as_slice(), at);
        let to: u64 = read_u64(self.docs_dat.as_slice(), at + 8);
        let room: u64 = (self.docs_dat.len() - self.payload_start) as u64;
        if from > to || to > room {
            return ;
        }
        let payload = slice_subrange(
            self.docs_dat.as_slice(),
            self.payload_start + from as usize,
            self.payload_start + to as usize,
        );
        let parsed = parse_doc(doc_id, payload, &self.field_names);
        match parsed {
            None => {},
            Some(d) => {
                self.cells.set(i, Some(d));
                proof {
                    lemma_same_segment_answers(self, old(self));
                    assert forall|k: int| 0 <= k < self.cells@.len() implies match #[trigger] self.cells@[k] {
                        Some(d) => d.doc_id == k && self.doc_model(k as u32) == Some(model_of(d))
                            && keys_sorted(d.texts()),
                        None => true,
                    } by {
                        if k != i {
                            assert(self.cells@[k] == old(self).cells@[k]);
                            assert(self.doc_model(k as u32) == old(self).doc_model(k as u32));
                        }
                    }
                }
            },
        }
    }

    /// The document `doc_id`; `None` for an id the segment does not have
    /// and for a document whose bytes cannot be read. A document is read
    /// from its bytes once and kept.
    pub fn get_doc(&mut self, doc_id: u32) -> (r: Option<&StoredDoc>)
        requires
            old(self).wf(),
        ensures
            final(self).wf(),
            final(self).same_segment(old(self)),
            final(self).answers_like(old(self)),
            match r {
                Some(d) => d.doc_id == doc_id && old(self).doc_model(doc_id) == Some(model_of(*d))
                    && keys_sorted(d.texts()),
                None => old(self).doc_model(doc_id) is None,
            },
            final(self).is_read(doc_id) <==> old(self).doc_model(doc_id) is Some,
            final(self).keeps_what(old(self)),
            forall|i: int|
                0 <= i < old(self).cells@.len() && i != doc_id ==> final(self).cells@[i] == old(
                    self).cells@[i],
    {
        self.warm(doc_id);
        if doc_id >= self.doc_count {
            return None;
        }
        self.cells[doc_id as usize].as_ref()
    }

    /// Reads and keeps the documents `ids`, so that a later `get_doc` of
    /// one of them finds it read: each of them is read from then on
    /// exactly if the segment holds it in bytes that can be read. What was
    /// read before stays, and no other document is touched.
    pub fn prefetch_docs(&mut self, ids: &Vec<u32>)
        requires
            old(self).wf(),
        ensures
            final(self).wf(),
            final(self).same_segment(old(self)),
            final(self).answers_like(old(self)),
            forall|k: int|
                0 <= k < ids@.len() ==> (final(self).is_read(#[trigger] ids@[k]) <==> old(self).doc_model(ids@[k]) is Some),
            final(self).keeps_what(old(self)),
            forall|i: int|
                0 <= i < old(self).cells@.len() && !ids@.contains(i as u32) ==> final(self).cells@[i] == old(self).cells@[i],
    {
        let mut i: usize = 0;
        while i < ids.len()
            invariant
                i <= ids.len(),
                self.wf(),
                self.same_segment(old(self)),
                self.answers_like(old(self)),
                self.keeps_what(old(self)),
                forall|k: int|
                    0 <= k < i ==> (self.is_read(#[trigger] ids@[k]) <==> old(self).doc_model(
                        ids@[k],
                    ) is Some),
                forall|j: int|
                    0 <= j < old(self).cells@.len() && !ids@.take(i as int).contains(j as u32)
                        ==> self.cells@[j] == old(self).cells@[j],
            decreases ids.len() - i,
        {
            let ghost pre = *self;
            self.warm(ids[i]);
            proof {
                let id = ids@[i as int];
                assert(pre.doc_model(id) == old(self).doc_model(id));
                assert forall|k: int| 0 <= k < i + 1 implies (self.is_read(#[trigger] ids@[k])
                    <==> old(self).doc_model(ids@[k]) is Some) by {
                    if ids@[k] != id && ids@[k] < pre.cells@.len() {
                        assert(self.cells@[ids@[k] as int] == pre.cells@[ids@[k] as int]);
                    }
                }
                assert forall|j: int|
                    0 <= j < old(self).cells@.len() && !ids@.take(i + 1).contains(
                        j as u32,
                    ) implies self.cells@[j] == old(self).cells@[j] by {
                    assert(ids@.take(i + 1)[i as int] == id);
                    assert(j != id);
                    if ids@.take(i as int).contains(j as u32) {
                        let k = choose|k: int|
                            0 <= k < ids@.take(i as int).len() && ids@.take(i as int)[k] == j as u32;
                        assert(ids@.take(i + 1)[k] == j as u32);
                    }
                }
            }
            i += 1;
        }
        proof {
            assert(ids@.take(ids@.len() as int) =~= ids@);
        }
    }
}

/// Two readers of the same segment gather the same posting sets.
proof fn lemma_same_gathered(
    a: &BinSegmentReader,
    b: &BinSegmentReader,
    op: BooleanOp,
    keys: Seq<u32>,
    n: int,
)
    requires
        a.same_segment(b),
    ensures
        a.gathered(op, keys, n) == b.gathered(op, keys, n),
    decreases n,
{
    if !(n <= 0 || n > keys.len()) {
        lemma_same_gathered(a, b, op, keys, n - 1);
        assert(a.postings_of(keys[n - 1]) == b.postings_of(keys[n - 1]));
    }
}

/// Two readers of the same segment answer every prefilter query and every
/// request for a document alike.
pub proof fn lemma_same_segment_answers(a: &BinSegmentReader, b: &BinSegmentReader)
    requires
        a.same_segment(b),
    ensures
        a.answers_like(b),
{
    assert forall|op: BooleanOp, grams: Seq<Seq<char>>, field: Option<Seq<char>>|
        #[trigger] a.prefiltered(op, grams, field) == b.prefiltered(op, grams, field) by {
        let keys = usable_keys(grams, grams.len() as int);
        lemma_same_gathered(a, b, op, keys, keys.len() as int);
        match field {
            Some(name) => {
                assert(a.mask_of_field(name) == b.mask_of_field(name));
            },
            None => {},
        }
    }
}

} // verus!
