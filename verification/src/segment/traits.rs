//! What every segment format offers: a writer from documents to a
//! segment, and a reader with prefilter and document access.

use vstd::prelude::*;
use croaring::Bitmap;
use crate::bitmap::bitmap_members;
use crate::doc::StoredDoc;
use crate::gram::{BooleanOp, strings_view};
use crate::segjson::reader::{json_open_fault, JsonSegmentReader};
use crate::segjson::writer::{
    json_image_holds, json_input_of, json_writable, JsonSegmentImage, JsonSegmentWriter,
};
use crate::segment::docs::{DocModel, model_of};
use crate::segment::error::SegmentError;
use crate::segment::input::{input_of, InputModel, lines_of};
use crate::segment::reader::{BinSegmentReader, open_fault};
use crate::segment::writer::{BinSegmentWriter, image_holds, SegmentImage, writable};

verus! {

/// A writer of segments.
pub trait SegmentWriter {
    /// What the writer gives: the files of a segment.
    type Image;

    /// Whether the files are a segment of the documents.
    spec fn holds(img: Self::Image, docs: Seq<InputModel>) -> bool;

    /// The documents that the writer takes from a text, or the first
    /// line that it refuses.
    spec fn reads(text: Seq<char>) -> Result<Seq<InputModel>, SegmentError>;

    /// Whether the documents can be written in the writer's format: no
    /// count and no length leaves the width that the format gives it.
    spec fn fits(docs: Seq<InputModel>) -> bool;

    /// Builds a segment from a text of one JSON document per line. The
    /// first line that is refused ends the work with its error.
    /// Documents that fit the format are written; `TooLarge` is returned
    /// only where they do not fit.
    fn write_segment(&mut self, input_jsonl: &str) -> (r: Result<Self::Image, SegmentError>)
        ensures
            match r {
                Ok(img) => match Self::reads(input_jsonl@) {
                    Ok(docs) => Self::holds(img, docs),
                    Err(_) => false,
                },
                Err(e) => match Self::reads(input_jsonl@) {
                    Ok(docs) => e == SegmentError::TooLarge && !Self::fits(docs),
                    Err(e2) => e == e2,
                },
            },
    ;
}

impl SegmentWriter for JsonSegmentWriter {
    type Image = JsonSegmentImage;

    open spec fn holds(img: JsonSegmentImage, docs: Seq<InputModel>) -> bool {
        json_image_holds(img, docs)
    }

    open spec fn reads(text: Seq<char>) -> Result<Seq<InputModel>, SegmentError> {
        json_input_of(lines_of(text), lines_of(text).len() as int)
    }

    open spec fn fits(docs: Seq<InputModel>) -> bool {
        json_writable(docs)
    }

    fn write_segment(&mut self, input_jsonl: &str) -> (r: Result<JsonSegmentImage, SegmentError>) {
        JsonSegmentWriter::write_segment(self, input_jsonl)
    }
}

impl SegmentWriter for BinSegmentWriter {
    type Image = SegmentImage;

    open spec fn holds(img: SegmentImage, docs: Seq<InputModel>) -> bool {
        image_holds(img, docs)
    }

    open spec fn reads(text: Seq<char>) -> Result<Seq<InputModel>, SegmentError> {
        input_of(lines_of(text), lines_of(text).len() as int)
    }

    open spec fn fits(docs: Seq<InputModel>) -> bool {
        writable(docs)
    }

    fn write_segment(&mut self, input_jsonl: &str) -> (r: Result<SegmentImage, SegmentError>) {
        BinSegmentWriter::write_segment(self, input_jsonl)
    }
}

/// Whether two readers answer alike: they have the same number of
/// documents, the same candidates for every prefilter query, and the same
/// document for every doc id.
pub open spec fn same_reader<R: SegmentReader>(a: &R, b: &R) -> bool {
    &&& a.size() == b.size()
    &&& forall|i: u32| #[trigger] a.document(i) == b.document(i)
    &&& forall|op: BooleanOp, grams: Seq<Seq<char>>, field: Option<Seq<char>>|
        #[trigger] a.candidates(op, grams, field) == b.candidates(op, grams, field)
}

/// A reader of segments.
pub trait SegmentReader: Sized {
    /// What the reader opens: the files of a segment.
    type Image;

    /// Whether the reader is what opening a segment gives.
    spec fn valid(&self) -> bool;

    /// Why the files do not open, if they do not.
    spec fn fault(img: Self::Image) -> Option<SegmentError>;

    /// The number of documents of the segment.
    spec fn size(&self) -> u32;

    /// The candidates of a prefilter query.
    spec fn candidates(&self, op: BooleanOp, grams: Seq<Seq<char>>, field: Option<Seq<char>>) -> Result<
        Set<u32>,
        SegmentError,
    >;

    /// The document of a doc id, as the segment holds it.
    spec fn document(&self, id: u32) -> Option<DocModel>;

    /// Opens a segment from its files.
    fn open_segment(image: Self::Image) -> (r: Result<Self, SegmentError>)
        ensures
            match r {
                Ok(rd) => Self::fault(image) is None && rd.valid(),
                Err(e) => Self::fault(image) == Some(e),
            },
    ;

    /// The number of documents of the segment.
    fn doc_count(&self) -> (n: u32)
        ensures
            n == self.size(),
    ;

    /// The candidates for the required trigrams `grams` under `op`, cut
    /// down to the documents that have the field if one is given.
    fn prefilter(&self, op: BooleanOp, grams: &Vec<String>, field: Option<&str>) -> (r: Result<
        Bitmap,
        SegmentError,
    >)
        requires
            self.valid(),
        ensures
            match r {
                Ok(b) => self.candidates(
                    op,
                    strings_view(grams@),
                    match field {
                        Some(f) => Some(f@),
                        None => None,
                    },
                ) == Ok::<_, SegmentError>(bitmap_members(b)),
                Err(e) => self.candidates(
                    op,
                    strings_view(grams@),
                    match field {
                        Some(f) => Some(f@),
                        None => None,
                    },
                ) == Err::<Set<u32>, _>(e),
            },
    ;

    /// The document of a doc id.
    fn get_doc(&mut self, doc_id: u32) -> (r: Option<&StoredDoc>)
        requires
            old(self).valid(),
        ensures
            final(self).valid(),
            final(self).size() == old(self).size(),
            forall|i: u32| #[trigger] final(self).document(i) == old(self).document(i),
            forall|op: BooleanOp, grams: Seq<Seq<char>>, field: Option<Seq<char>>|
                #[trigger] final(self).candidates(op, grams, field) == old(self).candidates(
                    op,
                    grams,
                    field,
                ),
            match r {
                Some(d) => d.doc_id == doc_id && old(self).document(doc_id) == Some(model_of(*d))
                    && crate::strmap::keys_sorted(d.texts()),
                None => old(self).document(doc_id) is None,
            },
    ;
}

impl SegmentReader for BinSegmentReader {
    type Image = SegmentImage;

    open spec fn valid(&self) -> bool {
        self.wf()
    }

    open spec fn fault(img: SegmentImage) -> Option<SegmentError> {
        open_fault(img)
    }

    open spec fn size(&self) -> u32 {
        self.doc_count
    }

    open spec fn candidates(
        &self,
        op: BooleanOp,
        grams: Seq<Seq<char>>,
        field: Option<Seq<char>>,
    ) -> Result<Set<u32>, SegmentError> {
        self.prefiltered(op, grams, field)
    }

    open spec fn document(&self, id: u32) -> Option<DocModel> {
        self.doc_model(id)
    }

    fn open_segment(image: SegmentImage) -> (r: Result<Self, SegmentError>) {
        BinSegmentReader::open_segment(image)
    }

    fn doc_count(&self) -> (n: u32) {
        BinSegmentReader::doc_count(self)
    }

    fn prefilter(&self, op: BooleanOp, grams: &Vec<String>, field: Option<&str>) -> (r: Result<
        Bitmap,
        SegmentError,
    >) {
        BinSegmentReader::prefilter(self, op, grams, field)
    }

    fn get_doc(&mut self, doc_id: u32) -> (r: Option<&StoredDoc>) {
        BinSegmentReader::get_doc(self, doc_id)
    }
}


/// The formats of a segment.
#[derive(Debug, Clone, Copy, PartialEq, Eq, Structural)]
pub enum SegmentFormat {
    /// The textual format.
    V1,
    /// The binary format.
    V2,
}

/// The format of a segment directory, by the files found in it: with
/// `meta.bin` the binary one; else with `docs.jsonl` and `grams.json`
/// the textual one; else none.
pub fn detect_format(has_meta_bin: bool, has_docs_jsonl: bool, has_grams_json: bool) -> (r: Option<
    SegmentFormat,
>)
    ensures
        r == (if has_meta_bin {
            Some(SegmentFormat::V2)
        } else if has_docs_jsonl && has_grams_json {
            Some(SegmentFormat::V1)
        } else {
            None
        }),
{
    if has_meta_bin {
        Some(SegmentFormat::V2)
    } else if has_docs_jsonl && has_grams_json {
        Some(SegmentFormat::V1)
    } else {
        None
    }
}

/// The files of a segment of either format.
#[derive(Debug)]
pub enum AnyImage {
    V1(JsonSegmentImage),
    V2(SegmentImage),
}

/// An open segment of either format.
pub enum AnySegmentReader {
    V1(JsonSegmentReader),
    V2(BinSegmentReader),
}

impl SegmentReader for AnySegmentReader {
    type Image = AnyImage;

    open spec fn valid(&self) -> bool {
        match *self {
            AnySegmentReader::V1(r) => r.wf(),
            AnySegmentReader::V2(r) => r.wf(),
        }
    }

    open spec fn fault(img: AnyImage) -> Option<SegmentError> {
        match img {
            AnyImage::V1(i) => json_open_fault(i),
            AnyImage::V2(i) => open_fault(i),
        }
    }

    open spec fn size(&self) -> u32 {
        match *self {
            AnySegmentReader::V1(r) => r.meta.doc_count,
            AnySegmentReader::V2(r) => r.doc_count,
        }
    }

    open spec fn candidates(
        &self,
        op: BooleanOp,
        grams: Seq<Seq<char>>,
        field: Option<Seq<char>>,
    ) -> Result<Set<u32>, SegmentError> {
        match *self {
            AnySegmentReader::V1(r) => r.json_prefiltered(op, grams, field),
            AnySegmentReader::V2(r) => r.prefiltered(op, grams, field),
        }
    }

    open spec fn document(&self, id: u32) -> Option<DocModel> {
        match *self {
            AnySegmentReader::V1(r) => r.doc_at(id),
            AnySegmentReader::V2(r) => r.doc_model(id),
        }
    }

    fn open_segment(image: AnyImage) -> (r: Result<Self, SegmentError>) {
        match image {
            AnyImage::V1(i) => match JsonSegmentReader::open_segment(i) {
                Ok(r) => Ok(AnySegmentReader::V1(r)),
                Err(e) => Err(e),
            },
            AnyImage::V2(i) => match BinSegmentReader::open_segment(i) {
                Ok(r) => Ok(AnySegmentReader::V2(r)),
                Err(e) => Err(e),
            },
        }
    }

    fn doc_count(&self) -> (n: u32) {
        match self {
            AnySegmentReader::V1(r) => r.doc_count(),
            AnySegmentReader::V2(r) => r.doc_count(),
        }
    }

    fn prefilter(&self, op: BooleanOp, grams: &Vec<String>, field: Option<&str>) -> (r: Result<
        Bitmap,
        SegmentError,
    >) {
        match self {
            AnySegmentReader::V1(r) => r.prefilter(op, grams, field),
            AnySegmentReader::V2(r) => r.prefilter(op, grams, field),
        }
    }

    fn get_doc(&mut self, doc_id: u32) -> (r: Option<&StoredDoc>) {
        match self {
            AnySegmentReader::V1(r) => JsonSegmentReader::get_doc(r, doc_id),
            AnySegmentReader::V2(r) => BinSegmentReader::get_doc(r, doc_id),
        }
    }
}

impl AnySegmentReader {
    /// Whether the segment is of the binary format.
    pub fn is_binary(&self) -> (r: bool)
        ensures
            r == (*self is V2),
    {
        match self {
            AnySegmentReader::V1(_) => false,
            AnySegmentReader::V2(_) => true,
        }
    }

    /// Whether the document `id` is at hand without reading its bytes: in
    /// the textual format every document of the segment is, in the binary
    /// format one that was read before.
    pub open spec fn is_read(&self, id: u32) -> bool {
        match *self {
            AnySegmentReader::V1(r) => r.doc_at(id) is Some,
            AnySegmentReader::V2(r) => r.is_read(id),
        }
    }

    /// Reads the document ahead of its use, where the format reads
    /// documents one by one: from then on the document is at hand exactly
    /// if the segment holds it. A reader of the textual format stays as
    /// it is; one of the binary format keeps what it had read, and
    /// touches no other document. What the reader answers stays as it is.
    pub fn warm(&mut self, doc_id: u32)
        requires
            old(self).valid(),
        ensures
            final(self).valid(),
            same_reader(final(self), old(self)),
            (*final(self) is V2) == (*old(self) is V2),
            final(self).is_read(doc_id) <==> old(self).document(doc_id) is Some,
            forall|other: u32|
                other != doc_id ==> #[trigger] final(self).is_read(other) == old(self).is_read(other),
            old(self).is_read(doc_id) ==> final(self).is_read(doc_id),
            *old(self) is V1 ==> *final(self) == *old(self),
            match (*final(self), *old(self)) {
                (AnySegmentReader::V2(now), AnySegmentReader::V2(before)) => now.same_segment(&before)
                    && now.keeps_what(&before),
                _ => true,
            },
    {
        match self {
            AnySegmentReader::V1(_) => {},
            AnySegmentReader::V2(r) => {
                r.warm(doc_id);
            },
        }
    }
}

} // verus!
