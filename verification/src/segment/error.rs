//! Why a segment could not be written or read.

use vstd::prelude::*;

verus! {

/// The files of a segment.
#[derive(Debug, Clone, Copy, PartialEq, Eq, Structural)]
pub enum SegmentFile {
    Meta,
    GramsIdx,
    GramsDat,
    FieldsIdx,
    FieldsDat,
    DocsDat,
}

/// Why a segment could not be written or read.
#[derive(Debug, Clone, Copy, PartialEq, Eq, Structural)]
pub enum SegmentError {
    /// An input line is no JSON value; the index counts lines from zero.
    BadJson { line: usize },
    /// An input document has no string member `_id`.
    MissingId { line: usize },
    /// A count or a length does not fit the width the format gives it.
    TooLarge,
    /// A file is shorter than its fixed part.
    TooSmall { file: SegmentFile },
    /// A file does not start with its magic, or has another version.
    BadMagic { file: SegmentFile },
    /// A file does not end in the CRC-64 of its body.
    BadCrc { file: SegmentFile },
    /// `meta.bin` and `docs.dat` disagree on the number of documents.
    DocCountMismatch,
    /// `docs.dat` does not hold one offset more than it has documents.
    OffsetsCountMismatch,
    /// A table or an offset points outside its file, or is out of order.
    BadIndex { file: SegmentFile },
    /// A posting list cannot be decoded.
    BadPostings,
    /// A field mask cannot be decoded.
    BadFieldMask,
    /// The header of a textual segment is no header.
    BadMetaJson,
    /// The index of a textual segment is no object of lists of doc ids.
    BadGramsJson,
    /// A line of the documents of a textual segment is no document; the
    /// index counts lines from zero.
    BadDocsLine { line: usize },
    /// A prefilter for what all grams have in common was given no gram.
    NoGrams,
}

} // verus!
