//! `meta.bin`: the header that names the segment's version and sizes.

use vstd::prelude::*;
use crate::segment::bytes::{
    check_seal, is_sealed, le16, le16_at, le32, le32_at, le64, le64_at, push_u16, push_u32,
    push_u64, read_u16, read_u32, read_u64, seal, sealed,
};
use crate::segment::error::{SegmentError, SegmentFile};

verus! {

/// The magic of `meta.bin`: the letters GZSG.
pub const META_MAGIC: u32 = 0x475A5347;

/// The version of the binary segment.
pub const META_VERSION: u16 = 2;

/// The header length that `meta.bin` declares.
pub const META_HEADER_LEN: u16 = 48;

/// The number of bytes the header fields occupy.
pub const META_FIELDS_LEN: usize = 64;

/// The header of a segment.
#[derive(Debug, Clone, Copy, PartialEq, Eq, Structural)]
pub struct MetaHeader {
    pub magic: u32,
    pub version: u16,
    pub header_len: u16,
    pub doc_count: u64,
    pub gram_count: u64,
    /// The length of the body of `grams.idx`, as of each file below.
    pub grams_idx_len: u64,
    pub grams_dat_len: u64,
    pub fields_idx_len: u64,
    pub fields_dat_len: u64,
    pub docs_dat_len: u64,
}

impl Default for MetaHeader {
    /// The header of an empty segment.
    fn default() -> (r: Self)
        ensures
            r == (MetaHeader {
                magic: META_MAGIC,
                version: META_VERSION,
                header_len: META_HEADER_LEN,
                doc_count: 0,
                gram_count: 0,
                grams_idx_len: 0,
                grams_dat_len: 0,
                fields_idx_len: 0,
                fields_dat_len: 0,
                docs_dat_len: 0,
            }),
    {
        MetaHeader {
            magic: META_MAGIC,
            version: META_VERSION,
            header_len: META_HEADER_LEN,
            doc_count: 0,
            gram_count: 0,
            grams_idx_len: 0,
            grams_dat_len: 0,
            fields_idx_len: 0,
            fields_dat_len: 0,
            docs_dat_len: 0,
        }
    }
}

/// The header fields as they stand in `meta.bin`, each low byte first.
pub open spec fn meta_bytes(h: MetaHeader) -> Seq<u8> {
    le32(h.magic) + le16(h.version) + le16(h.header_len) + le64(h.doc_count) + le64(h.gram_count)
        + le64(h.grams_idx_len) + le64(h.grams_dat_len) + le64(h.fields_idx_len) + le64(
        h.fields_dat_len,
    ) + le64(h.docs_dat_len)
}

/// The header that stands at the start of `b`.
pub open spec fn meta_at(b: Seq<u8>) -> MetaHeader {
    MetaHeader {
        magic: le32_at(b, 0),
        version: le16_at(b, 4),
        header_len: le16_at(b, 6),
        doc_count: le64_at(b, 8),
        gram_count: le64_at(b, 16),
        grams_idx_len: le64_at(b, 24),
        grams_dat_len: le64_at(b, 32),
        fields_idx_len: le64_at(b, 40),
        fields_dat_len: le64_at(b, 48),
        docs_dat_len: le64_at(b, 56),
    }
}

/// What is wrong with the file `meta.bin`, if anything: checked in this
/// order, it is too short, has another magic or version, or its checksum
/// does not hold.
pub open spec fn meta_fault(file: Seq<u8>) -> Option<SegmentError> {
    if file.len() < 72 {
        Some(SegmentError::TooSmall { file: SegmentFile::Meta })
    } else if le32_at(file, 0) != META_MAGIC || le16_at(file, 4) != META_VERSION {
        Some(SegmentError::BadMagic { file: SegmentFile::Meta })
    } else if !is_sealed(file) {
        Some(SegmentError::BadCrc { file: SegmentFile::Meta })
    } else {
        None
    }
}

/// Writes `meta.bin`: the header fields, then the CRC-64 over them.
pub fn write_meta_with_crc(hdr: &MetaHeader) -> (file: Vec<u8>)
    ensures
        file@ == sealed(meta_bytes(*hdr)),
{
    let mut buf: Vec<u8> = Vec::new();
    push_u32(&mut buf, hdr.magic);
    push_u16(&mut buf, hdr.version);
    push_u16(&mut buf, hdr.header_len);
    push_u64(&mut buf, hdr.doc_count);
    push_u64(&mut buf, hdr.gram_count);
    push_u64(&mut buf, hdr.grams_idx_len);
    push_u64(&mut buf, hdr.grams_dat_len);
    push_u64(&mut buf, hdr.fields_idx_len);
    push_u64(&mut buf, hdr.fields_dat_len);
    push_u64(&mut buf, hdr.docs_dat_len);
    proof {
        assert(buf@ =~= meta_bytes(*hdr));
    }
    seal(buf)
}

/// Reads `meta.bin`.
pub fn read_meta(file: &[u8]) -> (r: Result<MetaHeader, SegmentError>)
    ensures
        match r {
            Ok(h) => meta_fault(file@) is None && h == meta_at(file@),
            Err(e) => meta_fault(file@) == Some(e),
        },
{
    if file.len() < META_FIELDS_LEN + 8 {
        return Err(SegmentError::TooSmall { file: SegmentFile::Meta });
    }
    let magic = read_u32(file, 0);
    let version = read_u16(file, 4);
    if magic != META_MAGIC || version != META_VERSION {
        return Err(SegmentError::BadMagic { file: SegmentFile::Meta });
    }
    if !check_seal(file) {
        return Err(SegmentError::BadCrc { file: SegmentFile::Meta });
    }
    Ok(
        MetaHeader {
            magic,
            version,
            header_len: read_u16(file, 6),
            doc_count: read_u64(file, 8),
            gram_count: read_u64(file, 16),
            grams_idx_len: read_u64(file, 24),
            grams_dat_len: read_u64(file, 32),
            fields_idx_len: read_u64(file, 40),
            fields_dat_len: read_u64(file, 48),
            docs_dat_len: read_u64(file, 56),
        },
    )
}

} // verus!
