//! The compactor: from a batch file of the write-ahead log to a segment
//! directory. It names the directory and judges the batch's checksum.

use vstd::prelude::*;
use crate::crc::{crc32, crc32_of, xxh3_64, xxh3_of};
use crate::digits::{decimal_padded, format_decimal_padded, format_hex_fixed, hex_fixed};
use crate::text::{chars_eq, str_eq, string_of, trim_chars, trimmed};

verus! {

/// The compactor of an output directory.
#[derive(Debug, Clone)]
pub struct Compactor {
    pub out_dir: String,
}

/// The checksums that may stand beside a batch file.
#[derive(Debug, Clone, Copy, PartialEq, Eq, Structural)]
pub enum SidecarKind {
    /// XXH3, in a file that ends in `xxh3`.
    Xxh3,
    /// CRC-32, in a file that ends in `crc32c`.
    Crc32c,
}

/// What the check of a batch's checksum found. None of these keeps the
/// compactor from building the segment.
#[derive(Debug, Clone, Copy, PartialEq, Eq, Structural)]
pub enum ChecksumVerdict {
    /// The checksum holds.
    Valid,
    /// No checksum stands beside the batch.
    Missing,
    /// The file beside the batch is of a kind that is not known.
    UnknownKind,
    /// The checksum of the batch is another than the one beside it.
    Mismatch,
}

/// The kind of checksum that a file extension names.
pub open spec fn kind_named(ext: Option<Seq<char>>) -> Option<SidecarKind> {
    match ext {
        Some(e) => if e == "xxh3"@ {
            Some(SidecarKind::Xxh3)
        } else if e == "crc32c"@ {
            Some(SidecarKind::Crc32c)
        } else {
            None
        },
        None => None,
    }
}

/// The checksum of `data` as a sidecar of the kind holds it: the XXH3
/// hash in sixteen hexadecimal digits, or the CRC-32 in eight.
pub open spec fn sidecar_text(kind: SidecarKind, data: Seq<u8>) -> Seq<char> {
    match kind {
        SidecarKind::Xxh3 => hex_fixed(xxh3_of(data) as nat, 16),
        SidecarKind::Crc32c => hex_fixed(crc32_of(data) as nat, 8),
    }
}

/// What the check of a batch's checksum finds.
pub open spec fn verdict_of(
    sidecar: Option<(Option<Seq<char>>, Seq<char>)>,
    data: Seq<u8>,
) -> ChecksumVerdict {
    match sidecar {
        None => ChecksumVerdict::Missing,
        Some((ext, want)) => match kind_named(ext) {
            None => ChecksumVerdict::UnknownKind,
            Some(kind) => if sidecar_text(kind, data) == trimmed(want) {
                ChecksumVerdict::Valid
            } else {
                ChecksumVerdict::Mismatch
            },
        },
    }
}

/// The name of a segment directory: the time in milliseconds in fifteen
/// digits at least.
pub open spec fn segment_dir_text(ts_ms: u64) -> Seq<char> {
    decimal_padded(ts_ms as nat, 15)
}

/// The kind of checksum that a file extension names.
pub fn sidecar_kind(ext: Option<&str>) -> (r: Option<SidecarKind>)
    ensures
        r == kind_named(
            match ext {
                Some(e) => Some(e@),
                None => None,
            },
        ),
{
    match ext {
        Some(e) => {
            if str_eq(e, "xxh3") {
                Some(SidecarKind::Xxh3)
            } else if str_eq(e, "crc32c") {
                Some(SidecarKind::Crc32c)
            } else {
                None
            }
        },
        None => None,
    }
}

/// Checks the bytes of a batch file against the sidecar found beside it:
/// the extension of the sidecar's name, and what it holds.
pub fn validate_wal_checksum_best_effort(sidecar: Option<(Option<&str>, &str)>, data: &[u8]) -> (r:
    ChecksumVerdict)
    ensures
        r == verdict_of(
            match sidecar {
                Some((ext, want)) => Some(
                    (
                        match ext {
                            Some(e) => Some(e@),
                            None => None,
                        },
                        want@,
                    ),
                ),
                None => None,
            },
            data@,
        ),
{
    match sidecar {
        None => ChecksumVerdict::Missing,
        Some((ext, want)) => match sidecar_kind(ext) {
            None => ChecksumVerdict::UnknownKind,
            Some(kind) => {
                let have = match kind {
                    SidecarKind::Xxh3 => format_hex_fixed(xxh3_64(data), 16),
                    SidecarKind::Crc32c => format_hex_fixed(crc32(data) as u64, 8),
                };
                let w = trim_chars(want);
                if chars_eq(&have, &w) {
                    ChecksumVerdict::Valid
                } else {
                    ChecksumVerdict::Mismatch
                }
            },
        },
    }
}

impl Compactor {
    /// The compactor that puts its segments below `out_dir`.
    pub fn new(out_dir: String) -> (r: Self)
        ensures
            r.out_dir == out_dir,
    {
        Compactor { out_dir }
    }

    /// The name of the directory of a segment made at `ts_ms`.
    pub fn segment_dir_name(&self, ts_ms: u64) -> (r: String)
        ensures
            r@ == segment_dir_text(ts_ms),
    {
        let cs = format_decimal_padded(ts_ms, 15);
        string_of(&cs)
    }
}

} // verus!
