//! The manifest of one shard in its long form, and the pointer that says
//! which manifest of a shard is the current one.

use vstd::prelude::*;

verus! {

/// The pointer to the current manifest of a shard.
#[derive(Debug, Clone)]
pub struct ManifestPtr {
    pub epoch: u64,
    pub gen: u64,
    pub url: String,
    pub checksum: String,
    /// The time of the last change, as ISO 8601 text.
    pub updated_at: String,
}

/// One segment of a manifest in its long form.
#[derive(Debug, Clone)]
pub struct SegmentMeta {
    pub id: String,
    pub url: String,
    pub min_doc: u32,
    pub max_doc: u32,
    pub time_min: i64,
    pub time_max: i64,
}

/// The tombstones of a manifest in its long form.
#[derive(Debug, Clone)]
pub struct TombMeta {
    pub cardinality: u64,
    pub url: String,
}

/// The manifest of one shard in its long form.
#[derive(Debug, Clone)]
pub struct ManifestV1 {
    pub version: u32,
    pub shard_id: u64,
    pub gen: u64,
    pub created_at: String,
    pub hwm_seqno: String,
    pub segments: Vec<SegmentMeta>,
    pub tombstones: TombMeta,
    pub prev_gen: Option<u64>,
}

/// The header of a segment of the first, textual format.
#[derive(Debug, Clone, Copy, PartialEq, Eq, Structural)]
pub struct SegmentMetaV1 {
    pub version: u32,
    pub doc_count: u32,
    pub gram_count: u32,
}

/// A pointer as texts and numbers.
pub struct PtrModel {
    pub epoch: u64,
    pub gen: u64,
    pub url: Seq<char>,
    pub checksum: Seq<char>,
    pub updated_at: Seq<char>,
}

impl ManifestPtr {
    /// The pointer as texts and numbers.
    pub open spec fn model(self) -> PtrModel {
        PtrModel {
            epoch: self.epoch,
            gen: self.gen,
            url: self.url@,
            checksum: self.checksum@,
            updated_at: self.updated_at@,
        }
    }

    /// A copy of the pointer.
    pub fn duplicate(&self) -> (r: Self)
        ensures
            r.model() == self.model(),
    {
        ManifestPtr {
            epoch: self.epoch,
            gen: self.gen,
            url: self.url.clone(),
            checksum: self.checksum.clone(),
            updated_at: self.updated_at.clone(),
        }
    }
}

} // verus!
