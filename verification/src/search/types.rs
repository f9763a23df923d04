//! The search request, the response and the continuation cursor.

use vstd::prelude::*;
use crate::json::Json;
use crate::listmap::ListMap;
use crate::strmap::StrMap;

verus! {

/// The page a client asks for.
#[derive(Debug)]
pub struct PageIn {
    /// The most hits to return.
    pub size: usize,
    /// The cursor of the page before, as the client echoes it.
    pub cursor: Option<Json>,
}

/// Limits a client may set on one query.
#[derive(Debug, Clone)]
pub struct SearchLimits {
    pub parallelism: Option<usize>,
    pub deadline_ms: Option<u64>,
    pub max_candidates: Option<u64>,
}

impl SearchLimits {
    /// The time budget of the request in milliseconds, if it has one.
    pub fn deadline_duration(&self) -> (r: Option<u64>)
        ensures
            r == self.deadline_ms,
    {
        self.deadline_ms
    }
}

/// A search request.
#[derive(Debug)]
pub struct SearchRequest {
    /// The wildcard pattern, with `*` and `?`.
    pub wildcard: String,
    /// The one field to search, if the client names one.
    pub field: Option<String>,
    /// Segment paths to search where no shards are given.
    pub segments: Vec<String>,
    /// Shards to resolve through the manifest.
    pub shards: Option<Vec<u64>>,
    pub page: PageIn,
    pub limits: Option<SearchLimits>,
}

/// How far a query has read into one segment.
#[derive(Debug, Clone, Copy, PartialEq, Eq, Structural)]
pub struct PerSegPos {
    pub last_docid: u64,
}

/// The continuation cursor: a position per segment path, and the
/// generation each shard was pinned to.
#[derive(Debug)]
pub struct SearchCursor {
    pub per_seg: StrMap<PerSegPos>,
    pub pin_gen: Option<ListMap<u64, u64>>,
}

/// One hit of a page.
#[derive(Debug, Clone)]
pub struct Hit {
    pub ext_id: String,
    pub doc_id: u32,
    pub matched_field: String,
    pub preview: String,
}

/// Figures about one query; the last four are absent where nothing was
/// measured at all.
#[derive(Debug, Clone)]
pub struct SearchMetrics {
    pub candidates_total: u64,
    pub time_to_first_hit_ms: u64,
    pub deadline_hit: bool,
    pub saturated_sem: u64,
    pub dedup_dropped: u64,
    pub prefilter_ms: Option<u64>,
    pub verify_ms: Option<u64>,
    pub prefetch_ms: Option<u64>,
    pub warmed_docs: Option<u64>,
}

/// The answer to a search request.
#[derive(Debug)]
pub struct SearchResponse {
    pub hits: Vec<Hit>,
    pub cursor: Option<SearchCursor>,
    pub metrics: SearchMetrics,
}

} // verus!
