//! The decisions of one ingest. The work itself, writing the log, the
//! segment and the manifest, is the caller's: it hands each outcome in
//! and gets the next thing to do.

use vstd::prelude::*;
use crate::ingest::hot::{ApplyResult, Backpressure};

verus! {

/// The answer to an ingest.
#[derive(Debug, Clone)]
pub struct IngestResponse {
    /// The status of the answer: 200, or 503 where the batch was refused.
    pub status: u16,
    pub ok: bool,
    pub hot_added: usize,
    pub idempotent: bool,
    pub backlog_ms: Option<u64>,
    pub segment_error: Option<String>,
    pub manifest_error: Option<String>,
}

/// What to do once the hot buffer has answered.
#[derive(Debug, Clone, Copy, PartialEq, Eq, Structural)]
pub enum HotStep {
    /// The buffer is full: answer with 503 and the wait.
    Refuse { retry_after_ms: u64 },
    /// The batch is a replay: answer at once, write nothing.
    Replay,
    /// The batch was taken: write it to the log and build its segment.
    Persist { added: usize, backlog_ms: Option<u64> },
}

/// What to do about the manifest once the segment is written or not.
#[derive(Debug, Clone, Copy, PartialEq, Eq, Structural)]
pub enum PublishStep {
    /// Append the segment to the manifest.
    Append,
    /// There is nothing to append, or nowhere to append it.
    Skip,
}

/// What to do once an append to the manifest has failed.
#[derive(Debug, Clone, Copy, PartialEq, Eq, Structural)]
pub enum RetryStep {
    /// The manifest file is missing: create it and append once more.
    CreateAndRetry,
    /// The manifest file is there: report the failure.
    Report,
}

/// What to do once the hot buffer has answered.
pub fn after_hot(applied: Result<ApplyResult, Backpressure>) -> (r: HotStep)
    ensures
        r == (match applied {
            Err(bp) => HotStep::Refuse { retry_after_ms: bp.retry_after_ms },
            Ok(a) => if a.idempotent {
                HotStep::Replay
            } else {
                HotStep::Persist { added: a.added, backlog_ms: a.backlog_ms }
            },
        }),
{
    match applied {
        Err(bp) => HotStep::Refuse { retry_after_ms: bp.retry_after_ms },
        Ok(a) => if a.idempotent {
            HotStep::Replay
        } else {
            HotStep::Persist { added: a.added, backlog_ms: a.backlog_ms }
        },
    }
}

/// Whether to append to the manifest: only where a manifest is set up and
/// the segment was written.
pub fn after_segment(manifest_configured: bool, segment_written: bool) -> (r: PublishStep)
    ensures
        r == (if manifest_configured && segment_written {
            PublishStep::Append
        } else {
            PublishStep::Skip
        }),
{
    if manifest_configured && segment_written {
        PublishStep::Append
    } else {
        PublishStep::Skip
    }
}

/// What to do once an append to the manifest has failed: one more try
/// after creating the file where it is missing.
pub fn after_append_failure(manifest_exists: bool) -> (r: RetryStep)
    ensures
        r == (if manifest_exists {
            RetryStep::Report
        } else {
            RetryStep::CreateAndRetry
        }),
{
    if manifest_exists {
        RetryStep::Report
    } else {
        RetryStep::CreateAndRetry
    }
}

/// The answer to a batch that the full buffer refused.
pub fn refused(backlog_ms: u64) -> (r: IngestResponse)
    ensures
        r.status == 503,
        !r.ok,
        r.hot_added == 0,
        !r.idempotent,
        r.backlog_ms == Some(backlog_ms),
        r.segment_error is None,
        r.manifest_error is None,
{
    IngestResponse {
        status: 503,
        ok: false,
        hot_added: 0,
        idempotent: false,
        backlog_ms: Some(backlog_ms),
        segment_error: None,
        manifest_error: None,
    }
}

/// The answer to a replay.
pub fn replayed() -> (r: IngestResponse)
    ensures
        r.status == 200,
        r.ok,
        r.hot_added == 0,
        r.idempotent,
        r.backlog_ms is None,
        r.segment_error is None,
        r.manifest_error is None,
{
    IngestResponse {
        status: 200,
        ok: true,
        hot_added: 0,
        idempotent: true,
        backlog_ms: None,
        segment_error: None,
        manifest_error: None,
    }
}

/// The answer to a batch that the hot buffer took: it succeeds whatever
/// became of the segment and the manifest, and names what failed.
pub fn persisted(
    added: usize,
    backlog_ms: Option<u64>,
    segment_error: Option<String>,
    manifest_error: Option<String>,
) -> (r: IngestResponse)
    ensures
        r.status == 200,
        r.ok,
        r.hot_added == added,
        !r.idempotent,
        r.backlog_ms == backlog_ms,
        r.segment_error == segment_error,
        r.manifest_error == manifest_error,
{
    IngestResponse {
        status: 200,
        ok: true,
        hot_added: added,
        idempotent: false,
        backlog_ms,
        segment_error,
        manifest_error,
    }
}

} // verus!
