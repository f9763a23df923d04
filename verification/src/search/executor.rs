//! What one per-segment task takes and gives, and the decisions of the
//! bounded executor that runs such tasks side by side.

use vstd::prelude::*;
use crate::search::types::Hit;

verus! {

/// What one per-segment task is given.
#[derive(Debug, Clone)]
pub struct SegmentTaskInput {
    pub seg_path: String,
    pub wildcard: String,
    /// The field to search; the empty string stands for any field.
    pub field: String,
    /// The last doc id the page before saw in this segment.
    pub cursor_docid: Option<u64>,
    pub max_candidates: u64,
    pub page_size: usize,
}

/// What one per-segment task returns.
#[derive(Debug)]
pub struct SegmentTaskOutput {
    pub seg_path: String,
    pub last_docid: Option<u64>,
    pub candidates: u64,
    pub hits: Vec<Hit>,
    pub prefilter_ms: u64,
    pub verify_ms: u64,
    pub prefetch_ms: u64,
    pub warmed_docs: u64,
}

impl SegmentTaskOutput {
    /// The output of a task that found nothing and measured nothing.
    pub fn empty(path: String) -> (r: Self)
        ensures
            r.seg_path == path,
            r.last_docid is None,
            r.candidates == 0,
            r.hits@.len() == 0,
            r.prefilter_ms == 0,
            r.verify_ms == 0,
            r.prefetch_ms == 0,
            r.warmed_docs == 0,
    {
        SegmentTaskOutput {
            seg_path: path,
            last_docid: None,
            candidates: 0,
            hits: Vec::new(),
            prefilter_ms: 0,
            verify_ms: 0,
            prefetch_ms: 0,
            warmed_docs: 0,
        }
    }
}

/// The executor: how many tasks may run side by side.
#[derive(Debug, Clone, Copy, PartialEq, Eq, Structural)]
pub struct ParallelExecutor {
    pub parallelism: usize,
}

/// What becomes of the next task.
#[derive(Debug, Clone, Copy, PartialEq, Eq, Structural)]
pub enum Admission {
    /// The task is not run: its output is the empty one.
    Skip,
    /// The task starts now.
    Start,
    /// No permit is free: the task waits until a running task has
    /// finished, and starts then.
    Wait,
}

/// One run of the executor over a list of tasks.
#[derive(Debug, Clone, Copy, PartialEq, Eq, Structural)]
pub struct ExecutorRun {
    pub parallelism: usize,
    pub page_size: usize,
    /// The number of tasks of the run.
    pub tasks: usize,
    /// The number of tasks that were decided on.
    pub decided: usize,
    /// The number of tasks that are running.
    pub in_flight: usize,
    /// Whether a task is waiting for a permit.
    pub waiting: bool,
    /// The hits of the tasks that have finished.
    pub total_hits: usize,
    /// The number of tasks that had to wait for a permit.
    pub saturated: usize,
    /// Whether the run was cancelled: by the caller, by the deadline, or
    /// because the page is full.
    pub cancelled: bool,
    /// Whether the deadline has elapsed.
    pub deadline_hit: bool,
}

impl ParallelExecutor {
    /// An executor that runs up to `parallelism` tasks side by side, and
    /// one at least.
    pub fn new(parallelism: usize) -> (r: Self)
        ensures
            r.parallelism == (if parallelism < 1 {
                1
            } else {
                parallelism
            }),
    {
        ParallelExecutor {
            parallelism: if parallelism < 1 {
                1
            } else {
                parallelism
            },
        }
    }

    /// A run over `tasks` tasks for a page of `page_size` hits.
    pub fn begin(&self, tasks: usize, page_size: usize) -> (r: ExecutorRun)
        requires
            self.parallelism >= 1,
        ensures
            r.wf(),
            r.tasks == tasks,
            r.page_size == page_size,
            r.parallelism == self.parallelism,
            r.decided == 0,
            r.in_flight == 0,
            !r.waiting,
            r.total_hits == 0,
            r.saturated == 0,
            !r.cancelled,
            !r.deadline_hit,
    {
        ExecutorRun {
            parallelism: self.parallelism,
            page_size,
            tasks,
            decided: 0,
            in_flight: 0,
            waiting: false,
            total_hits: 0,
            saturated: 0,
            cancelled: false,
            deadline_hit: false,
        }
    }
}

impl ExecutorRun {
    /// What holds of every state of a run: no more tasks are decided on
    /// than there are, no more run than there are permits, and only tasks
    /// that were decided on have run or waited.
    pub open spec fn wf(&self) -> bool {
        &&& self.parallelism >= 1
        &&& self.decided <= self.tasks
        &&& self.in_flight <= self.parallelism
        &&& self.in_flight + (if self.waiting {
            1int
        } else {
            0int
        }) <= self.decided
        &&& self.saturated <= self.decided
        &&& self.deadline_hit ==> self.cancelled
        &&& self.waiting ==> self.in_flight == self.parallelism
    }

    /// Whether every task was decided on.
    pub fn all_decided(&self) -> (r: bool)
        ensures
            r == (self.decided == self.tasks),
    {
        self.decided == self.tasks
    }

    /// Decides on the next task. It is skipped where the run is cancelled
    /// or the finished tasks have filled the page; it starts where a
    /// permit is free; else it is counted as saturated and waits.
    pub fn next_task(&mut self) -> (r: Admission)
        requires
            old(self).wf(),
            old(self).decided < old(self).tasks,
            !old(self).waiting,
        ensures
            final(self).wf(),
            final(self).decided == old(self).decided + 1,
            final(self).tasks == old(self).tasks,
            final(self).page_size == old(self).page_size,
            final(self).parallelism == old(self).parallelism,
            final(self).total_hits == old(self).total_hits,
            final(self).cancelled == old(self).cancelled,
            final(self).deadline_hit == old(self).deadline_hit,
            r == (if old(self).cancelled || old(self).total_hits >= old(self).page_size {
                Admission::Skip
            } else if old(self).in_flight < old(self).parallelism {
                Admission::Start
            } else {
                Admission::Wait
            }),
            final(self).in_flight == old(self).in_flight + (if r == Admission::Start {
                1int
            } else {
                0int
            }),
            final(self).waiting == (r == Admission::Wait),
            final(self).saturated == old(self).saturated + (if r == Admission::Wait {
                1int
            } else {
                0int
            }),
    {
        self.decided = self.decided + 1;
        if self.cancelled || self.total_hits >= self.page_size {
            Admission::Skip
        } else if self.in_flight < self.parallelism {
            self.in_flight = self.in_flight + 1;
            Admission::Start
        } else {
            self.saturated = self.saturated + 1;
            self.waiting = true;
            Admission::Wait
        }
    }

    /// A running task has finished with `hits` hits. Its permit goes to
    /// the task that waits, if one does. The run is cancelled where the
    /// hits of the finished tasks have filled the page. Gives whether the
    /// waiting task starts now.
    pub fn task_finished(&mut self, hits: usize) -> (started: bool)
        requires
            old(self).wf(),
            old(self).in_flight > 0,
        ensures
            final(self).wf(),
            final(self).tasks == old(self).tasks,
            final(self).decided == old(self).decided,
            final(self).page_size == old(self).page_size,
            final(self).parallelism == old(self).parallelism,
            final(self).saturated == old(self).saturated,
            final(self).deadline_hit == old(self).deadline_hit,
            final(self).total_hits == (if old(self).total_hits + hits > usize::MAX {
                usize::MAX as int
            } else {
                old(self).total_hits + hits
            }),
            final(self).cancelled == (old(self).cancelled || final(self).total_hits >= old(self).page_size),
            started == old(self).waiting,
            !final(self).waiting,
            final(self).in_flight == (if old(self).waiting {
                old(self).in_flight as int
            } else {
                old(self).in_flight - 1
            }),
    {
        self.total_hits = if self.total_hits > usize::MAX - hits {
            usize::MAX
        } else {
            self.total_hits + hits
        };
        if self.total_hits >= self.page_size {
            self.cancelled = true;
        }
        if self.waiting {
            self.waiting = false;
            true
        } else {
            self.in_flight = self.in_flight - 1;
            false
        }
    }

    /// The deadline has elapsed: the run is cancelled and says so.
    pub fn deadline_elapsed(&mut self)
        requires
            old(self).wf(),
        ensures
            final(self).wf(),
            final(self).deadline_hit,
            final(self).cancelled,
            final(self).tasks == old(self).tasks,
            final(self).decided == old(self).decided,
            final(self).in_flight == old(self).in_flight,
            final(self).waiting == old(self).waiting,
            final(self).total_hits == old(self).total_hits,
            final(self).saturated == old(self).saturated,
            final(self).page_size == old(self).page_size,
            final(self).parallelism == old(self).parallelism,
    {
        self.deadline_hit = true;
        self.cancelled = true;
    }

    /// The caller has cancelled the run.
    pub fn caller_cancelled(&mut self)
        requires
            old(self).wf(),
        ensures
            final(self).wf(),
            final(self).cancelled,
            final(self).deadline_hit == old(self).deadline_hit,
            final(self).tasks == old(self).tasks,
            final(self).decided == old(self).decided,
            final(self).in_flight == old(self).in_flight,
            final(self).waiting == old(self).waiting,
            final(self).total_hits == old(self).total_hits,
            final(self).saturated == old(self).saturated,
            final(self).page_size == old(self).page_size,
            final(self).parallelism == old(self).parallelism,
    {
        self.cancelled = true;
    }

    /// Whether the deadline was hit, and how many tasks had to wait for a
    /// permit: never more than there are tasks.
    pub fn outcome(&self) -> (r: (bool, usize))
        requires
            self.wf(),
        ensures
            r.0 == self.deadline_hit,
            r.1 == self.saturated,
            r.1 <= self.tasks,
    {
        (self.deadline_hit, self.saturated)
    }
}

} // verus!
