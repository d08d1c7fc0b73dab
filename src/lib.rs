//! Co-change analysis of a commit history: from the files that each bin of
//! commits touched, a file-by-bin change matrix, a file-by-file co-change
//! frequency matrix, a co-change probability matrix, and the ripple that a
//! set of recently changed files predicts. Matrix cells are of a numeric type
//! chosen by the caller; the contracts state each cell as the operations of
//! that type applied in the order the algorithms perform them.

pub mod bayes;
pub mod bettergit;
pub mod changes;
pub mod cochanges;
pub mod labels;
pub mod laws;
pub mod matrix;
pub mod model;
pub mod naive;
pub mod nop;
pub mod output;
pub mod predict;

use crate::bettergit::{is_instant, BetterGitOpt, MAX_TIMESTAMP, MIN_TIMESTAMP};
use crate::changes::{all_new_files, distinct_bins, is_changes_of, wide_index, Changes, GroupedBetterDiffs};
use crate::cochanges::{arith_defined, is_cochanges_of, CoChanges, CoChangesOpt};
use crate::predict::{is_ripple_of, PredictionOpt, RippleChangeProbabilities};
use core::ops::{Add, Div, Mul};
use vstd::prelude::*;

verus! {

#[derive(Clone, Copy, Debug, PartialEq, Eq, Structural)]
pub enum AnalysisStatus {
    Initialized,
    Running,
    Completed,
    Failed,
}

/// Why an analysis failed.
pub enum AnalysisError {
    RepositoryUnavailable(String),
    BranchNotFound(String),
    FilterConfigurationInvalid(String),
    PipelineFailure(String),
}

pub struct Options {
    pub repository: String,
    pub git_opts: BetterGitOpt,
    pub cc_opts: CoChangesOpt,
    pub pred_opts: PredictionOpt,
}

/// The artifacts of one analysis.
pub struct AnalysisOutput<T> {
    pub changes: Changes,
    pub co_changes: CoChanges<T>,
    pub ripples: RippleChangeProbabilities<T>,
}

/// One analysis: its options, status, timing (milliseconds since the Unix
/// epoch) and, once completed, its artifacts.
pub struct Analysis<T> {
    pub id: u64,
    pub opts: Options,
    pub output: Option<AnalysisOutput<T>>,
    pub start: Option<i64>,
    pub end: Option<i64>,
    pub duration: i64,
    pub status: AnalysisStatus,
}

/// A time in milliseconds that a UTC date-time can hold.
pub open spec fn is_millis(t: i64) -> bool {
    (MIN_TIMESTAMP as int) * 1000 <= t <= (MAX_TIMESTAMP as int) * 1000 + 999
}

impl<T> Analysis<T> {
    pub fn new(opts: Options) -> (a: Self)
        ensures
            a.opts == opts,
            a.id == 0,
            a.status == AnalysisStatus::Initialized,
            a.output is None,
            a.start is None,
            a.end is None,
            a.duration == 0,
    {
        Analysis {
            id: 0,
            opts,
            output: None,
            start: None,
            end: None,
            duration: 0,
            status: AnalysisStatus::Initialized,
        }
    }

    /// Records that a run starts at `now`.
    pub fn begin(&mut self, now: i64)
        ensures
            final(self).status == AnalysisStatus::Running,
            final(self).start == Some(now),
            final(self).end == old(self).end,
            final(self).output == old(self).output,
            final(self).duration == old(self).duration,
            final(self).opts == old(self).opts,
            final(self).id == old(self).id,
    {
        self.status = AnalysisStatus::Running;
        self.start = Some(now);
    }

    /// Records that the run ends at `now` with `outcome`: the artifacts and
    /// `Completed`, or `Failed` and the cause handed back unchanged.
    pub fn finish(&mut self, outcome: Result<AnalysisOutput<T>, AnalysisError>, now: i64) -> (r:
        Result<(), AnalysisError>)
        requires
            old(self).start matches Some(s) && is_millis(s),
            is_millis(now),
        ensures
            final(self).end == Some(now),
            final(self).duration == now - old(self).start->Some_0,
            final(self).start == old(self).start,
            final(self).opts == old(self).opts,
            final(self).id == old(self).id,
            match outcome {
                Ok(out) => {
                    &&& final(self).status == AnalysisStatus::Completed
                    &&& final(self).output == Some(out)
                    &&& r is Ok
                },
                Err(e) => {
                    &&& final(self).status == AnalysisStatus::Failed
                    &&& final(self).output == old(self).output
                    &&& r == Err::<(), AnalysisError>(e)
                },
            },
    {
        let start = match self.start {
            Some(s) => s,
            None => now,
        };
        self.end = Some(now);
        self.duration = now - start;
        match outcome {
            Ok(out) => {
                self.status = AnalysisStatus::Completed;
                self.output = Some(out);
                Ok(())
            },
            Err(e) => {
                self.status = AnalysisStatus::Failed;
                Err(e)
            },
        }
    }
}

impl<T: Copy + Add<Output = T> + Mul<Output = T> + Div<Output = T> + From<u32> + PartialOrd> Analysis<T> {
    /// The pipeline on the mined records: the changes matrix, the co-changes
    /// under `cc_opts` and the ripple under `pred_opts`.
    pub fn execute<F: Fn(T) -> T>(
        diffs: &GroupedBetterDiffs,
        cc_opts: &CoChangesOpt,
        pred_opts: &PredictionOpt,
        smooth: F,
    ) -> (r: AnalysisOutput<T>)
        requires
            distinct_bins(diffs@),
            all_new_files(diffs@).len() <= u32::MAX,
            diffs@.len() <= u32::MAX,
            wide_index(),
            forall|k: int| 0 <= k < diffs@.len() ==> is_instant(#[trigger] diffs@[k].0),
            arith_defined::<T>(),
            forall|x: T| smooth.requires((x,)),
        ensures
            is_changes_of(r.changes, diffs@),
            is_cochanges_of(r.co_changes, r.changes, *cc_opts, smooth),
            is_ripple_of(r.ripples, r.co_changes, r.changes, *pred_opts),
    {
        let changes = Changes::from_diffs(diffs);
        let co_changes = CoChanges::from_changes(&changes, cc_opts, smooth);
        let ripples = RippleChangeProbabilities::from(&co_changes, &changes, pred_opts);
        AnalysisOutput { changes, co_changes, ripples }
    }
}

} // verus!
