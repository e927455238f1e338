//! The fetch-transform-persist job for one symbol: its lifecycle, the stage
//! transitions, and the log entries it emits. Each stage's failure is local:
//! the job terminates with a log entry and never disturbs its siblings.

use crate::clock::DateRange;
use crate::gains::compute_gains;
use crate::gains::gains_of;
use crate::gains::Gain;
use crate::gains::Quote;
use vstd::prelude::*;

verus! {

/// The lifecycle of one fetch-transform-persist job.
#[derive(Clone, Copy, Debug, PartialEq, Eq, Structural)]
pub enum JobState {
    Pending,
    Fetching,
    Transforming,
    Persisting,
    Done,
    Failed,
}

/// A job has been started once it left `Pending`.
pub open spec fn started(s: JobState) -> bool {
    s != JobState::Pending
}

/// A job is resolved once it reaches a terminal state, `Done` or `Failed`.
pub open spec fn resolved(s: JobState) -> bool {
    s == JobState::Done || s == JobState::Failed
}

/// What a job asks the log sink to record. Every entry carries the symbol it
/// belongs to, so diagnostics from concurrently running jobs stay
/// attributable.
pub struct LogEntry {
    pub symbol: String,
    pub detail: LogDetail,
}

/// The three things a job reports: a failed fetch, a failed persist, or the
/// success marker written once a file has been persisted.
pub enum LogDetail {
    FetchFailed(String),
    PersistFailed(String),
    Persisted(DateRange),
}

/// One unit of concurrent work, bound to exactly one symbol and one date
/// range.
pub struct Job {
    pub symbol: String,
    pub range: DateRange,
    pub state: JobState,
}

impl Job {
    pub fn new(symbol: String, range: DateRange) -> (job: Job)
        ensures
            job.symbol@ == symbol@,
            job.range == range,
            job.state == JobState::Pending,
    {
        Job { symbol, range, state: JobState::Pending }
    }

    /// The fetch call for this job is about to be issued.
    pub fn begin_fetch(&mut self)
        requires
            old(self).state == JobState::Pending,
        ensures
            final (self).state == JobState::Fetching,
            final (self).symbol@ == old(self).symbol@,
            final (self).range == old(self).range,
    {
        self.state = JobState::Fetching;
    }

    /// The fetch stage failed: the job terminates locally with a log entry
    /// that carries the symbol, and nothing is persisted for it in this run.
    pub fn fetch_failed(&mut self, error: String) -> (entry: LogEntry)
        requires
            old(self).state == JobState::Fetching,
        ensures
            final (self).state == JobState::Failed,
            final (self).symbol@ == old(self).symbol@,
            final (self).range == old(self).range,
            entry.symbol@ == old(self).symbol@,
            entry.detail matches LogDetail::FetchFailed(m) && m@ == error@,
    {
        self.state = JobState::Failed;
        LogEntry { symbol: self.symbol.clone(), detail: LogDetail::FetchFailed(error) }
    }

    /// The fetch stage returned quotes; the job moves on to transform them.
    pub fn fetch_succeeded(&mut self)
        requires
            old(self).state == JobState::Fetching,
        ensures
            final (self).state == JobState::Transforming,
            final (self).symbol@ == old(self).symbol@,
            final (self).range == old(self).range,
    {
        self.state = JobState::Transforming;
    }

    /// The transform stage: converts the fetched quotes to the gain series,
    /// preserving the source order. This stage cannot fail, because the gain
    /// computation is total.
    pub fn transform(&mut self, quotes: &Vec<Quote>) -> (gains: Vec<Gain>)
        requires
            old(self).state == JobState::Transforming,
        ensures
            final (self).state == JobState::Persisting,
            final (self).symbol@ == old(self).symbol@,
            final (self).range == old(self).range,
            gains@ == gains_of(quotes@),
    {
        self.state = JobState::Persisting;
        compute_gains(quotes)
    }

    /// The persist stage failed: the job terminates locally with a log entry
    /// that carries the symbol; the output file may be missing or partial.
    pub fn persist_failed(&mut self, error: String) -> (entry: LogEntry)
        requires
            old(self).state == JobState::Persisting,
        ensures
            final (self).state == JobState::Failed,
            final (self).symbol@ == old(self).symbol@,
            final (self).range == old(self).range,
            entry.symbol@ == old(self).symbol@,
            entry.detail matches LogDetail::PersistFailed(m) && m@ == error@,
    {
        self.state = JobState::Failed;
        LogEntry { symbol: self.symbol.clone(), detail: LogDetail::PersistFailed(error) }
    }

    /// The persist stage succeeded: the job is done, and a success marker
    /// carrying the symbol and the fetched range is logged.
    pub fn persist_succeeded(&mut self) -> (entry: LogEntry)
        requires
            old(self).state == JobState::Persisting,
        ensures
            final (self).state == JobState::Done,
            final (self).symbol@ == old(self).symbol@,
            final (self).range == old(self).range,
            entry.symbol@ == old(self).symbol@,
            entry.detail matches LogDetail::Persisted(r) && r == old(self).range,
    {
        self.state = JobState::Done;
        LogEntry { symbol: self.symbol.clone(), detail: LogDetail::Persisted(self.range) }
    }
}

} // verus!
