//! The bounded-concurrency batch scheduler: partitioning the symbol list into
//! contiguous windows, and the state machine that gates each batch behind the
//! completion of every job in the batch before it.

use crate::job::resolved;
use crate::job::started;
use crate::job::JobState;
use vstd::arithmetic::div_mod::lemma_basic_div;
use vstd::arithmetic::div_mod::lemma_div_by_multiple;
use vstd::arithmetic::div_mod::lemma_div_by_multiple_is_strongly_ordered;
use vstd::arithmetic::div_mod::lemma_div_is_ordered;
use vstd::arithmetic::div_mod::lemma_div_plus_one;
use vstd::arithmetic::div_mod::lemma_fundamental_div_mod;
use vstd::arithmetic::div_mod::lemma_mod_add_multiples_vanish;
use vstd::arithmetic::div_mod::lemma_small_mod;
use vstd::prelude::*;

verus! {

/// The contiguous batches of size `window` that a sequence is processed in,
/// in input order; the final batch may be shorter, and is never empty.
pub open spec fn spec_batches<T>(s: Seq<T>, window: nat) -> Seq<Seq<T>>
    decreases s.len(),
{
    if window == 0 || s.len() == 0 {
        Seq::empty()
    } else if s.len() <= window {
        seq![s]
    } else {
        seq![s.subrange(0, window as int)] + spec_batches(
            s.subrange(window as int, s.len() as int),
            window,
        )
    }
}

/// A non-empty list makes exactly as many batches as the ceiling of its
/// length divided by the window; the empty list makes none.
pub proof fn lemma_batch_count<T>(s: Seq<T>, window: nat)
    requires
        window >= 1,
    ensures
        s.len() == 0 ==> spec_batches(s, window).len() == 0,
        s.len() > 0 ==> spec_batches(s, window).len() == (s.len() + window - 1) as int / (
        window as int),
    decreases s.len(),
{
    if s.len() == 0 {
    } else if s.len() <= window {
        lemma_div_plus_one(s.len() as int - 1, window as int);
        lemma_basic_div(s.len() as int - 1, window as int);
    } else {
        lemma_batch_count(s.subrange(window as int, s.len() as int), window);
        lemma_div_plus_one(s.len() as int - 1, window as int);
    }
}

/// Every batch has exactly `window` elements, except the last, which has
/// between one and `window`.
pub proof fn lemma_batch_sizes<T>(s: Seq<T>, window: nat, k: int)
    requires
        window >= 1,
        0 <= k < spec_batches(s, window).len(),
    ensures
        k < spec_batches(s, window).len() - 1 ==> spec_batches(s, window)[k].len() == window,
        k == spec_batches(s, window).len() - 1 ==> 0 < spec_batches(s, window)[k].len() <= window,
    decreases s.len(),
{
    if s.len() == 0 {
    } else if s.len() <= window {
    } else {
        let rest = s.subrange(window as int, s.len() as int);
        if k > 0 {
            lemma_batch_sizes(rest, window, k - 1);
        }
    }
}

/// Concatenating the batches in order gives back the original sequence:
/// every element is assigned to exactly one batch, none is skipped or
/// processed twice, and the input order is kept.
pub proof fn lemma_batches_cover<T>(s: Seq<T>, window: nat)
    requires
        window >= 1,
    ensures
        spec_batches(s, window).flatten() == s,
    decreases s.len(),
{
    if s.len() == 0 {
        assert(spec_batches(s, window).flatten() =~= s);
    } else if s.len() <= window {
        assert(seq![s].drop_first() =~= Seq::<Seq<T>>::empty());
        assert(Seq::<Seq<T>>::empty().flatten() =~= Seq::<T>::empty());
        assert(spec_batches(s, window).flatten() =~= s);
    } else {
        let rest = s.subrange(window as int, s.len() as int);
        lemma_batches_cover(rest, window);
        let whole = spec_batches(s, window);
        assert(whole.drop_first() =~= spec_batches(rest, window));
        assert(whole[0] == s.subrange(0, window as int));
        assert(whole.flatten() == whole[0] + whole.drop_first().flatten());
        assert(s.subrange(0, window as int) + rest =~= s);
    }
}

/// Partitions the symbol list into contiguous batches of at most `window`
/// symbols, in input order; the final batch may be shorter.
pub fn partition_into_batches(symbols: &Vec<String>, window: usize) -> (batches: Vec<
    Vec<String>,
>)
    requires
        window >= 1,
    ensures
        batches.deep_view() == spec_batches(symbols.deep_view(), window as nat),
{
    let n = symbols.len();
    let mut batches: Vec<Vec<String>> = Vec::new();
    let mut start: usize = 0;
    proof {
        assert(batches.deep_view() =~= Seq::<Seq<Seq<char>>>::empty());
        assert(symbols.deep_view().subrange(0, n as int) =~= symbols.deep_view());
        assert(batches.deep_view() + spec_batches(symbols.deep_view(), window as nat)
            =~= spec_batches(symbols.deep_view(), window as nat));
    }
    while start < n
        invariant
            window >= 1,
            n == symbols@.len(),
            start <= n,
            batches.deep_view() + spec_batches(
                symbols.deep_view().subrange(start as int, n as int),
                window as nat,
            ) == spec_batches(symbols.deep_view(), window as nat),
        decreases n - start,
    {
        let ghost rem = symbols.deep_view().subrange(start as int, n as int);
        let ghost old_batches = batches.deep_view();
        let end = if n - start >= window {
            start + window
        } else {
            n
        };
        let mut batch: Vec<String> = Vec::new();
        proof {
            assert(batch.deep_view() =~= symbols.deep_view().subrange(start as int, start as int));
        }
        let mut j = start;
        while j < end
            invariant
                start <= j <= end <= n,
                n == symbols@.len(),
                batch.deep_view() == symbols.deep_view().subrange(start as int, j as int),
            decreases end - j,
        {
            let ghost bdv = batch.deep_view();
            let item = symbols[j].clone();
            proof {
                assert(item.deep_view() == symbols.deep_view()[j as int]);
            }
            batch.push(item);
            proof {
                assert(batch.deep_view() =~= bdv.push(symbols.deep_view()[j as int]));
                assert(bdv.push(symbols.deep_view()[j as int]) =~= symbols.deep_view().subrange(
                    start as int,
                    j as int + 1,
                ));
            }
            j = j + 1;
        }
        batches.push(batch);
        proof {
            let batchv = symbols.deep_view().subrange(start as int, end as int);
            assert(batches.deep_view() =~= old_batches.push(batchv));
            assert(old_batches.push(batchv) =~= old_batches + seq![batchv]);
            let rem2 = symbols.deep_view().subrange(end as int, n as int);
            if end < n {
                assert(rem.subrange(0, window as int) =~= batchv);
                assert(rem.subrange(window as int, rem.len() as int) =~= rem2);
                assert(spec_batches(rem, window as nat) == seq![batchv] + spec_batches(
                    rem2,
                    window as nat,
                ));
            } else {
                assert(rem =~= batchv);
                assert(spec_batches(rem, window as nat) == seq![batchv]);
                assert(rem2.len() == 0);
                assert(spec_batches(rem2, window as nat) =~= Seq::<Seq<Seq<char>>>::empty());
            }
            assert((old_batches + seq![batchv]) + spec_batches(rem2, window as nat)
                =~= old_batches + (seq![batchv] + spec_batches(rem2, window as nat)));
        }
        start = end;
    }
    batches
}

/// The one configuration fault the scheduler itself rejects: a batch window
/// of zero.
#[derive(Clone, Copy, Debug, PartialEq, Eq, Structural)]
pub enum ConfigError {
    ZeroWindow,
}

/// Plans a run: partitions the symbols into batches of at most `window`, in
/// input order. A window of zero is a configuration error and fails fast,
/// before any batch is formed; every positive window succeeds.
pub fn plan_batches(symbols: &Vec<String>, window: usize) -> (r: Result<
    Vec<Vec<String>>,
    ConfigError,
>)
    ensures
        r is Ok <==> window >= 1,
        r is Err ==> r->Err_0 == ConfigError::ZeroWindow,
        r is Ok ==> r->Ok_0.deep_view() == spec_batches(symbols.deep_view(), window as nat),
{
    if window == 0 {
        Err(ConfigError::ZeroWindow)
    } else {
        Ok(partition_into_batches(symbols, window))
    }
}

/// The batch a job index belongs to, counting batches from zero.
pub open spec fn batch_of(i: int, window: int) -> int {
    i / window
}

/// The scheduler's record of one run: one job state per symbol, in input
/// order, advanced one batch at a time. Jobs are started a whole batch at a
/// time, and a batch starts only after every job of the batch before it has
/// resolved.
pub struct BatchScheduler {
    /// One state per job, indexed as the symbol list is.
    pub jobs: Vec<JobState>,
    /// The bound on concurrent jobs: the batch width.
    pub window: usize,
    /// Index of the first job of the newest started batch.
    pub floor: usize,
    /// Index just past the newest started batch: every job below it has been
    /// started, and none at or above it has.
    pub frontier: usize,
}

impl BatchScheduler {
    /// The scheduler's invariant. Beyond bookkeeping bounds, it carries the
    /// batch-ordering guarantee: every job below the newest batch's floor is
    /// resolved, and exactly the jobs below the frontier are started.
    pub open spec fn inv(self) -> bool {
        &&& self.window >= 1
        &&& self.floor <= self.frontier <= self.jobs@.len()
        &&& self.frontier <= self.floor + self.window
        &&& self.floor as int % self.window as int == 0
        &&& (self.frontier == self.jobs@.len() || self.frontier == self.floor + self.window
            || self.frontier == self.floor)
        &&& forall|i: int|
            0 <= i < self.jobs@.len() ==> (started(#[trigger] self.jobs@[i]) <==> i
                < self.frontier)
        &&& forall|i: int| 0 <= i < self.floor ==> resolved(#[trigger] self.jobs@[i])
    }

    /// Every job of the current batch (and so every started job) is resolved.
    pub open spec fn batch_resolved_spec(self) -> bool {
        forall|i: int| 0 <= i < self.frontier ==> resolved(#[trigger] self.jobs@[i])
    }

    /// A fresh scheduler for `num_jobs` jobs: nothing started yet.
    pub fn new(num_jobs: usize, window: usize) -> (s: BatchScheduler)
        requires
            window >= 1,
        ensures
            s.inv(),
            s.jobs@.len() == num_jobs,
            s.window == window,
            s.floor == 0,
            s.frontier == 0,
            forall|i: int| 0 <= i < num_jobs ==> s.jobs@[i] == JobState::Pending,
    {
        let mut jobs: Vec<JobState> = Vec::new();
        let mut k: usize = 0;
        while k < num_jobs
            invariant
                k <= num_jobs,
                jobs@.len() == k,
                forall|i: int| 0 <= i < k ==> jobs@[i] == JobState::Pending,
            decreases num_jobs - k,
        {
            jobs.push(JobState::Pending);
            k = k + 1;
        }
        proof {
            lemma_small_mod(0, window as nat);
        }
        BatchScheduler { jobs, window, floor: 0, frontier: 0 }
    }

    /// Starts the next batch: marks the next `window` jobs (or all that
    /// remain, if fewer) as in flight and returns their index range. Requires
    /// every job started so far to be resolved: the barrier on the previous
    /// batch has been passed.
    pub fn start_batch(&mut self) -> (range: (usize, usize))
        requires
            old(self).inv(),
            old(self).batch_resolved_spec(),
            old(self).frontier < old(self).jobs@.len(),
        ensures
            final (self).inv(),
            final (self).window == old(self).window,
            final (self).jobs@.len() == old(self).jobs@.len(),
            range.0 == old(self).frontier,
            range.1 == final (self).frontier,
            range.0 < range.1,
            range.1 - range.0 <= old(self).window,
            range.1 == if old(self).jobs@.len() - range.0 >= old(self).window {
                range.0 + old(self).window
            } else {
                old(self).jobs@.len() as int
            },
            forall|i: int|
                range.0 <= i < range.1 ==> final (self).jobs@[i] == JobState::Fetching,
            forall|i: int|
                0 <= i < old(self).jobs@.len() && !(range.0 <= i < range.1) ==> final (self).jobs@[i]
                    == old(self).jobs@[i],
    {
        let lo = self.frontier;
        let n = self.jobs.len();
        let hi = if n - lo >= self.window {
            lo + self.window
        } else {
            n
        };
        let mut k = lo;
        while k < hi
            invariant
                lo <= k <= hi <= self.jobs@.len(),
                self.window == old(self).window,
                self.floor == old(self).floor,
                self.frontier == old(self).frontier,
                self.jobs@.len() == old(self).jobs@.len(),
                forall|i: int| lo <= i < k ==> self.jobs@[i] == JobState::Fetching,
                forall|i: int|
                    0 <= i < self.jobs@.len() && !(lo <= i < k) ==> self.jobs@[i] == old(
                    self,
                    ).jobs@[i],
            decreases hi - k,
    {
            self.jobs.set(k, JobState::Fetching);
            k = k + 1;
        }
        self.floor = lo;
        self.frontier = hi;
        proof {
            lemma_mod_add_multiples_vanish(old(self).floor as int, old(self).window as int);
        }
        (lo, hi)
    }

    /// Records that one in-flight job has resolved, as `Done` on success and
    /// as `Failed` otherwise. Failure is local: no other job's state changes.
    pub fn record_completion(&mut self, index: usize, success: bool)
        requires
            old(self).inv(),
            old(self).floor <= index < old(self).frontier,
            started(old(self).jobs@[index as int]),
            !resolved(old(self).jobs@[index as int]),
        ensures
            final (self).inv(),
            final (self).window == old(self).window,
            final (self).floor == old(self).floor,
            final (self).frontier == old(self).frontier,
            final (self).jobs@.len() == old(self).jobs@.len(),
            final (self).jobs@[index as int] == if success {
                JobState::Done
            } else {
                JobState::Failed
            },
            forall|i: int|
                0 <= i < old(self).jobs@.len() && i != index ==> final (self).jobs@[i]
                    == old(self).jobs@[i],
    {
        if success {
            self.jobs.set(index, JobState::Done);
        } else {
            self.jobs.set(index, JobState::Failed);
        }
    }

    /// Whether every started job has resolved: the barrier that must be
    /// passed before the next batch may start.
    pub fn batch_resolved(&self) -> (r: bool)
        requires
            self.inv(),
        ensures
            r == self.batch_resolved_spec(),
    {
        let mut k: usize = 0;
        while k < self.frontier
            invariant
                self.inv(),
                k <= self.frontier,
                forall|i: int| 0 <= i < k ==> resolved(#[trigger] self.jobs@[i]),
            decreases self.frontier - k,
        {
            let st = self.jobs[k];
            if !(st == JobState::Done || st == JobState::Failed) {
                return false;
            }
            k = k + 1;
        }
        true
    }

    /// Whether the whole run is over: every job has been started and has
    /// resolved.
    pub fn finished(&self) -> (r: bool)
        requires
            self.inv(),
        ensures
            r == (self.frontier == self.jobs@.len() && self.batch_resolved_spec()),
    {
        if self.frontier < self.jobs.len() {
            return false;
        }
        self.batch_resolved()
    }
}

/// The batch-ordering guarantee, read off the scheduler's invariant: once any
/// job of a later batch has observably started, every job of every earlier
/// batch has already resolved (`Done` or `Failed`).
pub proof fn lemma_batch_ordering(s: BatchScheduler, i: int, j: int)
    requires
        s.inv(),
        0 <= i < s.jobs@.len(),
        0 <= j < s.jobs@.len(),
        batch_of(i, s.window as int) < batch_of(j, s.window as int),
        started(s.jobs@[j]),
    ensures
        resolved(s.jobs@[i]),
{
    let w = s.window as int;
    let f = s.floor as int;
    let q = f / w;
    lemma_fundamental_div_mod(f, w);
    // f == w * q, and j < f + w == w * (q + 1), so j's batch is at most q.
    assert(j < s.frontier);
    assert(j < f + w);
    assert(f == w * q);
    assert(w * (q + 1) == w * q + w) by (nonlinear_arith);
    lemma_div_by_multiple_is_strongly_ordered(j, w * (q + 1), q + 1, w);
    lemma_div_by_multiple(q + 1, w);
    assert(batch_of(j, w) <= q);
    // i's batch is strictly below q, so i lies below the floor and is resolved.
    assert(batch_of(i, w) < q);
    if i >= f {
        lemma_div_is_ordered(f, i, w);
        lemma_div_by_multiple(q, w);
        assert(batch_of(i, w) >= q);
    }
    assert(i < f);
}

} // verus!
