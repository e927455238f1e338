//! One run of the pipeline over a fixed table of fetch outcomes: the files it
//! persists, modelled as a map from symbol to the rows of its file, and the
//! laws of fault isolation and idempotence. The runner here processes jobs
//! sequentially in input order; distinct symbols write distinct files, so
//! their outcomes are independent of scheduling.

use crate::clock::DateRange;
use crate::gains::gains_of;
use crate::gains::Gain;
use crate::gains::Quote;
use crate::job::Job;
use crate::job::LogDetail;
use crate::job::LogEntry;
use vstd::prelude::*;

verus! {

/// The view of one fetch outcome: the quotes fetched for a symbol, or the
/// error that the quote source reported.
pub open spec fn response_view(r: Result<Vec<Quote>, String>) -> Result<Seq<Quote>, Seq<char>> {
    match r {
        Ok(quotes) => Ok(quotes@),
        Err(error) => Err(error@),
    }
}

/// The views of a table of fetch outcomes, one per job in input order.
pub open spec fn response_views(rs: Seq<Result<Vec<Quote>, String>>) -> Seq<
    Result<Seq<Quote>, Seq<char>>,
> {
    rs.map_values(|r: Result<Vec<Quote>, String>| response_view(r))
}

/// The view of one persisted file: its symbol and its rows.
pub open spec fn file_view(f: (String, Vec<Gain>)) -> (Seq<char>, Seq<Gain>) {
    (f.0@, f.1@)
}

/// The views of the persisted files, in the order they were written.
pub open spec fn file_views(fs: Seq<(String, Vec<Gain>)>) -> Seq<(Seq<char>, Seq<Gain>)> {
    fs.map_values(|f: (String, Vec<Gain>)| file_view(f))
}

/// The files a run writes, in job order: one file per successful fetch,
/// holding the gains of the fetched quotes; failed jobs write nothing.
pub open spec fn successful_writes(
    symbols: Seq<Seq<char>>,
    responses: Seq<Result<Seq<Quote>, Seq<char>>>,
) -> Seq<(Seq<char>, Seq<Gain>)>
    decreases symbols.len(),
{
    if symbols.len() == 0 || responses.len() == 0 {
        Seq::empty()
    } else {
        let rest = successful_writes(symbols.drop_last(), responses.drop_last());
        if responses.last() is Ok {
            rest.push((symbols.last(), gains_of(responses.last()->Ok_0)))
        } else {
            rest
        }
    }
}

/// A directory after a sequence of writes: each write persists a file named
/// exactly by its symbol, overwriting any file of that name.
pub open spec fn apply_writes(
    store: Map<Seq<char>, Seq<Gain>>,
    writes: Seq<(Seq<char>, Seq<Gain>)>,
) -> Map<Seq<char>, Seq<Gain>>
    decreases writes.len(),
{
    if writes.len() == 0 {
        store
    } else {
        apply_writes(store, writes.drop_last()).insert(writes.last().0, writes.last().1)
    }
}

/// The directory after one whole run: each job whose fetch succeeds persists
/// the gains of its quotes under its own symbol; each job whose fetch fails
/// leaves the directory untouched.
pub open spec fn files_after_run(
    store: Map<Seq<char>, Seq<Gain>>,
    symbols: Seq<Seq<char>>,
    responses: Seq<Result<Seq<Quote>, Seq<char>>>,
) -> Map<Seq<char>, Seq<Gain>>
    decreases symbols.len(),
{
    if symbols.len() == 0 || responses.len() == 0 {
        store
    } else {
        let rest = files_after_run(store, symbols.drop_last(), responses.drop_last());
        if responses.last() is Ok {
            rest.insert(symbols.last(), gains_of(responses.last()->Ok_0))
        } else {
            rest
        }
    }
}

/// A run is exactly its successful writes, applied in job order.
pub proof fn lemma_run_is_writes(
    store: Map<Seq<char>, Seq<Gain>>,
    symbols: Seq<Seq<char>>,
    responses: Seq<Result<Seq<Quote>, Seq<char>>>,
)
    ensures
        files_after_run(store, symbols, responses) == apply_writes(
            store,
            successful_writes(symbols, responses),
        ),
    decreases symbols.len(),
{
    if symbols.len() == 0 || responses.len() == 0 {
    } else {
        lemma_run_is_writes(store, symbols.drop_last(), responses.drop_last());
        let rest = successful_writes(symbols.drop_last(), responses.drop_last());
        if responses.last() is Ok {
            let w = (symbols.last(), gains_of(responses.last()->Ok_0));
            assert(rest.push(w).drop_last() =~= rest);
            assert(rest.push(w).last() == w);
        }
    }
}

/// Some job for `sym` fetches successfully.
pub open spec fn some_fetch_succeeds(
    symbols: Seq<Seq<char>>,
    responses: Seq<Result<Seq<Quote>, Seq<char>>>,
    sym: Seq<char>,
) -> bool {
    exists|k: int|
        0 <= k < symbols.len() && k < responses.len() && symbols[k] == sym && responses[k] is Ok
}

/// The gains persisted for `sym` by the end of the run: those of the last
/// job for `sym` whose fetch succeeds (a later duplicate overwrites an
/// earlier one).
pub open spec fn final_gains_for(
    symbols: Seq<Seq<char>>,
    responses: Seq<Result<Seq<Quote>, Seq<char>>>,
    sym: Seq<char>,
) -> Seq<Gain>
    decreases symbols.len(),
{
    if symbols.len() == 0 || responses.len() == 0 {
        Seq::empty()
    } else if symbols.last() == sym && responses.last() is Ok {
        gains_of(responses.last()->Ok_0)
    } else {
        final_gains_for(symbols.drop_last(), responses.drop_last(), sym)
    }
}

/// Fault isolation, file by file: a symbol fetched successfully by some job
/// ends the run with exactly the gains of its (last) fetched quotes, however
/// many sibling jobs fail; a symbol with no successful job ends the run with
/// exactly the file the directory already held — in particular, a failed job
/// never produces a file and never disturbs another job's file.
pub proof fn lemma_fault_isolation(
    store: Map<Seq<char>, Seq<Gain>>,
    symbols: Seq<Seq<char>>,
    responses: Seq<Result<Seq<Quote>, Seq<char>>>,
    sym: Seq<char>,
)
    requires
        symbols.len() == responses.len(),
    ensures
        some_fetch_succeeds(symbols, responses, sym) ==> files_after_run(
            store,
            symbols,
            responses,
        ).contains_key(sym),
        some_fetch_succeeds(symbols, responses, sym) ==> files_after_run(
            store,
            symbols,
            responses,
        )[sym] == final_gains_for(symbols, responses, sym),
        !some_fetch_succeeds(symbols, responses, sym) ==> files_after_run(
            store,
            symbols,
            responses,
        ).contains_key(sym) == store.contains_key(sym),
        !some_fetch_succeeds(symbols, responses, sym) && store.contains_key(sym)
            ==> files_after_run(store, symbols, responses)[sym] == store[sym],
    decreases symbols.len(),
{
    if symbols.len() == 0 {
    } else {
        lemma_fault_isolation(store, symbols.drop_last(), responses.drop_last(), sym);
        let n = symbols.len() as int;
        if symbols.last() == sym && responses.last() is Ok {
            assert(some_fetch_succeeds(symbols, responses, sym)) by {
                assert(symbols[n - 1] == sym && responses[n - 1] is Ok);
            }
        } else {
            if some_fetch_succeeds(symbols, responses, sym) {
                let k = choose|k: int|
                    0 <= k < symbols.len() && k < responses.len() && symbols[k] == sym
                        && responses[k] is Ok;
                assert(k < n - 1);
                assert(symbols.drop_last()[k] == sym && responses.drop_last()[k] is Ok);
                assert(some_fetch_succeeds(symbols.drop_last(), responses.drop_last(), sym));
            }
            if some_fetch_succeeds(symbols.drop_last(), responses.drop_last(), sym) {
                let k = choose|k: int|
                    0 <= k < symbols.drop_last().len() && k < responses.drop_last().len()
                        && symbols.drop_last()[k] == sym && responses.drop_last()[k] is Ok;
                assert(symbols[k] == sym && responses[k] is Ok);
                assert(some_fetch_succeeds(symbols, responses, sym));
            }
        }
    }
}

/// Idempotence of persistence: a second run over the same symbols and the
/// same fetch outcomes leaves every file exactly as the first run wrote it.
pub proof fn lemma_run_idempotent(
    store: Map<Seq<char>, Seq<Gain>>,
    symbols: Seq<Seq<char>>,
    responses: Seq<Result<Seq<Quote>, Seq<char>>>,
)
    requires
        symbols.len() == responses.len(),
    ensures
        files_after_run(files_after_run(store, symbols, responses), symbols, responses)
            == files_after_run(store, symbols, responses),
{
    let once = files_after_run(store, symbols, responses);
    let twice = files_after_run(once, symbols, responses);
    assert forall|sym: Seq<char>| #[trigger]
        twice.dom().contains(sym) implies once.dom().contains(sym) && twice[sym]
        == once[sym] by {
        lemma_fault_isolation(store, symbols, responses, sym);
        lemma_fault_isolation(once, symbols, responses, sym);
    }
    assert forall|sym: Seq<char>| #[trigger]
        once.dom().contains(sym) implies twice.dom().contains(sym) by {
        lemma_fault_isolation(store, symbols, responses, sym);
        lemma_fault_isolation(once, symbols, responses, sym);
    }
    assert(twice =~= once);
}

/// Processes every symbol in input order against a fixed table of fetch
/// outcomes, one outcome per job. Each job follows its lifecycle: a failed
/// fetch terminates it locally with an error entry; a successful fetch is
/// transformed into gains and persisted under the job's own symbol, with a
/// success marker logged. The reference sink here always accepts the write.
/// Returns the files written, in job order, and one log entry per job.
pub fn run_jobs(
    symbols: &Vec<String>,
    responses: Vec<Result<Vec<Quote>, String>>,
    range: DateRange,
) -> (out: (Vec<(String, Vec<Gain>)>, Vec<LogEntry>))
    requires
        symbols@.len() == responses@.len(),
    ensures
        file_views(out.0@) == successful_writes(
            symbols.deep_view(),
            response_views(responses@),
        ),
        out.1@.len() == symbols@.len(),
        forall|k: int|
            0 <= k < symbols@.len() ==> (#[trigger] out.1@[k]).symbol@ == symbols.deep_view()[k],
        forall|k: int|
            0 <= k < symbols@.len() && responses@[k] is Ok ==> ((#[trigger] out.1@[k]).detail
                matches LogDetail::Persisted(r) && r == range),
        forall|k: int|
            0 <= k < symbols@.len() && responses@[k] is Err ==> ((#[trigger] out.1@[k]).detail
                matches LogDetail::FetchFailed(m) && m@ == responses@[k]->Err_0@),
{
    let n = symbols.len();
    let mut files: Vec<(String, Vec<Gain>)> = Vec::new();
    let mut log: Vec<LogEntry> = Vec::new();
    proof {
        assert(file_views(files@) =~= Seq::<(Seq<char>, Seq<Gain>)>::empty());
        assert(symbols.deep_view().subrange(0, 0) =~= Seq::<Seq<char>>::empty());
        assert(response_views(responses@).subrange(0, 0) =~= Seq::<
            Result<Seq<Quote>, Seq<char>>,
        >::empty());
    }
    let mut i: usize = 0;
    while i < n
        invariant
            n == symbols@.len(),
            responses@.len() == n,
            i <= n,
            file_views(files@) == successful_writes(
                symbols.deep_view().subrange(0, i as int),
                response_views(responses@).subrange(0, i as int),
            ),
            log@.len() == i,
            forall|k: int|
                0 <= k < i ==> (#[trigger] log@[k]).symbol@ == symbols.deep_view()[k],
            forall|k: int|
                0 <= k < i && responses@[k] is Ok ==> ((#[trigger] log@[k]).detail
                    matches LogDetail::Persisted(r) && r == range),
            forall|k: int|
                0 <= k < i && responses@[k] is Err ==> ((#[trigger] log@[k]).detail
                    matches LogDetail::FetchFailed(m) && m@ == responses@[k]->Err_0@),
        decreases n - i,
    {
        let ghost old_files = file_views(files@);
        let mut job = Job::new(symbols[i].clone(), range);
        job.begin_fetch();
        match &responses[i] {
            Ok(quotes) => {
                job.fetch_succeeded();
                let gains = job.transform(quotes);
                files.push((symbols[i].clone(), gains));
                let entry = job.persist_succeeded();
                log.push(entry);
                proof {
                    assert(file_views(files@) =~= old_files.push(
                        (symbols.deep_view()[i as int], gains_of(quotes@)),
                    ));
                }
            },
            Err(error) => {
                let entry = job.fetch_failed(error.clone());
                log.push(entry);
            },
        }
        i = i + 1;
        proof {
            let sy = symbols.deep_view().subrange(0, i as int);
            let rv = response_views(responses@).subrange(0, i as int);
            assert(sy.drop_last() =~= symbols.deep_view().subrange(0, i as int - 1));
            assert(rv.drop_last() =~= response_views(responses@).subrange(0, i as int - 1));
            assert(sy.last() == symbols.deep_view()[i as int - 1]);
            assert(rv.last() == response_views(responses@)[i as int - 1]);
            assert(file_views(files@) =~= successful_writes(sy, rv));
        }
    }
    proof {
        assert(symbols.deep_view().subrange(0, n as int) =~= symbols.deep_view());
        assert(response_views(responses@).subrange(0, n as int) =~= response_views(responses@));
    }
    (files, log)
}

} // verus!
