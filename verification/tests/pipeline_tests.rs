//! Batching, scheduling, job lifecycle and whole-run scenarios.

use ticker::clock::current_trailing_month_range;
use ticker::clock::trailing_month_range;
use ticker::clock::DateRange;
use ticker::clock::DAY_SECONDS;
use ticker::clock::MONTH_SECONDS;
use ticker::gains::Gain;
use ticker::gains::Quote;
use ticker::job::Job;
use ticker::job::JobState;
use ticker::job::LogDetail;
use ticker::run::run_jobs;
use ticker::schedule::partition_into_batches;
use ticker::schedule::plan_batches;
use ticker::schedule::BatchScheduler;
use ticker::schedule::ConfigError;

fn syms(names: &[&str]) -> Vec<String> {
    names.iter().map(|n| String::from(*n)).collect()
}

fn test_range() -> DateRange {
    trailing_month_range(20_000_000_000)
}

// The scheduler makes exactly the ceiling of L / W batches, each of size W
// except possibly the last.
#[test]
fn partition_count_and_sizes() {
    let symbols = syms(&["A", "B", "C", "D", "E", "F", "G"]);
    let batches = partition_into_batches(&symbols, 3);
    assert_eq!(batches.len(), 3);
    assert_eq!(batches[0], syms(&["A", "B", "C"]));
    assert_eq!(batches[1], syms(&["D", "E", "F"]));
    assert_eq!(batches[2], syms(&["G"]));
}

#[test]
fn partition_exact_multiple() {
    let symbols = syms(&["A", "B", "C", "D"]);
    let batches = partition_into_batches(&symbols, 2);
    assert_eq!(batches.len(), 2);
    assert_eq!(batches[0].len(), 2);
    assert_eq!(batches[1].len(), 2);
}

#[test]
fn partition_window_larger_than_list() {
    let symbols = syms(&["A", "B", "C"]);
    let batches = partition_into_batches(&symbols, 10);
    assert_eq!(batches.len(), 1);
    assert_eq!(batches[0], syms(&["A", "B", "C"]));
}

#[test]
fn partition_empty_list() {
    let empty: Vec<String> = Vec::new();
    let batches = partition_into_batches(&empty, 4);
    assert_eq!(batches.len(), 0);
}

#[test]
fn partition_window_one() {
    let symbols = syms(&["A", "B", "C"]);
    let batches = partition_into_batches(&symbols, 1);
    assert_eq!(batches.len(), 3);
    assert_eq!(batches[0], syms(&["A"]));
    assert_eq!(batches[1], syms(&["B"]));
    assert_eq!(batches[2], syms(&["C"]));
}

#[test]
fn plan_batches_rejects_zero_window() {
    let symbols = syms(&["A"]);
    assert_eq!(plan_batches(&symbols, 0), Err(ConfigError::ZeroWindow));
    assert!(plan_batches(&symbols, 1).is_ok());
}

// Batch ordering: the next batch cannot start until every job of the current
// one has resolved, whatever order the completions arrive in.
#[test]
fn scheduler_gates_batches() {
    let mut s = BatchScheduler::new(5, 2);
    assert!(!s.finished());

    let (lo, hi) = s.start_batch();
    assert_eq!((lo, hi), (0, 2));
    assert!(!s.batch_resolved());
    s.record_completion(1, false);
    assert!(!s.batch_resolved());
    s.record_completion(0, true);
    assert!(s.batch_resolved());
    assert!(!s.finished());

    let (lo, hi) = s.start_batch();
    assert_eq!((lo, hi), (2, 4));
    s.record_completion(2, true);
    s.record_completion(3, true);
    assert!(s.batch_resolved());

    let (lo, hi) = s.start_batch();
    assert_eq!((lo, hi), (4, 5));
    assert!(!s.finished());
    s.record_completion(4, true);
    assert!(s.finished());
}

#[test]
fn scheduler_failed_job_is_local() {
    let mut s = BatchScheduler::new(2, 2);
    let (lo, hi) = s.start_batch();
    assert_eq!((lo, hi), (0, 2));
    s.record_completion(0, false);
    // The sibling is still in flight and untouched by the failure.
    assert_eq!(s.jobs[0], JobState::Failed);
    assert_eq!(s.jobs[1], JobState::Fetching);
    s.record_completion(1, true);
    assert_eq!(s.jobs[1], JobState::Done);
    assert!(s.finished());
}

#[test]
fn job_lifecycle_success() {
    let range = test_range();
    let mut job = Job::new(String::from("AAPL"), range);
    assert_eq!(job.state, JobState::Pending);
    job.begin_fetch();
    assert_eq!(job.state, JobState::Fetching);
    job.fetch_succeeded();
    assert_eq!(job.state, JobState::Transforming);
    let quotes = vec![Quote {
        open_price: 4,
        close_price: 5,
    }];
    let gains = job.transform(&quotes);
    assert_eq!(job.state, JobState::Persisting);
    assert_eq!(gains, vec![Gain { num: 1, den: 4 }]);
    let entry = job.persist_succeeded();
    assert_eq!(job.state, JobState::Done);
    assert_eq!(entry.symbol, "AAPL");
    assert!(matches!(entry.detail, LogDetail::Persisted(r) if r == range));
}

#[test]
fn job_fetch_failure_is_terminal_and_logged() {
    let mut job = Job::new(String::from("AADI"), test_range());
    job.begin_fetch();
    let entry = job.fetch_failed(String::from("provider unavailable"));
    assert_eq!(job.state, JobState::Failed);
    assert_eq!(entry.symbol, "AADI");
    assert!(matches!(entry.detail, LogDetail::FetchFailed(m) if m == "provider unavailable"));
}

#[test]
fn job_persist_failure_is_terminal_and_logged() {
    let mut job = Job::new(String::from("AAON"), test_range());
    job.begin_fetch();
    job.fetch_succeeded();
    let _gains = job.transform(&Vec::new());
    let entry = job.persist_failed(String::from("directory is read only"));
    assert_eq!(job.state, JobState::Failed);
    assert_eq!(entry.symbol, "AAON");
    assert!(matches!(entry.detail, LogDetail::PersistFailed(m) if m == "directory is read only"));
}

fn quotes_ab() -> Vec<Quote> {
    vec![
        Quote {
            open_price: 20,
            close_price: 30,
        },
        Quote {
            open_price: 30,
            close_price: 15,
        },
    ]
}

// Fault isolation: with symbols [A, B, C] and only B's fetch failing, the
// run still writes correct files for A and C, writes nothing for B, and logs
// exactly one error entry, attributable to B.
#[test]
fn three_symbols_one_failure() {
    let symbols = syms(&["A", "B", "C"]);
    let responses = vec![
        Ok(quotes_ab()),
        Err(String::from("no quotes for symbol")),
        Ok(vec![Quote {
            open_price: 8,
            close_price: 10,
        }]),
    ];
    let (files, log) = run_jobs(&symbols, responses, test_range());

    assert_eq!(files.len(), 2);
    assert_eq!(files[0].0, "A");
    assert_eq!(
        files[0].1,
        vec![Gain { num: 10, den: 20 }, Gain { num: -15, den: 30 }]
    );
    assert_eq!(files[1].0, "C");
    assert_eq!(files[1].1, vec![Gain { num: 2, den: 8 }]);
    assert!(files.iter().all(|f| f.0 != "B"));

    let errors: Vec<_> = log
        .iter()
        .filter(|e| matches!(e.detail, LogDetail::FetchFailed(_)))
        .collect();
    assert_eq!(errors.len(), 1);
    assert_eq!(errors[0].symbol, "B");
}

// Idempotence: two runs over identical responses produce identical files.
#[test]
fn run_twice_same_output() {
    let symbols = syms(&["AACG", "AADI"]);
    let range = test_range();
    let responses1 = vec![Ok(quotes_ab()), Err(String::from("timeout"))];
    let responses2 = vec![Ok(quotes_ab()), Err(String::from("timeout"))];
    let (files1, _) = run_jobs(&symbols, responses1, range);
    let (files2, _) = run_jobs(&symbols, responses2, range);
    assert_eq!(files1, files2);
}

// End-to-end: ["AAPL"] with window 10; quotes {open 100, close 105} then
// {open 105, close 100} persist the gains 0.05 and -0.047619..., in order.
#[test]
fn single_symbol_end_to_end() {
    let symbols = syms(&["AAPL"]);
    let batches = partition_into_batches(&symbols, 10);
    assert_eq!(batches.len(), 1);
    assert_eq!(batches[0], syms(&["AAPL"]));

    let responses = vec![Ok(vec![
        Quote {
            open_price: 100,
            close_price: 105,
        },
        Quote {
            open_price: 105,
            close_price: 100,
        },
    ])];
    let (files, log) = run_jobs(&batches[0], responses, test_range());
    assert_eq!(files.len(), 1);
    assert_eq!(files[0].0, "AAPL");
    let rows = &files[0].1;
    assert_eq!(rows.len(), 2);
    assert_eq!(rows[0], Gain { num: 5, den: 100 });
    assert_eq!(rows[1], Gain { num: -5, den: 105 });
    assert_eq!(rows[0].num as f64 / rows[0].den as f64, 0.05);
    let second = rows[1].num as f64 / rows[1].den as f64;
    assert!((second - (-0.047619047619047616)).abs() < 1e-12);
    assert_eq!(log.len(), 1);
    assert!(matches!(log[0].detail, LogDetail::Persisted(_)));
}

#[test]
fn trailing_month_range_is_exact() {
    let today: i64 = 10_000_000;
    let range = trailing_month_range(today);
    assert_eq!(range.end_unix, today - DAY_SECONDS);
    assert_eq!(range.start_unix, range.end_unix - MONTH_SECONDS);
    assert!(range.start_unix < range.end_unix);
}

#[test]
fn current_range_comes_from_the_clock() {
    // On any machine with a sane clock the window exists and spans exactly
    // thirty days; a frozen or default value would not end after it starts.
    let range = current_trailing_month_range().unwrap();
    assert_eq!(range.end_unix - range.start_unix, MONTH_SECONDS);
    // The clock reads a moment after 2020-01-01 and keeps moving.
    assert!(range.end_unix > 1_577_836_800 - DAY_SECONDS);
}
